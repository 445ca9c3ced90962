use orbweaver_giop::naming::{
    read_name, stringify_name, write_name, NameComponent, ObjectUrl, NAMING_CONTEXT_EXT_ID,
};
use orbweaver_giop::naming_server::{
    DispatchBody, NamingServer, SystemExc, ALREADY_BOUND_ID, INVALID_ADDRESS_ID, INVALID_NAME_ID,
    NAMING_CONTEXT_ID, NOT_EMPTY_ID, NOT_FOUND_ID, WHY_MISSING_NODE, WHY_NOT_CONTEXT,
    WHY_NOT_OBJECT,
};
use orbweaver_giop::{Decoder, Encoder, Endian, IiopProfile, Ior, Version};

fn nc(id: &str) -> NameComponent {
    NameComponent::new(id)
}

fn dummy(key: &[u8]) -> Ior {
    Ior {
        type_id: "IDL:spike/Echo:1.0".into(),
        profiles: vec![IiopProfile {
            version: Version::v1_2(),
            host: "192.0.2.1".into(),
            port: 4000,
            object_key: key.to_vec(),
            components: Vec::new(),
        }],
    }
}

fn server() -> NamingServer {
    NamingServer::new("127.0.0.1", 2809, b"NameService".to_vec())
}

/// Dispatches one operation and answers the outcome and the reply body.
fn call(
    ns: &mut NamingServer,
    key: &[u8],
    op: &str,
    args: impl Fn(&mut Encoder),
) -> (Result<DispatchBody, SystemExc>, Vec<u8>) {
    let mut a = Encoder::new(Endian::Big);
    args(&mut a);
    let bytes = a.finish().unwrap();
    let d = Decoder::new(&bytes, Endian::Big);
    let mut out = Encoder::new(Endian::Big);
    let r = ns.dispatch_body(op, key, d, &mut out);
    (r, out.finish().unwrap())
}

fn name_arg(name: &[NameComponent]) -> impl Fn(&mut Encoder) + '_ {
    move |e| write_name(e, name)
}

fn bind(ns: &mut NamingServer, name: &[NameComponent], obj: &Ior) -> Result<DispatchBody, SystemExc> {
    call(ns, b"NameService", "bind", |e| {
        write_name(e, name);
        obj.write_to(e).unwrap();
    })
    .0
}

fn resolve(ns: &mut NamingServer, name: &[NameComponent]) -> (Result<DispatchBody, SystemExc>, Vec<u8>) {
    call(ns, b"NameService", "resolve", name_arg(name))
}

fn resolved_ior(body: &[u8]) -> Ior {
    let mut d = Decoder::new(body, Endian::Big);
    Ior::read_from(&mut d).unwrap()
}

fn expect_not_found(out: (Result<DispatchBody, SystemExc>, Vec<u8>), why: u32, rest: &[NameComponent]) {
    assert_eq!(out.0, Ok(DispatchBody::UserException));
    let mut d = Decoder::new(&out.1, Endian::Big);
    assert_eq!(d.get_string().unwrap(), NOT_FOUND_ID);
    assert_eq!(d.get_u32().unwrap(), why);
    assert_eq!(read_name(&mut d).unwrap(), rest);
}

fn user_exception_id(out: &(Result<DispatchBody, SystemExc>, Vec<u8>)) -> String {
    assert_eq!(out.0, Ok(DispatchBody::UserException));
    Decoder::new(&out.1, Endian::Big).get_string().unwrap()
}

#[test]
fn a_bound_name_resolves_and_a_taken_one_is_refused() {
    let mut ns = server();
    assert_eq!(bind(&mut ns, &[nc("x")], &dummy(b"one")), Ok(DispatchBody::Return));
    let (r, body) = resolve(&mut ns, &[nc("x")]);
    assert_eq!(r, Ok(DispatchBody::Return));
    assert_eq!(resolved_ior(&body), dummy(b"one"));

    let out = call(&mut ns, b"NameService", "bind", |e| {
        write_name(e, &[nc("x")]);
        dummy(b"two").write_to(e).unwrap();
    });
    assert_eq!(user_exception_id(&out), ALREADY_BOUND_ID);

    let out = call(&mut ns, b"NameService", "rebind", |e| {
        write_name(e, &[nc("x")]);
        dummy(b"two").write_to(e).unwrap();
    });
    assert_eq!(out.0, Ok(DispatchBody::Return));
    assert_eq!(resolved_ior(&resolve(&mut ns, &[nc("x")]).1), dummy(b"two"));
}

#[test]
fn nested_contexts_resolve_by_path_and_report_failures_with_the_rest() {
    let mut ns = server();
    let (r, body) = call(&mut ns, b"NameService", "bind_new_context", name_arg(&[nc("a")]));
    assert_eq!(r, Ok(DispatchBody::Return));
    let child = resolved_ior(&body);
    assert_eq!(child.type_id, NAMING_CONTEXT_EXT_ID);
    assert_eq!(child.profiles[0].object_key, b"NameService/_ctx1");
    assert_eq!(ns.minted(), 1);
    assert!(ns.knows(b"NameService/_ctx1"));

    assert_eq!(bind(&mut ns, &[nc("a"), nc("o")], &dummy(b"Leaf")), Ok(DispatchBody::Return));
    assert_eq!(resolved_ior(&resolve(&mut ns, &[nc("a"), nc("o")]).1), dummy(b"Leaf"));
    // Through the child's own key, by the tail.
    let (_, body) = call(&mut ns, b"NameService/_ctx1", "resolve", name_arg(&[nc("o")]));
    assert_eq!(resolved_ior(&body), dummy(b"Leaf"));

    expect_not_found(resolve(&mut ns, &[nc("a"), nc("x"), nc("y")]), WHY_MISSING_NODE, &[nc("x"), nc("y")]);
    bind(&mut ns, &[nc("leafy")], &dummy(b"l"));
    expect_not_found(
        resolve(&mut ns, &[nc("leafy"), nc("below")]),
        WHY_NOT_CONTEXT,
        &[nc("leafy"), nc("below")],
    );
}

#[test]
fn rebind_over_a_context_is_not_object_and_unbind_twice_is_missing_node() {
    let mut ns = server();
    call(&mut ns, b"NameService", "bind_new_context", name_arg(&[nc("c")]));
    let out = call(&mut ns, b"NameService", "rebind", |e| {
        write_name(e, &[nc("c")]);
        dummy(b"o").write_to(e).unwrap();
    });
    expect_not_found(out, WHY_NOT_OBJECT, &[nc("c")]);

    bind(&mut ns, &[nc("gone")], &dummy(b"g"));
    assert_eq!(call(&mut ns, b"NameService", "unbind", name_arg(&[nc("gone")])).0, Ok(DispatchBody::Return));
    expect_not_found(resolve(&mut ns, &[nc("gone")]), WHY_MISSING_NODE, &[nc("gone")]);
    expect_not_found(
        call(&mut ns, b"NameService", "unbind", name_arg(&[nc("gone")])),
        WHY_MISSING_NODE,
        &[nc("gone")],
    );
}

#[test]
fn list_is_in_name_order_truncated_and_ends_with_a_nil_iterator() {
    let mut ns = server();
    bind(&mut ns, &[nc("obj")], &dummy(b"o"));
    call(&mut ns, b"NameService", "bind_new_context", name_arg(&[nc("sub")]));
    bind(&mut ns, &[NameComponent { id: "kinded".into(), kind: "dev".into() }], &dummy(b"k"));

    let (r, body) = call(&mut ns, b"NameService", "list", |e| e.put_u32(100));
    assert_eq!(r, Ok(DispatchBody::Return));
    let mut d = Decoder::new(&body, Endian::Big);
    let n = d.get_u32().unwrap();
    assert_eq!(n, 3);
    let mut seen = Vec::new();
    for _ in 0..n {
        let name = read_name(&mut d).unwrap();
        let kind = d.get_u32().unwrap();
        seen.push((name[0].id.clone(), name[0].kind.clone(), kind));
    }
    assert_eq!(
        seen,
        vec![
            ("kinded".to_string(), "dev".to_string(), 0),
            ("obj".to_string(), String::new(), 0),
            ("sub".to_string(), String::new(), 1),
        ]
    );
    assert!(Ior::read_from(&mut d).unwrap().is_nil());

    let (_, body) = call(&mut ns, b"NameService", "list", |e| e.put_u32(2));
    let mut d = Decoder::new(&body, Endian::Big);
    assert_eq!(d.get_u32().unwrap(), 2, "truncated to how_many");
}

#[test]
fn destroy_refuses_a_full_context_and_retires_an_empty_one() {
    let mut ns = server();
    call(&mut ns, b"NameService", "bind_new_context", name_arg(&[nc("c")]));
    bind(&mut ns, &[nc("c"), nc("inner")], &dummy(b"i"));
    let out = call(&mut ns, b"NameService/_ctx1", "destroy", |_| {});
    assert_eq!(user_exception_id(&out), NOT_EMPTY_ID);

    call(&mut ns, b"NameService/_ctx1", "unbind", name_arg(&[nc("inner")]));
    assert_eq!(call(&mut ns, b"NameService/_ctx1", "destroy", |_| {}).0, Ok(DispatchBody::Return));
    assert!(!ns.knows(b"NameService/_ctx1"));
    assert_eq!(
        call(&mut ns, b"NameService/_ctx1", "destroy", |_| {}).0,
        Err(SystemExc::ObjectNotExist)
    );
    // The binding that named it survives.
    assert_eq!(resolve(&mut ns, &[nc("c")]).0, Ok(DispatchBody::Return));
}

#[test]
fn bind_context_takes_only_a_context_this_server_serves() {
    let mut ns = server();
    let (_, body) = call(&mut ns, b"NameService", "new_context", |_| {});
    let fresh = resolved_ior(&body);
    let out = call(&mut ns, b"NameService", "bind_context", |e| {
        write_name(e, &[nc("made")]);
        fresh.write_to(e).unwrap();
    });
    assert_eq!(out.0, Ok(DispatchBody::Return));
    let (_, body) = resolve(&mut ns, &[nc("made")]);
    assert_eq!(resolved_ior(&body), fresh);

    let out = call(&mut ns, b"NameService", "bind_context", |e| {
        write_name(e, &[nc("foreign")]);
        dummy(b"NameService").write_to(e).unwrap();
    });
    assert_eq!(out.0, Err(SystemExc::NoImplement));
}

#[test]
fn the_string_surface_and_its_refusals() {
    let mut ns = server();
    let (r, body) = call(&mut ns, b"NameService", "to_string", name_arg(&[nc("a.b"), nc("c")]));
    assert_eq!(r, Ok(DispatchBody::Return));
    assert_eq!(Decoder::new(&body, Endian::Big).get_string().unwrap(), "a\\.b/c");

    let (r, body) = call(&mut ns, b"NameService", "to_name", |e| e.put_str("x/y.k"));
    assert_eq!(r, Ok(DispatchBody::Return));
    let mut d = Decoder::new(&body, Endian::Big);
    assert_eq!(
        read_name(&mut d).unwrap(),
        vec![nc("x"), NameComponent { id: "y".into(), kind: "k".into() }]
    );

    let out = call(&mut ns, b"NameService", "to_name", |e| e.put_str(""));
    assert_eq!(user_exception_id(&out), INVALID_NAME_ID);

    let (r, body) = call(&mut ns, b"NameService", "to_url", |e| {
        e.put_str(":h");
        e.put_str("a b");
    });
    assert_eq!(r, Ok(DispatchBody::Return));
    assert_eq!(Decoder::new(&body, Endian::Big).get_string().unwrap(), "corbaname::h#a%20b");

    let out = call(&mut ns, b"NameService", "to_url", |e| {
        e.put_str("");
        e.put_str("a");
    });
    assert_eq!(user_exception_id(&out), INVALID_ADDRESS_ID);

    bind(&mut ns, &[nc("s")], &dummy(b"s"));
    let (r, body) = call(&mut ns, b"NameService", "resolve_str", |e| e.put_str("s"));
    assert_eq!(r, Ok(DispatchBody::Return));
    assert_eq!(resolved_ior(&body), dummy(b"s"));
}

#[test]
fn probes_unknown_operations_and_bad_arguments() {
    let mut ns = server();
    let (r, body) = call(&mut ns, b"NameService", "_is_a", |e| e.put_str(NAMING_CONTEXT_EXT_ID));
    assert_eq!(r, Ok(DispatchBody::Return));
    assert_eq!(body, vec![1]);
    let (_, body) = call(&mut ns, b"NameService", "_is_a", |e| e.put_str("IDL:other:1.0"));
    assert_eq!(body, vec![0]);
    let (_, body) = call(&mut ns, b"NameService", "_non_existent", |_| {});
    assert_eq!(body, vec![0]);
    assert_eq!(call(&mut ns, b"NameService", "frobnicate", |_| {}).0, Err(SystemExc::BadOperation));
    assert_eq!(call(&mut ns, b"NameService", "resolve", |_| {}).0, Err(SystemExc::Marshal));
    assert_eq!(call(&mut ns, b"Nowhere", "resolve", name_arg(&[nc("x")])).0, Err(SystemExc::ObjectNotExist));
    let root = ns.root_ior();
    assert_eq!(root.profiles[0].object_key, ns.root_key());
    assert_eq!(root.profiles[0].port, 2809);
}

// ── The served surface, operation by operation ─────────────────────────────

type Out = (Result<DispatchBody, SystemExc>, Vec<u8>);

fn call_in(ns: &mut NamingServer, key: &[u8], op: &str, endian: Endian, args: impl Fn(&mut Encoder)) -> Out {
    let mut a = Encoder::new(endian);
    args(&mut a);
    let bytes = a.finish().unwrap();
    let d = Decoder::new(&bytes, endian);
    let mut out = Encoder::new(endian);
    let r = ns.dispatch_body(op, key, d, &mut out);
    (r, out.finish().unwrap())
}

fn rebind(ns: &mut NamingServer, name: &[NameComponent], obj: &Ior) -> Out {
    call(ns, b"NameService", "rebind", |e| {
        write_name(e, name);
        obj.write_to(e).unwrap();
    })
}

fn bind_new_context(ns: &mut NamingServer, key: &[u8], name: &[NameComponent]) -> Ior {
    let (r, body) = call(ns, key, "bind_new_context", name_arg(name));
    assert_eq!(r, Ok(DispatchBody::Return), "bind_new_context");
    resolved_ior(&body)
}

fn new_context(ns: &mut NamingServer) -> Ior {
    let (r, body) = call(ns, b"NameService", "new_context", |_| {});
    assert_eq!(r, Ok(DispatchBody::Return), "new_context");
    resolved_ior(&body)
}

fn bind_ctx(ns: &mut NamingServer, op: &str, name: &[NameComponent], target: &Ior) -> Out {
    call(ns, b"NameService", op, |e| {
        write_name(e, name);
        target.write_to(e).unwrap();
    })
}

fn destroy(ns: &mut NamingServer, key: &[u8]) -> Out {
    call(ns, key, "destroy", |_| {})
}

fn key_of(ior: &Ior) -> Vec<u8> {
    ior.primary().unwrap().object_key.clone()
}

/// `(id, kind, is_context)` per binding, and whether the iterator was nil.
fn list(ns: &mut NamingServer, how_many: u32) -> (Vec<(String, String, bool)>, bool) {
    let (r, body) = call(ns, b"NameService", "list", |e| e.put_u32(how_many));
    assert_eq!(r, Ok(DispatchBody::Return));
    let mut d = Decoder::new(&body, Endian::Big);
    let n = d.get_u32().unwrap();
    let mut all = Vec::new();
    for _ in 0..n {
        let name = read_name(&mut d).unwrap();
        let kind = d.get_u32().unwrap();
        all.push((name[0].id.clone(), name[0].kind.clone(), kind == 1));
    }
    (all, Ior::read_from(&mut d).unwrap().is_nil())
}

fn string_body(out: &Out) -> String {
    assert_eq!(out.0, Ok(DispatchBody::Return));
    Decoder::new(&out.1, Endian::Big).get_string().unwrap()
}

fn kinded(id: &str, kind: &str) -> NameComponent {
    NameComponent { id: id.into(), kind: kind.into() }
}

#[test]
fn not_found_carries_why_and_rest_as_the_client_decodes_them() {
    let mut ns = server();
    bind_new_context(&mut ns, b"NameService", &[nc("a")]);
    for endian in [Endian::Big, Endian::Little] {
        let (r, body) = call_in(&mut ns, b"NameService", "resolve", endian, name_arg(&[nc("a"), nc("x"), nc("y")]));
        assert_eq!(r, Ok(DispatchBody::UserException), "{endian:?}");
        let mut b = Decoder::new(&body, endian);
        assert_eq!(b.get_string().unwrap(), NOT_FOUND_ID, "{endian:?}");
        assert_eq!(b.get_u32().unwrap(), WHY_MISSING_NODE, "{endian:?}: wrong why");
        assert_eq!(read_name(&mut b).unwrap(), vec![nc("x"), nc("y")], "{endian:?}: wrong rest_of_name");
    }
}

#[test]
fn bind_refuses_a_taken_name_and_rebind_replaces_it() {
    let mut ns = server();
    assert_eq!(bind(&mut ns, &[nc("x")], &dummy(b"one")), Ok(DispatchBody::Return));
    let out = call(&mut ns, b"NameService", "bind", |e| {
        write_name(e, &[nc("x")]);
        dummy(b"two").write_to(e).unwrap();
    });
    assert_eq!(user_exception_id(&out), ALREADY_BOUND_ID);
    assert_eq!(key_of(&resolved_ior(&resolve(&mut ns, &[nc("x")]).1)), b"one");

    assert_eq!(rebind(&mut ns, &[nc("x")], &dummy(b"two")).0, Ok(DispatchBody::Return));
    assert_eq!(key_of(&resolved_ior(&resolve(&mut ns, &[nc("x")]).1)), b"two");
}

#[test]
fn rebind_over_a_context_is_not_object() {
    let mut ns = server();
    bind_new_context(&mut ns, b"NameService", &[nc("c")]);
    expect_not_found(rebind(&mut ns, &[nc("c")], &dummy(b"o")), WHY_NOT_OBJECT, &[nc("c")]);
}

#[test]
fn unbind_removes_the_binding_and_a_second_unbind_is_missing_node() {
    let mut ns = server();
    bind(&mut ns, &[nc("gone")], &dummy(b"g"));
    assert_eq!(call(&mut ns, b"NameService", "unbind", name_arg(&[nc("gone")])).0, Ok(DispatchBody::Return));
    expect_not_found(resolve(&mut ns, &[nc("gone")]), WHY_MISSING_NODE, &[nc("gone")]);
    expect_not_found(
        call(&mut ns, b"NameService", "unbind", name_arg(&[nc("gone")])),
        WHY_MISSING_NODE,
        &[nc("gone")],
    );
}

#[test]
fn resolving_through_an_object_is_not_context() {
    let mut ns = server();
    bind(&mut ns, &[nc("leafy")], &dummy(b"l"));
    expect_not_found(
        resolve(&mut ns, &[nc("leafy"), nc("below")]),
        WHY_NOT_CONTEXT,
        &[nc("leafy"), nc("below")],
    );
}

#[test]
fn nested_contexts_resolve_by_path_and_by_their_own_key() {
    let mut ns = server();
    bind_new_context(&mut ns, b"NameService", &[nc("a")]);
    bind_new_context(&mut ns, b"NameService", &[nc("a"), nc("b")]);
    bind(&mut ns, &[nc("a"), nc("b"), nc("o")], &dummy(b"Leaf"));

    let full = resolved_ior(&resolve(&mut ns, &[nc("a"), nc("b"), nc("o")]).1);
    assert_eq!(key_of(&full), b"Leaf");

    let child = resolved_ior(&resolve(&mut ns, &[nc("a")]).1);
    assert_eq!(child.type_id, NAMING_CONTEXT_EXT_ID);
    assert_ne!(key_of(&child), b"NameService", "a nested context must be a distinct object");

    let (_, body) = call(&mut ns, &key_of(&child), "resolve", name_arg(&[nc("b"), nc("o")]));
    assert_eq!(key_of(&resolved_ior(&body)), b"Leaf");
}

#[test]
fn list_truncates_to_how_many_and_returns_a_nil_iterator() {
    let mut ns = server();
    bind(&mut ns, &[nc("obj")], &dummy(b"o"));
    bind_new_context(&mut ns, b"NameService", &[nc("sub")]);
    bind(&mut ns, &[kinded("kinded", "dev")], &dummy(b"k"));

    let (page, nil) = list(&mut ns, 2);
    assert_eq!(page.len(), 2, "truncated to how_many");
    assert!(nil, "the stub returns a nil iterator even when it truncates");

    let (all, nil) = list(&mut ns, 100);
    assert!(nil);
    assert_eq!(
        all,
        vec![
            ("kinded".into(), "dev".into(), false),
            ("obj".into(), String::new(), false),
            ("sub".into(), String::new(), true),
        ],
        "name order, kinds preserved, ncontext flagged"
    );

    let (none, nil) = list(&mut ns, 0);
    assert!(none.is_empty() && nil);
}

#[test]
fn the_ext_string_surface_matches_the_shared_grammar() {
    let mut ns = server();
    bind_new_context(&mut ns, b"NameService", &[nc("ctx")]);
    bind(&mut ns, &[nc("ctx"), kinded("obj", "dev")], &dummy(b"K"));

    let (r, body) = call(&mut ns, b"NameService", "resolve_str", |e| e.put_str("ctx/obj.dev"));
    assert_eq!(r, Ok(DispatchBody::Return));
    assert_eq!(key_of(&resolved_ior(&body)), b"K");

    let (_, body) = call(&mut ns, b"NameService", "to_name", |e| e.put_str("ctx/obj.dev"));
    let mut b = Decoder::new(&body, Endian::Big);
    assert_eq!(read_name(&mut b).unwrap(), vec![nc("ctx"), kinded("obj", "dev")]);

    let name = vec![nc("ctx"), kinded("obj", "dev")];
    let out = call(&mut ns, b"NameService", "to_string", name_arg(&name));
    assert_eq!(string_body(&out), "ctx/obj.dev");
}

#[test]
fn to_url_over_the_wire_round_trips_through_the_client_parser() {
    let mut ns = server();
    let cases = [
        vec![nc("spike"), nc("Echo")],
        vec![kinded("a/b", "c.d")],
        vec![kinded("with space", "함정")],
        vec![kinded("100%", "#frag")],
    ];
    for name in &cases {
        let sn = stringify_name(name);
        let out = call(&mut ns, b"NameService", "to_url", |e| {
            e.put_str("iiop:1.2@127.0.0.1:4001");
            e.put_str(&sn);
        });
        let url = string_body(&out);
        assert!(url.starts_with("corbaname:iiop:1.2@127.0.0.1:4001#"), "{url}");
        match ObjectUrl::parse(&url) {
            Ok(ObjectUrl::Corbaname { name: back, addresses, object_key }) => {
                assert_eq!(&back, name, "{url}");
                assert_eq!(addresses[0].port, 4001);
                assert_eq!(object_key, b"NameService", "no key means NameService");
            }
            other => panic!("{url} parsed as {other:?}"),
        }
    }
}

#[test]
fn to_url_raises_invalid_address_and_invalid_name_separately() {
    let mut ns = server();
    for (address, name, want) in [
        ("no-protocol-token", "a", INVALID_ADDRESS_ID),
        ("", "a", INVALID_ADDRESS_ID),
        ("rir:", "a", INVALID_ADDRESS_ID),
        (":h", "trailing\\", INVALID_NAME_ID),
    ] {
        let out = call(&mut ns, b"NameService", "to_url", |e| {
            e.put_str(address);
            e.put_str(name);
        });
        assert_eq!(user_exception_id(&out), want, "to_url({address:?}, {name:?})");
    }
}

#[test]
fn a_url_from_to_url_resolves_against_the_server_that_made_it() {
    let mut ns = server();
    bind_new_context(&mut ns, b"NameService", &[nc("spike")]);
    bind(&mut ns, &[nc("spike"), nc("Echo.1")], &dummy(b"Echo"));

    let root = ns.root_ior();
    let addr = root.primary().unwrap();
    let sn = stringify_name(&[nc("spike"), nc("Echo.1")]);
    let address = format!("iiop:1.2@{}:{}", addr.host, addr.port);
    let out = call(&mut ns, b"NameService", "to_url", |e| {
        e.put_str(&address);
        e.put_str(&sn);
    });
    let url = string_body(&out);

    let parsed = ObjectUrl::parse(&url).unwrap();
    let ObjectUrl::Corbaname { name, addresses, object_key } = &parsed else {
        panic!("{url} is not a corbaname URL")
    };
    assert_eq!(addresses[0].host, addr.host);
    assert_eq!(addresses[0].port, addr.port);
    assert!(ns.knows(object_key));
    let (_, body) = call(&mut ns, object_key, "resolve", name_arg(name));
    assert_eq!(key_of(&resolved_ior(&body)), b"Echo");
}

#[test]
fn empty_names_are_invalid_name() {
    let mut ns = server();
    let out = resolve(&mut ns, &[]);
    assert_eq!(user_exception_id(&out), INVALID_NAME_ID);
    let out = call(&mut ns, b"NameService", "resolve_str", |e| e.put_str(""));
    assert_eq!(user_exception_id(&out), INVALID_NAME_ID);
}

#[test]
fn is_a_answers_for_both_interfaces_and_an_undeclared_op_says_so() {
    let mut ns = server();
    for (id, expected) in [
        (NAMING_CONTEXT_EXT_ID, 1u8),
        (NAMING_CONTEXT_ID, 1u8),
        ("IDL:spike/Echo:1.0", 0u8),
    ] {
        let (r, body) = call(&mut ns, b"NameService", "_is_a", |e| e.put_str(id));
        assert_eq!(r, Ok(DispatchBody::Return));
        assert_eq!(body, vec![expected], "{id}");
    }
    let foreign = dummy(b"somebody-elses-context");
    assert_eq!(
        bind_ctx(&mut ns, "bind_context", &[nc("elsewhere")], &foreign).0,
        Err(SystemExc::NoImplement),
        "a foreign context"
    );
    assert_eq!(
        call(&mut ns, b"NameService", "no_such_operation", |_| {}).0,
        Err(SystemExc::BadOperation),
        "an undeclared name"
    );
}

#[test]
fn new_context_then_bind_context_is_the_local_idiom() {
    let mut ns = server();
    let minted = new_context(&mut ns);
    assert_eq!(minted.type_id, NAMING_CONTEXT_EXT_ID);
    assert_eq!(bind_ctx(&mut ns, "bind_context", &[nc("sub")], &minted).0, Ok(DispatchBody::Return));

    bind(&mut ns, &[nc("sub"), nc("leaf")], &dummy(b"Leaf"));
    assert_eq!(key_of(&resolved_ior(&resolve(&mut ns, &[nc("sub"), nc("leaf")]).1)), b"Leaf");
    assert_eq!(
        key_of(&resolved_ior(&resolve(&mut ns, &[nc("sub")]).1)),
        key_of(&minted),
        "resolving the name gives back the very context that was bound"
    );

    let (all, _) = list(&mut ns, 10);
    assert_eq!(all.len(), 1);
    assert!(all[0].2, "a bound context lists as ncontext");

    let again = new_context(&mut ns);
    let out = bind_ctx(&mut ns, "bind_context", &[nc("sub")], &again);
    assert_eq!(user_exception_id(&out), ALREADY_BOUND_ID);
}

#[test]
fn rebind_context_replaces_a_context_and_refuses_an_object() {
    let mut ns = server();
    let first = new_context(&mut ns);
    bind_ctx(&mut ns, "bind_context", &[nc("c")], &first);
    bind(&mut ns, &[nc("c"), nc("inside")], &dummy(b"Old"));

    let second = new_context(&mut ns);
    assert_eq!(bind_ctx(&mut ns, "rebind_context", &[nc("c")], &second).0, Ok(DispatchBody::Return));
    expect_not_found(resolve(&mut ns, &[nc("c"), nc("inside")]), WHY_MISSING_NODE, &[nc("inside")]);

    let third = new_context(&mut ns);
    assert_eq!(bind_ctx(&mut ns, "rebind_context", &[nc("fresh")], &third).0, Ok(DispatchBody::Return));

    bind(&mut ns, &[nc("anobject")], &dummy(b"O"));
    let fourth = new_context(&mut ns);
    expect_not_found(
        bind_ctx(&mut ns, "rebind_context", &[nc("anobject")], &fourth),
        WHY_NOT_CONTEXT,
        &[nc("anobject")],
    );
}

#[test]
fn bind_context_refuses_every_reference_this_server_does_not_serve() {
    let mut ns = server();
    let ours = new_context(&mut ns);

    let mut impostor = ours.clone();
    impostor.profiles[0].host = "192.0.2.7".into();
    let mut stranger = ours.clone();
    stranger.profiles[0].object_key = b"NameService/_ctx9999".to_vec();
    let nil = Ior { type_id: String::new(), profiles: Vec::new() };
    let plain = dummy(b"Echo");

    for (what, r) in [
        ("our key at a foreign address", &impostor),
        ("our address with a key we never minted", &stranger),
        ("a nil reference", &nil),
        ("a plain object", &plain),
    ] {
        for op in ["bind_context", "rebind_context"] {
            assert_eq!(
                bind_ctx(&mut ns, op, &[nc("nope")], r).0,
                Err(SystemExc::NoImplement),
                "{op} with {what}"
            );
        }
    }

    let (all, _) = list(&mut ns, 10);
    assert!(all.is_empty(), "a refused bind_context must leave the context untouched");
    assert_eq!(bind_ctx(&mut ns, "bind_context", &[nc("real")], &ours).0, Ok(DispatchBody::Return));
    assert_eq!(key_of(&resolved_ior(&resolve(&mut ns, &[nc("real")]).1)), key_of(&ours));
}

#[test]
fn destroy_retires_the_object_and_leaves_the_binding_dangling() {
    let mut ns = server();
    let dead = bind_new_context(&mut ns, b"NameService", &[nc("dead")]);
    let dead_key = key_of(&dead);

    assert_eq!(destroy(&mut ns, &dead_key).0, Ok(DispatchBody::Return), "an empty context is destroyable");
    assert_eq!(destroy(&mut ns, &dead_key).0, Err(SystemExc::ObjectNotExist), "second destroy");
    assert_eq!(
        call(&mut ns, &dead_key, "resolve", name_arg(&[nc("z")])).0,
        Err(SystemExc::ObjectNotExist),
        "resolve on a destroyed context"
    );

    let (all, _) = list(&mut ns, 10);
    assert_eq!(all.len(), 1);
    assert!(all[0].2, "the dangling binding still reports ncontext");
    let still = resolved_ior(&resolve(&mut ns, &[nc("dead")]).1);
    assert_eq!(key_of(&still), dead_key);

    assert_eq!(
        resolve(&mut ns, &[nc("dead"), nc("z")]).0,
        Err(SystemExc::ObjectNotExist),
        "resolve through a destroyed binding"
    );
    assert_eq!(
        bind(&mut ns, &[nc("dead"), nc("z")], &dummy(b"z")),
        Err(SystemExc::ObjectNotExist),
        "bind through a destroyed binding"
    );

    assert_eq!(call(&mut ns, b"NameService", "unbind", name_arg(&[nc("dead")])).0, Ok(DispatchBody::Return));
    let (all, _) = list(&mut ns, 10);
    assert!(all.is_empty());
}

#[test]
fn destroy_refuses_a_context_that_still_holds_bindings() {
    let mut ns = server();
    let full = bind_new_context(&mut ns, b"NameService", &[nc("full")]);
    bind(&mut ns, &[nc("full"), nc("thing")], &dummy(b"T"));

    let out = destroy(&mut ns, &key_of(&full));
    assert_eq!(out.0, Ok(DispatchBody::UserException));
    let mut b = Decoder::new(&out.1, Endian::Big);
    assert_eq!(b.get_string().unwrap(), NOT_EMPTY_ID, "no members follow the id");
    assert!(b.is_empty(), "NotEmpty carries nothing else");

    call(&mut ns, b"NameService", "unbind", name_arg(&[nc("full"), nc("thing")]));
    assert_eq!(destroy(&mut ns, &key_of(&full)).0, Ok(DispatchBody::Return), "an emptied context is destroyable");
}

#[test]
fn destroying_an_empty_root_is_not_special_cased() {
    let mut ns = server();
    bind(&mut ns, &[nc("occupant")], &dummy(b"o"));
    let out = destroy(&mut ns, b"NameService");
    assert_eq!(user_exception_id(&out), NOT_EMPTY_ID, "a populated root is NotEmpty, like any other");
    call(&mut ns, b"NameService", "unbind", name_arg(&[nc("occupant")]));
    assert_eq!(destroy(&mut ns, b"NameService").0, Ok(DispatchBody::Return));
    assert_eq!(
        resolve(&mut ns, &[nc("anything")]).0,
        Err(SystemExc::ObjectNotExist),
        "after the root was destroyed"
    );
}

#[test]
fn an_unbound_context_can_be_reclaimed() {
    let mut ns = server();
    let orphan = new_context(&mut ns);
    assert_eq!(destroy(&mut ns, &key_of(&orphan)).0, Ok(DispatchBody::Return), "an orphan is destroyable");
    assert_eq!(
        call(&mut ns, &key_of(&orphan), "resolve", name_arg(&[nc("z")])).0,
        Err(SystemExc::ObjectNotExist),
        "the reclaimed orphan"
    );
}

#[test]
fn a_user_exception_through_plain_dispatch_maps_to_unknown() {
    let mut ns = NamingServer::new("127.0.0.1", 1, b"NameService".to_vec());
    let mut a = Encoder::new(Endian::Little);
    write_name(&mut a, &[nc("missing")]);
    let bytes = a.finish().unwrap();
    let mut out = Encoder::new(Endian::Little);
    let err = ns.dispatch("resolve", b"NameService", Decoder::new(&bytes, Endian::Little), &mut out);
    assert_eq!(err, Err(SystemExc::UnknownUserException));
}

#[test]
fn the_client_reads_back_what_list_wrote() {
    let mut ns = server();
    bind(&mut ns, &[nc("obj")], &dummy(b"o"));
    bind_new_context(&mut ns, b"NameService", &[nc("sub")]);
    let (r, body) = call(&mut ns, b"NameService", "list", |e| e.put_u32(10));
    assert_eq!(r, Ok(DispatchBody::Return));
    let mut d = Decoder::new(&body, Endian::Big);
    let (bindings, iterator) = orbweaver_giop::naming::read_bindings(&mut d).unwrap();
    assert!(iterator.is_nil());
    assert!(d.is_empty(), "nothing follows the iterator");
    assert_eq!(bindings.len(), 2);
    assert_eq!(bindings[0].name, vec![nc("obj")]);
    assert!(!bindings[0].is_context);
    assert_eq!(bindings[1].name, vec![nc("sub")]);
    assert!(bindings[1].is_context);

    let mut short = Decoder::new(&body[..6], Endian::Big);
    assert!(orbweaver_giop::naming::read_bindings(&mut short).is_err());
}

#[test]
fn the_root_reference_publishes_the_servers_code_sets() {
    let ns = NamingServer::new("127.0.0.1", 1, b"NameService".to_vec());
    let root = ns.root_ior();
    assert_eq!(root.type_id, "IDL:omg.org/CosNaming/NamingContextExt:1.0");
    assert_eq!(root.profiles.len(), 1);
    let p = &root.profiles[0];
    assert_eq!(p.version, Version::v1_2());
    assert_eq!(p.host, "127.0.0.1");
    assert_eq!(p.port, 1);
    assert_eq!(p.object_key, b"NameService".to_vec());
    assert_eq!(p.components, vec![orbweaver_giop::codeset::server_component()]);
    assert_eq!(p.components[0].tag, orbweaver_giop::codeset::TAG_CODE_SETS);
    assert_eq!(
        p.components[0].data,
        vec![0, 0, 0, 0, 0x05, 0x01, 0x00, 0x01, 0, 0, 0, 0, 0x00, 0x01, 0x01, 0x09, 0, 0, 0, 0]
    );
}
