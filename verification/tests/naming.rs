use orbweaver_giop::naming::{
    corbaloc_to_ior_string, parse_stringified_name, read_name, stringify_name, to_url,
    write_name, NameComponent, ObjectUrl, UrlError, DEFAULT_CORBALOC_PORT,
};
use orbweaver_giop::{Decoder, Encoder, Endian, Ior, Version};

fn loc(url: &str) -> ObjectUrl {
    ObjectUrl::parse(url).unwrap_or_else(|e| panic!("{url} -> {}", e.message()))
}

#[test]
fn defaults_are_giop_1_0_and_port_2809() {
    match loc("corbaloc::example.test/NameService") {
        ObjectUrl::Corbaloc { addresses, object_key } => {
            assert_eq!(addresses.len(), 1);
            assert_eq!(addresses[0].version, Version::v1_0(), "§7.6.10.3 assumes 1.0");
            assert_eq!(addresses[0].port, DEFAULT_CORBALOC_PORT);
            assert_eq!(addresses[0].host, "example.test");
            assert_eq!(object_key, b"NameService");
        }
        other => panic!("{other:?}"),
    }
}

#[test]
fn explicit_protocol_version_and_port_are_honoured() {
    match loc("corbaloc:iiop:1.2@10.0.0.1:9999/Echo") {
        ObjectUrl::Corbaloc { addresses, object_key } => {
            assert_eq!(addresses[0].version, Version::v1_2());
            assert_eq!(addresses[0].host, "10.0.0.1");
            assert_eq!(addresses[0].port, 9999);
            assert_eq!(object_key, b"Echo");
        }
        other => panic!("{other:?}"),
    }
}

#[test]
fn scheme_is_case_insensitive() {
    assert!(matches!(loc("CORBALOC::h/K"), ObjectUrl::Corbaloc { .. }));
    assert!(matches!(loc("CorbaLoc:IIOP:h/K"), ObjectUrl::Corbaloc { .. }));
}

#[test]
fn address_list_becomes_multiple_profiles() {
    let url = loc("corbaloc::a.test:1111,:b.test:2222,iiop:1.1@c.test/Key");
    let ior = url.to_ior("IDL:x:1.0").unwrap();
    assert_eq!(ior.profiles.len(), 3);
    assert_eq!(ior.profiles[0].port, 1111);
    assert_eq!(ior.profiles[1].host, "b.test");
    assert_eq!(ior.profiles[2].version, Version::v1_1());
    assert_eq!(ior.profiles[2].port, DEFAULT_CORBALOC_PORT);
    for p in &ior.profiles {
        assert_eq!(p.object_key, b"Key");
    }
}

#[test]
fn ipv6_literals_are_bracketed() {
    match loc("corbaloc:iiop:[1080::8:800:200C:417A]:88/Key") {
        ObjectUrl::Corbaloc { addresses, .. } => {
            assert_eq!(addresses[0].host, "1080::8:800:200C:417A");
            assert_eq!(addresses[0].port, 88);
        }
        other => panic!("{other:?}"),
    }
    match loc("corbaloc:iiop:[::1]/Key") {
        ObjectUrl::Corbaloc { addresses, .. } => {
            assert_eq!(addresses[0].host, "::1");
            assert_eq!(addresses[0].port, DEFAULT_CORBALOC_PORT);
        }
        other => panic!("{other:?}"),
    }
}

#[test]
fn object_key_escapes_are_decoded_to_bytes() {
    match loc("corbaloc::h/a%20b%2Fc%00d") {
        ObjectUrl::Corbaloc { object_key, .. } => {
            assert_eq!(object_key, b"a b/c\0d", "the key is bytes, not text");
        }
        other => panic!("{other:?}"),
    }
}

#[test]
fn rir_resolves_locally_and_defaults_to_nameservice() {
    assert_eq!(loc("corbaloc:rir:"), ObjectUrl::InitialReference("NameService".into()));
    assert_eq!(loc("corbaloc:rir:/"), ObjectUrl::InitialReference("NameService".into()));
    assert_eq!(
        loc("corbaloc:rir:/InterfaceRepository"),
        ObjectUrl::InitialReference("InterfaceRepository".into())
    );
    assert!(loc("corbaloc:rir:").to_ior("IDL:x:1.0").is_none());
}

#[test]
fn corbaname_splits_the_path_from_the_address() {
    match loc("corbaname::host:2809/NameService#spike/Echo") {
        ObjectUrl::Corbaname { addresses, object_key, name } => {
            assert_eq!(addresses[0].host, "host");
            assert_eq!(object_key, b"NameService");
            assert_eq!(name, vec![NameComponent::new("spike"), NameComponent::new("Echo")]);
        }
        other => panic!("{other:?}"),
    }
    match loc("corbaname::host") {
        ObjectUrl::Corbaname { object_key, name, .. } => {
            assert_eq!(object_key, b"NameService");
            assert!(name.is_empty());
        }
        other => panic!("{other:?}"),
    }
}

#[test]
fn names_round_trip_on_the_wire_in_both_byte_orders() {
    let name = [
        NameComponent { id: "a".into(), kind: "config".into() },
        NameComponent::new("plain"),
        NameComponent { id: "함정".into(), kind: String::new() },
    ];
    for endian in [Endian::Big, Endian::Little] {
        for case in [&name[..], &[]] {
            let mut e = Encoder::new(endian);
            write_name(&mut e, case);
            let bytes = e.finish().unwrap();
            let mut d = Decoder::new(&bytes, endian);
            assert_eq!(read_name(&mut d).unwrap(), case, "{endian:?}");
            assert!(d.is_empty(), "{endian:?}: trailing bytes after the name");
        }
    }
}

#[test]
fn stringified_names_round_trip_with_escapes() {
    let name = vec![
        NameComponent { id: "a.b".into(), kind: "c/d".into() },
        NameComponent { id: "plain".into(), kind: String::new() },
        NameComponent { id: "back\\slash".into(), kind: String::new() },
    ];
    let s = stringify_name(&name);
    assert_eq!(parse_stringified_name(&s).unwrap(), name, "round trip failed for {s:?}");
}

#[test]
fn name_kind_is_optional_and_separated_by_a_dot() {
    assert_eq!(
        parse_stringified_name("ctx/obj.kind").unwrap(),
        vec![NameComponent::new("ctx"), NameComponent { id: "obj".into(), kind: "kind".into() }]
    );
}

#[test]
fn to_url_round_trips_through_our_own_parser() {
    let names = [
        vec![NameComponent::new("spike"), NameComponent::new("Echo")],
        vec![NameComponent { id: "a/b".into(), kind: "c.d".into() }],
        vec![NameComponent { id: "with space".into(), kind: "and space".into() }],
        vec![NameComponent { id: "100%".into(), kind: "#frag".into() }],
        vec![NameComponent { id: "함정".into(), kind: "한글".into() }],
        vec![NameComponent { id: "back\\slash".into(), kind: String::new() }],
        vec![
            NameComponent::new("ctx"),
            NameComponent { id: "obj".into(), kind: "dev".into() },
            NameComponent { id: "trailing.".into(), kind: String::new() },
        ],
    ];
    let addresses = [
        ":example.test",
        ":example.test:2809",
        "iiop:1.2@127.0.0.1:4001",
        "iiop:1.2@127.0.0.1:4001/NameService",
        ":a.test:1111,:b.test:2222",
        "iiop:[::1]:2809",
    ];
    for address in addresses {
        for name in &names {
            let sn = stringify_name(name);
            let url = to_url(address, &sn)
                .unwrap_or_else(|e| panic!("{address} {sn:?}: {}", e.message()));
            match ObjectUrl::parse(&url) {
                Ok(ObjectUrl::Corbaname { name: back, .. }) => {
                    assert_eq!(&back, name, "{url}");
                }
                other => panic!("{url} parsed as {other:?}"),
            }
        }
    }
}

#[test]
fn to_url_escapes_what_a_url_cannot_carry_and_nothing_else() {
    let url = to_url(":h", &stringify_name(&[NameComponent::new("a b#c%d")])).unwrap();
    assert_eq!(url, "corbaname::h#a%20b%23c%25d");

    let url =
        to_url(":h", &stringify_name(&[NameComponent { id: "a/b".into(), kind: ".".into() }]))
            .unwrap();
    assert_eq!(url, "corbaname::h#a%5C/b.%5C.");

    let url = to_url(":h", "one/two.kind").unwrap();
    assert_eq!(url, "corbaname::h#one/two.kind");

    assert_eq!(to_url(":h", "함").unwrap(), "corbaname::h#%ED%95%A8");
}

#[test]
fn to_url_refuses_bad_addresses_and_bad_names_distinguishably() {
    for bad in ["", "host-with-no-protocol-token", ":", ":h ost", ":h#x", ":호스트"] {
        assert!(
            matches!(to_url(bad, "a"), Err(UrlError::BadAddress(_))),
            "{bad:?} should be InvalidAddress"
        );
    }
    assert!(
        matches!(to_url(":h", "trailing\\"), Err(UrlError::BadSchemeSpecificPart(_))),
        "a trailing backslash should be InvalidName"
    );
    assert!(matches!(to_url("rir:", "a"), Err(UrlError::BadAddress(_))));
}

#[test]
fn an_empty_name_gives_the_url_for_the_context_itself() {
    let url = to_url(":h", "").unwrap();
    assert_eq!(url, "corbaname::h", "no fragment at all, as omniNames writes it");
    match ObjectUrl::parse(&url) {
        Ok(ObjectUrl::Corbaname { name, object_key, .. }) => {
            assert!(name.is_empty());
            assert_eq!(object_key, b"NameService");
        }
        other => panic!("{other:?}"),
    }
}

#[test]
fn a_foreign_escaped_corbaname_decodes_the_same_way() {
    match ObjectUrl::parse("corbaname::h:2809/NameService#a%20b/c%2Ed") {
        Ok(ObjectUrl::Corbaname { name, .. }) => assert_eq!(
            name,
            vec![NameComponent::new("a b"), NameComponent { id: "c".into(), kind: "d".into() }],
            "%2E decodes to '.' and is then the kind separator"
        ),
        other => panic!("{other:?}"),
    }
    assert!(matches!(
        ObjectUrl::parse("corbaname::h#%FF"),
        Err(UrlError::BadSchemeSpecificPart(_))
    ));
    match ObjectUrl::parse("corbaname::h#a%5c/b") {
        Ok(ObjectUrl::Corbaname { name, .. }) => {
            assert_eq!(name, vec![NameComponent::new("a/b")]);
        }
        other => panic!("{other:?}"),
    }
}

#[test]
fn malformed_urls_name_their_spec_minor_code() {
    assert!(matches!(ObjectUrl::parse("http://x"), Err(UrlError::BadSchemeName(_))));
    assert!(matches!(ObjectUrl::parse("corbaloc:"), Err(UrlError::BadAddress(_))));
    assert!(matches!(ObjectUrl::parse("corbaloc::/K"), Err(UrlError::BadAddress(_))));
    assert!(matches!(ObjectUrl::parse("corbaloc::h:notaport/K"), Err(UrlError::BadAddress(_))));
    assert!(matches!(ObjectUrl::parse("corbaloc:iiop:9@h/K"), Err(UrlError::BadAddress(_))));
    assert!(matches!(ObjectUrl::parse("corbaloc::h/%zz"), Err(UrlError::BadSchemeSpecificPart(_))));
    assert!(matches!(ObjectUrl::parse("corbaloc::h/%4"), Err(UrlError::BadSchemeSpecificPart(_))));
    assert_eq!(UrlError::BadSchemeName("x".into()).message(), "x (BAD_PARAM minor 7)");
}

#[test]
fn url_becomes_a_parsable_ior() {
    let s = corbaloc_to_ior_string("corbaloc:iiop:1.2@127.0.0.1:4001/Echo", "IDL:spike/Echo:1.0")
        .unwrap();
    let back = Ior::parse(&s).unwrap();
    assert_eq!(back.type_id, "IDL:spike/Echo:1.0");
    assert_eq!(back.primary().unwrap().port, 4001);
    assert_eq!(back.primary().unwrap().object_key, b"Echo");
}

#[test]
fn every_url_failure_carries_its_minor_code_in_its_message() {
    assert_eq!(UrlError::BadAddress("a".into()).message(), "a (BAD_PARAM minor 8)");
    assert_eq!(UrlError::BadSchemeSpecificPart("b".into()).message(), "b (BAD_PARAM minor 9)");
    assert_eq!(UrlError::Other("c".into()).message(), "c (BAD_PARAM minor 10)");
}

#[test]
fn a_name_that_is_not_utf8_reads_lossily() {
    let mut e = orbweaver_giop::Encoder::new(orbweaver_giop::Endian::Big);
    e.put_u32(1);
    e.put_str_bytes(&[b'a', 0xFF, b'b']);
    e.put_str_bytes(b"k");
    let bytes = e.finish().unwrap();
    let mut d = orbweaver_giop::Decoder::new(&bytes, orbweaver_giop::Endian::Big);
    let name = orbweaver_giop::naming::read_name(&mut d).unwrap();
    assert_eq!(name[0].id, "a\u{FFFD}b");
    assert_eq!(name[0].kind, "k");
}

#[test]
fn a_sign_is_not_a_hex_digit_in_an_escape() {
    assert!(matches!(ObjectUrl::parse("corbaloc::h/%+4"), Err(UrlError::BadSchemeSpecificPart(_))));
    assert!(matches!(ObjectUrl::parse("corbaloc::h/%-4"), Err(UrlError::BadSchemeSpecificPart(_))));
}
