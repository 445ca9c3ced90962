use orbweaver_giop::naming::ObjectUrl;
use orbweaver_giop::orb::config::{ConfigError, OrbConfig, DEFAULT_MAX_CONNECTIONS, STOP_POLL_MS};
use orbweaver_giop::orb::{is_reserved_object_id, reserved_object_ids, InvalidName, Orb, StringToObjectError};
use orbweaver_giop::{IiopProfile, Ior, Version, DEFAULT_MAX_MESSAGE_SIZE};

fn ior(key: &[u8]) -> Ior {
    Ior {
        type_id: "IDL:omg.org/CosNaming/NamingContextExt:1.0".into(),
        profiles: vec![IiopProfile {
            version: Version::v1_2(),
            host: "192.0.2.1".into(),
            port: 2809,
            object_key: key.to_vec(),
            components: Vec::new(),
        }],
    }
}

fn args(a: &[&str]) -> Vec<String> {
    a.iter().map(|s| s.to_string()).collect()
}

#[test]
fn rir_resolves_through_the_table_that_was_registered() {
    let mut orb = Orb::new();
    orb.register_initial_reference("NameService", ior(b"NameService")).unwrap();
    let url = ObjectUrl::parse("corbaloc:rir:NameService").unwrap();
    assert_eq!(orb.resolve_url(&url, "IDL:x:1.0").unwrap(), ior(b"NameService"));
    let bare = ObjectUrl::parse("corbaloc:rir:").unwrap();
    assert_eq!(orb.resolve_url(&bare, "IDL:x:1.0").unwrap(), ior(b"NameService"));
}

#[test]
fn an_empty_table_refuses_nameservice_by_name() {
    let orb = Orb::new();
    let err = orb.resolve_initial_reference("NameService").unwrap_err();
    let said = err.message();
    assert!(said.contains("\"NameService\""), "the refusal must name the key: {said}");
    assert!(said.contains("§8.5.2"), "and cite the sub clause that reserves it: {said}");
    assert!(said.contains("registered nothing"), "and say the table is empty: {said}");
    assert_eq!(
        err,
        InvalidName::NotRegistered { key: "NameService".into(), reserved: true, known: Vec::new() }
    );
    let url = ObjectUrl::parse("corbaloc:rir:NameService").unwrap();
    assert!(orb.resolve_url(&url, "IDL:x:1.0").unwrap_err().message().contains("NameService"));
}

#[test]
fn an_unregistered_name_is_refused_by_name() {
    let mut orb = Orb::new();
    orb.register_initial_reference("NameService", ior(b"NameService")).unwrap();

    let reserved = orb.resolve_initial_reference("InterfaceRepository").unwrap_err();
    let said = reserved.message();
    assert!(said.contains("\"InterfaceRepository\""), "{said}");
    assert!(said.contains("an ObjectId CORBA 3.4 §8.5.2 reserves"), "{said}");
    assert!(said.contains("this ORB has registered NameService"), "{said}");

    let invented = orb.resolve_initial_reference("NoSuchService").unwrap_err();
    let said = invented.message();
    assert!(said.contains("\"NoSuchService\""), "{said}");
    assert!(said.contains("not an ObjectId CORBA 3.4 §8.5.2 reserves"), "{said}");
}

#[test]
fn addressed_urls_resolve_exactly_as_to_ior_does() {
    let orb = Orb::new();
    let one = ObjectUrl::parse("corbaloc:iiop:1.2@10.0.0.1:9999/Echo").unwrap();
    let built = orb.resolve_url(&one, "IDL:spike/Echo:1.0").unwrap();
    assert_eq!(built.type_id, "IDL:spike/Echo:1.0");
    assert_eq!(built.profiles.len(), 1);
    assert_eq!(built.profiles[0].host, "10.0.0.1");
    assert_eq!(built.profiles[0].port, 9999);
    assert_eq!(built.profiles[0].object_key, b"Echo");
    assert_eq!(built.profiles[0].version, Version::v1_2());

    for text in [
        "corbaloc::example.test/NameService",
        "corbaloc:iiop:1.2@10.0.0.1:9999/Echo",
        "corbaloc::a.test:1111,:b.test:2222,iiop:1.1@c.test/Key",
        "corbaloc:iiop:[1080::8:800:200C:417A]:88/Key",
        "corbaloc::h/a%20b%2Fc%00d",
        "corbaname::host:2809/NameService#spike/Echo",
        "corbaname::host",
    ] {
        let url = ObjectUrl::parse(text).unwrap();
        let direct = url.to_ior("IDL:x:1.0").expect("an addressed URL still builds an IOR");
        let through = orb.resolve_url(&url, "IDL:x:1.0").expect("and resolves the same way");
        assert_eq!(direct, through, "{text}");
    }
    assert!(Orb::new().list_initial_services().is_empty());
}

#[test]
fn list_initial_services_reports_exactly_what_was_registered() {
    let mut orb = Orb::new();
    assert!(orb.list_initial_services().is_empty(), "nothing registers itself");
    orb.register_initial_reference("NameService", ior(b"NS")).unwrap();
    orb.register_initial_reference("InterfaceRepository", ior(b"IFR")).unwrap();
    orb.register_initial_reference("VendorThing", ior(b"V")).unwrap();
    assert_eq!(orb.list_initial_services(), ["InterfaceRepository", "NameService", "VendorThing"]);
}

#[test]
fn registration_refuses_an_empty_id_and_a_taken_one() {
    let mut orb = Orb::new();
    assert_eq!(orb.register_initial_reference("", ior(b"x")), Err(InvalidName::EmptyId));
    assert!(orb.list_initial_services().is_empty(), "a refused registration changed nothing");

    orb.register_initial_reference("NameService", ior(b"first")).unwrap();
    let again = orb.register_initial_reference("NameService", ior(b"second")).unwrap_err();
    assert_eq!(again, InvalidName::AlreadyRegistered { key: "NameService".into() });
    assert!(again.message().contains("\"NameService\""), "{}", again.message());
    assert_eq!(
        orb.resolve_initial_reference("NameService").unwrap(),
        ior(b"first"),
        "a refused re-registration must not have overwritten the entry"
    );

    assert_eq!(orb.unregister_initial_reference("NameService"), Some(ior(b"first")));
    orb.register_initial_reference("NameService", ior(b"second")).unwrap();
    assert_eq!(orb.resolve_initial_reference("NameService").unwrap(), ior(b"second"));
}

#[test]
fn a_name_outside_table_8_1_may_still_be_registered() {
    let mut orb = Orb::new();
    orb.register_initial_reference("VendorPrivateThing", ior(b"v")).unwrap();
    assert_eq!(orb.resolve_initial_reference("VendorPrivateThing").unwrap(), ior(b"v"));
    assert!(!is_reserved_object_id("VendorPrivateThing"));
    for id in reserved_object_ids() {
        assert!(is_reserved_object_id(id), "{id} is in the list §8.5.2 gives");
    }
    assert!(!is_reserved_object_id("nameservice"));
}

#[test]
fn string_to_object_decides_between_the_three_forms() {
    let mut orb = Orb::new();
    let registered = ior(b"NS");
    orb.register_initial_reference("NameService", registered.clone()).unwrap();

    let hex = registered.to_stringified().unwrap();
    let from_hex = orb.string_to_object(&hex).unwrap();
    assert_eq!(from_hex, registered);
    assert_eq!(from_hex.type_id, "IDL:omg.org/CosNaming/NamingContextExt:1.0");

    let from_url = orb.string_to_object("corbaloc:iiop:1.2@10.0.0.1:9999/Echo").unwrap();
    assert_eq!(from_url.type_id, "", "a URL carries no repository id; §8.5.2 narrows later");
    assert_eq!(from_url.profiles[0].port, 9999);
    assert_eq!(from_url.profiles[0].object_key, b"Echo");
    assert_eq!(orb.string_to_object("corbaname::host").unwrap().profiles[0].host, "host");

    assert_eq!(orb.string_to_object("corbaloc:rir:NameService").unwrap(), registered);
    assert_eq!(orb.string_to_object("corbaloc:rir:").unwrap(), registered);

    assert_eq!(orb.string_to_object(&format!("  {hex}\n")).unwrap(), registered);
}

#[test]
fn the_ior_prefix_is_matched_case_insensitively() {
    let orb = Orb::new();
    let hex = ior(b"K").to_stringified().unwrap();
    for spelling in ["IOR:", "ior:", "Ior:", "iOr:"] {
        let restyled = format!("{spelling}{}", &hex[4..]);
        assert_eq!(orb.string_to_object(&restyled).unwrap(), ior(b"K"), "{spelling}");
    }
}

#[test]
fn string_to_object_keeps_its_four_causes_apart_and_names_the_string() {
    let orb = Orb::new();

    let not_one = orb.string_to_object("hello world").unwrap_err();
    assert!(matches!(not_one, StringToObjectError::NotAReferenceString { .. }));
    assert!(not_one.message().contains("hello world"), "{}", not_one.message());
    assert!(not_one.message().contains("§8.2.2.2"), "{}", not_one.message());
    assert_eq!(not_one.text(), "hello world");
    assert!(matches!(
        orb.string_to_object("http://example.test/x"),
        Err(StringToObjectError::NotAReferenceString { .. })
    ));

    let bad_hex = orb.string_to_object("IOR:zzz").unwrap_err();
    assert!(matches!(bad_hex, StringToObjectError::Ior { .. }));
    assert!(bad_hex.message().contains("IOR:zzz"), "{}", bad_hex.message());

    let bad_url = orb.string_to_object("corbaloc::h:notaport/K").unwrap_err();
    assert!(matches!(bad_url, StringToObjectError::Url { .. }));
    let said = bad_url.message();
    assert!(said.contains("corbaloc::h:notaport/K"), "{said}");
    assert!(said.contains("BAD_PARAM minor 8"), "the URL layer's own code survives: {said}");

    let missing = orb.string_to_object("corbaloc:rir:TradingService").unwrap_err();
    assert!(matches!(missing, StringToObjectError::Name { .. }));
    let said = missing.message();
    assert!(said.contains("corbaloc:rir:TradingService"), "{said}");
    assert!(said.contains("\"TradingService\""), "the InvalidName still names it: {said}");

    let long = format!("IOR:{}", "0".repeat(400));
    let said = orb.string_to_object(&long).unwrap_err().message();
    assert!(said.contains('…'), "a long string is elided: {said}");
    assert!(said.len() < 300, "and the reason stays visible: {said}");
}

#[test]
fn object_to_string_round_trips_through_string_to_object() {
    let orb = Orb::new();
    let profile = |host: &str, port: u16, key: &[u8], v: Version| IiopProfile {
        version: v,
        host: host.into(),
        port,
        object_key: key.to_vec(),
        components: Vec::new(),
    };
    let cases = [
        Ior { type_id: String::new(), profiles: Vec::new() },
        ior(b"one"),
        Ior {
            type_id: "IDL:spike/Echo:1.0".into(),
            profiles: vec![
                profile("a.test", 1111, b"A", Version::v1_0()),
                profile("::1", 2222, b"B", Version::v1_1()),
                profile("c.test", 3333, b"C", Version::v1_2()),
            ],
        },
        Ior {
            type_id: String::new(),
            profiles: vec![profile("h", 4001, &[0x00, 0xFF, 0x80, b'/'], Version::v1_2())],
        },
    ];
    for obj in cases {
        let s = orb.object_to_string(&obj).unwrap();
        assert!(s.starts_with("IOR:"), "§8.2.2 asks for the interoperable form, got {s:?}");
        assert_eq!(orb.string_to_object(&s).unwrap(), obj, "round trip failed for {s}");
    }
}

#[test]
fn orb_init_ref_arguments_populate_the_table() {
    let argv = args(&[
        "serve",
        "-ORBInitRef",
        "NameService=corbaloc::h.test:2809/NameService",
        "-ORBInitRef",
        "InterfaceRepository=corbaloc:iiop:1.2@h.test:4001/IFR",
        "--verbose",
    ]);
    let (config, rest) = OrbConfig::from_orb_args(&argv).unwrap();
    assert_eq!(rest, ["serve", "--verbose"], "§8.5.1 removes what it recognised");

    let orb = Orb::with_config(config).unwrap();
    assert_eq!(orb.list_initial_services(), ["InterfaceRepository", "NameService"]);

    let ns = orb.string_to_object("corbaloc:rir:NameService").unwrap();
    assert_eq!(ns.profiles[0].host, "h.test");
    assert_eq!(ns.profiles[0].port, 2809);
    assert_eq!(ns.profiles[0].object_key, b"NameService");

    let ifr = orb.resolve_initial_reference("InterfaceRepository").unwrap();
    assert_eq!(ifr.profiles[0].port, 4001);
    assert_eq!(ifr.profiles[0].version, Version::v1_2());

    assert!(orb
        .resolve_initial_reference("TradingService")
        .unwrap_err()
        .message()
        .contains("\"TradingService\""));
}

#[test]
fn an_init_ref_may_be_a_stringified_ior() {
    let published = ior(b"NS");
    let hex = published.to_stringified().unwrap();
    let (config, _) =
        OrbConfig::from_orb_args(&["-ORBInitRef".to_owned(), format!("NameService={hex}")])
            .unwrap();
    let orb = Orb::with_config(config).unwrap();
    assert_eq!(orb.string_to_object("corbaloc:rir:").unwrap(), published);
}

#[test]
fn a_configuration_with_one_bad_reference_registers_nothing() {
    let (config, _) = OrbConfig::from_orb_args(&args(&[
        "-ORBInitRef",
        "NameService=corbaloc::good.test/NameService",
        "-ORBInitRef",
        "InterfaceRepository=not a reference at all",
    ]))
    .unwrap();
    let err = Orb::with_config(config).unwrap_err();
    assert!(matches!(err, ConfigError::InitRefUnreadable { .. }));
    let said = err.message();
    assert!(said.contains("InterfaceRepository"), "names the ObjectId: {said}");
    assert!(said.contains("not a reference at all"), "names the URL: {said}");
    assert!(said.contains("nothing was registered"), "says what it did: {said}");
    assert!(said.contains("§8.2.2.2"), "carries string_to_object's own reason: {said}");
}

#[test]
fn the_configuration_travels_with_the_orb_and_defaults_to_todays_values() {
    assert!(Orb::new().config().is_empty());
    assert_eq!(Orb::new().config().max_message_size(), DEFAULT_MAX_MESSAGE_SIZE);

    let (config, _) =
        OrbConfig::from_orb_args(&args(&["-ORBmaxMessageSize", "4096", "-ORBmaxForwardHops", "2"]))
            .unwrap();
    let orb = Orb::with_config(config).unwrap();
    assert_eq!(orb.config().max_message_size(), 4096);
    assert_eq!(orb.config().max_forward_hops(), 2);
    assert_eq!(orb.config().stop_poll(), std::time::Duration::from_millis(STOP_POLL_MS));
    assert_eq!(orb.config().max_connections(), DEFAULT_MAX_CONNECTIONS);
}

#[test]
fn a_corbaname_carrying_a_name_is_refused_rather_than_answered_wrongly() {
    let orb = Orb::new();
    let err = orb.string_to_object("corbaname::h.test:2809/NameService#spike/Echo").unwrap_err();
    assert!(matches!(err, StringToObjectError::NeedsANamingCall { .. }));
    let said = err.message();
    assert!(said.contains("spike/Echo"), "the refusal names the name: {said}");
    assert!(said.contains("§7.6.10.5"), "and cites the sub clause: {said}");
    assert!(said.contains("NamingContext::from_url"), "and says what does work: {said}");

    let url = ObjectUrl::parse("corbaname::h.test:2809/NameService#spike/Echo").unwrap();
    let ctx = url.to_ior("IDL:x:1.0").expect("the context is still addressable");
    assert_eq!(ctx.profiles[0].object_key, b"NameService");
    assert_eq!(ctx.profiles[0].port, 2809);

    assert!(orb.string_to_object("corbaname::h.test:2809/NameService").is_ok());
}

#[test]
fn a_url_becomes_an_interoperable_string_not_another_url() {
    let orb = Orb::new();
    let from_url = orb.string_to_object("corbaloc:iiop:1.2@10.0.0.1:9999/Echo").unwrap();
    let s = orb.object_to_string(&from_url).unwrap();
    assert!(s.starts_with("IOR:"), "{s}");
    assert_eq!(orb.string_to_object(&s).unwrap(), from_url);
}

#[test]
fn shutdown_is_one_way_and_keeps_the_table() {
    let mut orb = Orb::new();
    orb.register_initial_reference("NameService", ior(b"NameService")).unwrap();
    assert!(!orb.is_shutdown());
    let s = orb.shutdown(&[true, false], &[true]);
    assert_eq!((s.servers(), s.pools(), s.already_gone()), (1, 1, 1));
    assert!(orb.is_shutdown());
    let again = orb.shutdown(&[], &[false]);
    assert_eq!((again.servers(), again.pools(), again.already_gone()), (0, 0, 1));
    assert!(orb.is_shutdown());
    assert_eq!(orb.resolve_initial_reference("NameService").unwrap(), ior(b"NameService"));
    orb.register_initial_reference("Other", ior(b"Other")).unwrap();
    assert!(orb.is_shutdown(), "nothing un-stops it");
}

#[test]
fn unregistering_takes_one_name_out_of_the_listing() {
    let mut orb = Orb::new();
    orb.register_initial_reference("b", ior(b"b")).unwrap();
    orb.register_initial_reference("a", ior(b"a")).unwrap();
    orb.register_initial_reference("c", ior(b"c")).unwrap();
    assert_eq!(orb.unregister_initial_reference("b"), Some(ior(b"b")));
    assert_eq!(orb.list_initial_services(), vec!["a".to_string(), "c".to_string()]);
    assert_eq!(orb.resolve_initial_reference("a").unwrap(), ior(b"a"));
    assert_eq!(orb.unregister_initial_reference("b"), None);
    orb.register_initial_reference("b", ior(b"new")).unwrap();
    assert_eq!(orb.list_initial_services(), vec!["a".to_string(), "b".to_string(), "c".to_string()]);
    assert_eq!(orb.resolve_initial_reference("b").unwrap(), ior(b"new"));
}

#[test]
fn a_stringified_reference_reads_back_padded_and_in_any_case() {
    let orb = Orb::new();
    let obj = ior(b"loose");
    let s = orb.object_to_string(&obj).unwrap();
    let rest = &s[4..];
    for prefix in ["IOR:", "ior:", "Ior:", "iOr:"] {
        let padded = format!(" \t{prefix}{rest}\n ");
        assert_eq!(orb.string_to_object(&padded).unwrap(), obj, "{padded:?}");
    }
}
