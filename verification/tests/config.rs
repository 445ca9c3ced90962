use std::time::Duration;

use orbweaver_giop::orb::config::{
    ConfigError, OrbConfig, DEFAULT_MAX_CONNECTIONS, DEFAULT_MESSAGE_TIMEOUT_MS, STOP_POLL_MS,
};
use orbweaver_giop::{
    DEFAULT_FRAGMENT_THRESHOLD, DEFAULT_MAX_MESSAGE_SIZE, FOLLOW_TIMEOUT_MS, MAX_FORWARD_HOPS,
    MAX_FRAGMENTS,
};

fn args(s: &str) -> Vec<String> {
    s.split_whitespace().map(|x| x.to_owned()).collect()
}

/// The standard arguments this ORB refuses by name.
const UNIMPLEMENTED: [&str; 4] =
    ["-ORBid", "-ORBServerId", "-ORBListenEndpoints", "-ORBDefaultInitRef"];

/// The numeric arguments this ORB implements.
const NUMERIC: [&str; 8] = [
    "-ORBmaxMessageSize",
    "-ORBfragmentThreshold",
    "-ORBmaxFragments",
    "-ORBmaxForwardHops",
    "-ORBfollowTimeoutMs",
    "-ORBmaxConnections",
    "-ORBstopPollMs",
    "-ORBmessageTimeoutMs",
];

#[test]
fn an_empty_configuration_answers_todays_constants() {
    let c = OrbConfig::new();
    assert_eq!(c.max_message_size(), DEFAULT_MAX_MESSAGE_SIZE);
    assert_eq!(c.fragment_threshold(), DEFAULT_FRAGMENT_THRESHOLD);
    assert_eq!(c.max_fragments(), MAX_FRAGMENTS);
    assert_eq!(c.max_forward_hops(), MAX_FORWARD_HOPS);
    assert_eq!(c.follow_timeout(), Duration::from_millis(FOLLOW_TIMEOUT_MS));
    assert_eq!(c.max_connections(), DEFAULT_MAX_CONNECTIONS);
    assert_eq!(c.stop_poll(), Duration::from_millis(STOP_POLL_MS));
    assert_eq!(c.message_timeout(), Duration::from_millis(DEFAULT_MESSAGE_TIMEOUT_MS));
    assert!(c.initial_references().is_empty());
    assert!(c.is_empty());

    let (parsed, rest) = OrbConfig::from_orb_args(&args("--verbose -x 3")).unwrap();
    assert_eq!(parsed, c);
    assert_eq!(rest, args("--verbose -x 3"), "only what was recognised is removed");
}

#[test]
fn every_deployment_number_in_this_crates_class_has_a_home() {
    let (c, rest) = OrbConfig::from_orb_args(&args(
        "-ORBmaxMessageSize 1000 -ORBfragmentThreshold 2000 -ORBmaxFragments 3000 \
         -ORBmaxForwardHops 4 -ORBfollowTimeoutMs 5000 -ORBmaxConnections 6 \
         -ORBstopPollMs 7 -ORBmessageTimeoutMs 8000",
    ))
    .unwrap();
    assert_eq!(c.max_message_size(), 1000);
    assert_eq!(c.fragment_threshold(), 2000);
    assert_eq!(c.max_fragments(), 3000);
    assert_eq!(c.max_forward_hops(), 4);
    assert_eq!(c.follow_timeout(), Duration::from_secs(5));
    assert_eq!(c.max_connections(), 6);
    assert_eq!(c.stop_poll(), Duration::from_millis(7));
    assert_eq!(c.message_timeout(), Duration::from_secs(8));
    assert!(rest.is_empty(), "every one of them was consumed");
    assert!(!c.is_empty());
}

#[test]
fn recognised_arguments_are_removed_and_the_rest_survive_in_order() {
    let (c, rest) = OrbConfig::from_orb_args(&args(
        "serve --port 9000 -ORBmaxConnections 12 --verbose \
         -ORBInitRef NameService=corbaloc::h.test:2809/NameService last",
    ))
    .unwrap();
    assert_eq!(rest, args("serve --port 9000 --verbose last"));
    assert_eq!(c.max_connections(), 12);
    assert_eq!(
        c.initial_references(),
        [("NameService".to_owned(), "corbaloc::h.test:2809/NameService".to_owned())]
    );
}

#[test]
fn init_ref_takes_the_forms_the_specification_prints() {
    let (c, _) = OrbConfig::from_orb_args(&args(
        "-ORBInitRef NameService=IOR:00230021AB \
         -ORBInitRef NotificationService=corbaloc::555objs.com/NotificationService \
         -ORBInitRef TradingService=corbaname::555objs.com#Dev/Trader",
    ))
    .unwrap();
    assert_eq!(
        c.initial_references(),
        [
            ("NameService".to_owned(), "IOR:00230021AB".to_owned()),
            (
                "NotificationService".to_owned(),
                "corbaloc::555objs.com/NotificationService".to_owned()
            ),
            ("TradingService".to_owned(), "corbaname::555objs.com#Dev/Trader".to_owned()),
        ],
        "the reading is deferred: the argument's shape is fixed, not its value's"
    );
}

#[test]
fn init_ref_refuses_a_rir_url_as_the_specification_requires() {
    for url in ["corbaloc:rir:NameService", "corbaloc:rir:/NameService", "CORBALOC:RIR:"] {
        let err = OrbConfig::from_orb_args(&args(&format!("-ORBInitRef NameService={url}")))
            .unwrap_err();
        assert!(matches!(err, ConfigError::RirInInitRef { .. }), "{url} should be refused");
        let said = err.message();
        assert!(said.contains("NameService"), "{said}");
        assert!(said.contains(url), "{said}");
        assert!(said.contains("§8.5.3.2"), "{said}");
    }
    assert!(
        OrbConfig::from_orb_args(&args("-ORBInitRef X=corbaloc::h/K")).is_ok(),
        "only the rir protocol is excluded"
    );
}

#[test]
fn every_refusal_names_the_argument_the_value_and_the_expectation() {
    let unknown = OrbConfig::from_orb_args(&args("-ORBmaxMessages 5")).unwrap_err();
    assert!(matches!(unknown, ConfigError::Unknown { .. }));
    let said = unknown.message();
    assert!(said.contains("-ORBmaxMessages"), "{said}");
    assert!(said.contains("§8.5.1"), "{said}");
    assert!(said.contains("-ORBmaxMessageSize"), "the near miss is listed: {said}");

    let missing = OrbConfig::from_orb_args(&args("-ORBmaxConnections")).unwrap_err();
    assert!(matches!(missing, ConfigError::MissingValue { .. }));
    let said = missing.message();
    assert!(said.contains("-ORBmaxConnections") && said.contains("a count"), "{said}");

    let bad = OrbConfig::from_orb_args(&args("-ORBstopPollMs soon")).unwrap_err();
    let said = bad.message();
    assert!(said.contains("-ORBstopPollMs"), "{said}");
    assert!(said.contains("\"soon\""), "the value: {said}");
    assert!(said.contains("milliseconds"), "the expectation, with its unit: {said}");

    let dup =
        OrbConfig::from_orb_args(&args("-ORBInitRef N=corbaloc::a/K -ORBInitRef N=corbaloc::b/K"))
            .unwrap_err();
    assert!(matches!(dup, ConfigError::DuplicateInitRef { .. }));
    let said = dup.message();
    assert!(
        said.contains('N') && said.contains("corbaloc::a/K") && said.contains("corbaloc::b/K"),
        "{said}"
    );
    assert!(said.contains("§16.10.1"), "{said}");

    let shapeless = OrbConfig::from_orb_args(&args("-ORBInitRef NameService")).unwrap_err();
    assert!(shapeless.message().contains("§8.5.3.2"), "{}", shapeless.message());
    let empty_id = OrbConfig::from_orb_args(&args("-ORBInitRef =corbaloc::h/K")).unwrap_err();
    assert!(empty_id.message().contains("non-empty"), "{}", empty_id.message());
}

#[test]
fn a_standard_argument_we_lack_is_told_apart_from_a_typo() {
    for arg in UNIMPLEMENTED {
        let err = OrbConfig::from_orb_args(&args(&format!("{arg} whatever"))).unwrap_err();
        assert!(matches!(err, ConfigError::Unimplemented { .. }), "{arg}: {}", err.message());
        let said = err.message();
        assert!(said.contains(arg), "{said}");
        assert!(said.contains("CORBA 3.4 §"), "the reason cites its sub clause: {said}");
    }
    assert!(matches!(
        OrbConfig::from_orb_args(&args("-ORBmagicalThinking 1")),
        Err(ConfigError::Unknown { .. })
    ));
}

#[test]
fn a_zero_is_refused_wherever_zero_is_never_meant() {
    for arg in NUMERIC {
        let err = OrbConfig::from_orb_args(&args(&format!("{arg} 0"))).unwrap_err();
        assert!(matches!(err, ConfigError::BadValue { .. }), "{arg} 0 was accepted");
        assert!(err.message().contains(arg), "{}", err.message());
    }
    assert!(matches!(
        OrbConfig::from_orb_args(&args("-ORBmaxForwardHops 256")),
        Err(ConfigError::BadValue { .. })
    ));
    assert!(OrbConfig::from_orb_args(&args("-ORBmaxForwardHops 255")).is_ok());
}

#[test]
fn a_configuration_is_refused_whole_and_never_applied_in_part() {
    let bad = args(
        "-ORBmaxMessageSize 1000 -ORBfragmentThreshold 2000 -ORBmaxFragments 3000 \
         -ORBmaxForwardHops 4 -ORBfollowTimeoutMs 5000 -ORBmaxConnections 6 \
         -ORBstopPollMs zero",
    );
    assert!(OrbConfig::from_orb_args(&bad).is_err());
    let (good, _) = OrbConfig::from_orb_args(&bad[..bad.len() - 2]).unwrap();
    assert_eq!(good.max_message_size(), 1000, "the same six read fine on their own");
    assert_eq!(good.stop_poll(), Duration::from_millis(STOP_POLL_MS), "the seventh stayed at its default");
}

#[test]
fn an_orb_prefixed_argument_is_never_passed_through_silently() {
    assert!(matches!(
        OrbConfig::from_orb_args(&args("-ORBtypo 1")),
        Err(ConfigError::Unknown { .. })
    ));
    assert!(
        matches!(OrbConfig::from_orb_args(&args("-ORB")), Err(ConfigError::Unknown { .. })),
        "a bare -ORB is the pattern with an empty suffix, not a program argument"
    );
    let (_, rest) = OrbConfig::from_orb_args(&args("-orbfoo --ORBbar ORB")).unwrap();
    assert_eq!(rest, args("-orbfoo --ORBbar ORB"), "case-sensitive and prefix-anchored");
}
