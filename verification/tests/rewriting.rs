use orbweaver_giop::rewriting::{
    alternate_address, rewrite, rewrite_stringified, EndpointMap, MapError, RawIor, RawProfile,
    Rule, Where,
};
use orbweaver_giop::{
    Decoder, Endian, IiopProfile, Ior, TaggedComponent, Version, TAG_ALTERNATE_IIOP_ADDRESS,
    TAG_INTERNET_IOP,
};

fn profile(host: &str, port: u16, alternates: &[(&str, u16)]) -> IiopProfile {
    IiopProfile {
        version: Version::v1_2(),
        host: host.into(),
        port,
        object_key: b"servant-identity".to_vec(),
        components: alternates
            .iter()
            .map(|(h, p)| alternate_address(h, *p, Endian::Little).unwrap())
            .collect(),
    }
}

fn raw_of(profiles: &[IiopProfile], extra: &[RawProfile]) -> RawIor {
    let mut out: Vec<RawProfile> = profiles
        .iter()
        .map(|p| RawProfile {
            tag: TAG_INTERNET_IOP,
            body: p.encapsulate(Endian::Little).unwrap().finish().unwrap(),
        })
        .collect();
    out.extend_from_slice(extra);
    RawIor { type_id: "IDL:spike/Echo:1.0".into(), profiles: out, endian: Endian::Little }
}

fn foreign() -> RawProfile {
    RawProfile { tag: 1, body: vec![1, 9, 9, 9, 0, 0, 0, 7] }
}

#[test]
fn rules_parse_in_every_shape_the_docs_promise() {
    let m = EndpointMap::parse(
        "10.244.3.17:5555=203.0.113.9:31000, 10.244.3.18=203.0.113.9 *=lb.example",
    )
    .unwrap();
    assert_eq!(m.rules().len(), 3);
    assert_eq!(m.apply("10.244.3.17", 5555), Some(("203.0.113.9".into(), 31000)));
    assert_eq!(m.apply("10.244.3.18", 4242), Some(("203.0.113.9".into(), 4242)));
    assert_eq!(m.apply("10.244.3.17", 9), Some(("lb.example".into(), 9)));
    assert_eq!(
        m.text(),
        "10.244.3.17:5555=203.0.113.9:31000,10.244.3.18=203.0.113.9,*=lb.example"
    );
}

#[test]
fn ipv6_needs_brackets_and_then_works() {
    assert_eq!(
        Rule::parse("fd00::1:5555=192.0.2.1:5555"),
        Err(MapError::UnbracketedIpv6("fd00::1:5555=192.0.2.1:5555".into()))
    );
    let r = Rule::parse("[fd00::1]:5555=[2001:db8::1]:683").unwrap();
    assert_eq!(r.apply("fd00::1", 5555), Some(("2001:db8::1".into(), 683)));
    assert_eq!(r.apply("fd00:0:0:0:0:0:0:1", 5555), Some(("2001:db8::1".into(), 683)));
}

#[test]
fn a_rule_that_cannot_mean_anything_is_refused() {
    assert!(matches!(Rule::parse("10.0.0.1"), Err(MapError::NoSeparator(_))));
    assert!(matches!(Rule::parse("=10.0.0.1"), Err(MapError::EmptyHost(_))));
    assert!(matches!(Rule::parse("a:70000=b:1"), Err(MapError::BadPort(_))));
    assert!(matches!(Rule::parse("a:1=b:0"), Err(MapError::BadPort(_))));
    assert!(matches!(Rule::parse("a=*"), Err(MapError::WildcardTarget(_))));
}

#[test]
fn first_matching_rule_wins_so_an_identity_guard_works() {
    let map = EndpointMap::new()
        .with(Rule::endpoint("10.0.0.1", 683, "10.0.0.1", 683))
        .with(Rule::any_host("203.0.113.9"));
    assert_eq!(map.apply("10.0.0.1", 683), Some(("10.0.0.1".into(), 683)));
    assert_eq!(map.apply("10.0.0.2", 683), Some(("203.0.113.9".into(), 683)));
}

#[test]
fn ior_drops_a_profile_it_does_not_speak() {
    let raw = raw_of(&[profile("10.244.3.17", 5555, &[])], &[foreign()]);
    let text = raw.to_stringified().unwrap();
    assert_eq!(RawIor::parse(&text).unwrap().profiles.len(), 2);
    let dialing = Ior::parse(&text).unwrap();
    assert_eq!(dialing.profiles.len(), 1, "Ior keeps only IIOP profiles");
    let round = Ior::parse(&dialing.to_stringified().unwrap()).unwrap();
    assert_eq!(round.profiles.len(), 1);
    assert_eq!(RawIor::parse(&dialing.to_stringified().unwrap()).unwrap().profiles.len(), 1);
}

#[test]
fn empty_map_is_byte_identical() {
    let raw = raw_of(&[profile("10.244.3.17", 5555, &[("10.244.3.18", 5555)])], &[foreign()]);
    let before = raw.to_stringified().unwrap();
    let (after, report) = rewrite_stringified(&before, &EndpointMap::new()).unwrap();
    assert_eq!(after, before, "an empty map must be the identity on the wire");
    assert!(!report.changed_anything());
    assert_eq!(report.unmapped.len(), 2, "both endpoints reported as unmapped");
}

#[test]
fn a_profile_we_do_not_understand_survives_verbatim() {
    let raw = raw_of(&[profile("10.244.3.17", 5555, &[])], &[foreign()]);
    let map = EndpointMap::new().with(Rule::any_host("203.0.113.9"));
    let (out, report) = rewrite(&raw, &map).unwrap();
    assert_eq!(report.profiles, 2);
    assert_eq!(report.foreign_profiles, 1);
    assert_eq!(out.profiles[1], foreign(), "tag and body must be untouched");
    assert_eq!(out.profiles.len(), raw.profiles.len(), "profile count is preserved");
}

#[test]
fn identity_and_version_are_never_rewritten() {
    let raw = raw_of(&[profile("10.244.3.17", 5555, &[])], &[]);
    let map = EndpointMap::new().with(Rule::endpoint("10.244.3.17", 5555, "203.0.113.9", 683));
    let (out, _) = rewrite(&raw, &map).unwrap();
    let before = raw.to_ior().unwrap();
    let after = out.to_ior().unwrap();
    assert_eq!(after.type_id, before.type_id);
    assert_eq!(after.profiles[0].object_key, before.profiles[0].object_key);
    assert_eq!(after.profiles[0].version, before.profiles[0].version);
    assert_eq!(after.profiles[0].host, "203.0.113.9");
    assert_eq!(after.profiles[0].port, 683);
}

#[test]
fn every_profile_is_rewritten_not_only_the_first() {
    let raw = raw_of(&[profile("10.244.3.17", 5555, &[]), profile("10.244.3.18", 5556, &[])], &[]);
    let map = EndpointMap::new()
        .with(Rule::endpoint("10.244.3.17", 5555, "203.0.113.9", 31000))
        .with(Rule::endpoint("10.244.3.18", 5556, "203.0.113.9", 31001));
    let (out, report) = rewrite(&raw, &map).unwrap();
    let after = out.to_ior().unwrap();
    assert_eq!(report.changed.len(), 2);
    assert_eq!(after.profiles[0].endpoints(), vec![("203.0.113.9".into(), 31000)]);
    assert_eq!(after.profiles[1].endpoints(), vec![("203.0.113.9".into(), 31001)]);
    assert!(report.unmapped.is_empty());
}

#[test]
fn alternates_are_rewritten_because_the_client_dials_them() {
    let raw = raw_of(
        &[profile("10.244.3.17", 5555, &[("10.244.3.18", 5555), ("10.244.3.19", 5555)])],
        &[],
    );
    let map = EndpointMap::new().with(Rule::any_host("203.0.113.9"));
    let (out, report) = rewrite(&raw, &map).unwrap();
    let after = out.to_ior().unwrap();
    assert_eq!(
        after.profiles[0].endpoints(),
        vec![
            ("203.0.113.9".to_string(), 5555),
            ("203.0.113.9".to_string(), 5555),
            ("203.0.113.9".to_string(), 5555)
        ],
        "every endpoint the failover path derives must be rewritten, in order"
    );
    assert_eq!(report.changed.len(), 3);
    assert_eq!(report.changed[1].site, Where::Alternate);
}

#[test]
fn a_malformed_alternate_is_kept_not_repaired() {
    let mut p = profile("10.244.3.17", 5555, &[]);
    p.components.push(TaggedComponent { tag: TAG_ALTERNATE_IIOP_ADDRESS, data: vec![1, 255] });
    let raw = raw_of(&[p], &[]);
    let map = EndpointMap::new().with(Rule::any_host("203.0.113.9"));
    let (out, report) = rewrite(&raw, &map).unwrap();
    assert_eq!(report.malformed_alternates, 1);
    let after = out.to_ior().unwrap();
    assert_eq!(after.profiles[0].components[0].data, vec![1, 255]);
    assert_eq!(after.profiles[0].host, "203.0.113.9");
}

#[test]
fn unmapped_alternates_are_dropped_only_when_asked_and_profiles_never_are() {
    let raw = raw_of(&[profile("10.244.3.17", 5555, &[("10.9.9.9", 5555)])], &[]);
    let map = EndpointMap::new()
        .with(Rule::endpoint("10.244.3.17", 5555, "203.0.113.9", 31000))
        .drop_unmapped_alternates(true);
    let (out, report) = rewrite(&raw, &map).unwrap();
    assert_eq!(report.dropped, vec![("10.9.9.9".to_string(), 5555)]);
    let after = out.to_ior().unwrap();
    assert_eq!(after.profiles.len(), 1, "the profile itself survives");
    assert_eq!(after.profiles[0].endpoints(), vec![("203.0.113.9".into(), 31000)]);

    let raw = raw_of(&[profile("10.9.9.9", 5555, &[])], &[]);
    let (out, report) = rewrite(&raw, &map).unwrap();
    assert_eq!(out.profiles.len(), 1);
    assert_eq!(report.unmapped, vec![("10.9.9.9".to_string(), 5555)]);
    assert!(report.dropped.is_empty());
}

#[test]
fn byte_order_is_preserved_on_both_sides() {
    for endian in [Endian::Big, Endian::Little] {
        let p = IiopProfile {
            version: Version::v1_2(),
            host: "10.244.3.17".into(),
            port: 5555,
            object_key: b"k".to_vec(),
            components: vec![alternate_address("10.244.3.18", 5555, endian).unwrap()],
        };
        let raw = RawIor {
            type_id: "IDL:spike/Echo:1.0".into(),
            profiles: vec![RawProfile {
                tag: TAG_INTERNET_IOP,
                body: p.encapsulate(endian).unwrap().finish().unwrap(),
            }],
            endian,
        };
        let map = EndpointMap::new().with(Rule::any_host("203.0.113.9"));
        let (out, _) = rewrite(&raw, &map).unwrap();
        assert_eq!(out.endian, endian, "outer encapsulation keeps its byte order");
        let body = &out.profiles[0].body;
        assert_eq!(
            Decoder::encapsulation(body).unwrap().endian(),
            endian,
            "profile encapsulation keeps its byte order"
        );
        let after = out.to_ior().unwrap();
        assert_eq!(
            after.profiles[0].endpoints(),
            vec![("203.0.113.9".to_string(), 5555), ("203.0.113.9".to_string(), 5555)]
        );
    }
}

#[test]
fn a_1_0_profile_rewrites_without_growing_a_component_list() {
    let p = IiopProfile {
        version: Version::v1_0(),
        host: "10.244.3.17".into(),
        port: 5555,
        object_key: b"k".to_vec(),
        components: Vec::new(),
    };
    let raw = raw_of(&[p], &[]);
    let map = EndpointMap::new().with(Rule::any_host("203.0.113.9"));
    let (out, _) = rewrite(&raw, &map).unwrap();
    let after = out.to_ior().unwrap();
    assert_eq!(after.profiles[0].version, Version::v1_0());
    assert!(after.profiles[0].components.is_empty());
    let mut d = Decoder::encapsulation(&out.profiles[0].body).unwrap();
    d.get_u8().unwrap();
    d.get_u8().unwrap();
    d.get_string_bytes().unwrap();
    d.get_u16().unwrap();
    d.get_octet_seq().unwrap();
    assert!(d.is_empty(), "a 1.0 profile must end after the object key");
}

#[test]
fn an_undecodable_iiop_profile_fails_the_rewrite() {
    let truncated = RawProfile { tag: TAG_INTERNET_IOP, body: vec![1, 1, 2, 0] };
    let raw = RawIor {
        type_id: "IDL:spike/Echo:1.0".into(),
        profiles: vec![truncated],
        endian: Endian::Little,
    };
    let map = EndpointMap::new().with(Rule::any_host("203.0.113.9"));
    assert!(rewrite(&raw, &map).is_err());
    assert!(Ior::parse(&raw.to_stringified().unwrap()).is_err(), "and Ior agrees");
}

#[test]
fn a_nil_reference_survives_a_rewrite() {
    let raw = RawIor { type_id: String::new(), profiles: Vec::new(), endian: Endian::Little };
    let map = EndpointMap::new().with(Rule::any_host("203.0.113.9"));
    let (out, report) = rewrite(&raw, &map).unwrap();
    assert!(out.to_ior().unwrap().is_nil());
    assert_eq!(report.profiles, 0);
}

#[test]
fn a_rewritten_reference_is_still_a_parseable_ior() {
    let raw = raw_of(&[profile("10.244.3.17", 5555, &[("10.244.3.18", 5555)])], &[foreign()]);
    let map = EndpointMap::new().with(Rule::any_host("127.0.0.1"));
    let (text, _) = rewrite_stringified(&raw.to_stringified().unwrap(), &map).unwrap();
    let ior = Ior::parse(&text).unwrap();
    assert_eq!(ior.primary().unwrap().host, "127.0.0.1");
    assert_eq!(RawIor::parse(&text).unwrap().profiles.len(), 2);
}

#[test]
fn a_map_error_names_the_rule_it_refused() {
    let e = Rule::parse("a:1=b:0").unwrap_err();
    assert!(e.message().contains("a:1=b:0"), "{}", e.message());
}

#[test]
fn a_report_reads_as_one_line_and_each_change_as_another() {
    let raw = raw_of(&[profile("10.244.3.17", 5555, &[])], &[foreign()]);
    let map = EndpointMap::new().with(Rule::any_host("203.0.113.9"));
    let (_, report) = rewrite(&raw, &map).unwrap();
    assert_eq!(
        report.text(),
        "2 profile(s): 1 IIOP, 1 preserved unread; 1 endpoint(s) rewritten, 0 unmapped, \
         0 alternate(s) dropped, 0 malformed alternate(s)"
    );
    assert_eq!(report.changed[0].text(), "profile 0 profile address: 10.244.3.17:5555 -> 203.0.113.9:5555");
    assert_eq!(Where::Alternate.text(), "alternate");
}
