use orbweaver_giop::pool::{
    Attempt, Chain, ConnState, Key, Limits, Look, PoolBook, Routing, Then, Tried, DEFAULT_MAX_TOTAL,
};
use orbweaver_giop::codeset::{
    agreed_codeset, negotiated_char_codeset, CharCodeset, ISO_8859_1, TAG_CODE_SETS, UTF_16, UTF_8,
};
use orbweaver_giop::{Encoder, Endian, Forward, IiopProfile, Ior, TaggedComponent, Version};

fn profile(host: &str, port: u16, minor: u8) -> IiopProfile {
    IiopProfile {
        version: Version { major: 1, minor },
        host: host.into(),
        port,
        object_key: b"key".to_vec(),
        components: Vec::new(),
    }
}

fn free() -> ConnState {
    ConnState { usable: true, multiplexes: true, in_flight: 0, idle_ms: 0 }
}

#[test]
fn the_object_key_is_not_part_of_the_key() {
    let mut a = profile("h", 1, 2);
    let mut b = profile("h", 1, 2);
    a.object_key = b"one".to_vec();
    b.object_key = b"another".to_vec();
    assert_eq!(Key::of(&a, "h", 1), Key::of(&b, "h", 1));
}

/// A `TAG_CODE_SETS` body advertising UTF-8 for `char`, which is what a
/// client here negotiates to.
fn code_sets_component() -> Vec<u8> {
    let mut e = Encoder::encapsulation(Endian::Little);
    e.put_u32(UTF_8); // native char
    e.put_u32(1);
    e.put_u32(UTF_8); // conversion
    e.put_u32(UTF_16); // native wchar
    e.put_u32(0);
    e.finish().expect("encapsulation encodes")
}

#[test]
fn the_key_separates_versions_and_codesets() {
    let a = profile("h", 1, 2);
    let b = profile("h", 1, 0);
    assert_ne!(Key::of(&a, "h", 1), Key::of(&b, "h", 1), "version is part of the key");

    let mut with_codeset = profile("h", 1, 2);
    with_codeset
        .components
        .push(TaggedComponent { tag: TAG_CODE_SETS, data: code_sets_component() });
    assert_ne!(
        Key::of(&a, "h", 1),
        Key::of(&with_codeset, "h", 1),
        "a negotiated codeset is per connection, so it is part of the key"
    );
    assert_eq!(Key::of(&with_codeset, "h", 1).codeset, Some(UTF_8));
    assert_eq!(Key::of(&a, "h", 1).codeset, None);
    assert_eq!(Key::of(&a, "h", 1), Key::of(&profile("h", 1, 2), "h", 1));
    assert_eq!(Key::of(&profile("h", 1, 9), "h", 1).version, Version::v1_2());
}

#[test]
fn an_ior_without_a_profile_is_refused() {
    let nil = Ior { type_id: String::new(), profiles: Vec::new() };
    assert!(matches!(
        orbweaver_giop::pool::reference_key_list(&nil),
        Err(orbweaver_giop::Error::NoIiopProfile)
    ));
    assert_eq!(PoolBook::new().size(), 0);
}

#[test]
fn an_empty_book_dials_and_then_reuses() {
    let limits = Limits::default();
    let key = Key::of(&profile("h", 1, 2), "h", 1);
    let mut book = PoolBook::new();
    let (look, dropped) = book.look(&[key.clone()], &[], &limits, 20_000);
    assert_eq!(look, Look::Dial);
    assert!(dropped.is_empty());
    assert_eq!(book.size(), 1, "the reservation counts");
    book.file(Some(key.clone()), 7);
    assert_eq!(book.size(), 1);
    assert_eq!(book.stats().dialed, 1);

    let (look, _) = book.look(&[key.clone()], &[free()], &limits, 20_000);
    assert_eq!(look, Look::Reuse(7));
    assert_eq!(book.stats().reused, 1);
}

#[test]
fn faulted_and_idle_connections_are_swept() {
    let limits = Limits::default();
    let key = Key::of(&profile("h", 1, 2), "h", 1);
    let mut book = PoolBook::new();
    for id in 1..=3 {
        book.look(&[key.clone()], &vec![free(); book.ids().len()], &limits, 20_000);
        book.file(Some(key.clone()), id);
    }
    let states = [
        ConnState { usable: false, ..free() },
        ConnState { idle_ms: 30_000, ..free() },
        free(),
    ];
    let (look, dropped) = book.look(&[key.clone()], &states, &limits, 20_000);
    assert_eq!(look, Look::Reuse(3));
    assert_eq!(dropped, vec![1, 2]);
    assert_eq!(book.stats().faulted_evicted, 1);
    assert_eq!(book.stats().idle_evicted, 1);
    assert_eq!(book.ids(), vec![3]);
}

#[test]
fn a_busy_connection_is_shared_only_at_the_endpoint_bound() {
    let limits = Limits { soft_in_flight: 2, max_per_endpoint: 2, ..Limits::default() };
    let key = Key::of(&profile("h", 1, 2), "h", 1);
    let mut book = PoolBook::new();
    book.look(&[key.clone()], &[], &limits, 20_000);
    book.file(Some(key.clone()), 1);
    let busy = ConnState { in_flight: 2, ..free() };
    let (look, _) = book.look(&[key.clone()], &[busy], &limits, 20_000);
    assert_eq!(look, Look::Dial, "room for another connection: dial rather than pile on");
    book.file(Some(key.clone()), 2);
    let (look, _) = book.look(&[key.clone()], &[busy, ConnState { in_flight: 3, ..free() }], &limits, 20_000);
    assert_eq!(look, Look::Reuse(1), "at the endpoint bound the least loaded is shared");
}

#[test]
fn a_non_multiplexing_busy_connection_is_not_shared() {
    let limits = Limits::default();
    let key = Key::of(&profile("h", 1, 0), "h", 1);
    let mut book = PoolBook::new();
    book.look(&[key.clone()], &[], &limits, 20_000);
    book.file(Some(key.clone()), 1);
    let busy = ConnState { multiplexes: false, in_flight: 1, ..free() };
    let (look, _) = book.look(&[key.clone()], &[busy], &limits, 20_000);
    assert_eq!(look, Look::Dial);
}

#[test]
fn a_full_pool_evicts_the_longest_idle_then_refuses() {
    let limits = Limits { max_total: 2, ..Limits::default() };
    let a = Key::of(&profile("a", 1, 2), "a", 1);
    let b = Key::of(&profile("b", 1, 2), "b", 1);
    let c = Key::of(&profile("c", 1, 2), "c", 1);
    let mut book = PoolBook::new();
    book.look(&[a.clone()], &[], &limits, 20_000);
    book.file(Some(a.clone()), 1);
    book.look(&[b.clone()], &[free()], &limits, 20_000);
    book.file(Some(b.clone()), 2);

    let states = [ConnState { idle_ms: 5, ..free() }, ConnState { idle_ms: 9, ..free() }];
    let (look, dropped) = book.look(&[c.clone()], &states, &limits, 20_000);
    assert_eq!(look, Look::Dial);
    assert_eq!(dropped, vec![2], "the longest idle goes first");
    assert_eq!(book.stats().pressure_evicted, 1);
    book.file(Some(c.clone()), 3);

    let busy = ConnState { in_flight: 1, ..free() };
    let d = Key::of(&profile("d", 1, 2), "d", 1);
    let (look, dropped) = book.look(&[d.clone()], &[busy, busy], &limits, 20_000);
    assert_eq!(look, Look::Refuse { limit: 2 });
    assert!(dropped.is_empty(), "a connection with a call on it is never taken");
    assert_eq!(book.stats().refused, 1);
    assert_eq!(DEFAULT_MAX_TOTAL, 64);
}

#[test]
fn a_failed_dial_returns_its_reservation_and_discard_forgets_a_connection() {
    let limits = Limits::default();
    let key = Key::of(&profile("h", 1, 2), "h", 1);
    let mut book = PoolBook::new();
    book.look(&[key.clone()], &[], &limits, 20_000);
    book.give_back();
    assert_eq!(book.size(), 0);
    book.look(&[key.clone()], &[], &limits, 20_000);
    book.file(Some(key.clone()), 4);
    assert_eq!(book.discard(4), 1);
    assert_eq!(book.size(), 0);
    book.note_retry();
    assert_eq!(book.stats().retried, 1);
}

#[test]
fn keys_follow_every_endpoint_and_the_reached_one_is_found() {
    let ior = Ior {
        type_id: String::new(),
        profiles: vec![profile("a", 1, 2), profile("b", 2, 1)],
    };
    let keys = orbweaver_giop::pool::reference_key_list(&ior).unwrap();
    assert_eq!(keys.len(), 2);
    assert_eq!(keys[1].host, "b");
    assert_eq!(keys[1].version, Version::v1_1());
    let reached = orbweaver_giop::pool::reached_key_of(&ior, "b", 2).unwrap();
    assert_eq!(reached, keys[1]);
    assert!(orbweaver_giop::pool::reached_key_of(&ior, "c", 3).is_none());
}

fn at(host: &str) -> Ior {
    Ior { type_id: "IDL:m/I:1.0".into(), profiles: vec![profile(host, 1, 2)] }
}

#[test]
fn temporary_then_permanent_ends_re_pointed_with_nothing_cached() {
    let mut chain = Chain::new();
    chain.hop(Forward::Temporary(at("a")));
    chain.hop(Forward::Permanent(at("b")));
    assert_eq!(chain.repoint, Some(at("b")));
    assert_eq!(chain.via, None);

    let mut r = Routing::new(at("origin"));
    let moved = r.note(chain);
    assert_eq!(moved, Some(at("b")), "every clone is told where the object went");
    assert_eq!(r.ior(), &at("b"));
    assert_eq!(r.target(), &at("b"));
    assert_eq!(r.forwarded(), Some(&Forward::Permanent(at("b"))));
}

#[test]
fn permanent_then_temporary_caches_the_hop_relative_to_the_new_address() {
    let mut chain = Chain::new();
    chain.hop(Forward::Permanent(at("a")));
    chain.hop(Forward::Temporary(at("b")));
    let mut r = Routing::new(at("origin"));
    r.note(chain);
    assert_eq!(r.ior(), &at("a"));
    assert_eq!(r.target(), &at("b"));
    assert!(r.has_via());

    // The cached hop fails unsent: restart at the reference as it stands.
    r.restart();
    assert_eq!(r.target(), &at("a"));
    assert_eq!(r.forwarded(), None);

    // An answer where it was sent changes nothing.
    assert_eq!(r.note(Chain::new()), None);
    assert_eq!(r.ior(), &at("a"));
}

#[test]
fn a_move_seen_through_a_clone_drops_stale_forwarding() {
    let mut chain = Chain::new();
    chain.hop(Forward::Temporary(at("t")));
    let mut r = Routing::new(at("origin"));
    r.note(chain);
    let mut copy = r.duplicate();
    assert_eq!(copy.target(), &at("t"));

    copy.refresh(&at("origin"));
    assert_eq!(copy.target(), &at("t"), "no move, nothing dropped");
    copy.refresh(&at("elsewhere"));
    assert_eq!(copy.ior(), &at("elsewhere"));
    assert_eq!(copy.target(), &at("elsewhere"));
    assert_eq!(copy.forwarded(), None);
}

#[test]
fn an_attempt_follows_forwards_retries_once_and_stops_at_the_limit() {
    let (mut a, first) = Attempt::start(at("origin"), 3);
    assert_eq!(first, Then::Call);
    assert_eq!(a.step(Tried::Forwarded(Forward::Temporary(at("x")))), Then::Call);
    assert_eq!(a.target(), &at("x"));
    assert_eq!(a.step(Tried::Failed { unsent: true }), Then::Call, "the re-send is the third try");
    assert!(a.retried());
    assert_eq!(
        a.step(Tried::Forwarded(Forward::Permanent(at("y")))),
        Then::TooManyForwards,
        "three tries and no answer"
    );

    let (mut b, _) = Attempt::start(at("origin"), 10);
    assert_eq!(b.step(Tried::Failed { unsent: true }), Then::Call);
    assert_eq!(b.target(), &at("origin"), "a re-send goes to the same target");
    assert_eq!(b.step(Tried::Failed { unsent: true }), Then::GiveUp { unsent: true }, "once only");

    let (mut c, _) = Attempt::start(at("origin"), 10);
    assert_eq!(c.step(Tried::Failed { unsent: false }), Then::GiveUp { unsent: false });
    let (mut d, _) = Attempt::start(at("origin"), 10);
    assert_eq!(d.step(Tried::NoConnection), Then::GiveUp { unsent: true });
    assert_eq!(d.step(Tried::Replied), Then::Answered);
    let chain = d.into_chain();
    assert!(chain.last.is_none());

    let (_, none) = Attempt::start(at("origin"), 0);
    assert_eq!(none, Then::TooManyForwards);
}

#[test]
fn a_dial_under_way_counts_against_the_bound() {
    let limits = Limits { max_total: 1, ..Limits::default() };
    let a = Key::of(&profile("a", 1, 2), "a", 1);
    let b = Key::of(&profile("b", 1, 2), "b", 1);
    let mut book = PoolBook::new();
    let (look, _) = book.look(&[a.clone()], &[], &limits, 20_000);
    assert_eq!(look, Look::Dial);
    assert_eq!(book.size(), 1);
    let (look, _) = book.look(&[b.clone()], &[], &limits, 20_000);
    assert_eq!(look, Look::Refuse { limit: 1 });
    assert_eq!(book.size(), 1);
    book.file(Some(a.clone()), 1);
    assert_eq!(book.size(), 1);
    let busy = ConnState { in_flight: 1, ..free() };
    let (look, _) = book.look(&[b.clone()], &[busy], &limits, 20_000);
    assert_eq!(look, Look::Refuse { limit: 1 });
    assert_eq!(book.size(), 1);
}

#[test]
fn a_run_of_hops_keeps_the_last_permanent_and_the_last_temporary_after_it() {
    let mut chain = Chain::new();
    chain.hop(Forward::Permanent(at("a")));
    chain.hop(Forward::Temporary(at("b")));
    chain.hop(Forward::Permanent(at("c")));
    chain.hop(Forward::Temporary(at("d")));
    chain.hop(Forward::Temporary(at("e")));
    assert_eq!(chain.repoint, Some(at("c")));
    assert_eq!(chain.via, Some(at("e")));
    assert_eq!(chain.last, Some(Forward::Temporary(at("e"))));

    let mut chain = Chain::new();
    chain.hop(Forward::Temporary(at("b")));
    chain.hop(Forward::Permanent(at("a")));
    assert_eq!(chain.repoint, Some(at("a")));
    assert_eq!(chain.via, None);
    assert_eq!(chain.last, Some(Forward::Permanent(at("a"))));
}

fn code_sets(native: u32, conversions: &[u32]) -> TaggedComponent {
    let mut e = Encoder::encapsulation(Endian::Big);
    e.put_u32(native);
    e.put_u32(conversions.len() as u32);
    for c in conversions {
        e.put_u32(*c);
    }
    e.put_u32(UTF_16);
    e.put_u32(0);
    TaggedComponent { tag: TAG_CODE_SETS, data: e.finish().unwrap() }
}

#[test]
fn the_char_code_set_is_agreed_from_the_profile() {
    let with = |c: TaggedComponent| {
        let mut p = profile("h", 1, 2);
        p.components.push(c);
        p
    };
    let ebcdic = 0x1001_0001u32;
    assert_eq!(negotiated_char_codeset(&profile("h", 1, 2)), CharCodeset::Unspecified);
    assert_eq!(agreed_codeset(&with(code_sets(UTF_8, &[]))), Some(UTF_8));
    assert_eq!(agreed_codeset(&with(code_sets(ISO_8859_1, &[UTF_8]))), Some(UTF_8), "the server converts to ours");
    assert_eq!(agreed_codeset(&with(code_sets(ISO_8859_1, &[]))), Some(ISO_8859_1), "we convert to the server's");
    assert_eq!(agreed_codeset(&with(code_sets(ebcdic, &[ISO_8859_1]))), Some(ISO_8859_1), "a common conversion");
    assert_eq!(negotiated_char_codeset(&with(code_sets(ebcdic, &[]))), CharCodeset::Incompatible);
    assert_eq!(agreed_codeset(&with(code_sets(ebcdic, &[]))), None);
    let unreadable = TaggedComponent { tag: TAG_CODE_SETS, data: vec![0, 1, 2] };
    assert_eq!(negotiated_char_codeset(&with(unreadable)), CharCodeset::Unspecified, "an unreadable one is passed over");
    assert_eq!(Key::of(&with(code_sets(ISO_8859_1, &[])), "h", 1).codeset, Some(ISO_8859_1));
}
