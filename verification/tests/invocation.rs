use orbweaver_giop::invocation::{answer_and_framing, answer_of, Fallback, Recovery, Route};
use orbweaver_giop::message::Outcome;
use orbweaver_giop::{
    Encoder, Endian, Error, Forward, IiopProfile, Ior, MsgType, RawMessage, Version, HEADER_LEN,
    MAGIC, MAX_FORWARD_HOPS,
};

fn reply(id: u32, status: u32) -> RawMessage {
    let mut e = Encoder::new(Endian::Little);
    e.put_bytes(&MAGIC);
    e.put_u8(1);
    e.put_u8(2);
    e.put_u8(1);
    e.put_u8(MsgType::Reply.octet());
    let size_at = e.len();
    e.put_u32(0);
    e.put_u32(id);
    e.put_u32(status);
    e.put_u32(0);
    e.align_to(8);
    e.put_u32(42);
    let size = (e.len() - HEADER_LEN) as u32;
    e.patch_u32(size_at, size);
    RawMessage {
        msg_type: MsgType::Reply,
        version: Version::v1_2(),
        endian: Endian::Little,
        more_fragments: false,
        fragments: 1,
        bytes: e.finish().unwrap(),
    }
}

fn bare(t: MsgType) -> RawMessage {
    RawMessage {
        msg_type: t,
        version: Version::v1_2(),
        endian: Endian::Big,
        more_fragments: false,
        fragments: 1,
        bytes: vec![b'G', b'I', b'O', b'P', 1, 2, 0, t.octet(), 0, 0, 0, 0],
    }
}

fn at(host: &str) -> Ior {
    Ior {
        type_id: "IDL:m/I:1.0".into(),
        profiles: vec![IiopProfile {
            version: Version::v1_2(),
            host: host.into(),
            port: 1,
            object_key: b"k".to_vec(),
            components: Vec::new(),
        }],
    }
}

#[test]
fn the_reply_to_this_request_is_the_answer() {
    match answer_of(reply(7, 0), 7) {
        Ok(Outcome::Done(r)) => assert_eq!(r.body().unwrap().get_u32().unwrap(), 42),
        other => panic!("expected the reply, got {other:?}"),
    }
}

#[test]
fn a_reply_to_another_request_desynchronizes_and_may_have_run() {
    match answer_of(reply(8, 0), 7) {
        Err(f) => {
            assert!(matches!(f.error, Error::Desynchronized));
            assert!(!f.unsent);
        }
        other => panic!("expected a failure, got {other:?}"),
    }
}

#[test]
fn only_close_connection_says_the_request_did_not_run() {
    match answer_of(bare(MsgType::CloseConnection), 7) {
        Err(f) => assert!(f.unsent && matches!(f.error, Error::ConnectionClosed)),
        other => panic!("expected a failure, got {other:?}"),
    }
    match answer_of(bare(MsgType::Request), 7) {
        Err(f) => assert!(!f.unsent && matches!(f.error, Error::UnexpectedMessage(MsgType::Request))),
        other => panic!("expected a failure, got {other:?}"),
    }
    match answer_of(reply(7, 9), 7) {
        Err(f) => assert!(!f.unsent && matches!(f.error, Error::BadReplyStatus(9))),
        other => panic!("expected a failure, got {other:?}"),
    }
}

#[test]
fn a_failed_temporary_forward_falls_back_once_each_way() {
    let mut route = Route::new(at("origin"));
    route.begin_call();
    assert!(route.next_try());
    route.followed(Forward::Temporary(at("via")));
    assert_eq!(route.origin(), &at("origin"), "a temporary forward leaves the origin");

    // The request did not run and the connection is gone: redial the forward.
    match route.recover(true, true) {
        Recovery::Redial(i) => assert_eq!(i, at("via")),
        other => panic!("expected a redial, got {other:?}"),
    }
    // That failed too: the origin, then nothing.
    assert!(matches!(route.recover(true, true), Recovery::RestartAtOrigin));
    route.restarted();
    assert!(route.forwarded().is_none());
    assert!(matches!(route.recover(true, true), Recovery::GiveUp));
}

#[test]
fn only_unsent_failures_of_the_connection_under_a_temporary_forward_recover() {
    let mut route = Route::new(at("origin"));
    assert!(matches!(route.recover(true, true), Recovery::GiveUp), "no forward stands");
    route.followed(Forward::Temporary(at("via")));
    assert!(matches!(route.recover(false, true), Recovery::GiveUp), "it may have run");
    assert!(matches!(route.recover(true, false), Recovery::GiveUp), "this side's error");
    route.followed(Forward::Permanent(at("moved")));
    assert_eq!(route.origin(), &at("moved"), "a permanent forward replaces the origin");
    assert!(matches!(route.recover(true, true), Recovery::GiveUp), "not a temporary forward");

    let mut route = Route::new(at("origin"));
    route.followed(Forward::Temporary(at("via")));
    assert!(matches!(route.recover(true, true), Recovery::Redial(_)));
    route.redial_failed();
    assert!(matches!(route.recover(true, true), Recovery::GiveUp), "the fallback is spent");
    let _ = Fallback::Spent;
}

#[test]
fn a_call_makes_at_most_the_hop_limit_of_tries() {
    let mut route = Route::new(at("origin"));
    route.begin_call();
    let mut tries = 0;
    while route.next_try() {
        tries += 1;
    }
    assert_eq!(tries, MAX_FORWARD_HOPS as usize);
    route.begin_call();
    assert!(route.next_try(), "a new call starts afresh");
}

#[test]
fn an_answered_exception_keeps_the_connection_and_a_stray_message_loses_it() {
    let (answer, lost) = answer_and_framing(reply(7, 0), 7);
    assert!(answer.is_ok() && !lost);
    let (answer, lost) = answer_and_framing(reply(7, 1), 7);
    assert!(answer.is_err() && !lost, "a user exception answers the call; framing holds");
    let (answer, lost) = answer_and_framing(reply(7, 2), 7);
    assert!(answer.is_err() && !lost, "so does a system exception");
    let (answer, lost) = answer_and_framing(reply(8, 0), 7);
    assert!(matches!(answer, Err(f) if matches!(f.error, Error::Desynchronized)) && lost);
    let (answer, lost) = answer_and_framing(bare(MsgType::CloseConnection), 7);
    assert!(matches!(answer, Err(f) if f.unsent) && lost);
    let (_, lost) = answer_and_framing(bare(MsgType::Request), 7);
    assert!(lost);
}
