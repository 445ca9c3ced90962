use orbweaver_giop::mux::{interpret, Collected, Fault, Inbox, IoKind, ReadOutcome, Sent, MAX_ABANDONED};
use orbweaver_giop::{
    decode_reply, Encoder, Endian, Error, MsgType, RawMessage, Version, HEADER_LEN, MAGIC,
};

#[test]
fn only_close_connection_reports_a_request_as_unsent() {
    assert!(Fault::Closed.unsent(1));
    assert!(!Fault::Desynchronized.unsent(1));
    assert!(!Fault::Io(IoKind::BrokenPipe, "gone".into()).unsent(1));
    assert!(Fault::Io(IoKind::BrokenPipe, "gone".into()).to_error(1).is_none());
    assert!(!Fault::Unexpected(MsgType::Request).unsent(1));
    assert!(matches!(Fault::Closed.to_error(1), Some(Error::ConnectionClosed)));
    assert!(matches!(Fault::Desynchronized.to_error(1), Some(Error::Desynchronized)));
}

#[test]
fn an_interruption_answers_each_caller_about_its_own_request() {
    let f = Fault::Interrupted {
        control: MsgType::CloseConnection,
        partial: MsgType::Reply,
        request_id: 7,
        received: 2,
    };
    assert!(!f.unsent(7), "the half-answered call was processed; re-sending would repeat it");
    assert!(f.unsent(8), "a caller that got nothing back is still covered");
    assert!(matches!(
        f.to_error(7),
        Some(Error::InterruptedMidReassembly { control: MsgType::CloseConnection, received: 2, .. })
    ));
    assert!(matches!(f.to_error(8), Some(Error::ConnectionClosed)));
    assert!(f.to_error(7).unwrap().is_orderly_close() && f.to_error(8).unwrap().is_orderly_close());

    let m = Fault::Interrupted {
        control: MsgType::MessageError,
        partial: MsgType::Reply,
        request_id: 7,
        received: 1,
    };
    assert!(!m.unsent(7) && !m.unsent(8));
    assert!(!m.to_error(7).unwrap().is_orderly_close(), "a report is not a goodbye");
    assert!(matches!(m.to_error(8), Some(Error::UnexpectedMessage(MsgType::MessageError))));
}

/// A 1.2 reply to `id` with status `NoException` and a one-word body.
fn reply_message(id: u32, word: u32) -> RawMessage {
    let mut e = Encoder::new(Endian::Big);
    e.put_bytes(&MAGIC);
    e.put_u8(1);
    e.put_u8(2);
    e.put_u8(0);
    e.put_u8(MsgType::Reply.octet());
    let size_at = e.len();
    e.put_u32(0);
    e.put_u32(id);
    e.put_u32(0);
    e.put_u32(0);
    e.align_to(8);
    e.put_u32(word);
    let size = (e.len() - HEADER_LEN) as u32;
    e.patch_u32(size_at, size);
    RawMessage {
        msg_type: MsgType::Reply,
        version: Version::v1_2(),
        endian: Endian::Big,
        more_fragments: false,
        fragments: 1,
        bytes: e.finish().unwrap(),
    }
}

fn control(t: MsgType) -> RawMessage {
    RawMessage {
        msg_type: t,
        version: Version::v1_2(),
        endian: Endian::Big,
        more_fragments: false,
        fragments: 1,
        bytes: vec![b'G', b'I', b'O', b'P', 1, 2, 0, t.octet(), 0, 0, 0, 0],
    }
}

#[test]
fn ids_start_where_the_connection_left_off_and_never_repeat() {
    let mut inbox = Inbox::new(5, false);
    assert_eq!(inbox.open(true), Ok(5));
    assert_eq!(inbox.open(false), Ok(6));
    assert_eq!(inbox.open(true), Ok(7));
    assert_eq!(inbox.next_id(), 8);
    assert_eq!(inbox.in_flight(), 2, "a oneway leaves no slot");
    assert_eq!(inbox.stats().sent, 2);
    assert_eq!(inbox.stats().peak_in_flight, 2);

    let mut zero = Inbox::new(0, false);
    assert_eq!(zero.open(true), Ok(1), "zero is never an id");
}

#[test]
fn replies_overtaking_older_requests_are_filed_and_counted() {
    let mut inbox = Inbox::new(1, false);
    let a = inbox.open(true).unwrap();
    let b = inbox.open(true).unwrap();
    assert!(matches!(inbox.collect(b), Collected::Waiting));

    inbox.file(ReadOutcome::Message(reply_message(b, 22)));
    assert_eq!(inbox.stats().out_of_order, 1, "b overtook a");
    match inbox.collect(b) {
        Collected::Answer(r) => {
            assert_eq!(r.request_id, b);
            assert_eq!(r.body().unwrap().get_u32().unwrap(), 22);
        }
        other => panic!("expected b's reply, got {other:?}"),
    }
    assert!(matches!(inbox.collect(b), Collected::Lost), "an answer is handed out once");

    inbox.file(ReadOutcome::Message(reply_message(a, 11)));
    assert_eq!(inbox.stats().out_of_order, 1, "a overtook nobody");
    assert!(matches!(inbox.collect(a), Collected::Answer(_)));
    assert_eq!(inbox.stats().answered, 2);
    assert_eq!(inbox.in_flight(), 0);
}

#[test]
fn a_late_reply_to_an_abandoned_call_is_dropped_and_counted() {
    let mut inbox = Inbox::new(1, false);
    let gone = inbox.open(true).unwrap();
    let live = inbox.open(true).unwrap();
    inbox.abandon(gone);
    assert_eq!(inbox.in_flight(), 1);

    inbox.file(ReadOutcome::Message(reply_message(gone, 1)));
    assert_eq!(inbox.stats().orphaned, 1);
    assert!(matches!(inbox.collect(gone), Collected::Lost));
    assert!(matches!(inbox.collect(live), Collected::Waiting), "nobody else got it");
    assert!(inbox.is_usable());

    inbox.file(ReadOutcome::Message(reply_message(999, 1)));
    assert_eq!(inbox.stats().orphaned, 2, "an id never sent is counted, not fatal");
    assert!(inbox.is_usable());
}

#[test]
fn an_answer_nobody_collects_is_orphaned_when_its_caller_gives_up() {
    let mut inbox = Inbox::new(1, false);
    let id = inbox.open(true).unwrap();
    inbox.file(ReadOutcome::Message(reply_message(id, 3)));
    inbox.abandon(id);
    assert_eq!(inbox.stats().orphaned, 1);
    assert_eq!(inbox.in_flight(), 0);
    assert!(matches!(inbox.collect(id), Collected::Lost));
}

#[test]
fn tombstones_are_swept_once_there_are_too_many() {
    let mut inbox = Inbox::new(1, false);
    let keep = inbox.open(true).unwrap();
    let mut last = keep;
    for _ in 0..MAX_ABANDONED {
        last = inbox.open(true).unwrap();
        inbox.abandon(last);
    }
    // The sweep dropped every tombstone; the live call still waits.
    assert!(matches!(inbox.collect(keep), Collected::Waiting));
    inbox.file(ReadOutcome::Message(reply_message(last, 0)));
    assert_eq!(inbox.stats().orphaned, 1);
    assert!(inbox.is_usable());
}

#[test]
fn a_quiet_read_is_not_a_fault_but_a_partial_one_is() {
    let mut inbox = Inbox::new(1, false);
    let id = inbox.open(true).unwrap();
    inbox.file(ReadOutcome::Io { consumed: 0, timed_out: true, kind: IoKind::WouldBlock, message: "quiet".into() });
    assert!(inbox.is_usable());
    assert!(matches!(inbox.collect(id), Collected::Waiting));

    inbox.file(ReadOutcome::Io { consumed: 6, timed_out: true, kind: IoKind::TimedOut, message: "read timed out".into() });
    assert_eq!(inbox.fault(), Some(Fault::Io(IoKind::TimedOut, "read timed out".into())), "the kind and the text reach every waiter");
    assert!(matches!(inbox.collect(id), Collected::Gone(Fault::Io(IoKind::TimedOut, ref m)) if m == "read timed out"));
}

#[test]
fn close_connection_fails_every_waiter_as_unsent_and_refuses_new_requests() {
    let mut inbox = Inbox::new(1, false);
    let a = inbox.open(true).unwrap();
    let b = inbox.open(true).unwrap();
    inbox.file(ReadOutcome::Message(control(MsgType::CloseConnection)));
    for id in [a, b] {
        match inbox.collect(id) {
            Collected::Gone(f) => assert!(f.unsent(id)),
            other => panic!("expected the fault, got {other:?}"),
        }
    }
    assert_eq!(inbox.open(true), Err(Fault::Closed));
    // The first fault explains the others.
    inbox.file(ReadOutcome::Failed(Error::Desynchronized));
    assert_eq!(inbox.fault(), Some(Fault::Closed));
}

#[test]
fn an_interrupted_reply_is_told_to_each_caller_in_its_own_terms() {
    let mut inbox = Inbox::new(1, false);
    let cut = inbox.open(true).unwrap();
    let other = inbox.open(true).unwrap();
    inbox.file(ReadOutcome::Failed(Error::InterruptedMidReassembly {
        control: MsgType::CloseConnection,
        partial: MsgType::Reply,
        request_id: cut,
        received: 1,
    }));
    match (inbox.collect(cut), inbox.collect(other)) {
        (Collected::Gone(f), Collected::Gone(g)) => {
            assert!(!f.unsent(cut));
            assert!(g.unsent(other));
        }
        x => panic!("expected both callers failed, got {x:?}"),
    }
}

#[test]
fn other_framing_failures_and_strangers_desynchronize() {
    let mut inbox = Inbox::new(1, false);
    inbox.file(ReadOutcome::Failed(Error::FragmentUnsupported));
    assert_eq!(inbox.fault(), Some(Fault::Desynchronized));

    let mut inbox = Inbox::new(1, false);
    inbox.file(ReadOutcome::Message(control(MsgType::Request)));
    assert_eq!(inbox.fault(), Some(Fault::Unexpected(MsgType::Request)));

    let mut inbox = Inbox::new(1, false);
    let id = inbox.open(true).unwrap();
    inbox.file(ReadOutcome::Message(reply_message(id, 1)));
    inbox.file(ReadOutcome::Message(reply_message(id, 2)));
    assert_eq!(inbox.fault(), Some(Fault::Desynchronized), "two replies to one id");

    let poisoned = Inbox::new(1, true);
    assert_eq!(poisoned.fault(), Some(Fault::Desynchronized));
}

#[test]
fn a_request_that_never_left_is_released() {
    let mut inbox = Inbox::new(1, false);
    let id = inbox.open(true).unwrap();
    inbox.release(id);
    assert_eq!(inbox.in_flight(), 0);
    assert_eq!(inbox.stats().sent, 0);
    assert!(matches!(inbox.collect(id), Collected::Lost));
    assert_eq!(inbox.open(true), Ok(2), "its id is not handed out again");
}

#[test]
fn interpret_hands_back_the_reply_and_never_marks_a_failure_unsent() {
    let reply = decode_reply(reply_message(4, 77)).unwrap();
    match interpret(reply) {
        Ok(Sent::Reply(r)) => assert_eq!(r.body().unwrap().get_u32().unwrap(), 77),
        other => panic!("expected the reply, got {other:?}"),
    }

    let mut m = reply_message(4, 0);
    m.bytes[19] = 5; // NEEDS_ADDRESSING_MODE
    let reply = decode_reply(m).unwrap();
    match interpret(reply) {
        Err(f) => {
            assert!(!f.unsent);
            assert!(matches!(f.error, Error::UnexpectedMessage(MsgType::Reply)));
        }
        other => panic!("expected a failure, got {other:?}"),
    }
}
