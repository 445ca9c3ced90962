//! The bookkeeping of a multiplexed connection: several requests in flight
//! on one connection, replies correlated by `request_id`.
//!
//! Correlation is version-independent (§13.5.1: request ids must associate
//! replies with requests unambiguously for the connection's lifetime), so an
//! id is never re-used and one counter serves `Request` and `LocateRequest`
//! alike. Whoever holds the connection's read half reads one whole message
//! and files it here; a caller waiting for its reply collects it from here.
//!
//! The sockets, the locks and the clocks belong to whoever runs the
//! connection. What is decided is decided here:
//!
//! - a request is registered before its bytes leave, so a fast reply finds
//!   its slot;
//! - a caller that gives up leaves a tombstone, so a late reply is dropped
//!   and counted rather than mistaken for somebody else's, and tombstones
//!   are swept once there are more than [`MAX_ABANDONED`] slots;
//! - the first fault wins and is told to every waiter, each in its own
//!   terms: a `CloseConnection` between messages lets every caller re-send,
//!   one between the fragments of a reply lets everybody but that reply's
//!   caller re-send;
//! - a read that timed out with nothing consumed is a quiet wire, not a
//!   fault.

use vstd::prelude::*;

use crate::giop::{Error, MsgType, ReplyStatus, Version};
use crate::giop::Forward;
use crate::message::{
    decode_reply, interpret_reply, interpreted, past_header, read_reply_header, reply_body_at,
    Outcome, RawMessage, Reply, ReplyView,
};

verus! {

/// How long a call waits for its reply when the caller does not say, in
/// milliseconds.
pub const DEFAULT_CALL_TIMEOUT_MS: u64 = 30_000;

/// How long a caller that is not reading sleeps before trying to become the
/// reader, in milliseconds.
pub const LEADER_POLL_MS: u64 = 25;

/// How many slots may pile up before abandoned ones are swept.
pub const MAX_ABANDONED: usize = 4096;

/// Counters a caller can read back, so a claim about concurrency can be
/// checked instead of asserted.
#[derive(Debug, Clone, Copy, PartialEq, Eq)]
pub struct MuxStats {
    /// Requests written that expected a reply.
    pub sent: u64,
    /// Replies handed to a caller.
    pub answered: u64,
    /// Replies that arrived while an older request was still outstanding.
    pub out_of_order: u64,
    /// Replies that arrived for a request nobody was waiting for.
    pub orphaned: u64,
    /// The most requests ever outstanding at one instant.
    pub peak_in_flight: usize,
    /// The most fragments any one reply arrived in.
    pub max_reply_fragments: usize,
}

impl Default for MuxStats {
    fn default() -> (r: MuxStats)
        ensures
            r == zero_mux_stats(),
    {
        MuxStats {
            sent: 0,
            answered: 0,
            out_of_order: 0,
            orphaned: 0,
            peak_in_flight: 0,
            max_reply_fragments: 0,
        }
    }
}

pub open spec fn zero_mux_stats() -> MuxStats {
    MuxStats {
        sent: 0,
        answered: 0,
        out_of_order: 0,
        orphaned: 0,
        peak_in_flight: 0,
        max_reply_fragments: 0,
    }
}

/// `a + 1`, held at `u64::MAX`.
pub open spec fn inc(a: u64) -> u64 {
    if a == u64::MAX {
        a
    } else {
        (a + 1) as u64
    }
}

/// `a - 1`, held at zero.
pub open spec fn dec(a: nat) -> nat {
    if a == 0 {
        0
    } else {
        (a - 1) as nat
    }
}

/// What kind of transport failure it was, as the transport reports it.
#[derive(Debug, Clone, Copy, PartialEq, Eq, Structural)]
pub enum IoKind {
    NotFound,
    PermissionDenied,
    ConnectionRefused,
    ConnectionReset,
    ConnectionAborted,
    NotConnected,
    AddrInUse,
    AddrNotAvailable,
    BrokenPipe,
    AlreadyExists,
    WouldBlock,
    InvalidInput,
    InvalidData,
    TimedOut,
    WriteZero,
    Interrupted,
    Unsupported,
    UnexpectedEof,
    OutOfMemory,
    /// Any other kind.
    Other,
}

/// Why a connection stopped being usable, in a form every waiter can be
/// told.
#[derive(Debug, Clone, PartialEq, Eq)]
pub enum Fault {
    /// `CloseConnection` between messages.
    Closed,
    /// Framing can no longer be trusted.
    Desynchronized,
    /// The transport failed: its kind and what it said, for every waiter.
    Io(IoKind, String),
    /// The peer sent something that has no place here.
    Unexpected(MsgType),
    /// An orderly control message arrived where the continuation of a
    /// fragmented reply was due.
    Interrupted { control: MsgType, partial: MsgType, request_id: u32, received: usize },
}

/// The error the caller waiting on `waiter` is told, or `None` for a
/// transport failure.
pub open spec fn fault_error(f: Fault, waiter: u32) -> Option<Error> {
    match f {
        Fault::Closed => Some(Error::ConnectionClosed),
        Fault::Desynchronized => Some(Error::Desynchronized),
        Fault::Io(..) => None,
        Fault::Unexpected(t) => Some(Error::UnexpectedMessage(t)),
        Fault::Interrupted { control, partial, request_id, received } => if waiter == request_id {
            Some(Error::InterruptedMidReassembly { control, partial, request_id, received })
        } else if control == MsgType::CloseConnection {
            Some(Error::ConnectionClosed)
        } else {
            Some(Error::UnexpectedMessage(control))
        },
    }
}

/// Whether the caller waiting on `waiter` may re-send: after a close, unless
/// it was that caller's reply the close cut short.
pub open spec fn fault_unsent(f: Fault, waiter: u32) -> bool {
    match f {
        Fault::Closed => true,
        Fault::Interrupted { control, request_id, .. } => control == MsgType::CloseConnection
            && waiter != request_id,
        _ => false,
    }
}

impl Fault {
    /// The error to hand the caller waiting on `waiter`; `None` for a
    /// transport failure, whose details the transport holds.
    pub fn to_error(&self, waiter: u32) -> (r: Option<Error>)
        ensures
            r == fault_error(*self, waiter),
    {
        match self {
            Fault::Closed => Some(Error::ConnectionClosed),
            Fault::Desynchronized => Some(Error::Desynchronized),
            Fault::Io(..) => None,
            Fault::Unexpected(t) => Some(Error::UnexpectedMessage(*t)),
            Fault::Interrupted { control, partial, request_id, received } => {
                if waiter == *request_id {
                    Some(
                        Error::InterruptedMidReassembly {
                            control: *control,
                            partial: *partial,
                            request_id: *request_id,
                            received: *received,
                        },
                    )
                } else if *control == MsgType::CloseConnection {
                    Some(Error::ConnectionClosed)
                } else {
                    Some(Error::UnexpectedMessage(*control))
                }
            },
        }
    }

    /// Whether the caller waiting on `waiter` may re-send.
    pub fn unsent(&self, waiter: u32) -> (r: bool)
        ensures
            r == fault_unsent(*self, waiter),
    {
        match self {
            Fault::Closed => true,
            Fault::Interrupted { control, request_id, .. } => *control == MsgType::CloseConnection
                && waiter != *request_id,
            _ => false,
        }
    }

    /// A copy of this fault.
    pub fn duplicate(&self) -> (r: Fault)
        ensures
            r == *self,
    {
        match self {
            Fault::Closed => Fault::Closed,
            Fault::Desynchronized => Fault::Desynchronized,
            Fault::Io(k, m) => Fault::Io(*k, m.clone()),
            Fault::Unexpected(t) => Fault::Unexpected(*t),
            Fault::Interrupted { control, partial, request_id, received } => Fault::Interrupted {
                control: *control,
                partial: *partial,
                request_id: *request_id,
                received: *received,
            },
        }
    }
}

/// What a completed call turned out to be. A redirect is handed back, not
/// followed: a shared connection reaches one endpoint, and the other callers
/// on it did not ask to be moved.
#[derive(Debug)]
pub enum Sent {
    /// The target answered.
    Reply(Box<Reply>),
    /// The target moved; the body carried the reference to retry against,
    /// and the status said whether for good.
    Forward(Box<Forward>),
}

/// A failed call, plus the one fact a retry needs.
#[derive(Debug)]
pub struct Failed {
    /// What went wrong.
    pub error: Error,
    /// Whether the peer provably did not process this request, so re-sending
    /// it elsewhere is safe even when the operation is not idempotent.
    pub unsent: bool,
}

/// Turns a decoded reply into the outcome its status calls for. The request
/// reached the peer, so a failure here is never re-sendable.
pub fn interpret(reply: Reply) -> (r: Result<Sent, Failed>)
    ensures
        match r {
            Ok(Sent::Reply(x)) => interpreted(reply@, Ok(Outcome::Done(*x))),
            Ok(Sent::Forward(f)) => interpreted(reply@, Ok(Outcome::Forwarded(*f))),
            Err(f) => !f.unsent && interpreted(reply@, Err(f.error)),
        },
{
    match interpret_reply(reply) {
        Ok(Outcome::Done(x)) => Ok(Sent::Reply(Box::new(x))),
        Ok(Outcome::Forwarded(f)) => Ok(Sent::Forward(Box::new(f))),
        Err(e) => Err(Failed { error: e, unsent: false }),
    }
}

// ─────────────────────────────────────────────────────────────────────────────
// Slots
// ─────────────────────────────────────────────────────────────────────────────

/// What has happened to one request id.
#[derive(Debug)]
pub enum Slot {
    /// Sent; a caller is waiting.
    Waiting,
    /// Answered; the caller has not collected it yet.
    Ready(Reply),
    /// The caller gave up; the reply, if it comes, is dropped.
    Abandoned,
}

/// A slot as values.
pub enum SlotView {
    Waiting,
    Ready(ReplyView),
    Abandoned,
}

impl View for Slot {
    type V = SlotView;

    open spec fn view(&self) -> SlotView {
        match self {
            Slot::Waiting => SlotView::Waiting,
            Slot::Ready(r) => SlotView::Ready(r@),
            Slot::Abandoned => SlotView::Abandoned,
        }
    }
}

/// The slot for `id`: the first one filed under it.
pub open spec fn slot_for(s: Seq<(u32, SlotView)>, id: u32) -> Option<SlotView>
    decreases s.len(),
{
    if s.len() == 0 {
        None
    } else if s[0].0 == id {
        Some(s[0].1)
    } else {
        slot_for(s.drop_first(), id)
    }
}

/// Where the slot for `id` is, or `-1`.
pub open spec fn slot_pos(s: Seq<(u32, SlotView)>, id: u32) -> int
    decreases s.len(),
{
    if s.len() == 0 {
        -1
    } else if s[0].0 == id {
        0
    } else if slot_pos(s.drop_first(), id) < 0 {
        -1
    } else {
        1 + slot_pos(s.drop_first(), id)
    }
}

/// The slots with `id`'s set to `v`, added at the end if it had none.
pub open spec fn put_slot(s: Seq<(u32, SlotView)>, id: u32, v: SlotView) -> Seq<(u32, SlotView)> {
    if slot_pos(s, id) >= 0 {
        s.update(slot_pos(s, id), (id, v))
    } else {
        s.push((id, v))
    }
}

/// The slots without `id`'s.
pub open spec fn drop_slot(s: Seq<(u32, SlotView)>, id: u32) -> Seq<(u32, SlotView)> {
    if slot_pos(s, id) >= 0 {
        s.remove(slot_pos(s, id))
    } else {
        s
    }
}

/// The slots without the abandoned ones.
pub open spec fn without_abandoned(s: Seq<(u32, SlotView)>) -> Seq<(u32, SlotView)>
    decreases s.len(),
{
    if s.len() == 0 {
        s
    } else if s.last().1 is Abandoned {
        without_abandoned(s.drop_last())
    } else {
        without_abandoned(s.drop_last()).push(s.last())
    }
}

/// Whether some slot belongs to a request older than `id`.
pub open spec fn has_older(s: Seq<(u32, SlotView)>, id: u32) -> bool {
    exists|i: int| 0 <= i < s.len() && (#[trigger] s[i]).0 < id
}

/// A slot is found exactly where there is one.
pub proof fn lemma_slot_pos_for(s: Seq<(u32, SlotView)>, id: u32)
    ensures
        slot_pos(s, id) < s.len(),
        (slot_pos(s, id) >= 0) == (slot_for(s, id) is Some),
        slot_pos(s, id) >= 0 ==> s[slot_pos(s, id)].0 == id && slot_for(s, id) == Some(
            s[slot_pos(s, id)].1,
        ),
        slot_pos(s, id) < 0 ==> slot_pos(s, id) == -1,
        slot_pos(s, id) < 0 ==> forall|j: int| 0 <= j < s.len() ==> (#[trigger] s[j]).0 != id,
    decreases s.len(),
{
    if s.len() > 0 && s[0].0 != id {
        let r = s.drop_first();
        lemma_slot_pos_for(r, id);
        if slot_pos(r, id) >= 0 {
            assert(s[slot_pos(s, id)] == r[slot_pos(r, id)]);
        } else {
            assert forall|j: int| 0 <= j < s.len() implies (#[trigger] s[j]).0 != id by {
                if j > 0 {
                    assert(s[j] == r[j - 1]);
                }
            }
        }
    }
}

/// No request id has two slots.
pub open spec fn ids_unique(s: Seq<(u32, SlotView)>) -> bool {
    forall|i: int, j: int| 0 <= i < j < s.len() ==> (#[trigger] s[i]).0 != (#[trigger] s[j]).0
}

/// With ids unique, the slot filed under an id is the one at its index.
pub proof fn lemma_unique_slot(s: Seq<(u32, SlotView)>, id: u32, i: int)
    requires
        ids_unique(s),
        0 <= i < s.len(),
        s[i].0 == id,
    ensures
        slot_pos(s, id) == i,
        slot_for(s, id) == Some(s[i].1),
{
    lemma_slot_pos_for(s, id);
    let p = slot_pos(s, id);
    if p >= 0 && p != i {
        if p < i {
            assert(s[p].0 != s[i].0);
        } else {
            assert(s[i].0 != s[p].0);
        }
    }
}

/// An id that no slot carries has none.
pub proof fn lemma_absent_slot(s: Seq<(u32, SlotView)>, id: u32)
    requires
        forall|j: int| 0 <= j < s.len() ==> (#[trigger] s[j]).0 != id,
    ensures
        slot_for(s, id) is None,
        slot_pos(s, id) == -1,
{
    lemma_slot_pos_for(s, id);
    if slot_pos(s, id) >= 0 {
        assert(s[slot_pos(s, id)].0 == id);
    }
}

/// Where a slot is found, given unique ids: at an index carrying the id, or
/// nowhere if none does.
pub proof fn lemma_slot_by_index(s: Seq<(u32, SlotView)>, id: u32)
    requires
        ids_unique(s),
    ensures
        (exists|i: int| 0 <= i < s.len() && (#[trigger] s[i]).0 == id) || slot_for(s, id) is None,
        forall|i: int| 0 <= i < s.len() && (#[trigger] s[i]).0 == id ==> slot_for(s, id) == Some(
            s[i].1,
        ),
{
    lemma_slot_pos_for(s, id);
    assert forall|i: int| 0 <= i < s.len() && (#[trigger] s[i]).0 == id implies slot_for(s, id)
        == Some(s[i].1) by {
        lemma_unique_slot(s, id, i);
    }
    if slot_pos(s, id) >= 0 {
        assert(s[slot_pos(s, id)].0 == id);
    }
}

/// Setting a slot files `v` under `id`, leaves every other id's slot as it
/// was, and keeps ids unique.
pub proof fn lemma_put_slot(s: Seq<(u32, SlotView)>, id: u32, v: SlotView)
    requires
        ids_unique(s),
    ensures
        ids_unique(put_slot(s, id, v)),
        slot_for(put_slot(s, id, v), id) == Some(v),
        forall|k: u32| k != id ==> slot_for(#[trigger] put_slot(s, id, v), k) == slot_for(s, k),
        put_slot(s, id, v).len() == s.len() + (if slot_for(s, id) is Some {
            0int
        } else {
            1int
        }),
{
    lemma_slot_pos_for(s, id);
    let t = put_slot(s, id, v);
    let p = slot_pos(s, id);
    assert forall|a: int, b: int| 0 <= a < b < t.len() implies (#[trigger] t[a]).0 != (
    #[trigger] t[b]).0 by {
        if p >= 0 {
            if a != p && b != p {
                assert(t[a] == s[a] && t[b] == s[b]);
            } else if a == p {
                assert(t[b] == s[b]);
                assert(s[a].0 != s[b].0);
            } else {
                assert(t[a] == s[a]);
                assert(s[a].0 != s[b].0);
            }
        } else {
            if b < s.len() {
                assert(t[a] == s[a] && t[b] == s[b]);
            } else {
                assert(t[a] == s[a]);
                assert(s[a].0 != id);
            }
        }
    }
    let at = if p >= 0 {
        p
    } else {
        s.len() as int
    };
    assert(t[at] == (id, v));
    lemma_unique_slot(t, id, at);
    assert forall|k: u32| k != id implies slot_for(#[trigger] put_slot(s, id, v), k) == slot_for(
        s,
        k,
    ) by {
        lemma_slot_by_index(s, k);
        lemma_slot_by_index(t, k);
        assert forall|j: int| 0 <= j < s.len() && (#[trigger] s[j]).0 == k implies t[j] == s[j] by {}
        if slot_for(t, k) is Some {
            lemma_slot_pos_for(t, k);
            let q = slot_pos(t, k);
            assert(t[q].0 == k);
            assert(q < s.len() && t[q] == s[q]);
        } else {
            assert forall|j: int| 0 <= j < s.len() implies (#[trigger] s[j]).0 != k by {
                if s[j].0 == k {
                    assert(t[j] == s[j]);
                }
            }
            lemma_absent_slot(s, k);
        }
    }
}

/// Dropping a slot leaves `id` without one, every other id's slot as it
/// was, and ids unique.
pub proof fn lemma_drop_slot(s: Seq<(u32, SlotView)>, id: u32)
    requires
        ids_unique(s),
    ensures
        ids_unique(drop_slot(s, id)),
        slot_for(drop_slot(s, id), id) is None,
        forall|k: u32| k != id ==> slot_for(#[trigger] drop_slot(s, id), k) == slot_for(s, k),
        drop_slot(s, id).len() == s.len() - (if slot_for(s, id) is Some {
            1int
        } else {
            0int
        }),
{
    lemma_slot_pos_for(s, id);
    let t = drop_slot(s, id);
    let p = slot_pos(s, id);
    if p >= 0 {
        assert forall|j: int| 0 <= j < t.len() implies t[j] == s[if j < p {
            j
        } else {
            j + 1
        }] by {}
        assert forall|a: int, b: int| 0 <= a < b < t.len() implies (#[trigger] t[a]).0 != (
        #[trigger] t[b]).0 by {
            let a2 = if a < p {
                a
            } else {
                a + 1
            };
            let b2 = if b < p {
                b
            } else {
                b + 1
            };
            assert(t[a] == s[a2] && t[b] == s[b2]);
            assert(s[a2].0 != s[b2].0);
        }
        assert forall|j: int| 0 <= j < t.len() implies (#[trigger] t[j]).0 != id by {
            let j2 = if j < p {
                j
            } else {
                j + 1
            };
            assert(t[j] == s[j2]);
            if j2 < p {
                assert(s[j2].0 != s[p].0);
            } else {
                assert(s[p].0 != s[j2].0);
            }
        }
        lemma_absent_slot(t, id);
        assert forall|k: u32| k != id implies slot_for(#[trigger] drop_slot(s, id), k) == slot_for(
            s,
            k,
        ) by {
            lemma_slot_by_index(s, k);
            lemma_slot_by_index(t, k);
            if slot_for(s, k) is Some {
                lemma_slot_pos_for(s, k);
                let q = slot_pos(s, k);
                assert(s[q].0 == k && q != p);
                let q2 = if q < p {
                    q
                } else {
                    q - 1
                };
                assert(t[q2] == s[q]);
            } else {
                assert forall|j: int| 0 <= j < t.len() implies (#[trigger] t[j]).0 != k by {
                    let j2 = if j < p {
                        j
                    } else {
                        j + 1
                    };
                    assert(t[j] == s[j2]);
                    if s[j2].0 == k {
                        lemma_unique_slot(s, k, j2);
                    }
                }
                lemma_absent_slot(t, k);
            }
        }
    }
}

/// What sweeping keeps: exactly the slots that are not tombstones.
pub proof fn lemma_without_abandoned_members(s: Seq<(u32, SlotView)>)
    ensures
        forall|x: (u32, SlotView)| #[trigger] without_abandoned(s).contains(x) <==> (s.contains(x)
            && !(x.1 is Abandoned)),
    decreases s.len(),
{
    if s.len() > 0 {
        let r = s.drop_last();
        lemma_without_abandoned_members(r);
        let w = without_abandoned(r);
        assert forall|x: (u32, SlotView)| #[trigger] without_abandoned(s).contains(x) <==> (
        s.contains(x) && !(x.1 is Abandoned)) by {
            if s.contains(x) && !(x.1 is Abandoned) {
                let i = choose|i: int| 0 <= i < s.len() && s[i] == x;
                if i < s.len() - 1 {
                    assert(r[i] == x);
                    assert(r.contains(x));
                    assert(w.contains(x));
                    let j = choose|j: int| 0 <= j < w.len() && w[j] == x;
                    if !(s.last().1 is Abandoned) {
                        assert(without_abandoned(s) == w.push(s.last()));
                        assert(w.push(s.last())[j] == x);
                    }
                } else {
                    assert(without_abandoned(s) == w.push(s.last()));
                    assert(w.push(s.last())[w.len() as int] == x);
                }
            }
            if without_abandoned(s).contains(x) {
                let j = choose|j: int| 0 <= j < without_abandoned(s).len() && without_abandoned(s)[j]
                    == x;
                if s.last().1 is Abandoned || j < w.len() {
                    if !(s.last().1 is Abandoned) {
                        assert(w.push(s.last())[j] == w[j]);
                    }
                    assert(w.contains(x));
                    let i = choose|i: int| 0 <= i < r.len() && r[i] == x;
                    assert(s[i] == x);
                } else {
                    assert(x == s.last());
                    assert(s[s.len() - 1] == x);
                }
            }
        }
    }
}

/// Sweeping keeps ids unique and drops exactly the tombstones' slots.
pub proof fn lemma_without_abandoned(s: Seq<(u32, SlotView)>)
    requires
        ids_unique(s),
    ensures
        ids_unique(without_abandoned(s)),
        forall|k: u32| #[trigger] slot_for(without_abandoned(s), k) == (match slot_for(s, k) {
            Some(SlotView::Abandoned) => None,
            o => o,
        }),
    decreases s.len(),
{
    lemma_without_abandoned_members(s);
    let w = without_abandoned(s);
    if s.len() > 0 {
        let r = s.drop_last();
        assert(ids_unique(r)) by {
            assert forall|a: int, b: int| 0 <= a < b < r.len() implies (#[trigger] r[a]).0 != (
            #[trigger] r[b]).0 by {
                assert(r[a] == s[a] && r[b] == s[b]);
            }
        }
        lemma_without_abandoned(r);
        lemma_without_abandoned_members(r);
        let wr = without_abandoned(r);
        if !(s.last().1 is Abandoned) {
            assert(w == wr.push(s.last()));
            assert forall|a: int, b: int| 0 <= a < b < w.len() implies (#[trigger] w[a]).0 != (
            #[trigger] w[b]).0 by {
                if b < wr.len() {
                    assert(w[a] == wr[a] && w[b] == wr[b]);
                } else {
                    assert(w[a] == wr[a]);
                    assert(wr.contains(wr[a]));
                    let i = choose|i: int| 0 <= i < r.len() && r[i] == wr[a];
                    assert(s[i] == r[i]);
                    assert(s[i].0 != s[s.len() - 1].0);
                }
            }
        } else {
            assert(w == wr);
        }
    }
    assert forall|k: u32| #[trigger] slot_for(without_abandoned(s), k) == (match slot_for(s, k) {
        Some(SlotView::Abandoned) => None,
        o => o,
    }) by {
        lemma_slot_by_index(s, k);
        lemma_slot_by_index(w, k);
        lemma_slot_pos_for(w, k);
        lemma_slot_pos_for(s, k);
        if slot_for(w, k) is Some {
            let q = slot_pos(w, k);
            assert(w.contains(w[q]));
            let i = choose|i: int| 0 <= i < s.len() && s[i] == w[q];
            assert(s[i].0 == k);
        } else if slot_for(s, k) is Some {
            let q = slot_pos(s, k);
            if !(s[q].1 is Abandoned) {
                assert(s.contains(s[q]));
                assert(w.contains(s[q]));
                let j = choose|j: int| 0 <= j < w.len() && w[j] == s[q];
                assert(w[j].0 == k);
            }
        }
    }
}

proof fn lemma_first_slot(s: Seq<(u32, SlotView)>, id: u32, i: int)
    requires
        0 <= i <= s.len(),
        forall|j: int| 0 <= j < i ==> s[j].0 != id,
        i < s.len() ==> s[i].0 == id,
    ensures
        i < s.len() ==> slot_pos(s, id) == i && slot_for(s, id) == Some(s[i].1),
        i == s.len() ==> slot_pos(s, id) == -1 && slot_for(s, id) is None,
    decreases i,
{
    if i > 0 {
        let r = s.drop_first();
        assert forall|j: int| 0 <= j < i - 1 implies r[j].0 != id by {
            assert(r[j] == s[j + 1]);
        }
        if i < s.len() {
            assert(r[i - 1] == s[i]);
        }
        lemma_first_slot(r, id, i - 1);
    }
}

// ─────────────────────────────────────────────────────────────────────────────
// The inbox
// ─────────────────────────────────────────────────────────────────────────────

/// The inbox as values.
pub struct InboxView {
    pub slots: Seq<(u32, SlotView)>,
    pub fault: Option<Fault>,
    pub stats: MuxStats,
    pub in_flight: nat,
    pub next_id: u32,
}

/// Every request of one connection: its slots, the fault that ended it if
/// one did, the counters, and how many callers are waiting.
#[derive(Debug)]
pub struct Inbox {
    slots: Vec<(u32, Slot)>,
    fault: Option<Fault>,
    stats: MuxStats,
    in_flight: usize,
    next_id: u32,
}

pub open spec fn slots_view(s: Seq<(u32, Slot)>) -> Seq<(u32, SlotView)> {
    s.map_values(|e: (u32, Slot)| (e.0, e.1@))
}

impl View for Inbox {
    type V = InboxView;

    closed spec fn view(&self) -> InboxView {
        InboxView {
            slots: slots_view(self.slots@),
            fault: self.fault,
            stats: self.stats,
            in_flight: self.in_flight as nat,
            next_id: self.next_id,
        }
    }
}

/// What a look in the inbox found.
#[derive(Debug)]
pub enum Collected {
    /// The reply, taken out of the inbox.
    Answer(Reply),
    /// There will not be one: the connection faulted.
    Gone(Fault),
    /// There will not be one: no slot and no fault, so it was already
    /// collected or never registered.
    Lost,
    /// Still outstanding.
    Waiting,
}

/// What one read of the connection produced.
#[derive(Debug)]
pub enum ReadOutcome {
    /// The transport failed, after consuming `consumed` octets; `timed_out`
    /// when the failure was the read deadline; `kind` and `message` as the
    /// transport reported it.
    Io { consumed: usize, timed_out: bool, kind: IoKind, message: String },
    /// The framing refused what arrived.
    Failed(Error),
    /// One whole logical message.
    Message(RawMessage),
}

/// The reply a framed message decodes to, if it decodes.
pub open spec fn reply_decoded(bytes: Seq<u8>, endian: crate::cdr::Endian, version: Version) -> Option<ReplyView> {
    match past_header(bytes, endian) {
        Err(_) => None,
        Ok(d) => match read_reply_header(d, version) {
            Err(_) => None,
            Ok((id, st, d3)) => match crate::giop::reply_status_of(st, version) {
                None => None,
                Some(status) => match reply_body_at(d3, version) {
                    Err(_) => None,
                    Ok(at) => Some(
                        ReplyView { request_id: id, status, endian, version, raw: bytes, body_at: at },
                    ),
                },
            },
        },
    }
}

/// A read outcome as values.
pub enum OutcomeView {
    Io { consumed: nat, timed_out: bool, kind: IoKind, message: String },
    Failed(Error),
    Message { msg_type: MsgType, fragments: nat, reply: Option<ReplyView> },
}

pub open spec fn outcome_view(o: ReadOutcome) -> OutcomeView {
    match o {
        ReadOutcome::Io { consumed, timed_out, kind, message } => OutcomeView::Io {
            consumed: consumed as nat,
            timed_out,
            kind,
            message,
        },
        ReadOutcome::Failed(e) => OutcomeView::Failed(e),
        ReadOutcome::Message(m) => OutcomeView::Message {
            msg_type: m.msg_type,
            fragments: m.fragments as nat,
            reply: reply_decoded(m.bytes@, m.endian, m.version),
        },
    }
}

/// The inbox with `f` recorded, unless a fault already was: the first
/// explains the others.
pub open spec fn faulted(b: InboxView, f: Fault) -> InboxView {
    InboxView {
        fault: if b.fault is None {
            Some(f)
        } else {
            b.fault
        },
        ..b
    }
}

/// The id the next request goes out with: the counter, except that zero
/// is never handed out.
pub open spec fn id_at(next_id: u32) -> u32 {
    if next_id == 0 {
        1
    } else {
        next_id
    }
}

/// The counter after one id was handed out.
pub open spec fn after_id(next_id: u32) -> u32 {
    if next_id == u32::MAX {
        0
    } else {
        (next_id + 1) as u32
    }
}

/// A request about to be written: refused with the fault if the connection
/// has one, else given the next id and, when it expects a reply,
/// registered as waiting.
pub open spec fn open_spec(b: InboxView, expect_reply: bool) -> (InboxView, Result<u32, Fault>) {
    match b.fault {
        Some(f) => (b, Err(f)),
        None => {
            let id = id_at(b.next_id);
            let c = InboxView { next_id: after_id(b.next_id), ..b };
            if expect_reply {
                let n = if c.in_flight >= usize::MAX {
                    c.in_flight
                } else {
                    c.in_flight + 1
                };
                (
                    InboxView {
                        slots: put_slot(c.slots, id, SlotView::Waiting),
                        in_flight: n,
                        stats: MuxStats {
                            sent: inc(c.stats.sent),
                            peak_in_flight: if c.stats.peak_in_flight >= n {
                                c.stats.peak_in_flight
                            } else {
                                n as usize
                            },
                            ..c.stats
                        },
                        ..c
                    },
                    Ok(id),
                )
            } else {
                (c, Ok(id))
            }
        },
    }
}

/// A request that never reached the wire: its slot and its count undone.
pub open spec fn release_spec(b: InboxView, id: u32) -> InboxView {
    if slot_for(b.slots, id) is Some {
        InboxView {
            slots: drop_slot(b.slots, id),
            in_flight: dec(b.in_flight),
            stats: MuxStats {
                sent: if b.stats.sent == 0 {
                    0
                } else {
                    (b.stats.sent - 1) as u64
                },
                ..b.stats
            },
            ..b
        }
    } else {
        b
    }
}

/// A caller that gave up: an answer nobody will collect is dropped and
/// counted; a waiting slot becomes a tombstone, and tombstones are swept
/// once there are more than `MAX_ABANDONED` slots.
pub open spec fn abandon_spec(b: InboxView, id: u32) -> InboxView {
    match slot_for(b.slots, id) {
        Some(SlotView::Ready(_)) => InboxView {
            slots: drop_slot(b.slots, id),
            in_flight: dec(b.in_flight),
            stats: MuxStats { orphaned: inc(b.stats.orphaned), ..b.stats },
            ..b
        },
        Some(SlotView::Waiting) => {
            let s = put_slot(b.slots, id, SlotView::Abandoned);
            InboxView {
                slots: if s.len() <= MAX_ABANDONED {
                    s
                } else {
                    without_abandoned(s)
                },
                in_flight: dec(b.in_flight),
                stats: b.stats,
                ..b
            }
        },
        _ => b,
    }
}

/// What a look in the inbox found, as values.
pub enum CollectedView {
    Answer(ReplyView),
    Gone(Fault),
    Lost,
    Waiting,
}

impl View for Collected {
    type V = CollectedView;

    open spec fn view(&self) -> CollectedView {
        match self {
            Collected::Answer(r) => CollectedView::Answer(r@),
            Collected::Gone(f) => CollectedView::Gone(*f),
            Collected::Lost => CollectedView::Lost,
            Collected::Waiting => CollectedView::Waiting,
        }
    }
}

/// What collecting `id` finds, and the inbox after: an answer is taken out;
/// failing that a fault ends the wait (and the slot); failing that a
/// missing slot means nobody will ever answer.
pub open spec fn collect_spec(b: InboxView, id: u32) -> (InboxView, CollectedView) {
    match slot_for(b.slots, id) {
        Some(SlotView::Ready(r)) => (
            InboxView {
                slots: drop_slot(b.slots, id),
                in_flight: dec(b.in_flight),
                stats: MuxStats { answered: inc(b.stats.answered), ..b.stats },
                ..b
            },
            CollectedView::Answer(r),
        ),
        _ => match b.fault {
            Some(f) => (
                InboxView {
                    slots: drop_slot(b.slots, id),
                    in_flight: if slot_for(b.slots, id) is Some {
                        dec(b.in_flight)
                    } else {
                        b.in_flight
                    },
                    ..b
                },
                CollectedView::Gone(f),
            ),
            None => (
                b,
                if slot_for(b.slots, id) is None {
                    CollectedView::Lost
                } else {
                    CollectedView::Waiting
                },
            ),
        },
    }
}

/// What filing one read outcome does.
pub open spec fn file_spec(b: InboxView, o: OutcomeView) -> InboxView {
    match o {
        OutcomeView::Io { consumed, timed_out, kind, message } => if consumed == 0 && timed_out {
            b
        } else {
            faulted(b, Fault::Io(kind, message))
        },
        OutcomeView::Failed(e) => match e {
            Error::InterruptedMidReassembly { control, partial, request_id, received } => faulted(
                b,
                Fault::Interrupted { control, partial, request_id, received },
            ),
            _ => faulted(b, Fault::Desynchronized),
        },
        OutcomeView::Message { msg_type, fragments, reply } => if msg_type == MsgType::CloseConnection {
            faulted(b, Fault::Closed)
        } else if msg_type != MsgType::Reply {
            faulted(b, Fault::Unexpected(msg_type))
        } else {
            match reply {
                None => faulted(b, Fault::Desynchronized),
                Some(r) => {
                    let stats = MuxStats {
                        max_reply_fragments: if b.stats.max_reply_fragments >= fragments {
                            b.stats.max_reply_fragments
                        } else {
                            fragments as usize
                        },
                        ..b.stats
                    };
                    let id = r.request_id;
                    match slot_for(b.slots, id) {
                        Some(SlotView::Waiting) => InboxView {
                            slots: put_slot(b.slots, id, SlotView::Ready(r)),
                            stats: MuxStats {
                                out_of_order: if has_older(b.slots, id) {
                                    inc(stats.out_of_order)
                                } else {
                                    stats.out_of_order
                                },
                                ..stats
                            },
                            ..b
                        },
                        Some(SlotView::Abandoned) => InboxView {
                            slots: drop_slot(b.slots, id),
                            stats: MuxStats { orphaned: inc(stats.orphaned), ..stats },
                            ..b
                        },
                        Some(SlotView::Ready(_)) => faulted(
                            InboxView { stats, ..b },
                            Fault::Desynchronized,
                        ),
                        None => InboxView {
                            stats: MuxStats { orphaned: inc(stats.orphaned), ..stats },
                            ..b
                        },
                    }
                },
            }
        },
    }
}


fn sat_inc(a: u64) -> (r: u64)
    ensures
        r == inc(a),
{
    if a == u64::MAX {
        a
    } else {
        a + 1
    }
}

fn sat_dec(a: usize) -> (r: usize)
    ensures
        r as nat == dec(a as nat),
{
    if a == 0 {
        0
    } else {
        a - 1
    }
}

impl Inbox {
    /// Well formed: no request id has two slots.
    pub open spec fn wf(&self) -> bool {
        ids_unique(self@.slots)
    }

    /// The inbox of a connection taken over with its id counter at
    /// `next_id`; one that was already unusable starts out faulted.
    pub fn new(next_id: u32, poisoned: bool) -> (r: Inbox)
        ensures
            r@.slots.len() == 0,
            r@.fault == (if poisoned {
                Some(Fault::Desynchronized)
            } else {
                None::<Fault>
            }),
            r@.stats == zero_mux_stats(),
            r@.in_flight == 0,
            r@.next_id == next_id,
            r.wf(),
    {
        let fault = if poisoned {
            Some(Fault::Desynchronized)
        } else {
            None
        };
        let r = Inbox { slots: Vec::new(), fault, stats: MuxStats::default(), in_flight: 0, next_id };
        assert(slots_view(r.slots@) =~= Seq::<(u32, SlotView)>::empty());
        r
    }

    /// The index of `id`'s slot.
    fn find(&self, id: u32) -> (r: Option<usize>)
        ensures
            match r {
                Some(i) => i < self.slots@.len() && slot_pos(self@.slots, id) == i && slot_for(
                    self@.slots,
                    id,
                ) == Some(self.slots@[i as int].1@) && self.slots@[i as int].0 == id,
                None => slot_pos(self@.slots, id) == -1 && slot_for(self@.slots, id) is None,
            },
    {
        let ghost sv = self@.slots;
        let mut i: usize = 0;
        while i < self.slots.len()
            invariant
                i <= self.slots@.len(),
                sv == slots_view(self.slots@),
                forall|j: int| 0 <= j < i ==> sv[j].0 != id,
            decreases self.slots.len() - i,
        {
            assert(sv[i as int] == (self.slots@[i as int].0, self.slots@[i as int].1@));
            if self.slots[i].0 == id {
                proof {
                    lemma_first_slot(sv, id, i as int);
                }
                return Some(i);
            }
            i = i + 1;
        }
        proof {
            lemma_first_slot(sv, id, i as int);
        }
        None
    }

    /// Sets `id`'s slot to `v`, adding it if new.
    fn put(&mut self, id: u32, v: Slot)
        requires
            old(self).wf(),
        ensures
            final(self).wf(),
            final(self)@ == (InboxView { slots: put_slot(old(self)@.slots, id, v@), ..old(self)@ }),
    {
        let ghost vv = v@;
        match self.find(id) {
            Some(i) => {
                self.slots.set(i, (id, v));
                assert(slots_view(self.slots@) =~= slots_view(old(self).slots@).update(
                    i as int,
                    (id, vv),
                ));
            },
            None => {
                self.slots.push((id, v));
                assert(slots_view(self.slots@) =~= slots_view(old(self).slots@).push((id, vv)));
            },
        }
        proof {
            lemma_put_slot(old(self)@.slots, id, vv);
        }
    }

    /// Drops `id`'s slot, answering it.
    fn take(&mut self, id: u32) -> (r: Option<Slot>)
        requires
            old(self).wf(),
        ensures
            final(self).wf(),
            final(self)@ == (InboxView { slots: drop_slot(old(self)@.slots, id), ..old(self)@ }),
            match slot_for(old(self)@.slots, id) {
                Some(v) => r matches Some(x) && x@ == v,
                None => r is None,
            },
    {
        proof {
            lemma_drop_slot(self@.slots, id);
        }
        match self.find(id) {
            Some(i) => {
                let (_, slot) = self.slots.remove(i);
                assert(slots_view(self.slots@) =~= slots_view(old(self).slots@).remove(i as int));
                Some(slot)
            },
            None => None,
        }
    }

    /// Whether the connection still carries calls: no fault recorded.
    pub fn is_usable(&self) -> (r: bool)
        ensures
            r == (self@.fault is None),
    {
        self.fault.is_none()
    }

    /// The fault that ended the connection, if one did.
    pub fn fault(&self) -> (r: Option<Fault>)
        ensures
            r == self@.fault,
    {
        match &self.fault {
            Some(f) => Some(f.duplicate()),
            None => None,
        }
    }

    /// How many callers are waiting.
    pub fn in_flight(&self) -> (r: usize)
        ensures
            r == self@.in_flight,
    {
        self.in_flight
    }

    /// The counters.
    pub fn stats(&self) -> (r: MuxStats)
        ensures
            r == self@.stats,
    {
        self.stats
    }

    /// Records a fault for everybody; the first one wins.
    pub fn record_fault(&mut self, f: Fault)
        requires
            old(self).wf(),
        ensures
            final(self).wf(),
            final(self)@ == faulted(old(self)@, f),
    {
        if self.fault.is_none() {
            self.fault = Some(f);
        }
    }

    /// Gives the next request its id and, when it expects a reply,
    /// registers it before its bytes leave, so a fast reply finds its slot.
    /// Refused with the connection's fault if it has one.
    pub fn open(&mut self, expect_reply: bool) -> (r: Result<u32, Fault>)
        requires
            old(self).wf(),
        ensures
            final(self).wf(),
            (final(self)@, r) == open_spec(old(self)@, expect_reply),
    {
        if let Some(f) = &self.fault {
            return Err(f.duplicate());
        }
        let id = if self.next_id == 0 {
            1
        } else {
            self.next_id
        };
        self.next_id = if self.next_id == u32::MAX {
            0
        } else {
            self.next_id + 1
        };
        if expect_reply {
            self.put(id, Slot::Waiting);
            self.in_flight = self.in_flight.saturating_add(1);
            self.stats.sent = sat_inc(self.stats.sent);
            if self.stats.peak_in_flight < self.in_flight {
                self.stats.peak_in_flight = self.in_flight;
            }
        }
        Ok(id)
    }

    /// The id the next request will go out with.
    pub fn next_id(&self) -> (r: u32)
        ensures
            r == self@.next_id,
    {
        self.next_id
    }

    /// Undoes the registration of a request that never reached the wire.
    pub fn release(&mut self, id: u32)
        requires
            old(self).wf(),
        ensures
            final(self).wf(),
            final(self)@ == release_spec(old(self)@, id),
    {
        proof {
            lemma_slot_pos_for(self@.slots, id);
        }
        match self.take(id) {
            Some(_) => {
                self.in_flight = sat_dec(self.in_flight);
                if self.stats.sent > 0 {
                    self.stats.sent = self.stats.sent - 1;
                }
            },
            None => {},
        }
    }

    /// The caller waiting on `id` gave up.
    pub fn abandon(&mut self, id: u32)
        requires
            old(self).wf(),
        ensures
            final(self).wf(),
            final(self)@ == abandon_spec(old(self)@, id),
    {
        match self.find(id) {
            None => {},
            Some(i) => {
                let ready = match &self.slots[i].1 {
                    Slot::Ready(_) => 1u8,
                    Slot::Waiting => 2u8,
                    Slot::Abandoned => 3u8,
                };
                if ready == 1 {
                    self.take(id);
                    self.in_flight = sat_dec(self.in_flight);
                    self.stats.orphaned = sat_inc(self.stats.orphaned);
                } else if ready == 2 {
                    self.put(id, Slot::Abandoned);
                    self.in_flight = sat_dec(self.in_flight);
                    if self.slots.len() > MAX_ABANDONED {
                        self.sweep();
                    }
                }
            },
        }
    }

    /// Takes `id`'s answer if it is there, or says why there will not be
    /// one.
    pub fn collect(&mut self, id: u32) -> (r: Collected)
        requires
            old(self).wf(),
        ensures
            final(self).wf(),
            (final(self)@, r@) == collect_spec(old(self)@, id),
    {
        proof {
            lemma_slot_pos_for(self@.slots, id);
        }
        let found = self.find(id);
        if let Some(i) = found {
            let ready = match &self.slots[i].1 {
                Slot::Ready(_) => true,
                _ => false,
            };
            if ready {
                let taken = self.take(id);
                self.in_flight = sat_dec(self.in_flight);
                self.stats.answered = sat_inc(self.stats.answered);
                match taken {
                    Some(Slot::Ready(rep)) => {
                        return Collected::Answer(rep);
                    },
                    _ => {
                        proof {
                            assert(false);
                        }
                        return Collected::Lost;
                    },
                }
            }
        }
        match &self.fault {
            Some(f0) => {
                let f = f0.duplicate();
                let had = self.take(id);
                if had.is_some() {
                    self.in_flight = sat_dec(self.in_flight);
                }
                Collected::Gone(f)
            },
            None => {
                if found.is_none() {
                    Collected::Lost
                } else {
                    Collected::Waiting
                }
            },
        }
    }

    /// Whether some slot belongs to a request older than `id`.
    fn any_older(&self, id: u32) -> (r: bool)
        ensures
            r == has_older(self@.slots, id),
    {
        let ghost sv = self@.slots;
        let mut i: usize = 0;
        while i < self.slots.len()
            invariant
                i <= self.slots@.len(),
                sv == slots_view(self.slots@),
                forall|j: int| 0 <= j < i ==> sv[j].0 >= id,
            decreases self.slots.len() - i,
        {
            assert(sv[i as int].0 == self.slots@[i as int].0);
            if self.slots[i].0 < id {
                return true;
            }
            i = i + 1;
        }
        false
    }

    /// Files one read outcome under its request id, or faults the
    /// connection.
    pub fn file(&mut self, outcome: ReadOutcome)
        requires
            old(self).wf(),
        ensures
            final(self).wf(),
            final(self)@ == file_spec(old(self)@, outcome_view(outcome)),
    {
        match outcome {
            ReadOutcome::Io { consumed, timed_out, kind, message } => {
                if !(consumed == 0 && timed_out) {
                    self.record_fault(Fault::Io(kind, message));
                }
            },
            ReadOutcome::Failed(e) => match e {
                Error::InterruptedMidReassembly { control, partial, request_id, received } => {
                    self.record_fault(
                        Fault::Interrupted { control, partial, request_id, received },
                    );
                },
                _ => {
                    self.record_fault(Fault::Desynchronized);
                },
            },
            ReadOutcome::Message(m) => {
                if m.msg_type == MsgType::CloseConnection {
                    self.record_fault(Fault::Closed);
                } else if m.msg_type != MsgType::Reply {
                    self.record_fault(Fault::Unexpected(m.msg_type));
                } else {
                    let fragments = m.fragments;
                    match decode_reply(m) {
                        Err(_) => {
                            self.record_fault(Fault::Desynchronized);
                        },
                        Ok(rep) => self.file_reply(rep, fragments),
                    }
                }
            },
        }
    }

    /// Files a decoded reply that arrived in `fragments` pieces.
    fn file_reply(&mut self, rep: Reply, fragments: usize)
        requires
            old(self).wf(),
        ensures
            final(self).wf(),
            final(self)@ == file_spec(
                old(self)@,
                OutcomeView::Message {
                    msg_type: MsgType::Reply,
                    fragments: fragments as nat,
                    reply: Some(rep@),
                },
            ),
    {
        proof {
            lemma_slot_pos_for(self@.slots, rep@.request_id);
        }
        if self.stats.max_reply_fragments < fragments {
            self.stats.max_reply_fragments = fragments;
        }
        let id = rep.request_id();
        match self.find(id) {
            None => {
                self.stats.orphaned = sat_inc(self.stats.orphaned);
            },
            Some(i) => {
                let kind = match &self.slots[i].1 {
                    Slot::Waiting => 0u8,
                    Slot::Abandoned => 1u8,
                    Slot::Ready(_) => 2u8,
                };
                if kind == 0 {
                    if self.any_older(id) {
                        self.stats.out_of_order = sat_inc(self.stats.out_of_order);
                    }
                    self.put(id, Slot::Ready(rep));
                } else if kind == 1 {
                    self.take(id);
                    self.stats.orphaned = sat_inc(self.stats.orphaned);
                } else {
                    self.record_fault(Fault::Desynchronized);
                }
            },
        }
    }

    /// Drops every tombstone.
    fn sweep(&mut self)
        requires
            old(self).wf(),
        ensures
            final(self).wf(),
            final(self)@ == (InboxView { slots: without_abandoned(old(self)@.slots), ..old(self)@ }),
    {
        let ghost sv = self@.slots;
        let ghost mut k: int = 0;
        let mut i: usize = 0;
        assert(sv.take(0) =~= Seq::<(u32, SlotView)>::empty());
        assert(slots_view(self.slots@) =~= without_abandoned(sv.take(0)) + sv.skip(0));
        while i < self.slots.len()
            invariant
                0 <= k <= sv.len(),
                i == without_abandoned(sv.take(k)).len(),
                slots_view(self.slots@) == without_abandoned(sv.take(k)) + sv.skip(k),
                self.fault == old(self).fault,
                self.stats == old(self).stats,
                self.in_flight == old(self).in_flight,
                self.next_id == old(self).next_id,
            decreases sv.len() - k,
        {
            let ghost w = without_abandoned(sv.take(k));
            assert(slots_view(self.slots@)[i as int] == sv[k]);
            assert(sv.take(k + 1).drop_last() =~= sv.take(k));
            assert(sv.take(k + 1).last() == sv[k]);
            let abandoned = match &self.slots[i].1 {
                Slot::Abandoned => true,
                _ => false,
            };
            if abandoned {
                let ghost before = slots_view(self.slots@);
                self.slots.remove(i);
                assert(slots_view(self.slots@) =~= before.remove(i as int));
                assert(slots_view(self.slots@) =~= without_abandoned(sv.take(k + 1)) + sv.skip(k + 1));
            } else {
                assert(without_abandoned(sv.take(k + 1)) == w.push(sv[k]));
                assert(slots_view(self.slots@) =~= without_abandoned(sv.take(k + 1)) + sv.skip(k + 1));
                i = i + 1;
            }
            proof {
                k = k + 1;
            }
        }
        assert(sv.skip(k).len() == 0);
        assert(sv.take(k) =~= sv);
        assert(slots_view(self.slots@) =~= without_abandoned(sv));
        proof {
            lemma_without_abandoned(sv);
        }
    }
}

// ─────────────────────────────────────────────────────────────────────────────
// Laws
// ─────────────────────────────────────────────────────────────────────────────

/// A reply filed for a caller that is waiting is exactly what that caller
/// collects next.
pub proof fn law_reply_reaches_its_caller(b: InboxView, r: ReplyView, fragments: nat)
    requires
        ids_unique(b.slots),
        b.fault is None,
        slot_for(b.slots, r.request_id) == Some(SlotView::Waiting),
    ensures
        collect_spec(
            file_spec(
                b,
                OutcomeView::Message { msg_type: MsgType::Reply, fragments, reply: Some(r) },
            ),
            r.request_id,
        ).1 == CollectedView::Answer(r),
{
    lemma_put_slot(b.slots, r.request_id, SlotView::Ready(r));
}

/// A reply that arrives after its caller gave up is dropped and counted: it
/// fills no slot, every other request keeps the slot it had, and a later
/// look for it finds nothing to wait for.
pub proof fn law_late_reply_is_dropped(b: InboxView, r: ReplyView, fragments: nat)
    requires
        ids_unique(b.slots),
        b.fault is None,
        slot_for(b.slots, r.request_id) == Some(SlotView::Waiting),
    ensures
        ({
            let a = abandon_spec(b, r.request_id);
            let f = file_spec(
                a,
                OutcomeView::Message { msg_type: MsgType::Reply, fragments, reply: Some(r) },
            );
            &&& f.fault is None
            &&& f.stats.orphaned == inc(a.stats.orphaned)
            &&& slot_for(f.slots, r.request_id) is None
            &&& forall|k: u32| k != r.request_id ==> #[trigger] slot_for(f.slots, k) == slot_for(a.slots, k)
            &&& collect_spec(f, r.request_id).1 == CollectedView::Lost
        }),
{
    let id = r.request_id;
    lemma_put_slot(b.slots, id, SlotView::Abandoned);
    let s = put_slot(b.slots, id, SlotView::Abandoned);
    if s.len() > MAX_ABANDONED {
        lemma_without_abandoned(s);
        assert(slot_for(without_abandoned(s), id) is None);
    }
    let a = abandon_spec(b, id);
    lemma_drop_slot(a.slots, id);
}

/// The first fault wins and is what every waiter is told: nothing filed
/// afterwards replaces it, no request is registered past it, and every
/// caller without an answer in hand is handed it.
pub proof fn law_first_fault_wins(b: InboxView, o: OutcomeView, expect_reply: bool, id: u32)
    requires
        b.fault is Some,
    ensures
        file_spec(b, o).fault == b.fault,
        open_spec(b, expect_reply) == (b, Err::<u32, Fault>(b.fault.unwrap())),
        !(slot_for(b.slots, id) matches Some(SlotView::Ready(_))) ==> collect_spec(b, id).1
            == CollectedView::Gone(b.fault.unwrap()),
{
}

/// A read that timed out having consumed nothing is a quiet wire, not a
/// fault: the inbox is as it was.
pub proof fn law_quiet_wire_changes_nothing(b: InboxView)
    ensures
        forall|kind: IoKind, message: String|
            #[trigger] file_spec(b, OutcomeView::Io { consumed: 0, timed_out: true, kind, message }) == b,
{
}

/// Request ids are never handed out twice in a row and never zero: two
/// successive requests on a healthy connection go out with different ids.
pub proof fn law_ids_are_fresh(b: InboxView, first: bool, second: bool)
    requires
        b.fault is None,
        b.next_id != 0,
    ensures
        open_spec(b, first).1 == Ok::<u32, Fault>(b.next_id),
        open_spec(open_spec(b, first).0, second).1 matches Ok(id2) && id2 != b.next_id && id2 != 0,
{
}

/// Releasing a request that never reached the wire undoes its registration:
/// the slots, the count in flight and the count sent are as before.
pub proof fn law_release_undoes_open(b: InboxView)
    requires
        ids_unique(b.slots),
        b.fault is None,
        b.in_flight < usize::MAX,
        b.stats.sent < u64::MAX,
        slot_for(b.slots, id_at(b.next_id)) is None,
    ensures
        ({
            let (c, r) = open_spec(b, true);
            &&& r == Ok::<u32, Fault>(id_at(b.next_id))
            &&& release_spec(c, id_at(b.next_id)).slots == b.slots
            &&& release_spec(c, id_at(b.next_id)).in_flight == b.in_flight
            &&& release_spec(c, id_at(b.next_id)).stats.sent == b.stats.sent
            &&& release_spec(c, id_at(b.next_id)).fault == b.fault
        }),
{
    let id = id_at(b.next_id);
    lemma_put_slot(b.slots, id, SlotView::Waiting);
    lemma_slot_pos_for(b.slots, id);
    let t = b.slots.push((id, SlotView::Waiting));
    assert(put_slot(b.slots, id, SlotView::Waiting) == t);
    lemma_unique_slot(t, id, b.slots.len() as int);
    assert(t.remove(b.slots.len() as int) =~= b.slots);
}

} // verus!
