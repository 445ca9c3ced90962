//! What one connection decides about one two-way call: what the message
//! read after the request means, and where a failed call goes next.
//!
//! Exactly one message answers one request on a connection with one
//! request in flight. A reply for another id, a decoding failure or a
//! message that has no place here leaves the connection unframeable; only
//! `CloseConnection` (§9.4.7) says the request was not processed.
//!
//! A call follows forwards, each a new connection. When it fails, the
//! location process of §9.6 restarts only under its own conditions: a
//! temporary forward stands, the connection itself failed, the request
//! provably did not run, and the call has not spent its fallback. The
//! fallback is, in order, one redial of the forwarded-to reference, then
//! the origin, then nothing.

use vstd::prelude::*;

use crate::giop::{forward_target, Error, Forward, MsgType, MAX_FORWARD_HOPS};
use crate::ior::{Ior, IorView};
use crate::message::{decode_reply, interpret_reply, interpreted, Outcome, RawMessage};
use crate::mux::{reply_decoded, Failed};

verus! {

/// The failure decoding a framed reply reports, or `None` when it decodes.
pub open spec fn reply_decode_error(bytes: Seq<u8>, endian: crate::cdr::Endian, version: crate::giop::Version) -> Option<Error> {
    match crate::message::past_header(bytes, endian) {
        Err(e) => Some(Error::Cdr(e)),
        Ok(d) => match crate::message::read_reply_header(d, version) {
            Err(e) => Some(Error::Cdr(e)),
            Ok((_, st, d3)) => match crate::giop::reply_status_of(st, version) {
                None => Some(Error::BadReplyStatus(st)),
                Some(_) => match crate::message::reply_body_at(d3, version) {
                    Err(e) => Some(Error::Cdr(e)),
                    Ok(_) => None,
                },
            },
        },
    }
}

/// Whether `r` is what the message with the given type and (if it decodes)
/// reply says about request `request_id`; `undecodable` is the failure a
/// reply that does not decode reports.
pub open spec fn answered(
    msg_type: MsgType,
    reply: Option<crate::message::ReplyView>,
    undecodable: Option<Error>,
    request_id: u32,
    r: Result<Outcome, Failed>,
) -> bool {
    if msg_type == MsgType::Reply {
        match reply {
            None => r matches Err(f) && !f.unsent && undecodable == Some(f.error),
            Some(rv) => if rv.request_id != request_id {
                r matches Err(f) && !f.unsent && f.error is Desynchronized
            } else {
                match r {
                    Ok(o) => interpreted(rv, Ok(o)),
                    Err(f) => !f.unsent && interpreted(rv, Err(f.error)),
                }
            },
        }
    } else if msg_type == MsgType::CloseConnection {
        r matches Err(f) && f.unsent && f.error is ConnectionClosed
    } else {
        r matches Err(f) && !f.unsent && (f.error matches Error::UnexpectedMessage(t) && t
            == msg_type)
    }
}

/// What the one message read after request `request_id` went out says
/// about it. Every failure here but `CloseConnection` is one whose
/// completion is unknown.
pub fn answer_of(raw: RawMessage, request_id: u32) -> (r: Result<Outcome, Failed>)
    ensures
        answered(
            raw.msg_type,
            reply_decoded(raw.bytes@, raw.endian, raw.version),
            reply_decode_error(raw.bytes@, raw.endian, raw.version),
            request_id,
            r,
        ),
{
    answer_and_framing(raw, request_id).0
}

/// Whether the one message read after request `request_id` leaves the
/// connection unusable: anything but a reply, a reply that does not decode,
/// or one naming another request. A reply that decodes and answers this
/// request leaves it usable whatever it says — an exception or a redirect
/// included.
pub open spec fn framing_lost(
    msg_type: MsgType,
    reply: Option<crate::message::ReplyView>,
    request_id: u32,
) -> bool {
    msg_type != MsgType::Reply || match reply {
        None => true,
        Some(rv) => rv.request_id != request_id,
    }
}

/// What the one message read after request `request_id` went out says
/// about it, and whether the connection is lost with it.
pub fn answer_and_framing(raw: RawMessage, request_id: u32) -> (r: (Result<Outcome, Failed>, bool))
    ensures
        answered(
            raw.msg_type,
            reply_decoded(raw.bytes@, raw.endian, raw.version),
            reply_decode_error(raw.bytes@, raw.endian, raw.version),
            request_id,
            r.0,
        ),
        r.1 == framing_lost(raw.msg_type, reply_decoded(raw.bytes@, raw.endian, raw.version), request_id),
{
    let t = raw.msg_type;
    if t == MsgType::CloseConnection {
        return (Err(Failed { error: Error::ConnectionClosed, unsent: true }), true);
    }
    if t != MsgType::Reply {
        return (Err(Failed { error: Error::UnexpectedMessage(t), unsent: false }), true);
    }
    let reply = match decode_reply(raw) {
        Ok(r) => r,
        Err(e) => {
            return (Err(Failed { error: e, unsent: false }), true);
        },
    };
    if reply.request_id() != request_id {
        return (Err(Failed { error: Error::Desynchronized, unsent: false }), true);
    }
    match interpret_reply(reply) {
        Ok(o) => (Ok(o), false),
        Err(e) => (Err(Failed { error: e, unsent: false }), false),
    }
}

/// How much of the fallback one call has left.
#[derive(Debug, Clone, Copy, PartialEq, Eq, Structural)]
pub enum Fallback {
    /// Redial where the standing temporary forward points.
    Reuse,
    /// Restart at the origin.
    Restart,
    /// Nothing: report the failure.
    Spent,
}

/// What to do about a failed call.
#[derive(Debug)]
pub enum Recovery {
    /// The failure is the answer.
    GiveUp,
    /// Redial the forwarded-to reference and call again.
    Redial(Ior),
    /// Redial the origin and call again.
    RestartAtOrigin,
}

/// Where one connection's calls go: the reference it was first asked for
/// (or the last permanent forward, which replaces it), the forward in
/// force, and one call's progress through its hops and its fallback.
#[derive(Debug)]
pub struct Route {
    origin: Ior,
    forwarded: Option<Forward>,
    fallback: Fallback,
    hops: u8,
}

/// A route as values.
pub struct RouteView {
    pub origin: IorView,
    pub forwarded: Option<(bool, IorView)>,
    pub fallback: Fallback,
    pub hops: nat,
}

impl View for Route {
    type V = RouteView;

    closed spec fn view(&self) -> RouteView {
        RouteView {
            origin: self.origin@,
            forwarded: crate::pool::opt_forward_view(self.forwarded),
            fallback: self.fallback,
            hops: self.hops as nat,
        }
    }
}

/// The decision after a call failed on the connection: only an unsent
/// failure of the connection itself under a standing temporary forward is
/// recovered from, first by redialling the forward, then at the origin.
pub open spec fn recovery_spec(r: RouteView, unsent: bool, poisoned: bool) -> (RouteView, Option<(bool, IorView)>) {
    // The second component: `None` to give up; `Some((false, via))` to
    // redial the forward; `Some((true, origin))` to restart at the origin.
    let temporary = r.forwarded matches Some(f) && !f.0;
    if !unsent || !poisoned || !temporary {
        (r, None)
    } else {
        match r.fallback {
            Fallback::Reuse => (
                RouteView { fallback: Fallback::Restart, ..r },
                Some((false, r.forwarded->Some_0.1)),
            ),
            Fallback::Restart => (RouteView { fallback: Fallback::Spent, ..r }, Some((true, r.origin))),
            Fallback::Spent => (r, None),
        }
    }
}

/// What a recovery is as values, matched against `recovery_spec`.
pub open spec fn recovery_view(rec: Recovery, origin: IorView) -> Option<(bool, IorView)> {
    match rec {
        Recovery::GiveUp => None,
        Recovery::Redial(i) => Some((false, i@)),
        Recovery::RestartAtOrigin => Some((true, origin)),
    }
}

impl Route {
    /// A connection dialled for `origin`, before any call.
    pub fn new(origin: Ior) -> (r: Route)
        ensures
            r@ == (RouteView { origin: origin@, forwarded: None, fallback: Fallback::Reuse, hops: 0 }),
    {
        Route { origin, forwarded: None, fallback: Fallback::Reuse, hops: 0 }
    }

    /// The reference a restart goes back to.
    pub fn origin(&self) -> (r: &Ior)
        ensures
            r@ == self@.origin,
    {
        &self.origin
    }

    /// The forward in force, if a call was redirected.
    pub fn forwarded(&self) -> (r: Option<&Forward>)
        ensures
            match r {
                Some(f) => self@.forwarded == Some(crate::pool::forward_view(*f)),
                None => self@.forwarded is None,
            },
    {
        self.forwarded.as_ref()
    }

    /// A new call begins: its hops and its fallback start afresh.
    pub fn begin_call(&mut self)
        ensures
            final(self)@ == (RouteView { fallback: Fallback::Reuse, hops: 0, ..old(self)@ }),
    {
        self.fallback = Fallback::Reuse;
        self.hops = 0;
    }

    /// Whether the call may make another try: at most `MAX_FORWARD_HOPS`.
    pub fn next_try(&mut self) -> (r: bool)
        ensures
            r == (old(self)@.hops < MAX_FORWARD_HOPS),
            final(self)@ == (RouteView {
                hops: if r {
                    old(self)@.hops + 1
                } else {
                    old(self)@.hops
                },
                ..old(self)@
            }),
    {
        if self.hops < MAX_FORWARD_HOPS {
            self.hops = self.hops + 1;
            true
        } else {
            false
        }
    }

    /// The connection moved to where `forward` points: recorded, and a
    /// permanent forward also becomes the origin.
    pub fn followed(&mut self, forward: Forward)
        ensures
            final(self)@ == (RouteView {
                origin: if forward is Permanent {
                    forward_target(forward)@
                } else {
                    old(self)@.origin
                },
                forwarded: Some(crate::pool::forward_view(forward)),
                ..old(self)@
            }),
    {
        if forward.is_permanent() {
            self.origin = forward.ior().duplicate();
        }
        self.forwarded = Some(forward);
    }

    /// The connection went back to the origin: no forward stands.
    pub fn restarted(&mut self)
        ensures
            final(self)@ == (RouteView { forwarded: None, ..old(self)@ }),
    {
        self.forwarded = None;
    }

    /// Decides after a call failed: `unsent` when the request provably did
    /// not run, `poisoned` when the connection itself can no longer be
    /// used.
    pub fn recover(&mut self, unsent: bool, poisoned: bool) -> (r: Recovery)
        ensures
            final(self)@ == recovery_spec(old(self)@, unsent, poisoned).0,
            recovery_view(r, old(self)@.origin) == recovery_spec(old(self)@, unsent, poisoned).1,
    {
        let temporary = match &self.forwarded {
            Some(Forward::Temporary(_)) => true,
            _ => false,
        };
        if !unsent || !poisoned || !temporary {
            return Recovery::GiveUp;
        }
        match self.fallback {
            Fallback::Reuse => {
                self.fallback = Fallback::Restart;
                match &self.forwarded {
                    Some(f) => Recovery::Redial(f.ior().duplicate()),
                    None => Recovery::GiveUp,
                }
            },
            Fallback::Restart => {
                self.fallback = Fallback::Spent;
                Recovery::RestartAtOrigin
            },
            Fallback::Spent => Recovery::GiveUp,
        }
    }

    /// Redialling the forward failed: straight on to the origin, in the
    /// same call, and nothing after that.
    pub fn redial_failed(&mut self)
        ensures
            final(self)@ == (RouteView { fallback: Fallback::Spent, ..old(self)@ }),
    {
        self.fallback = Fallback::Spent;
    }
}

/// A failure whose completion is unknown is never recovered from: the
/// request may have run.
pub proof fn law_unknown_completion_is_not_retried(r: RouteView, poisoned: bool)
    ensures
        recovery_spec(r, false, poisoned) == (r, None::<(bool, IorView)>),
{
}

/// Only a temporary forward is fallen back from: without one the failure is
/// the answer.
pub proof fn law_only_a_temporary_forward_falls_back(r: RouteView, unsent: bool, poisoned: bool)
    requires
        !(r.forwarded matches Some(f) && !f.0),
    ensures
        recovery_spec(r, unsent, poisoned).1 is None,
{
}

/// The fallback is spent in order and once: a redial of the forward, then
/// the origin, then nothing.
pub proof fn law_fallback_is_spent_once(r: RouteView)
    requires
        r.forwarded matches Some(f) && !f.0,
        r.fallback == Fallback::Reuse,
    ensures
        ({
            let (r1, a1) = recovery_spec(r, true, true);
            let (r2, a2) = recovery_spec(r1, true, true);
            let (r3, a3) = recovery_spec(r2, true, true);
            &&& a1 == Some((false, r.forwarded->Some_0.1))
            &&& a2 == Some((true, r.origin))
            &&& a3 is None
            &&& r3 == r2
        }),
{
}

} // verus!
