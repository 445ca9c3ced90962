//! GIOP versions, message types, reply statuses, redirects and the error
//! type every operation here reports through.
//!
//! **The version is the peer's to choose.** An IIOP profile advertises the
//! highest GIOP minor version the server supports, and a client must not
//! exceed it. Header layouts differ between versions in ways that misparse
//! rather than error, so the version travels with every message.

use vstd::prelude::*;

use crate::cdr::CdrError;
use crate::ior::Ior;
use crate::message::Reply;

verus! {

/// The four octets every GIOP message starts with: `GIOP`.
pub const MAGIC: [u8; 4] = [71u8, 73u8, 79u8, 80u8];

/// Fixed size of a GIOP message header.
pub const HEADER_LEN: usize = 12;

/// Profile tag for an IIOP profile inside an IOR.
pub const TAG_INTERNET_IOP: u32 = 0;

/// Component id for an alternate endpoint on an IIOP profile
/// (`TAG_ALTERNATE_IIOP_ADDRESS`): an encapsulated `string host; unsigned
/// short port;` naming another route to the same profile.
pub const TAG_ALTERNATE_IIOP_ADDRESS: u32 = 3;

/// Default ceiling on an inbound message body.
pub const DEFAULT_MAX_MESSAGE_SIZE: usize = 64 * 1024 * 1024;

/// How many `LOCATION_FORWARD` hops to follow before giving up.
pub const MAX_FORWARD_HOPS: u8 = 8;

/// How long a dial made on a caller's behalf waits, in milliseconds.
pub const FOLLOW_TIMEOUT_MS: u64 = 10_000;

/// Body size above which an outbound message is split into fragments.
pub const DEFAULT_FRAGMENT_THRESHOLD: usize = 1024 * 1024;

/// Most fragments to accept for one logical message before calling it hostile.
pub const MAX_FRAGMENTS: usize = 4096;

/// A GIOP protocol version.
#[derive(Debug, Clone, Copy, PartialEq, Eq, Hash, Structural)]
pub struct Version {
    /// Major version. Always 1 in practice.
    pub major: u8,
    /// Minor version: 0, 1 or 2.
    pub minor: u8,
}

/// Lexicographic order on versions: major first, then minor.
pub open spec fn version_lt(a: Version, b: Version) -> bool {
    a.major < b.major || (a.major == b.major && a.minor < b.minor)
}

impl Version {
    /// GIOP 1.0.
    pub fn v1_0() -> (v: Version)
        ensures
            v == (Version { major: 1, minor: 0 }),
    {
        Version { major: 1, minor: 0 }
    }

    /// GIOP 1.1.
    pub fn v1_1() -> (v: Version)
        ensures
            v == (Version { major: 1, minor: 1 }),
    {
        Version { major: 1, minor: 1 }
    }

    /// GIOP 1.2 — the highest this implementation speaks.
    pub fn v1_2() -> (v: Version)
        ensures
            v == (Version { major: 1, minor: 2 }),
    {
        Version { major: 1, minor: 2 }
    }

    /// The highest version we can speak.
    pub fn max_supported() -> (v: Version)
        ensures
            v == (Version { major: 1, minor: 2 }),
    {
        Version { major: 1, minor: 2 }
    }

    /// Whether headers use the 1.2 field order and `TargetAddress`.
    pub fn is_1_2_layout(self) -> (r: bool)
        ensures
            r == (self.minor >= 2),
    {
        self.minor >= 2
    }

    /// Whether a non-empty request or reply body is aligned to 8. Only 1.2
    /// does this.
    pub fn aligns_body(self) -> (r: bool)
        ensures
            r == (self.minor >= 2),
    {
        self.minor >= 2
    }

    /// Whether the header carries the three reserved octets. 1.0 does not.
    pub fn has_reserved_octets(self) -> (r: bool)
        ensures
            r == (self.minor >= 1),
    {
        self.minor >= 1
    }

    /// The version to speak to a peer advertising `advertised`: never more
    /// than it published, never more than we speak.
    pub fn negotiate(advertised: Version) -> (v: Version)
        ensures
            version_lt(advertised, Version { major: 1, minor: 2 }) ==> v == advertised,
            !version_lt(advertised, Version { major: 1, minor: 2 }) ==> v == (Version {
                major: 1,
                minor: 2,
            }),
    {
        if advertised.major < 1 || (advertised.major == 1 && advertised.minor < 2) {
            advertised
        } else {
            Version::max_supported()
        }
    }

    /// `GIOP <major>.<minor>`: the version as text.
    pub fn text(self) -> (r: String)
        ensures
            crate::text::bytes_of(r@) == version_text(self),
    {
        let mut b: Vec<u8> = Vec::new();
        b.push(71u8);
        b.push(73u8);
        b.push(79u8);
        b.push(80u8);
        b.push(32u8);
        let ma = crate::text::decimal_bytes(self.major as u64);
        crate::text::push_all(&mut b, ma.as_slice());
        b.push(46u8);
        let mi = crate::text::decimal_bytes(self.minor as u64);
        crate::text::push_all(&mut b, mi.as_slice());
        proof {
            crate::text::lemma_decimal_digits(self.major as nat);
            crate::text::lemma_decimal_digits(self.minor as nat);
            assert(b@ =~= version_text(self));
            crate::text::lemma_ascii_valid_utf8(b@);
        }
        crate::text::string_of_utf8(b)
    }
}

/// `GIOP <major>.<minor>` as octets.
pub open spec fn version_text(v: Version) -> Seq<u8> {
    seq![71u8, 73u8, 79u8, 80u8, 32u8] + crate::text::decimal(v.major as nat) + seq![46u8]
        + crate::text::decimal(v.minor as nat)
}

/// GIOP message types.
#[derive(Debug, Clone, Copy, PartialEq, Eq, Hash, Structural)]
pub enum MsgType {
    /// Client invokes an operation.
    Request,
    /// Server answers an invocation.
    Reply,
    /// Client abandons a request.
    CancelRequest,
    /// Client asks whether a target is here.
    LocateRequest,
    /// Server answers a locate.
    LocateReply,
    /// Peer is shutting the connection down cleanly.
    CloseConnection,
    /// Peer could not process the message.
    MessageError,
    /// Continuation of an oversized message.
    Fragment,
}

/// The message-type octet for each type.
pub open spec fn msg_type_octet(t: MsgType) -> u8 {
    match t {
        MsgType::Request => 0,
        MsgType::Reply => 1,
        MsgType::CancelRequest => 2,
        MsgType::LocateRequest => 3,
        MsgType::LocateReply => 4,
        MsgType::CloseConnection => 5,
        MsgType::MessageError => 6,
        MsgType::Fragment => 7,
    }
}

/// The type a message-type octet names, if any.
pub open spec fn msg_type_of(v: u8) -> Option<MsgType> {
    if v == 0 {
        Some(MsgType::Request)
    } else if v == 1 {
        Some(MsgType::Reply)
    } else if v == 2 {
        Some(MsgType::CancelRequest)
    } else if v == 3 {
        Some(MsgType::LocateRequest)
    } else if v == 4 {
        Some(MsgType::LocateReply)
    } else if v == 5 {
        Some(MsgType::CloseConnection)
    } else if v == 6 {
        Some(MsgType::MessageError)
    } else if v == 7 {
        Some(MsgType::Fragment)
    } else {
        None
    }
}

impl MsgType {
    /// Interprets the message-type octet of a GIOP header.
    pub fn from_octet(v: u8) -> (r: Option<MsgType>)
        ensures
            r == msg_type_of(v),
    {
        match v {
            0 => Some(MsgType::Request),
            1 => Some(MsgType::Reply),
            2 => Some(MsgType::CancelRequest),
            3 => Some(MsgType::LocateRequest),
            4 => Some(MsgType::LocateReply),
            5 => Some(MsgType::CloseConnection),
            6 => Some(MsgType::MessageError),
            7 => Some(MsgType::Fragment),
            _ => None,
        }
    }

    /// The octet this type is written as.
    pub fn octet(self) -> (r: u8)
        ensures
            r == msg_type_octet(self),
    {
        match self {
            MsgType::Request => 0,
            MsgType::Reply => 1,
            MsgType::CancelRequest => 2,
            MsgType::LocateRequest => 3,
            MsgType::LocateReply => 4,
            MsgType::CloseConnection => 5,
            MsgType::MessageError => 6,
            MsgType::Fragment => 7,
        }
    }

    /// Whether §9.4.9 lets this type be split into fragments.
    pub fn is_fragmentable(self) -> (r: bool)
        ensures
            r == fragmentable(self),
    {
        match self {
            MsgType::Request | MsgType::Reply | MsgType::LocateRequest | MsgType::LocateReply => {
                true
            },
            _ => false,
        }
    }
}

/// `Request`, `Reply`, `LocateRequest` and `LocateReply` may be fragmented.
pub open spec fn fragmentable(t: MsgType) -> bool {
    t == MsgType::Request || t == MsgType::Reply || t == MsgType::LocateRequest || t
        == MsgType::LocateReply
}

/// The octet round trip: every type reads back from its own octet.
pub proof fn law_msg_type_octet_round_trip(t: MsgType)
    ensures
        msg_type_of(msg_type_octet(t)) == Some(t),
{
}

/// Outcome reported by a GIOP `Reply`.
#[derive(Debug, Clone, Copy, PartialEq, Eq, Structural)]
pub enum ReplyStatus {
    /// Operation completed; the body holds the result.
    NoException,
    /// Operation raised a user exception declared in IDL.
    UserException,
    /// Operation raised a system exception.
    SystemException,
    /// Target moved; the body holds a new IOR to retry against.
    LocationForward,
    /// Target moved permanently. GIOP 1.2 only.
    LocationForwardPerm,
    /// Wrong target addressing disposition. GIOP 1.2 only.
    NeedsAddressingMode,
}

/// What a reply-status value means under `version`: 4 and 5 exist only
/// from 1.2 on, because 1.0 and 1.1 share an enumeration that stops at 3.
pub open spec fn reply_status_of(v: u32, version: Version) -> Option<ReplyStatus> {
    if v == 0 {
        Some(ReplyStatus::NoException)
    } else if v == 1 {
        Some(ReplyStatus::UserException)
    } else if v == 2 {
        Some(ReplyStatus::SystemException)
    } else if v == 3 {
        Some(ReplyStatus::LocationForward)
    } else if v == 4 && version.minor >= 2 {
        Some(ReplyStatus::LocationForwardPerm)
    } else if v == 5 && version.minor >= 2 {
        Some(ReplyStatus::NeedsAddressingMode)
    } else {
        None
    }
}

impl ReplyStatus {
    /// Interprets a reply status for a given version.
    pub fn from_u32(v: u32, version: Version) -> (r: Option<ReplyStatus>)
        ensures
            r == reply_status_of(v, version),
    {
        match v {
            0 => Some(ReplyStatus::NoException),
            1 => Some(ReplyStatus::UserException),
            2 => Some(ReplyStatus::SystemException),
            3 => Some(ReplyStatus::LocationForward),
            4 if version.minor >= 2 => Some(ReplyStatus::LocationForwardPerm),
            5 if version.minor >= 2 => Some(ReplyStatus::NeedsAddressingMode),
            _ => None,
        }
    }
}

/// A redirect: where a request goes instead, and whether the caller may
/// forget the reference it dialled.
#[derive(Debug, Clone, PartialEq, Eq)]
pub enum Forward {
    /// `LOCATION_FORWARD`: retry there; the reference you dialled is still good.
    Temporary(Ior),
    /// `LOCATION_FORWARD_PERM`: it lives there now.
    Permanent(Ior),
}

/// The reference a redirect carries.
pub open spec fn forward_target(f: Forward) -> Ior {
    match f {
        Forward::Temporary(i) => i,
        Forward::Permanent(i) => i,
    }
}

impl Forward {
    /// The reference to retry against.
    pub fn ior(&self) -> (r: &Ior)
        ensures
            *r == forward_target(*self),
    {
        match self {
            Forward::Temporary(ior) => ior,
            Forward::Permanent(ior) => ior,
        }
    }

    /// The reference to retry against, owned.
    pub fn into_ior(self) -> (r: Ior)
        ensures
            r == forward_target(self),
    {
        match self {
            Forward::Temporary(ior) => ior,
            Forward::Permanent(ior) => ior,
        }
    }

    /// Whether the caller may replace the reference it dialled.
    pub fn is_permanent(&self) -> (r: bool)
        ensures
            r == (*self is Permanent),
    {
        match self {
            Forward::Permanent(_) => true,
            Forward::Temporary(_) => false,
        }
    }

    /// The reply status this travels under when answering a `version` peer:
    /// a 1.0 or 1.1 peer cannot be told *permanent*, so it is told
    /// `LOCATION_FORWARD`, which is true and loses only the permission to
    /// forget the old address.
    pub fn reply_status(&self, version: Version) -> (r: ReplyStatus)
        ensures
            r == (if *self is Permanent && version.minor >= 2 {
                ReplyStatus::LocationForwardPerm
            } else {
                ReplyStatus::LocationForward
            }),
    {
        match self {
            Forward::Permanent(_) if version.minor >= 2 => ReplyStatus::LocationForwardPerm,
            _ => ReplyStatus::LocationForward,
        }
    }

    /// A bare reference is a temporary redirect.
    pub fn temporary(ior: Ior) -> (r: Forward)
        ensures
            r == Forward::Temporary(ior),
    {
        Forward::Temporary(ior)
    }
}

/// Anything that can go wrong decoding or encoding GIOP here.
#[derive(Debug)]
pub enum Error {
    /// A CDR value could not be read or written.
    Cdr(CdrError),
    /// The peer sent something that is not a GIOP message.
    NotGiop([u8; 4]),
    /// The peer spoke a GIOP version this implementation does not handle.
    UnsupportedVersion(Version),
    /// The message-type octet had no valid interpretation.
    UnknownMessageType(u8),
    /// The peer sent a message type we did not expect here.
    UnexpectedMessage(MsgType),
    /// `message_size` exceeded the configured ceiling.
    MessageTooLarge {
        /// Size the peer declared.
        declared: usize,
        /// Ceiling in force.
        limit: usize,
    },
    /// A fragmented message this version cannot reassemble.
    FragmentUnsupported,
    /// The reply status had no valid interpretation for its version.
    BadReplyStatus(u32),
    /// The target raised a CORBA system exception.
    SystemException {
        /// Repository ID, e.g. `IDL:omg.org/CORBA/BAD_OPERATION:1.0`.
        id: String,
        /// Vendor minor code.
        minor: u32,
        /// Whether the operation ran before failing.
        completed: u32,
    },
    /// The target raised a user exception. The reply is kept so the caller
    /// can read the exception's members.
    UserException {
        /// Repository ID of the exception.
        id: String,
        /// The reply, whose body starts at the repository ID.
        reply: Box<Reply>,
    },
    /// The IOR string could not be parsed.
    BadIor(BadIorReason),
    /// The IOR carried no IIOP profile to connect to.
    NoIiopProfile,
    /// The peer closed the connection cleanly; the pending request was not
    /// processed and may be re-sent on a new connection.
    ConnectionClosed,
    /// The stream can no longer be framed and must be discarded.
    Desynchronized,
    /// A fragmented message was cut short by `CloseConnection` or
    /// `MessageError` where its continuation was due.
    InterruptedMidReassembly {
        /// What arrived instead.
        control: MsgType,
        /// The message type that was being reassembled.
        partial: MsgType,
        /// The request id of the half-received message.
        request_id: u32,
        /// How many wire messages of it had arrived, counting the first.
        received: usize,
    },
    /// The forward chain exceeded its hop limit.
    TooManyForwards,
    /// More than one request in flight was asked for where it is refused.
    MultiplexingUnsupported {
        /// The version negotiated for the connection.
        version: Version,
    },
    /// The pool is at its bound and nothing in it could be evicted.
    PoolExhausted {
        /// The bound in force.
        limit: usize,
    },
    /// §7.10.2.6: the profile published a `TAG_CODE_SETS` component and
    /// nothing in it was acceptable to both sides (`CODESET_INCOMPATIBLE`).
    CodesetIncompatible,
    /// A `char` code set other than UTF-8 was agreed, and nothing on this
    /// connection converts to it.
    CodesetNotApplied {
        /// The code set agreed and not encoded to.
        negotiated: u32,
    },
}

/// Why an `IOR:` string was refused.
#[derive(Debug, Clone, Copy, PartialEq, Eq, Structural)]
pub enum BadIorReason {
    /// The string does not start with `IOR:` in any case.
    MissingPrefix,
    /// The hex body is empty or has an odd number of digits.
    OddOrEmpty,
    /// A character of the body is not a hex digit.
    NonHexDigit,
    /// A URL that names an initial reference, not an object.
    InitialReferenceUrl,
    /// A URL the object-URL parser refused.
    MalformedUrl,
    /// A URL that does not address an object directly.
    NotAddressed,
}

impl Error {
    /// Whether the peer tore the connection down in an orderly way —
    /// `CloseConnection`, between messages or between the fragments of one —
    /// rather than leaving a stream that can no longer be framed.
    pub fn is_orderly_close(&self) -> (r: bool)
        ensures
            r == (*self is ConnectionClosed || (*self matches Error::InterruptedMidReassembly {
                control,
                ..
            } && control == MsgType::CloseConnection)),
    {
        match self {
            Error::ConnectionClosed => true,
            Error::InterruptedMidReassembly { control, .. } => *control == MsgType::CloseConnection,
            _ => false,
        }
    }
}

} // verus!
