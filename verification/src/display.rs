//! Every failure as the sentence an operator reads. Each rendering is a
//! function of the value alone, stated as a specification and proved.

use vstd::prelude::*;

use crate::cdr::CdrError;
use crate::chars::{
    chars_of, debug_quoted, decimal_text, hex_text, push_debug_quoted, push_decimal, push_hex, push_str,
    string_of,
};
use crate::giop::{BadIorReason, Error, MsgType, Version};
use crate::naming::url_error_text;
use crate::orb::config::{texts_view, ConfigError};
use crate::orb::{InvalidName, StringToObjectError};
use crate::rewriting::{Change, ChangeView, MapError, RewriteReport, Where};

verus! {

/// Texts joined by `", "`.
pub open spec fn joined(v: Seq<Seq<char>>) -> Seq<char>
    decreases v.len(),
{
    if v.len() == 0 {
        Seq::empty()
    } else if v.len() == 1 {
        v[0]
    } else {
        joined(v.drop_last()) + ", "@ + v.last()
    }
}

fn push_joined(out: &mut Vec<char>, v: &[String])
    ensures
        final(out)@ == old(out)@ + joined(texts_view(v@)),
{
    let ghost start = out@;
    let mut i: usize = 0;
    assert(texts_view(v@).take(0) =~= Seq::<Seq<char>>::empty());
    assert(out@ =~= start + joined(texts_view(v@).take(0)));
    while i < v.len()
        invariant
            i <= v@.len(),
            out@ == start + joined(texts_view(v@).take(i as int)),
        decreases v.len() - i,
    {
        let ghost t = texts_view(v@).take(i + 1);
        assert(t.drop_last() =~= texts_view(v@).take(i as int));
        assert(t.last() == v@[i as int]@);
        if i > 0 {
            push_str(out, ", ");
        }
        push_str(out, v[i].as_str());
        proof {
            if i == 0 {
                assert(out@ =~= start + joined(t));
            } else {
                assert(out@ =~= start + joined(t));
            }
        }
        i = i + 1;
    }
    assert(texts_view(v@).take(v@.len() as int) =~= texts_view(v@));
}

// ─────────────────────────────────────────────────────────────────────────────
// CDR and GIOP failures
// ─────────────────────────────────────────────────────────────────────────────

/// The sentence for a CDR failure.
pub open spec fn cdr_text(e: CdrError) -> Seq<char> {
    match e {
        CdrError::Truncated => "the stream ended before the value did"@,
        CdrError::EmptyString => "a string length of zero"@,
        CdrError::MissingNul => "a string without its terminating NUL"@,
        CdrError::BadBoolean => "a boolean octet other than 0 or 1"@,
        CdrError::BadByteOrder => "an encapsulation byte-order octet other than 0 or 1"@,
        CdrError::BadUtf8 => "a string that is not valid UTF-8"@,
        CdrError::CountTooLarge => "a count larger than the remaining octets can hold"@,
        CdrError::SeekPastEnd => "a seek beyond the end of the stream"@,
        CdrError::TooLong => "a stream or length too long to encode"@,
        CdrError::ReservedFlagBits => "reserved GIOP flag bits set"@,
        CdrError::BadByteOrderOctet => "a byte-order octet other than 0 or 1"@,
    }
}

fn cdr_str(e: CdrError) -> (r: &'static str)
    ensures
        r@ == cdr_text(e),
{
    match e {
        CdrError::Truncated => "the stream ended before the value did",
        CdrError::EmptyString => "a string length of zero",
        CdrError::MissingNul => "a string without its terminating NUL",
        CdrError::BadBoolean => "a boolean octet other than 0 or 1",
        CdrError::BadByteOrder => "an encapsulation byte-order octet other than 0 or 1",
        CdrError::BadUtf8 => "a string that is not valid UTF-8",
        CdrError::CountTooLarge => "a count larger than the remaining octets can hold",
        CdrError::SeekPastEnd => "a seek beyond the end of the stream",
        CdrError::TooLong => "a stream or length too long to encode",
        CdrError::ReservedFlagBits => "reserved GIOP flag bits set",
        CdrError::BadByteOrderOctet => "a byte-order octet other than 0 or 1",
    }
}

impl CdrError {
    /// The failure as a sentence.
    pub fn message(&self) -> (r: String)
        ensures
            r@ == cdr_text(*self),
    {
        cdr_str(*self).to_owned()
    }
}

/// Why an `IOR:` string was refused, as text.
pub open spec fn bad_ior_text(w: BadIorReason) -> Seq<char> {
    match w {
        BadIorReason::MissingPrefix => "missing 'IOR:' prefix"@,
        BadIorReason::OddOrEmpty => "hex body has odd or zero length"@,
        BadIorReason::NonHexDigit => "non-hex digit"@,
        BadIorReason::InitialReferenceUrl =>
            "corbaloc:rir: names an initial reference; resolve it through the ORB's table first"@,
        BadIorReason::MalformedUrl => "malformed corbaloc URL"@,
        BadIorReason::NotAddressed => "this URL does not address an object directly"@,
    }
}

fn bad_ior_str(w: BadIorReason) -> (r: &'static str)
    ensures
        r@ == bad_ior_text(w),
{
    match w {
        BadIorReason::MissingPrefix => "missing 'IOR:' prefix",
        BadIorReason::OddOrEmpty => "hex body has odd or zero length",
        BadIorReason::NonHexDigit => "non-hex digit",
        BadIorReason::InitialReferenceUrl =>
            "corbaloc:rir: names an initial reference; resolve it through the ORB's table first",
        BadIorReason::MalformedUrl => "malformed corbaloc URL",
        BadIorReason::NotAddressed => "this URL does not address an object directly",
    }
}

/// A message type as `{:?}` names it.
pub open spec fn msg_type_name(t: MsgType) -> Seq<char> {
    match t {
        MsgType::Request => "Request"@,
        MsgType::Reply => "Reply"@,
        MsgType::CancelRequest => "CancelRequest"@,
        MsgType::LocateRequest => "LocateRequest"@,
        MsgType::LocateReply => "LocateReply"@,
        MsgType::CloseConnection => "CloseConnection"@,
        MsgType::MessageError => "MessageError"@,
        MsgType::Fragment => "Fragment"@,
    }
}

fn msg_type_str(t: MsgType) -> (r: &'static str)
    ensures
        r@ == msg_type_name(t),
{
    match t {
        MsgType::Request => "Request",
        MsgType::Reply => "Reply",
        MsgType::CancelRequest => "CancelRequest",
        MsgType::LocateRequest => "LocateRequest",
        MsgType::LocateReply => "LocateReply",
        MsgType::CloseConnection => "CloseConnection",
        MsgType::MessageError => "MessageError",
        MsgType::Fragment => "Fragment",
    }
}

/// `GIOP <major>.<minor>`.
pub open spec fn version_chars(v: Version) -> Seq<char> {
    "GIOP "@ + decimal_text(v.major as nat) + "."@ + decimal_text(v.minor as nat)
}

fn push_version(out: &mut Vec<char>, v: Version)
    ensures
        final(out)@ == old(out)@ + version_chars(v),
{
    push_str(out, "GIOP ");
    push_decimal(out, v.major as u64);
    push_str(out, ".");
    push_decimal(out, v.minor as u64);
    assert(final(out)@ =~= old(out)@ + version_chars(v));
}

/// Four octets as `{:?}` shows an array: `[a, b, c, d]`.
pub open spec fn magic_text(m: [u8; 4]) -> Seq<char> {
    "["@ + decimal_text(m@[0] as nat) + ", "@ + decimal_text(m@[1] as nat) + ", "@ + decimal_text(
        m@[2] as nat,
    ) + ", "@ + decimal_text(m@[3] as nat) + "]"@
}

/// The sentence for a GIOP failure.
pub open spec fn error_text(e: Error) -> Seq<char> {
    match e {
        Error::Cdr(c) => "cdr: "@ + cdr_text(c),
        Error::NotGiop(m) => "not a GIOP message, magic was "@ + magic_text(m),
        Error::UnsupportedVersion(v) => "unsupported "@ + version_chars(v),
        Error::UnknownMessageType(v) => "unknown GIOP message type "@ + decimal_text(v as nat),
        Error::UnexpectedMessage(t) => "unexpected GIOP message: "@ + msg_type_name(t),
        Error::MessageTooLarge { declared, limit } => "peer declared a "@ + decimal_text(
            declared as nat,
        ) + "-byte message, ceiling is "@ + decimal_text(limit as nat),
        Error::FragmentUnsupported => "peer fragmented the message; reassembly is not implemented"@,
        Error::BadReplyStatus(v) => "invalid reply status "@ + decimal_text(v as nat)
            + " for this version"@,
        Error::SystemException { id, minor, completed } => "system exception "@ + id@
            + " (minor="@ + decimal_text(minor as nat) + ", completed="@ + decimal_text(
            completed as nat,
        ) + ")"@,
        Error::UserException { id, .. } => "user exception "@ + id@,
        Error::BadIor(w) => "bad IOR: "@ + bad_ior_text(w),
        Error::NoIiopProfile => "IOR has no IIOP profile"@,
        Error::ConnectionClosed => "peer closed the connection; the request was not processed"@,
        Error::Desynchronized => "connection is desynchronized and must be discarded"@,
        Error::InterruptedMidReassembly { control, partial, request_id, received } => "peer sent "@
            + msg_type_name(control) + " after "@ + decimal_text(received as nat)
            + " piece(s) of a fragmented "@ + msg_type_name(partial) + " for request "@
            + decimal_text(request_id as nat),
        Error::TooManyForwards => "too many LOCATION_FORWARD hops"@,
        Error::MultiplexingUnsupported { version } =>
            "more than one request in flight is not supported on "@ + version_chars(version),
        Error::PoolExhausted { limit } => "connection pool is at its bound of "@ + decimal_text(
            limit as nat,
        ) + " and nothing was evictable"@,
        Error::CodesetIncompatible =>
            "CODESET_INCOMPATIBLE: no char code set is acceptable to both sides"@,
        Error::CodesetNotApplied { negotiated } => "negotiated char codeset 0x"@ + hex_text(
            negotiated as nat,
        ) + ", which nothing on this connection encodes to; call Connection::convert_chars and write the converted octets, or talk to a peer that accepts UTF-8"@,
    }
}

fn push_error(out: &mut Vec<char>, e: &Error)
    ensures
        final(out)@ == old(out)@ + error_text(*e),
{
    let ghost start = out@;
    match e {
        Error::Cdr(c) => {
            push_str(out, "cdr: ");
            push_str(out, cdr_str(*c));
        },
        Error::NotGiop(m) => {
            push_str(out, "not a GIOP message, magic was ");
            push_str(out, "[");
            push_decimal(out, m[0] as u64);
            push_str(out, ", ");
            push_decimal(out, m[1] as u64);
            push_str(out, ", ");
            push_decimal(out, m[2] as u64);
            push_str(out, ", ");
            push_decimal(out, m[3] as u64);
            push_str(out, "]");
        },
        Error::UnsupportedVersion(v) => {
            push_str(out, "unsupported ");
            push_version(out, *v);
        },
        Error::UnknownMessageType(v) => {
            push_str(out, "unknown GIOP message type ");
            push_decimal(out, *v as u64);
        },
        Error::UnexpectedMessage(t) => {
            push_str(out, "unexpected GIOP message: ");
            push_str(out, msg_type_str(*t));
        },
        Error::MessageTooLarge { declared, limit } => {
            push_str(out, "peer declared a ");
            push_decimal(out, *declared as u64);
            push_str(out, "-byte message, ceiling is ");
            push_decimal(out, *limit as u64);
        },
        Error::FragmentUnsupported => {
            push_str(out, "peer fragmented the message; reassembly is not implemented");
        },
        Error::BadReplyStatus(v) => {
            push_str(out, "invalid reply status ");
            push_decimal(out, *v as u64);
            push_str(out, " for this version");
        },
        Error::SystemException { id, minor, completed } => {
            push_str(out, "system exception ");
            push_str(out, id.as_str());
            push_str(out, " (minor=");
            push_decimal(out, *minor as u64);
            push_str(out, ", completed=");
            push_decimal(out, *completed as u64);
            push_str(out, ")");
        },
        Error::UserException { id, .. } => {
            push_str(out, "user exception ");
            push_str(out, id.as_str());
        },
        Error::BadIor(w) => {
            push_str(out, "bad IOR: ");
            push_str(out, bad_ior_str(*w));
        },
        Error::NoIiopProfile => {
            push_str(out, "IOR has no IIOP profile");
        },
        Error::ConnectionClosed => {
            push_str(out, "peer closed the connection; the request was not processed");
        },
        Error::Desynchronized => {
            push_str(out, "connection is desynchronized and must be discarded");
        },
        Error::InterruptedMidReassembly { control, partial, request_id, received } => {
            push_str(out, "peer sent ");
            push_str(out, msg_type_str(*control));
            push_str(out, " after ");
            push_decimal(out, *received as u64);
            push_str(out, " piece(s) of a fragmented ");
            push_str(out, msg_type_str(*partial));
            push_str(out, " for request ");
            push_decimal(out, *request_id as u64);
        },
        Error::TooManyForwards => {
            push_str(out, "too many LOCATION_FORWARD hops");
        },
        Error::MultiplexingUnsupported { version } => {
            push_str(out, "more than one request in flight is not supported on ");
            push_version(out, *version);
        },
        Error::PoolExhausted { limit } => {
            push_str(out, "connection pool is at its bound of ");
            push_decimal(out, *limit as u64);
            push_str(out, " and nothing was evictable");
        },
        Error::CodesetIncompatible => {
            push_str(out, "CODESET_INCOMPATIBLE: no char code set is acceptable to both sides");
        },
        Error::CodesetNotApplied { negotiated } => {
            push_str(out, "negotiated char codeset 0x");
            push_hex(out, *negotiated);
            push_str(
                out,
                ", which nothing on this connection encodes to; call Connection::convert_chars and write the converted octets, or talk to a peer that accepts UTF-8",
            );
        },
    }
    assert(out@ =~= start + error_text(*e));
}

impl Error {
    /// The failure as a sentence.
    pub fn message(&self) -> (r: String)
        ensures
            r@ == error_text(*self),
    {
        let mut out: Vec<char> = Vec::new();
        push_error(&mut out, self);
        assert(out@ =~= error_text(*self));
        string_of(out.as_slice())
    }
}


// ─────────────────────────────────────────────────────────────────────────────
// ORB failures
// ─────────────────────────────────────────────────────────────────────────────

/// The sentence for an initial-reference refusal.
pub open spec fn invalid_name_text(e: InvalidName) -> Seq<char> {
    match e {
        InvalidName::NotRegistered { key, reserved, known } => "no initial reference is registered for "@
            + debug_quoted(key@) + (if reserved {
            " (an ObjectId CORBA 3.4 §8.5.2 reserves)"@
        } else {
            " (not an ObjectId CORBA 3.4 §8.5.2 reserves)"@
        }) + (if known@.len() == 0 {
            "; this ORB has registered nothing"@
        } else {
            "; this ORB has registered "@ + joined(texts_view(known@))
        }),
        InvalidName::EmptyId =>
            "an initial reference cannot be registered under the empty ObjectId (CORBA 3.4 §16.10.1)"@,
        InvalidName::AlreadyRegistered { key } => debug_quoted(key@)
            + " is already registered as an initial reference (CORBA 3.4 §16.10.1); unregister it first"@,
    }
}

fn push_invalid_name(out: &mut Vec<char>, e: &InvalidName)
    ensures
        final(out)@ == old(out)@ + invalid_name_text(*e),
{
    let ghost start = out@;
    match e {
        InvalidName::NotRegistered { key, reserved, known } => {
            push_str(out, "no initial reference is registered for ");
            push_debug_quoted(out, key.as_str());
            if *reserved {
                push_str(out, " (an ObjectId CORBA 3.4 §8.5.2 reserves)");
            } else {
                push_str(out, " (not an ObjectId CORBA 3.4 §8.5.2 reserves)");
            }
            if known.len() == 0 {
                push_str(out, "; this ORB has registered nothing");
            } else {
                push_str(out, "; this ORB has registered ");
                push_joined(out, known.as_slice());
            }
        },
        InvalidName::EmptyId => {
            push_str(
                out,
                "an initial reference cannot be registered under the empty ObjectId (CORBA 3.4 §16.10.1)",
            );
        },
        InvalidName::AlreadyRegistered { key } => {
            push_debug_quoted(out, key.as_str());
            push_str(
                out,
                " is already registered as an initial reference (CORBA 3.4 §16.10.1); unregister it first",
            );
        },
    }
    assert(out@ =~= start + invalid_name_text(*e));
}

impl InvalidName {
    /// The refusal as a sentence, naming the `ObjectId` it is about.
    pub fn message(&self) -> (r: String)
        ensures
            r@ == invalid_name_text(*self),
    {
        let mut out: Vec<char> = Vec::new();
        push_invalid_name(&mut out, self);
        assert(out@ =~= invalid_name_text(*self));
        string_of(out.as_slice())
    }
}

/// The head of a long text: its first 72 characters and an ellipsis.
pub open spec fn shown(t: Seq<char>) -> Seq<char> {
    if t.len() > 72 {
        t.take(72) + "…"@
    } else {
        t
    }
}

/// The sentence for a `string_to_object` refusal.
pub open spec fn s2o_text(e: StringToObjectError) -> Seq<char> {
    let q = debug_quoted(shown(e.text_view()));
    match e {
        StringToObjectError::NotAReferenceString { .. } => q
            + " is not a stringified object reference: it begins with neither \"IOR:\" nor a corbaloc:/corbaname: scheme (CORBA 3.4 §8.2.2.2)"@,
        StringToObjectError::Ior { cause, .. } => q + " has an \"IOR:\" prefix but does not decode: "@
            + error_text(cause),
        StringToObjectError::Url { cause, .. } => q + " is a malformed object URL: "@ + url_error_text(
            cause,
        ),
        StringToObjectError::Name { cause, .. } => q + " could not be resolved: "@ + invalid_name_text(
            cause,
        ),
        StringToObjectError::NeedsANamingCall { name, .. } => q
            + " denotes the object bound under "@ + debug_quoted(name@)
            + " in the naming service it addresses (CORBA 3.4 Part 2 §7.6.10.5), and producing it takes a resolve call this operation does not make; connect with NamingContext::from_url and resolve the name"@,
    }
}

impl StringToObjectError {
    /// The refusal as a sentence, naming (the head of) the string.
    pub fn message(&self) -> (r: String)
        ensures
            r@ == s2o_text(*self),
    {
        let t = chars_of(self.text());
        let mut head: Vec<char> = Vec::new();
        if t.len() > 72 {
            crate::text::push_all_chars(&mut head, &t.as_slice()[0..72]);
            push_str(&mut head, "…");
            assert(t@.subrange(0, 72) =~= t@.take(72));
        } else {
            crate::text::push_all_chars(&mut head, t.as_slice());
        }
        assert(head@ =~= shown(self.text_view()));
        let hs = string_of(head.as_slice());
        let mut out: Vec<char> = Vec::new();
        push_debug_quoted(&mut out, hs.as_str());
        let ghost q = out@;
        match self {
            StringToObjectError::NotAReferenceString { .. } => {
                push_str(
                    &mut out,
                    " is not a stringified object reference: it begins with neither \"IOR:\" nor a corbaloc:/corbaname: scheme (CORBA 3.4 §8.2.2.2)",
                );
            },
            StringToObjectError::Ior { cause, .. } => {
                push_str(&mut out, " has an \"IOR:\" prefix but does not decode: ");
                push_error(&mut out, cause);
            },
            StringToObjectError::Url { cause, .. } => {
                push_str(&mut out, " is a malformed object URL: ");
                let m = cause.message();
                push_str(&mut out, m.as_str());
            },
            StringToObjectError::Name { cause, .. } => {
                push_str(&mut out, " could not be resolved: ");
                push_invalid_name(&mut out, cause);
            },
            StringToObjectError::NeedsANamingCall { name, .. } => {
                push_str(&mut out, " denotes the object bound under ");
                push_debug_quoted(&mut out, name.as_str());
                push_str(
                    &mut out,
                    " in the naming service it addresses (CORBA 3.4 Part 2 §7.6.10.5), and producing it takes a resolve call this operation does not make; connect with NamingContext::from_url and resolve the name",
                );
            },
        }
        assert(out@ =~= s2o_text(*self));
        string_of(out.as_slice())
    }
}

/// The sentence for a configuration refusal.
pub open spec fn config_error_text(e: ConfigError) -> Seq<char> {
    match e {
        ConfigError::Unknown { arg, known } => arg@
            + " is not an ORB argument this ORB recognises, so the whole configuration is refused (CORBA 3.4 §8.5.1); it accepts "@
            + joined(texts_view(known@)),
        ConfigError::Unimplemented { arg, reason } => arg@
            + " is a standard ORB argument this ORB does not implement: "@ + reason@,
        ConfigError::MissingValue { arg, expected } => arg@ + " takes "@ + expected@
            + ", and the argument list ended"@,
        ConfigError::BadValue { arg, value, expected } => arg@ + " takes "@ + expected@
            + ", and was given "@ + debug_quoted(value@),
        ConfigError::RirInInitRef { object_id, url } => "-ORBInitRef "@ + object_id@ + "="@ + url@
            + " names a corbaloc:rir URL, which CORBA 3.4 §8.5.3.2 excludes: an initial reference cannot be resolved out of the initial references table it is being registered into"@,
        ConfigError::InitRefUnreadable { object_id, url, reason } => "-ORBInitRef "@ + object_id@
            + "="@ + url@
            + " was not readable as an object reference, so the whole configuration is refused and nothing was registered: "@
            + reason@,
        ConfigError::DuplicateInitRef { object_id, previous, url } => "-ORBInitRef gives "@
            + object_id@ + " twice, as "@ + debug_quoted(previous@) + " and as "@ + debug_quoted(url@)
            + "; CORBA 3.4 §16.10.1 refuses a second registration, so say which one is meant"@,
    }
}

impl ConfigError {
    /// The refusal as a sentence naming the argument, and the value and
    /// what was expected where there is one.
    pub fn message(&self) -> (r: String)
        ensures
            r@ == config_error_text(*self),
    {
        let mut out: Vec<char> = Vec::new();
        match self {
            ConfigError::Unknown { arg, known } => {
                push_str(&mut out, arg.as_str());
                push_str(
                    &mut out,
                    " is not an ORB argument this ORB recognises, so the whole configuration is refused (CORBA 3.4 §8.5.1); it accepts ",
                );
                push_joined(&mut out, known.as_slice());
            },
            ConfigError::Unimplemented { arg, reason } => {
                push_str(&mut out, arg.as_str());
                push_str(&mut out, " is a standard ORB argument this ORB does not implement: ");
                push_str(&mut out, reason.as_str());
            },
            ConfigError::MissingValue { arg, expected } => {
                push_str(&mut out, arg.as_str());
                push_str(&mut out, " takes ");
                push_str(&mut out, expected.as_str());
                push_str(&mut out, ", and the argument list ended");
            },
            ConfigError::BadValue { arg, value, expected } => {
                push_str(&mut out, arg.as_str());
                push_str(&mut out, " takes ");
                push_str(&mut out, expected.as_str());
                push_str(&mut out, ", and was given ");
                push_debug_quoted(&mut out, value.as_str());
            },
            ConfigError::RirInInitRef { object_id, url } => {
                push_str(&mut out, "-ORBInitRef ");
                push_str(&mut out, object_id.as_str());
                push_str(&mut out, "=");
                push_str(&mut out, url.as_str());
                push_str(
                    &mut out,
                    " names a corbaloc:rir URL, which CORBA 3.4 §8.5.3.2 excludes: an initial reference cannot be resolved out of the initial references table it is being registered into",
                );
            },
            ConfigError::InitRefUnreadable { object_id, url, reason } => {
                push_str(&mut out, "-ORBInitRef ");
                push_str(&mut out, object_id.as_str());
                push_str(&mut out, "=");
                push_str(&mut out, url.as_str());
                push_str(
                    &mut out,
                    " was not readable as an object reference, so the whole configuration is refused and nothing was registered: ",
                );
                push_str(&mut out, reason.as_str());
            },
            ConfigError::DuplicateInitRef { object_id, previous, url } => {
                push_str(&mut out, "-ORBInitRef gives ");
                push_str(&mut out, object_id.as_str());
                push_str(&mut out, " twice, as ");
                push_debug_quoted(&mut out, previous.as_str());
                push_str(&mut out, " and as ");
                push_debug_quoted(&mut out, url.as_str());
                push_str(
                    &mut out,
                    "; CORBA 3.4 §16.10.1 refuses a second registration, so say which one is meant",
                );
            },
        }
        assert(out@ =~= config_error_text(*self));
        string_of(out.as_slice())
    }
}

/// The sentence for an endpoint-map refusal.
pub open spec fn map_error_text(e: MapError) -> Seq<char> {
    let q = debug_quoted(e.rule_text());
    match e {
        MapError::NoSeparator(_) => "rule "@ + q + " has no '='; expected internal[:port]=published[:port]"@,
        MapError::EmptyHost(_) => "rule "@ + q + " has an empty host"@,
        MapError::BadPort(_) => "rule "@ + q + " has a port outside 1..=65535"@,
        MapError::UnbracketedIpv6(_) => "rule "@ + q + ": an IPv6 literal must be bracketed, as [::1]:5555"@,
        MapError::WildcardTarget(_) => "rule "@ + q
            + ": '*' is a pattern, so it cannot be the published address"@,
    }
}

impl MapError {
    /// The refusal as a sentence naming the rule.
    pub fn message(&self) -> (r: String)
        ensures
            r@ == map_error_text(*self),
    {
        let text: &String = match self {
            MapError::NoSeparator(s) => s,
            MapError::EmptyHost(s) => s,
            MapError::BadPort(s) => s,
            MapError::UnbracketedIpv6(s) => s,
            MapError::WildcardTarget(s) => s,
        };
        let mut out: Vec<char> = Vec::new();
        push_str(&mut out, "rule ");
        push_debug_quoted(&mut out, text.as_str());
        match self {
            MapError::NoSeparator(_) => push_str(&mut out, " has no '='; expected internal[:port]=published[:port]"),
            MapError::EmptyHost(_) => push_str(&mut out, " has an empty host"),
            MapError::BadPort(_) => push_str(&mut out, " has a port outside 1..=65535"),
            MapError::UnbracketedIpv6(_) => push_str(&mut out, ": an IPv6 literal must be bracketed, as [::1]:5555"),
            MapError::WildcardTarget(_) => push_str(&mut out, ": '*' is a pattern, so it cannot be the published address"),
        }
        assert(out@ =~= map_error_text(*self));
        string_of(out.as_slice())
    }
}

/// Where an endpoint sat, as a rewrite report names it.
pub open spec fn where_text(w: Where) -> Seq<char> {
    match w {
        Where::ProfileAddress => "profile address"@,
        Where::Alternate => "alternate"@,
    }
}

fn where_str(w: Where) -> (r: &'static str)
    ensures
        r@ == where_text(w),
{
    match w {
        Where::ProfileAddress => "profile address",
        Where::Alternate => "alternate",
    }
}

impl Where {
    /// How a report names this site.
    pub fn text(&self) -> (r: String)
        ensures
            r@ == where_text(*self),
    {
        where_str(*self).to_owned()
    }
}

/// One moved endpoint as a line: `profile N SITE: FROM:P -> TO:P`.
pub open spec fn change_text(c: ChangeView) -> Seq<char> {
    "profile "@ + decimal_text(c.profile) + " "@ + where_text(c.site) + ": "@ + c.from.0 + ":"@
        + decimal_text(c.from.1 as nat) + " -> "@ + c.to.0 + ":"@ + decimal_text(c.to.1 as nat)
}

impl Change {
    /// The change as one line.
    pub fn text(&self) -> (r: String)
        ensures
            r@ == change_text(self@),
    {
        let mut out: Vec<char> = Vec::new();
        push_str(&mut out, "profile ");
        push_decimal(&mut out, self.profile as u64);
        push_str(&mut out, " ");
        push_str(&mut out, where_str(self.site));
        push_str(&mut out, ": ");
        push_str(&mut out, self.from.0.as_str());
        push_str(&mut out, ":");
        push_decimal(&mut out, self.from.1 as u64);
        push_str(&mut out, " -> ");
        push_str(&mut out, self.to.0.as_str());
        push_str(&mut out, ":");
        push_decimal(&mut out, self.to.1 as u64);
        assert(out@ =~= change_text(self@));
        string_of(out.as_slice())
    }
}

/// A rewrite's summary line.
pub open spec fn report_text(
    profiles: nat,
    iiop: nat,
    foreign: nat,
    changed: nat,
    unmapped: nat,
    dropped: nat,
    malformed: nat,
) -> Seq<char> {
    decimal_text(profiles) + " profile(s): "@ + decimal_text(iiop) + " IIOP, "@ + decimal_text(
        foreign,
    ) + " preserved unread; "@ + decimal_text(changed) + " endpoint(s) rewritten, "@
        + decimal_text(unmapped) + " unmapped, "@ + decimal_text(dropped) + " alternate(s) dropped, "@
        + decimal_text(malformed) + " malformed alternate(s)"@
}

impl RewriteReport {
    /// The report as one line of counts.
    pub fn text(&self) -> (r: String)
        ensures
            r@ == report_text(
                self.profiles as nat,
                self.iiop_profiles as nat,
                self.foreign_profiles as nat,
                self.changed@.len(),
                self.unmapped@.len(),
                self.dropped@.len(),
                self.malformed_alternates as nat,
            ),
    {
        let mut out: Vec<char> = Vec::new();
        push_decimal(&mut out, self.profiles as u64);
        push_str(&mut out, " profile(s): ");
        push_decimal(&mut out, self.iiop_profiles as u64);
        push_str(&mut out, " IIOP, ");
        push_decimal(&mut out, self.foreign_profiles as u64);
        push_str(&mut out, " preserved unread; ");
        push_decimal(&mut out, self.changed.len() as u64);
        push_str(&mut out, " endpoint(s) rewritten, ");
        push_decimal(&mut out, self.unmapped.len() as u64);
        push_str(&mut out, " unmapped, ");
        push_decimal(&mut out, self.dropped.len() as u64);
        push_str(&mut out, " alternate(s) dropped, ");
        push_decimal(&mut out, self.malformed_alternates as u64);
        push_str(&mut out, " malformed alternate(s)");
        assert(out@ =~= report_text(
            self.profiles as nat,
            self.iiop_profiles as nat,
            self.foreign_profiles as nat,
            self.changed@.len(),
            self.unmapped@.len(),
            self.dropped@.len(),
            self.malformed_alternates as nat,
        ));
        string_of(out.as_slice())
    }
}

} // verus!
