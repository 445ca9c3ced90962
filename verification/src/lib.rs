//! GIOP messages, IIOP object references, CORBA object URLs and the pieces
//! of an ORB that decide rather than transport: CDR encoding and decoding,
//! message framing and fragmentation, IOR parsing and rewriting, naming
//! (client grammar and in-memory servant), the initial references table and
//! ORB argument parsing.

pub mod cdr;
pub mod text;
pub mod chars;

pub use cdr::{CdrError, Decoder, Encoder, Endian};
pub mod giop;
pub mod ior;
pub mod codeset;
pub mod message;
pub mod naming;
pub mod naming_server;
pub mod rewriting;
pub mod orb;
pub mod pool;
pub mod mux;
pub mod invocation;
pub mod display;

pub use giop::{
    BadIorReason, Error, Forward, MsgType, ReplyStatus, Version, DEFAULT_FRAGMENT_THRESHOLD,
    DEFAULT_MAX_MESSAGE_SIZE, FOLLOW_TIMEOUT_MS, HEADER_LEN, MAGIC, MAX_FORWARD_HOPS,
    MAX_FRAGMENTS, TAG_ALTERNATE_IIOP_ADDRESS, TAG_INTERNET_IOP,
};
pub use ior::{IiopProfile, Ior, TaggedComponent};
pub use message::{
    decode_locate_reply, decode_reply, encode_cancel_request, encode_locate_request,
    encode_request, encode_request_with_contexts, parse_header, FrameHeader, LocateResult, RawMessage, Reassembly,
    Reply, ServiceContext, Step,
};
