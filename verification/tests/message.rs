use orbweaver_giop::message::{fragment_message, interpret_reply, reassemble_frames, Outcome};
use orbweaver_giop::{
    decode_locate_reply, decode_reply, encode_cancel_request, encode_locate_request, encode_request,
    parse_header, Decoder,
    Encoder, Endian, Error, IiopProfile, Ior, LocateResult, MsgType, RawMessage, Reassembly,
    ReplyStatus, Step, TaggedComponent, Version, DEFAULT_MAX_MESSAGE_SIZE, HEADER_LEN, MAGIC,
    MAX_FRAGMENTS, TAG_ALTERNATE_IIOP_ADDRESS, TAG_INTERNET_IOP,
};

/// One wire message off the front of `input`; `None` when the bytes run out
/// first, as a transport that closed would.
fn one(input: &mut &[u8], max: usize) -> Result<RawMessage, Option<Error>> {
    if input.len() < HEADER_LEN {
        return Err(None);
    }
    let h = parse_header(&input[..HEADER_LEN], max).map_err(Some)?;
    let total = HEADER_LEN + h.size;
    if input.len() < total {
        return Err(None);
    }
    let bytes = input[..total].to_vec();
    *input = &input[total..];
    Ok(RawMessage {
        msg_type: h.msg_type,
        version: h.version,
        endian: h.endian,
        more_fragments: h.more_fragments,
        fragments: 1,
        bytes,
    })
}

/// One logical message, reassembled from as many wire messages as it takes.
fn read_message(input: &mut &[u8], max: usize) -> Result<RawMessage, Option<Error>> {
    let first = one(input, max)?;
    let mut step = Reassembly::begin(first, max).map_err(Some)?;
    loop {
        match step {
            Step::Done(m) => return Ok(m),
            Step::More(r) => {
                let next = one(input, max)?;
                step = r.feed(next).map_err(Some)?;
            }
        }
    }
}

fn put_f64(e: &mut Encoder, v: f64) {
    e.align_to(8);
    match e.endian() {
        Endian::Big => e.put_bytes(&v.to_be_bytes()),
        Endian::Little => e.put_bytes(&v.to_le_bytes()),
    }
}

fn get_f64(d: &mut Decoder) -> f64 {
    d.align_to(8).unwrap();
    let mut b = [0u8; 8];
    for x in b.iter_mut() {
        *x = d.get_u8().unwrap();
    }
    match d.endian() {
        Endian::Big => f64::from_be_bytes(b),
        Endian::Little => f64::from_le_bytes(b),
    }
}

fn req(version: Version, endian: Endian, op: &str, expect_reply: bool) -> Vec<u8> {
    encode_request(version, endian, 42, b"key", op, expect_reply, |_| {}).unwrap()
}

#[test]
fn request_header_layout_is_giop_1_2() {
    let msg = req(Version::v1_2(), Endian::Big, "ping", true);
    assert_eq!(&msg[0..4], MAGIC);
    assert_eq!(msg[4], 1);
    assert_eq!(msg[5], 2);
    assert_eq!(msg[6], 0, "big-endian flag");
    assert_eq!(msg[7], MsgType::Request.octet());

    let size = u32::from_be_bytes([msg[8], msg[9], msg[10], msg[11]]) as usize;
    assert_eq!(size, msg.len() - HEADER_LEN, "message_size excludes the header");
    assert_eq!(u32::from_be_bytes([msg[12], msg[13], msg[14], msg[15]]), 42);
    assert_eq!(msg[16], 3, "response_flags requests a reply");
}

#[test]
fn empty_body_gets_no_alignment_padding() {
    assert_eq!(req(Version::v1_2(), Endian::Big, "ping", true).len(), 48);
    let msg = req(Version::v1_2(), Endian::Big, "abc", true);
    assert_eq!(msg.len(), 44);
    assert_ne!(msg.len() % 8, 0, "no padding may follow an empty body");
}

#[test]
fn nonempty_body_is_eight_byte_aligned_in_1_2() {
    let msg = encode_request(Version::v1_2(), Endian::Little, 1, b"k", "op", true, |e| {
        put_f64(e, 1.5);
    })
    .unwrap();
    let at = msg.len() - 8;
    assert_eq!(at % 8, 0, "body must start 8-aligned, started at {at}");
    assert_eq!(&msg[at..], &1.5f64.to_le_bytes());
}

#[test]
fn request_header_layout_is_giop_1_0() {
    let msg = encode_request(Version::v1_0(), Endian::Big, 7, b"k", "op", true, |e| {
        put_f64(e, 1.5);
    })
    .unwrap();
    assert_eq!(msg[5], 0, "minor version");
    assert_eq!(u32::from_be_bytes([msg[12], msg[13], msg[14], msg[15]]), 0);
    assert_eq!(u32::from_be_bytes([msg[16], msg[17], msg[18], msg[19]]), 7, "request_id");
    assert_eq!(msg[20], 1, "response_expected is a boolean in 1.0");
    assert_eq!(&msg[msg.len() - 8..], &1.5f64.to_be_bytes());
}

#[test]
fn giop_1_1_reserved_octets_land_in_1_0s_padding() {
    let v10 = encode_request(Version::v1_0(), Endian::Big, 7, b"k", "op", true, |_| {}).unwrap();
    let v11 = encode_request(Version::v1_1(), Endian::Big, 7, b"k", "op", true, |_| {}).unwrap();

    assert_eq!(v11.len(), v10.len(), "alignment absorbs the reserved field");
    assert_eq!(v10[5], 0);
    assert_eq!(v11[5], 1);
    assert_eq!(&v10[6..], &v11[6..], "identical past the version octet");
    assert_eq!(&v11[21..24], &[0, 0, 0], "reserved octets are zero");
}

#[test]
fn cancel_request_is_a_header_plus_the_abandoned_id() {
    for version in [Version::v1_0(), Version::v1_1(), Version::v1_2()] {
        for endian in [Endian::Big, Endian::Little] {
            let msg = encode_cancel_request(version, endian, 9999).expect("encodes");
            assert_eq!(msg.len(), HEADER_LEN + 4, "{version:?} {endian:?}");
            let raw = read_message(&mut msg.as_slice(), DEFAULT_MAX_MESSAGE_SIZE).expect("frames");
            assert_eq!(raw.msg_type, MsgType::CancelRequest);
            assert_eq!(raw.version, version);
            let mut d = Decoder::new(&raw.bytes, raw.endian);
            d.seek_to(HEADER_LEN).unwrap();
            assert_eq!(d.get_u32().unwrap(), 9999, "{version:?} {endian:?}");
        }
    }
}

fn sample_forward_ior() -> Ior {
    Ior {
        type_id: "IDL:m/I:1.0".into(),
        profiles: vec![IiopProfile {
            version: Version::v1_2(),
            host: "h".into(),
            port: 1,
            object_key: b"k".to_vec(),
            components: Vec::new(),
        }],
    }
}

#[test]
fn a_forwarded_locate_reply_carries_its_ior_unaligned() {
    let ior = sample_forward_ior();
    for endian in [Endian::Big, Endian::Little] {
        let mut e = Encoder::new(endian);
        e.put_bytes(b"GIOP");
        e.put_u8(1);
        e.put_u8(2);
        e.put_u8(if endian == Endian::Little { 1 } else { 0 });
        e.put_u8(MsgType::LocateReply.octet());
        let size_at = e.len();
        e.put_u32(0);
        e.put_u32(9);
        e.put_u32(2);
        ior.write_to(&mut e).unwrap();
        let size = (e.len() - HEADER_LEN) as u32;
        e.patch_u32(size_at, size);
        let msg = e.finish().unwrap();
        let raw = read_message(&mut msg.as_slice(), DEFAULT_MAX_MESSAGE_SIZE).expect("frames");
        let (id, got) = decode_locate_reply(raw).expect("decodes");
        assert_eq!(id, 9);
        assert_eq!(got, LocateResult::Forward(Box::new(ior.clone())), "{endian:?}");
    }
}

#[test]
fn a_locate_system_exception_surfaces_as_one() {
    let mut e = Encoder::new(Endian::Big);
    e.put_bytes(b"GIOP");
    e.put_u8(1);
    e.put_u8(2);
    e.put_u8(0);
    e.put_u8(MsgType::LocateReply.octet());
    let size_at = e.len();
    e.put_u32(0);
    e.put_u32(3);
    e.put_u32(4);
    e.put_str("IDL:omg.org/CORBA/OBJECT_NOT_EXIST:1.0");
    e.put_u32(7);
    e.put_u32(1);
    let size = (e.len() - HEADER_LEN) as u32;
    e.patch_u32(size_at, size);
    let msg = e.finish().unwrap();
    let raw = read_message(&mut msg.as_slice(), DEFAULT_MAX_MESSAGE_SIZE).unwrap();
    let err = decode_locate_reply(raw).unwrap_err();
    assert!(
        matches!(&err, Error::SystemException { id, minor: 7, .. }
            if id.contains("OBJECT_NOT_EXIST")),
        "{}",
        err.message()
    );
}

#[test]
fn oneway_clears_the_reply_flag() {
    let msg = req(Version::v1_2(), Endian::Big, "fire", false);
    assert_eq!(msg[16], 0, "oneway must not request a reply");
    let v10 = req(Version::v1_0(), Endian::Big, "fire", false);
    assert_eq!(v10[20], 0, "1.0 response_expected must be false");
}

fn build_reply(version: Version, endian: Endian, id: u32, status: u32, contexts: u32) -> Vec<u8> {
    let mut e = Encoder::new(endian);
    e.put_bytes(&MAGIC);
    e.put_u8(version.major);
    e.put_u8(version.minor);
    e.put_u8(endian.as_flag());
    e.put_u8(MsgType::Reply.octet());
    let size_at = e.len();
    e.put_bytes(&[0, 0, 0, 0]);
    if version.is_1_2_layout() {
        e.put_u32(id);
        e.put_u32(status);
        e.put_u32(contexts);
        for _ in 0..contexts {
            e.put_u32(1);
            e.put_octet_seq(&[0xAB, 0xCD]);
        }
    } else {
        e.put_u32(contexts);
        for _ in 0..contexts {
            e.put_u32(1);
            e.put_octet_seq(&[0xAB, 0xCD]);
        }
        e.put_u32(id);
        e.put_u32(status);
    }
    if version.aligns_body() {
        e.align_to(8);
    }
    put_f64(&mut e, 2.25);
    let size = (e.len() - HEADER_LEN) as u32;
    e.patch_u32(size_at, size);
    e.finish().unwrap()
}

#[test]
fn reply_body_offset_preserves_alignment_in_1_2() {
    let raw = build_reply(Version::v1_2(), Endian::Big, 99, 0, 0);
    let mut cursor: &[u8] = &raw;
    let msg = read_message(&mut cursor, DEFAULT_MAX_MESSAGE_SIZE).unwrap();
    let reply = decode_reply(msg).unwrap();
    assert_eq!(reply.request_id, 99);
    assert_eq!(reply.status, ReplyStatus::NoException);
    assert_eq!(get_f64(&mut reply.body().unwrap()), 2.25);
}

#[test]
fn giop_1_1_reply_with_service_context_decodes_correctly() {
    let raw = build_reply(Version::v1_1(), Endian::Big, 1, 0, 1);
    let mut cursor: &[u8] = &raw;
    let msg = read_message(&mut cursor, DEFAULT_MAX_MESSAGE_SIZE).unwrap();
    let reply = decode_reply(msg).unwrap();
    assert_eq!(reply.request_id, 1, "must not read the context count as the id");
    assert_eq!(reply.status, ReplyStatus::NoException, "must not read the id as the status");
    assert_eq!(get_f64(&mut reply.body().unwrap()), 2.25);
}

#[test]
fn giop_1_0_reply_decodes_with_the_old_field_order() {
    let raw = build_reply(Version::v1_0(), Endian::Little, 5, 0, 2);
    let mut cursor: &[u8] = &raw;
    let msg = read_message(&mut cursor, DEFAULT_MAX_MESSAGE_SIZE).unwrap();
    let reply = decode_reply(msg).unwrap();
    assert_eq!(reply.request_id, 5);
    assert_eq!(get_f64(&mut reply.body().unwrap()), 2.25);
}

#[test]
fn non_giop_traffic_is_rejected() {
    let mut junk: &[u8] = b"HTTP/1.1 200 OK\r\n\r\npadding-to-twelve";
    assert!(matches!(
        read_message(&mut junk, DEFAULT_MAX_MESSAGE_SIZE),
        Err(Some(Error::NotGiop(_)))
    ));
}

#[test]
fn oversized_message_is_refused_before_allocating() {
    let mut hostile: &[u8] = &[b'G', b'I', b'O', b'P', 1, 2, 1, 1, 0xff, 0xff, 0xff, 0xff];
    match read_message(&mut hostile, DEFAULT_MAX_MESSAGE_SIZE) {
        Err(Some(Error::MessageTooLarge { declared, limit })) => {
            assert_eq!(declared, 0xffff_ffff);
            assert_eq!(limit, DEFAULT_MAX_MESSAGE_SIZE);
        }
        other => panic!("expected MessageTooLarge, got {other:?}"),
    }
}

#[test]
fn incomplete_fragment_stream_errors_rather_than_truncating() {
    let mut frag: &[u8] = &[b'G', b'I', b'O', b'P', 1, 2, 0b11, 1, 0, 0, 0, 0];
    match read_message(&mut frag, DEFAULT_MAX_MESSAGE_SIZE) {
        Err(_) => {}
        Ok(m) => panic!("returned a {}-byte message from an unfinished stream", m.bytes.len()),
    }
}

#[test]
fn fragment_round_trip_reproduces_the_original() {
    for endian in [Endian::Big, Endian::Little] {
        for payload in [64usize, 1000, 5000, 20000] {
            let msg = encode_request(Version::v1_2(), endian, 7, b"k", "blob", true, |e| {
                e.put_u32(payload as u32);
                for i in 0..payload {
                    e.put_u8((i % 251) as u8);
                }
            })
            .unwrap();

            let pieces = fragment_message(msg.clone(), 512).unwrap();
            if msg.len() > 512 {
                assert!(pieces.len() > 1, "{payload} bytes should have split");
            }
            for p in &pieces[..pieces.len() - 1] {
                assert_eq!(p[6] & 0b10, 0b10, "non-final piece must say more follow");
                assert_eq!(p.len() % 8, 0, "non-final piece must be 8-aligned overall");
            }
            assert_eq!(pieces.last().unwrap()[6] & 0b10, 0, "final piece must not");

            let wire: Vec<u8> = pieces.concat();
            let mut cursor: &[u8] = &wire;
            let back = read_message(&mut cursor, DEFAULT_MAX_MESSAGE_SIZE).unwrap();
            assert!(!back.more_fragments);
            assert_eq!(back.bytes, msg, "{payload} bytes, {endian:?} did not reassemble");
            assert!(cursor.is_empty(), "reassembly must consume every fragment");
        }
    }
}

#[test]
fn small_messages_are_not_fragmented() {
    let msg = encode_request(Version::v1_2(), Endian::Big, 1, b"k", "ping", true, |_| {}).unwrap();
    assert_eq!(fragment_message(msg.clone(), 4096).unwrap(), vec![msg]);
}

#[test]
fn giop_1_1_fragments_are_refused_rather_than_concatenated() {
    let mut frag: &[u8] = &[b'G', b'I', b'O', b'P', 1, 1, 0b11, 0, 0, 0, 0, 0];
    assert!(matches!(
        read_message(&mut frag, DEFAULT_MAX_MESSAGE_SIZE),
        Err(Some(Error::FragmentUnsupported))
    ));
}

#[test]
fn endless_fragments_are_bounded() {
    let mut wire = encode_request(Version::v1_2(), Endian::Big, 3, b"k", "op", true, |e| {
        e.put_u32(1);
    })
    .unwrap();
    wire[6] |= 0b10;
    for _ in 0..(MAX_FRAGMENTS + 2) {
        let mut f = Vec::new();
        f.extend_from_slice(&MAGIC);
        f.extend_from_slice(&[1, 2, 0b10, MsgType::Fragment.octet()]);
        f.extend_from_slice(&12u32.to_be_bytes());
        f.extend_from_slice(&3u32.to_be_bytes());
        f.extend_from_slice(&[0u8; 8]);
        wire.extend_from_slice(&f);
    }
    let mut cursor: &[u8] = &wire;
    assert!(read_message(&mut cursor, DEFAULT_MAX_MESSAGE_SIZE).is_err());
}

#[test]
fn mismatched_fragment_id_is_rejected() {
    let mut wire = encode_request(Version::v1_2(), Endian::Big, 3, b"k", "op", true, |e| {
        e.put_u32(1);
    })
    .unwrap();
    wire[6] |= 0b10;
    let mut f = Vec::new();
    f.extend_from_slice(&MAGIC);
    f.extend_from_slice(&[1, 2, 0, MsgType::Fragment.octet()]);
    f.extend_from_slice(&12u32.to_be_bytes());
    f.extend_from_slice(&999u32.to_be_bytes());
    f.extend_from_slice(&[0u8; 8]);
    wire.extend_from_slice(&f);
    let mut cursor: &[u8] = &wire;
    assert!(matches!(
        read_message(&mut cursor, DEFAULT_MAX_MESSAGE_SIZE),
        Err(Some(Error::Desynchronized))
    ));
}

#[test]
fn reserved_flag_bits_must_be_zero() {
    let mut bad: &[u8] = &[b'G', b'I', b'O', b'P', 1, 2, 0b1000_0001, 1, 0, 0, 0, 0];
    assert!(read_message(&mut bad, DEFAULT_MAX_MESSAGE_SIZE).is_err());
}

#[test]
fn unknown_message_type_names_itself() {
    let mut bad: &[u8] = &[b'G', b'I', b'O', b'P', 1, 2, 1, 99, 0, 0, 0, 0];
    match read_message(&mut bad, DEFAULT_MAX_MESSAGE_SIZE) {
        Err(Some(Error::UnknownMessageType(99))) => {}
        other => panic!("expected UnknownMessageType(99), got {other:?}"),
    }
}

// ── IOR ──────────────────────────────────────────────────────────────────────

fn sample_ior(minor: u8, with_component: bool) -> Vec<u8> {
    let mut profile = Encoder::encapsulation(Endian::Little);
    profile.put_u8(1);
    profile.put_u8(minor);
    profile.put_str("192.0.2.10");
    profile.put_u16(9999);
    profile.put_octet_seq(b"objkey");
    if minor >= 1 {
        if with_component {
            profile.put_u32(1);
            profile.put_u32(20);
            profile.put_octet_seq(&[1, 2, 3, 4]);
        } else {
            profile.put_u32(0);
        }
    }
    let mut ior = Encoder::encapsulation(Endian::Little);
    ior.put_str("IDL:spike/Echo:1.0");
    ior.put_u32(1);
    ior.put_u32(TAG_INTERNET_IOP);
    ior.put_encapsulation(profile);
    ior.finish().unwrap()
}

#[test]
fn ior_round_trips_through_our_own_encoder() {
    let parsed = Ior::from_encapsulation(&sample_ior(2, false)).unwrap();
    assert_eq!(parsed.type_id, "IDL:spike/Echo:1.0");
    let p = parsed.primary().unwrap();
    assert_eq!(p.version, Version::v1_2());
    assert_eq!(p.host, "192.0.2.10");
    assert_eq!(p.port, 9999);
    assert_eq!(p.object_key, b"objkey");
}

#[test]
fn tagged_components_are_preserved() {
    let parsed = Ior::from_encapsulation(&sample_ior(2, true)).unwrap();
    let p = parsed.primary().unwrap();
    assert_eq!(p.components.len(), 1);
    assert_eq!(p.components[0].tag, 20);
    assert_eq!(p.components[0].data, vec![1, 2, 3, 4]);
}

#[test]
fn iiop_1_0_profile_has_no_components() {
    let parsed = Ior::from_encapsulation(&sample_ior(0, false)).unwrap();
    let p = parsed.primary().unwrap();
    assert_eq!(p.version, Version::v1_0());
    assert!(p.components.is_empty());
}

#[test]
fn ior_prefix_is_case_insensitive() {
    let hex: String = sample_ior(2, false).iter().map(|b| format!("{b:02x}")).collect();
    for prefix in ["IOR:", "ior:", "Ior:", "iOr:"] {
        assert!(Ior::parse(&format!("{prefix}{hex}")).is_ok(), "rejected {prefix}");
    }
}

#[test]
fn ior_rejects_junk() {
    assert!(matches!(Ior::parse("nope"), Err(Error::BadIor(_))));
    assert!(matches!(Ior::parse("IOR:xyz"), Err(Error::BadIor(_))));
    assert!(matches!(Ior::parse("IOR:abc"), Err(Error::BadIor(_))));
    assert!(matches!(Ior::parse("IOR:"), Err(Error::BadIor(_))));
}

#[test]
fn truncated_ior_fails_instead_of_inventing_an_endpoint() {
    let full = sample_ior(2, false);
    for cut in [6, 10, 14, 20, 26] {
        let truncated = &full[..cut.min(full.len())];
        match Ior::from_encapsulation(truncated) {
            Err(_) => {}
            Ok(ior) => panic!(
                "truncation at {cut} produced a usable IOR with {} profile(s)",
                ior.profiles.len()
            ),
        }
    }
}

fn profile_at(host: &str, port: u16, components: Vec<TaggedComponent>) -> IiopProfile {
    IiopProfile {
        version: Version::v1_2(),
        host: host.into(),
        port,
        object_key: b"k".to_vec(),
        components,
    }
}

fn alternate_component(endian: Endian, host: &str, port: u16) -> TaggedComponent {
    let mut e = Encoder::encapsulation(endian);
    e.put_str(host);
    e.put_u16(port);
    TaggedComponent { tag: TAG_ALTERNATE_IIOP_ADDRESS, data: e.finish().unwrap() }
}

#[test]
fn alternate_components_parse_in_both_byte_orders() {
    for endian in [Endian::Big, Endian::Little] {
        let p = profile_at(
            "primary.example",
            2809,
            vec![alternate_component(endian, "alternate.example", 2810)],
        );
        assert_eq!(
            p.endpoints(),
            vec![("primary.example".into(), 2809), ("alternate.example".into(), 2810)],
            "{endian:?}"
        );
    }
}

/// The endpoint half of the failover check: a truncated alternate vanishes
/// from the endpoint list without taking the profile's own address along.
#[test]
fn a_malformed_alternate_is_skipped_and_the_profile_survives() {
    let mut broken = alternate_component(Endian::Little, "127.0.0.1", 2809);
    broken.data.truncate(6);
    let p = profile_at("127.0.0.1", 40000, vec![broken]);
    assert_eq!(p.endpoints(), vec![("127.0.0.1".into(), 40000)]);
}

#[test]
fn ior_read_inline_matches_encapsulated() {
    let mut e = Encoder::new(Endian::Little);
    e.put_str("IDL:spike/Echo:1.0");
    e.put_u32(1);
    e.put_u32(TAG_INTERNET_IOP);
    let mut profile = Encoder::encapsulation(Endian::Little);
    profile.put_u8(1);
    profile.put_u8(2);
    profile.put_str("10.0.0.1");
    profile.put_u16(1234);
    profile.put_octet_seq(b"k");
    profile.put_u32(0);
    e.put_encapsulation(profile);
    let raw = e.finish().unwrap();

    let mut d = Decoder::new(&raw, Endian::Little);
    let ior = Ior::read_from(&mut d).unwrap();
    assert_eq!(ior.primary().unwrap().host, "10.0.0.1");
    assert_eq!(ior.primary().unwrap().port, 1234);
}

// ── Interpreting replies ─────────────────────────────────────────────────────

fn reply_with_body(status: u32, body: impl FnOnce(&mut Encoder)) -> Vec<u8> {
    let mut e = Encoder::new(Endian::Big);
    e.put_bytes(&MAGIC);
    e.put_u8(1);
    e.put_u8(2);
    e.put_u8(0);
    e.put_u8(MsgType::Reply.octet());
    let size_at = e.len();
    e.put_u32(0);
    e.put_u32(11);
    e.put_u32(status);
    e.put_u32(0);
    e.align_to(8);
    body(&mut e);
    let size = (e.len() - HEADER_LEN) as u32;
    e.patch_u32(size_at, size);
    e.finish().unwrap()
}

fn decoded(bytes: &[u8]) -> orbweaver_giop::Reply {
    let mut cursor = bytes;
    decode_reply(read_message(&mut cursor, DEFAULT_MAX_MESSAGE_SIZE).unwrap()).unwrap()
}

#[test]
fn a_system_exception_reply_reports_its_fields() {
    let bytes = reply_with_body(2, |e| {
        e.put_str("IDL:omg.org/CORBA/BAD_OPERATION:1.0");
        e.put_u32(9);
        e.put_u32(1);
    });
    match interpret_reply(decoded(&bytes)) {
        Err(Error::SystemException { id, minor, completed }) => {
            assert_eq!(id, "IDL:omg.org/CORBA/BAD_OPERATION:1.0");
            assert_eq!(minor, 9);
            assert_eq!(completed, 1);
        }
        other => panic!("expected a system exception, got {other:?}"),
    }
}

#[test]
fn an_unreadable_system_exception_is_still_one() {
    let bytes = reply_with_body(2, |_| {});
    match interpret_reply(decoded(&bytes)) {
        Err(Error::SystemException { id, minor, completed }) => {
            assert_eq!(id, "<unreadable>");
            assert_eq!((minor, completed), (0, 0));
        }
        other => panic!("expected a system exception, got {other:?}"),
    }
}

#[test]
fn a_user_exception_keeps_the_reply() {
    let bytes = reply_with_body(1, |e| e.put_str("IDL:m/Oops:1.0"));
    match interpret_reply(decoded(&bytes)) {
        Err(Error::UserException { id, reply }) => {
            assert_eq!(id, "IDL:m/Oops:1.0");
            assert_eq!(reply.request_id, 11);
            assert_eq!(reply.body().unwrap().get_string().unwrap(), "IDL:m/Oops:1.0");
        }
        other => panic!("expected a user exception, got {other:?}"),
    }
}

#[test]
fn forwards_carry_the_new_reference_and_say_whether_it_is_permanent() {
    let target = sample_forward_ior();
    for (status, permanent) in [(3u32, false), (4u32, true)] {
        let bytes = reply_with_body(status, |e| target.write_to(e).unwrap());
        match interpret_reply(decoded(&bytes)) {
            Ok(Outcome::Forwarded(f)) => {
                assert_eq!(f.is_permanent(), permanent);
                assert_eq!(f.ior(), &target);
            }
            other => panic!("expected a forward, got {other:?}"),
        }
    }
}

#[test]
fn a_plain_reply_is_handed_back_and_an_addressing_request_is_refused() {
    let bytes = reply_with_body(0, |e| e.put_u32(5));
    match interpret_reply(decoded(&bytes)) {
        Ok(Outcome::Done(r)) => assert_eq!(r.body().unwrap().get_u32().unwrap(), 5),
        other => panic!("expected the reply, got {other:?}"),
    }
    let bytes = reply_with_body(5, |_| {});
    assert!(matches!(
        interpret_reply(decoded(&bytes)),
        Err(Error::UnexpectedMessage(MsgType::Reply))
    ));
}

/// A LocateReply as a server writes one: the header, the request id and the
/// status word, with no body alignment in any version.
fn locate_reply(version: Version, endian: Endian, id: u32, status: u32) -> Vec<u8> {
    let mut e = Encoder::new(endian);
    e.put_bytes(b"GIOP");
    e.put_u8(version.major);
    e.put_u8(version.minor);
    e.put_u8(if endian == Endian::Little { 1 } else { 0 });
    e.put_u8(MsgType::LocateReply.octet());
    let size_at = e.len();
    e.put_u32(0);
    e.put_u32(id);
    e.put_u32(status);
    let size = (e.len() - HEADER_LEN) as u32;
    e.patch_u32(size_at, size);
    e.finish().unwrap()
}

/// What a server reads out of a LocateRequest: the request id and the
/// object key, addressed by key in 1.2.
fn read_locate_request(raw: &RawMessage) -> (u32, Vec<u8>) {
    let mut d = Decoder::new(&raw.bytes, raw.endian);
    d.seek_to(HEADER_LEN).unwrap();
    let id = d.get_u32().unwrap();
    if raw.version.minor >= 2 {
        assert_eq!(d.get_u16().unwrap(), 0, "addressed by key");
    }
    (id, d.get_octet_seq().unwrap().to_vec())
}

#[test]
fn locate_requests_round_trip_through_the_server_decoder() {
    for version in [Version::v1_0(), Version::v1_1(), Version::v1_2()] {
        for endian in [Endian::Big, Endian::Little] {
            let msg = encode_locate_request(version, endian, 77, b"the-key").expect("encodes");
            let raw = read_message(&mut msg.as_slice(), DEFAULT_MAX_MESSAGE_SIZE).expect("frames");
            assert_eq!(raw.msg_type, MsgType::LocateRequest);
            let (request_id, object_key) = read_locate_request(&raw);
            assert_eq!(request_id, 77, "{version:?} {endian:?}");
            assert_eq!(object_key, b"the-key", "{version:?} {endian:?}");
        }
    }
}

#[test]
fn locate_replies_decode_in_every_version() {
    for version in [Version::v1_0(), Version::v1_1(), Version::v1_2()] {
        for endian in [Endian::Big, Endian::Little] {
            for (status, want) in [(0u32, LocateResult::Unknown), (1u32, LocateResult::Here)] {
                let msg = locate_reply(version, endian, 5, status);
                let raw =
                    read_message(&mut msg.as_slice(), DEFAULT_MAX_MESSAGE_SIZE).expect("frames");
                let (id, got) = decode_locate_reply(raw).expect("decodes");
                assert_eq!(id, 5);
                assert_eq!(got, want, "{version:?} {endian:?}");
            }
        }
    }
}

#[test]
fn fragments_framed_one_by_one_reassemble_to_the_original() {
    for endian in [Endian::Big, Endian::Little] {
        for payload in [64usize, 1000, 5000] {
            let msg = encode_request(Version::v1_2(), endian, 7, b"k", "blob", true, |e| {
                e.put_u32(payload as u32);
                for i in 0..payload {
                    e.put_u8((i % 251) as u8);
                }
            })
            .unwrap();
            let pieces = fragment_message(msg.clone(), 512).unwrap();
            let wire: Vec<u8> = pieces.concat();
            let mut cursor: &[u8] = &wire;
            let mut frames = Vec::new();
            while !cursor.is_empty() {
                frames.push(one(&mut cursor, DEFAULT_MAX_MESSAGE_SIZE).unwrap());
            }
            assert_eq!(frames.len(), pieces.len());
            let (back, used) = reassemble_frames(frames, DEFAULT_MAX_MESSAGE_SIZE).unwrap();
            assert_eq!(used, pieces.len());
            assert_eq!(back.bytes, msg, "{payload} bytes, {endian:?}");
            assert_eq!(back.fragments, pieces.len());
            assert!(!back.more_fragments);
            assert_eq!(back.msg_type, MsgType::Request);
        }
    }
    assert!(matches!(
        reassemble_frames(Vec::new(), DEFAULT_MAX_MESSAGE_SIZE),
        Err(Error::Cdr(orbweaver_giop::CdrError::Truncated))
    ));
}
