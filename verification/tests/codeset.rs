use orbweaver_giop::codeset::{
    conversion_target, may_send, request_contexts, server_component, transmission_code_set,
    CharCodeset, ISO_8859_1, SERVICE_ID_CODE_SETS, UTF_16, UTF_8,
};
use orbweaver_giop::{Decoder, Endian, Error};

#[test]
fn only_an_agreement_this_side_encodes_to_may_send() {
    assert!(may_send(CharCodeset::Unspecified, false).is_ok());
    assert!(may_send(CharCodeset::Agreed(UTF_8), false).is_ok());
    assert!(matches!(
        may_send(CharCodeset::Agreed(ISO_8859_1), false),
        Err(Error::CodesetNotApplied { negotiated }) if negotiated == ISO_8859_1
    ));
    assert!(may_send(CharCodeset::Agreed(ISO_8859_1), true).is_ok());
    assert!(matches!(may_send(CharCodeset::Incompatible, true), Err(Error::CodesetIncompatible)));
    assert_eq!(
        Error::CodesetNotApplied { negotiated: ISO_8859_1 }.message(),
        "negotiated char codeset 0x10001, which nothing on this connection encodes to; call Connection::convert_chars and write the converted octets, or talk to a peer that accepts UTF-8"
    );
    assert!(Error::CodesetIncompatible.message().starts_with("CODESET_INCOMPATIBLE"));
}

#[test]
fn the_first_request_announces_the_agreement_once() {
    assert!(request_contexts(true, CharCodeset::Unspecified, Endian::Big).is_empty());
    assert!(request_contexts(false, CharCodeset::Agreed(UTF_8), Endian::Big).is_empty());
    let cs = request_contexts(true, CharCodeset::Agreed(UTF_8), Endian::Big);
    assert_eq!(cs.len(), 1);
    assert_eq!(cs[0].id, SERVICE_ID_CODE_SETS);
    let mut d = Decoder::encapsulation(&cs[0].data).unwrap();
    assert_eq!(d.get_u32().unwrap(), UTF_8);
    assert_eq!(d.get_u32().unwrap(), UTF_16);
    assert!(d.is_empty());
}

#[test]
fn strings_travel_in_the_agreed_set_or_the_default() {
    assert_eq!(transmission_code_set(CharCodeset::Unspecified), ISO_8859_1);
    assert_eq!(transmission_code_set(CharCodeset::Agreed(UTF_8)), UTF_8);
    assert!(matches!(conversion_target(CharCodeset::Unspecified), Ok(c) if c == ISO_8859_1));
    assert!(matches!(conversion_target(CharCodeset::Incompatible), Err(Error::CodesetIncompatible)));
    assert_eq!(server_component().tag, 1);
}
