use orbweaver_giop::{ReplyStatus, Version};

#[test]
fn version_negotiation_never_exceeds_the_peer() {
    assert_eq!(Version::negotiate(Version::v1_0()), Version::v1_0());
    assert_eq!(Version::negotiate(Version::v1_1()), Version::v1_1());
    assert_eq!(Version::negotiate(Version::v1_2()), Version::v1_2());
    assert_eq!(Version::negotiate(Version { major: 1, minor: 9 }), Version::v1_2());
}

#[test]
fn reply_status_is_version_aware() {
    assert_eq!(ReplyStatus::from_u32(3, Version::v1_0()), Some(ReplyStatus::LocationForward));
    assert_eq!(ReplyStatus::from_u32(4, Version::v1_1()), None);
    assert_eq!(ReplyStatus::from_u32(4, Version::v1_2()), Some(ReplyStatus::LocationForwardPerm));
    assert_eq!(ReplyStatus::from_u32(9, Version::v1_2()), None);
}
