use if_watch::{IfEvent, IpNet, Ipv4Net, Ipv6Net, ParseError, Watcher};
use if_watch::parse::{parse_message, AF_INET, AF_INET6, IFA_ADDRESS, RTM_DELADDR, RTM_NEWADDR};

fn v4(a: u8, b: u8, c: u8, d: u8, plen: u8) -> IpNet {
    IpNet::V4(Ipv4Net::from_octets(a, b, c, d, plen))
}

/// Builds one framed address-change message: 16-byte message header,
/// 8-byte address header, then the given attribute bytes.
fn msg(mtype: u16, family: u8, plen: u8, attrs: &[u8]) -> Vec<u8> {
    let total = (16 + 8 + attrs.len()) as u32;
    let mut m = Vec::new();
    m.extend_from_slice(&total.to_le_bytes()); // message length
    m.extend_from_slice(&mtype.to_le_bytes()); // message type
    m.extend_from_slice(&0u16.to_le_bytes()); // flags
    m.extend_from_slice(&7u32.to_le_bytes()); // sequence number
    m.extend_from_slice(&0u32.to_le_bytes()); // sender port
    m.push(family);
    m.push(plen);
    m.push(0); // address flags
    m.push(0); // scope
    m.extend_from_slice(&3u32.to_le_bytes()); // interface index
    m.extend_from_slice(attrs);
    m
}

/// One attribute: 2-byte length (header included), 2-byte type, payload,
/// padded to a 4-byte boundary.
fn attr(atype: u16, payload: &[u8]) -> Vec<u8> {
    let alen = (4 + payload.len()) as u16;
    let mut a = Vec::new();
    a.extend_from_slice(&alen.to_le_bytes());
    a.extend_from_slice(&atype.to_le_bytes());
    a.extend_from_slice(payload);
    while a.len() % 4 != 0 {
        a.push(0);
    }
    a
}

#[test]
fn parses_new_v4_address() {
    let m = msg(RTM_NEWADDR, AF_INET, 24, &attr(IFA_ADDRESS, &[192, 168, 1, 5]));
    assert_eq!(parse_message(&m), Ok(IfEvent::Up(v4(192, 168, 1, 5, 24))));
}

#[test]
fn parses_deleted_v4_address() {
    let m = msg(RTM_DELADDR, AF_INET, 24, &attr(IFA_ADDRESS, &[192, 168, 1, 5]));
    assert_eq!(parse_message(&m), Ok(IfEvent::Down(v4(192, 168, 1, 5, 24))));
}

#[test]
fn parses_v6_address() {
    let bytes = [
        0x20, 0x01, 0x0d, 0xb8, 0, 0, 0, 0, 0, 0, 0, 0, 0, 0, 0, 1,
    ];
    let m = msg(RTM_NEWADDR, AF_INET6, 64, &attr(IFA_ADDRESS, &bytes));
    let want = IpNet::V6(Ipv6Net::new(0x2001_0db8_0000_0000_0000_0000_0000_0001, 64));
    assert_eq!(parse_message(&m), Ok(IfEvent::Up(want)));
}

#[test]
fn skips_leading_attributes() {
    // An unrelated attribute with a padded odd-length payload stands before
    // the address attribute.
    let mut attrs = attr(3, b"eth0\0");
    attrs.extend_from_slice(&attr(IFA_ADDRESS, &[10, 0, 0, 1]));
    let m = msg(RTM_NEWADDR, AF_INET, 8, &attrs);
    assert_eq!(parse_message(&m), Ok(IfEvent::Up(v4(10, 0, 0, 1, 8))));
}

#[test]
fn truncated_message_is_rejected() {
    assert_eq!(parse_message(&vec![1, 2, 3]), Err(ParseError::Truncated));
    // Headers complete, length field honest, but no room for the address header.
    let mut m = vec![0u8; 20];
    m[0] = 20;
    m[4] = 20; // message type RTM_NEWADDR
    assert_eq!(parse_message(&m), Err(ParseError::Truncated));
}

#[test]
fn wrong_length_field_is_rejected() {
    let mut m = msg(RTM_NEWADDR, AF_INET, 24, &attr(IFA_ADDRESS, &[10, 0, 0, 1]));
    m[0] = m[0].wrapping_add(4);
    assert_eq!(parse_message(&m), Err(ParseError::BadLength));
}

#[test]
fn unrelated_message_type_is_rejected() {
    // A route-change message interleaved on the same socket.
    let m = msg(24, AF_INET, 24, &attr(IFA_ADDRESS, &[10, 0, 0, 1]));
    assert_eq!(parse_message(&m), Err(ParseError::UnknownType));
}

#[test]
fn unknown_family_is_rejected() {
    let m = msg(RTM_NEWADDR, 7, 24, &attr(IFA_ADDRESS, &[10, 0, 0, 1]));
    assert_eq!(parse_message(&m), Err(ParseError::UnknownFamily));
}

#[test]
fn full_length_prefixes_are_accepted() {
    let m = msg(RTM_NEWADDR, AF_INET, 32, &attr(IFA_ADDRESS, &[10, 0, 0, 1]));
    assert_eq!(parse_message(&m), Ok(IfEvent::Up(v4(10, 0, 0, 1, 32))));
    let mut six = [0u8; 16];
    six[15] = 1;
    let m = msg(RTM_NEWADDR, AF_INET6, 128, &attr(IFA_ADDRESS, &six));
    assert_eq!(parse_message(&m), Ok(IfEvent::Up(IpNet::V6(Ipv6Net::new(1, 128)))));
}

#[test]
fn oversized_prefix_length_is_rejected() {
    let m = msg(RTM_NEWADDR, AF_INET, 33, &attr(IFA_ADDRESS, &[10, 0, 0, 1]));
    assert_eq!(parse_message(&m), Err(ParseError::BadPrefixLen));
    let m = msg(RTM_NEWADDR, AF_INET6, 129, &attr(IFA_ADDRESS, &[0u8; 16]));
    assert_eq!(parse_message(&m), Err(ParseError::BadPrefixLen));
}

#[test]
fn wrong_address_payload_size_is_rejected() {
    // A 16-byte address in an IPv4 message does not fit the family.
    let m = msg(RTM_NEWADDR, AF_INET, 24, &attr(IFA_ADDRESS, &[0u8; 16]));
    assert_eq!(parse_message(&m), Err(ParseError::BadAttribute));
}

#[test]
fn message_without_address_attribute_is_rejected() {
    let m = msg(RTM_NEWADDR, AF_INET, 24, &attr(3, b"eth0"));
    assert_eq!(parse_message(&m), Err(ParseError::MissingAddress));
}

#[test]
fn malformed_message_between_valid_ones() {
    let a = v4(10, 0, 0, 1, 24);
    let b = v4(10, 0, 0, 2, 24);
    let good_a = msg(RTM_NEWADDR, AF_INET, 24, &attr(IFA_ADDRESS, &[10, 0, 0, 1]));
    let good_b = msg(RTM_NEWADDR, AF_INET, 24, &attr(IFA_ADDRESS, &[10, 0, 0, 2]));
    let garbage = vec![0xff, 0x13, 0x37];

    let mut with_garbage = Watcher::new();
    with_garbage.handle_messages(&vec![good_a.clone(), garbage, good_b.clone()]);

    let mut without = Watcher::new();
    without.handle_messages(&vec![good_a, good_b]);

    // The unparseable message neither crashes the watcher nor affects the
    // events derived from the valid ones.
    for expected in [Some(IfEvent::Up(a)), Some(IfEvent::Up(b)), None] {
        assert_eq!(with_garbage.poll_next(), expected);
        assert_eq!(without.poll_next(), expected);
    }
    assert_eq!(with_garbage.networks(), without.networks());
}

#[test]
fn duplicate_kernel_notifications_are_suppressed() {
    let a = v4(10, 0, 0, 1, 24);
    let up = msg(RTM_NEWADDR, AF_INET, 24, &attr(IFA_ADDRESS, &[10, 0, 0, 1]));
    let mut watcher = Watcher::new();
    watcher.handle_messages(&vec![up.clone(), up.clone(), up]);
    assert_eq!(watcher.poll_next(), Some(IfEvent::Up(a)));
    assert_eq!(watcher.poll_next(), None);
    assert_eq!(watcher.networks(), &vec![a]);
}

#[test]
fn datagram_with_two_messages() {
    let a = v4(10, 0, 0, 1, 24);
    let b = v4(10, 0, 0, 2, 24);
    let mut buf = msg(RTM_NEWADDR, AF_INET, 24, &attr(IFA_ADDRESS, &[10, 0, 0, 1]));
    buf.extend_from_slice(&msg(RTM_NEWADDR, AF_INET, 24, &attr(IFA_ADDRESS, &[10, 0, 0, 2])));
    let mut watcher = Watcher::new();
    assert!(watcher.handle_datagram(&buf));
    assert_eq!(watcher.poll_next(), Some(IfEvent::Up(a)));
    assert_eq!(watcher.poll_next(), Some(IfEvent::Up(b)));
    assert_eq!(watcher.poll_next(), None);
    assert_eq!(watcher.networks(), &vec![a, b]);
}

#[test]
fn datagram_with_corrupt_tail_is_reported() {
    let a = v4(10, 0, 0, 1, 24);
    let mut buf = msg(RTM_NEWADDR, AF_INET, 24, &attr(IFA_ADDRESS, &[10, 0, 0, 1]));
    buf.extend_from_slice(&[9, 9, 9, 9, 9]); // ragged garbage after the message
    let mut watcher = Watcher::new();
    // The whole messages before the corruption still go through, but the
    // buffer is reported as not well framed, so the backend fails the watcher.
    assert!(!watcher.handle_datagram(&buf));
    assert_eq!(watcher.poll_next(), Some(IfEvent::Up(a)));
    assert_eq!(watcher.poll_next(), None);
}

#[test]
fn down_message_for_absent_prefix_is_suppressed() {
    let down = msg(RTM_DELADDR, AF_INET, 24, &attr(IFA_ADDRESS, &[10, 0, 0, 1]));
    let mut watcher = Watcher::new();
    watcher.handle_message(&down);
    assert_eq!(watcher.poll_next(), None);
    assert!(watcher.networks().is_empty());
}
