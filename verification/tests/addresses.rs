use sctp::addr::{pack_addrs, unpack_addrs, AddrsStep, SockAddr};
use sctp::error::SctpError;

fn v4(a: u8, b: u8, c: u8, d: u8, port: u16) -> SockAddr {
    SockAddr::V4 { ip: u32::from_be_bytes([a, b, c, d]), port }
}

fn v6_loopback(port: u16) -> SockAddr {
    SockAddr::V6 { ip: 1, port, flowinfo: 0x0102_0304, scope_id: 7 }
}

#[test]
fn family_and_length_follow_libc() {
    let a = v4(127, 0, 0, 1, 80);
    let b = v6_loopback(80);
    assert_eq!(a.family(), libc::AF_INET);
    assert_eq!(b.family(), libc::AF_INET6);
    assert_eq!(a.addr_len() as usize, std::mem::size_of::<libc::sockaddr_in>());
    assert_eq!(b.addr_len() as usize, std::mem::size_of::<libc::sockaddr_in6>());
}

#[test]
fn raw_ipv4_layout() {
    let raw = v4(192, 168, 1, 20, 8080).to_raw();
    assert_eq!(raw, vec![2, 0, 0x1f, 0x90, 192, 168, 1, 20, 0, 0, 0, 0, 0, 0, 0, 0]);
}

#[test]
fn raw_ipv6_layout() {
    let raw = v6_loopback(0x1234).to_raw();
    let mut expected = vec![10, 0, 0x12, 0x34, 4, 3, 2, 1];
    expected.extend_from_slice(&[0; 15]);
    expected.push(1);
    expected.extend_from_slice(&[7, 0, 0, 0]);
    assert_eq!(raw, expected);
}

#[test]
fn raw_roundtrip_both_families() {
    for a in [v4(10, 0, 0, 255, 1), v6_loopback(65535), SockAddr::V6 { ip: u128::MAX, port: 0, flowinfo: u32::MAX, scope_id: 0 }] {
        let raw = a.to_raw();
        assert_eq!(SockAddr::from_raw(&raw, a.addr_len()), Ok(a));
    }
}

#[test]
fn from_raw_in_a_larger_buffer() {
    let mut raw = v4(1, 2, 3, 4, 5).to_raw();
    raw.resize(28, 0xff);
    assert_eq!(SockAddr::from_raw(&raw, 28), Ok(v4(1, 2, 3, 4, 5)));
}

#[test]
fn from_raw_too_short() {
    let raw = v4(1, 2, 3, 4, 5).to_raw();
    assert_eq!(SockAddr::from_raw(&raw, 15), Err(SctpError::InvalidAddressLength));
    assert_eq!(SockAddr::from_raw(&raw, 0), Err(SctpError::InvalidAddressLength));
}

#[test]
fn from_raw_unknown_family() {
    let mut raw = v4(1, 2, 3, 4, 5).to_raw();
    raw[0] = 1;
    assert_eq!(SockAddr::from_raw(&raw, 16), Err(SctpError::UnsupportedAddress));
}

#[test]
fn from_raw_ipv6_cut_short() {
    let raw = v6_loopback(9).to_raw();
    assert_eq!(SockAddr::from_raw(&raw, 16), Err(SctpError::UnsupportedAddress));
    assert_eq!(SockAddr::from_raw(&raw, 27), Err(SctpError::UnsupportedAddress));
}

#[test]
fn pack_nothing() {
    assert_eq!(pack_addrs(&[]), Err(SctpError::NoAddresses));
}

#[test]
fn pack_concatenates() {
    let a = v4(1, 1, 1, 1, 1);
    let b = v6_loopback(2);
    let packed = pack_addrs(&[a, b]).unwrap();
    let mut expected = a.to_raw();
    expected.extend_from_slice(&b.to_raw());
    assert_eq!(packed, expected);
    assert_eq!(packed.len(), 16 + 28);
}

#[test]
fn unpack_what_was_packed() {
    let addrs = vec![v6_loopback(1), v4(8, 8, 8, 8, 53), v4(9, 9, 9, 9, 0)];
    let mut packed = pack_addrs(&addrs).unwrap();
    match unpack_addrs(3, &packed) {
        AddrsStep::Done(r) => assert_eq!(r, Ok(addrs.clone())),
        AddrsStep::MoreBytes(_) => panic!("the whole list was given"),
    }
    packed.extend_from_slice(&[0xaa; 5]);
    match unpack_addrs(3, &packed) {
        AddrsStep::Done(r) => assert_eq!(r, Ok(addrs)),
        AddrsStep::MoreBytes(_) => panic!("the whole list was given"),
    }
}

#[test]
fn unpack_counts() {
    match unpack_addrs(-1, &[]) {
        AddrsStep::Done(r) => assert_eq!(r, Err(SctpError::AddressListUnavailable)),
        AddrsStep::MoreBytes(_) => panic!(),
    }
    match unpack_addrs(0, &[]) {
        AddrsStep::Done(r) => assert_eq!(r, Err(SctpError::Unbound)),
        AddrsStep::MoreBytes(_) => panic!(),
    }
}

#[test]
fn unpack_asks_for_more() {
    let packed = pack_addrs(&[v4(1, 2, 3, 4, 5), v6_loopback(6)]).unwrap();
    match unpack_addrs(2, &packed[..0]) {
        AddrsStep::MoreBytes(n) => assert_eq!(n, 2),
        AddrsStep::Done(_) => panic!(),
    }
    match unpack_addrs(2, &packed[..2]) {
        AddrsStep::MoreBytes(n) => assert_eq!(n, 14),
        AddrsStep::Done(_) => panic!(),
    }
    match unpack_addrs(2, &packed[..17]) {
        AddrsStep::MoreBytes(n) => assert_eq!(n, 1),
        AddrsStep::Done(_) => panic!(),
    }
    match unpack_addrs(2, &packed[..20]) {
        AddrsStep::MoreBytes(n) => assert_eq!(n, 24),
        AddrsStep::Done(_) => panic!(),
    }
}

#[test]
fn unpack_streaming_reaches_the_list() {
    let addrs = vec![v4(1, 2, 3, 4, 5), v6_loopback(6), v4(7, 7, 7, 7, 7)];
    let packed = pack_addrs(&addrs).unwrap();
    let mut have = 0usize;
    let result = loop {
        match unpack_addrs(3, &packed[..have]) {
            AddrsStep::MoreBytes(n) => have += n,
            AddrsStep::Done(r) => break r,
        }
    };
    assert_eq!(have, packed.len());
    assert_eq!(result, Ok(addrs));
}

#[test]
fn unpack_unsupported_family() {
    let mut packed = pack_addrs(&[v4(1, 2, 3, 4, 5), v4(6, 7, 8, 9, 10)]).unwrap();
    packed[16] = 17;
    packed[17] = 1;
    match unpack_addrs(2, &packed) {
        AddrsStep::Done(r) => assert_eq!(r, Err(SctpError::UnsupportedFamily(0x0111))),
        AddrsStep::MoreBytes(_) => panic!(),
    }
}
