use sctp::addr::SockAddr;
use sctp::error::{ErrorKind, SctpError};
use sctp::socket::{
    accept_outcome, check_connectx, check_message, check_socket, check_status, check_transfer,
    recvmsg_outcome, BindOp, Shutdown,
};

#[test]
fn bind_op_flags() {
    assert_eq!(BindOp::AddAddr.flag(), 1);
    assert_eq!(BindOp::RemAddr.flag(), 2);
}

#[test]
fn shutdown_sides_follow_libc() {
    assert_eq!(Shutdown::Read.side(), libc::SHUT_RD);
    assert_eq!(Shutdown::Write.side(), libc::SHUT_WR);
    assert_eq!(Shutdown::Both.side(), libc::SHUT_RDWR);
    assert_eq!(Shutdown::Both.side(), 2);
}

#[test]
fn socket_descriptor_checks() {
    assert_eq!(check_socket(3, 0), Ok(3));
    assert_eq!(check_socket(0, 9), Ok(0));
    assert_eq!(check_socket(-1, 24), Err(SctpError::Os(24)));
}

#[test]
fn status_checks() {
    assert_eq!(check_status(0, 5), Ok(()));
    assert_eq!(check_status(-1, 111), Err(SctpError::Os(111)));
    assert_eq!(check_status(1, 4), Err(SctpError::Os(4)));
    assert_eq!(check_connectx(0, 42, 0), Ok(42));
    assert_eq!(check_connectx(-1, 42, 113), Err(SctpError::Os(113)));
}

#[test]
fn transfer_counts() {
    assert_eq!(check_transfer(0, 0), Ok(0));
    assert_eq!(check_transfer(512, 0), Ok(512));
    assert_eq!(check_transfer(-1, 11), Err(SctpError::Os(11)));
    assert_eq!(check_message(512, 0), Ok(512));
    assert_eq!(check_message(0, 104), Err(SctpError::Os(104)));
    assert_eq!(check_message(-1, 32), Err(SctpError::Os(32)));
}

#[test]
fn accept_gives_socket_and_peer() {
    let peer = SockAddr::V4 { ip: 0x7f00_0001, port: 4000 };
    let mut raw = peer.to_raw();
    raw.resize(28, 0);
    assert_eq!(accept_outcome(5, &raw, 16, 0), Ok((5, peer)));
    assert_eq!(accept_outcome(-1, &raw, 16, 103), Err(SctpError::Os(103)));
    assert_eq!(accept_outcome(5, &raw, 8, 0), Err(SctpError::InvalidAddressLength));
}

#[test]
fn recvmsg_gives_count_stream_and_sender() {
    let sender = SockAddr::V6 { ip: 0xfe80 << 112, port: 9, flowinfo: 0, scope_id: 2 };
    let raw = sender.to_raw();
    assert_eq!(recvmsg_outcome(12, 3, &raw, 28, 0), Ok((12, 3, sender)));
    assert_eq!(recvmsg_outcome(0, 3, &raw, 28, 104), Err(SctpError::Os(104)));
    assert_eq!(recvmsg_outcome(12, 3, &raw, 20, 0), Err(SctpError::UnsupportedAddress));
}

#[test]
fn error_kinds() {
    assert_eq!(SctpError::Os(1).kind(), None);
    assert_eq!(SctpError::InvalidAddressLength.kind(), Some(ErrorKind::InvalidInput));
    assert_eq!(SctpError::UnsupportedAddress.kind(), Some(ErrorKind::InvalidInput));
    assert_eq!(SctpError::InvalidAddress.kind(), Some(ErrorKind::InvalidInput));
    assert_eq!(SctpError::NoAddresses.kind(), Some(ErrorKind::InvalidInput));
    assert_eq!(SctpError::AddressListUnavailable.kind(), Some(ErrorKind::Other));
    assert_eq!(SctpError::Unbound.kind(), Some(ErrorKind::AddrNotAvailable));
    assert_eq!(SctpError::UnsupportedFamily(3).kind(), Some(ErrorKind::Other));
}
