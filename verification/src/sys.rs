//! The constants of the C socket interface, taken from the `libc` crate.
//! Each function returns one constant; its contract states the value that
//! `libc` defines for Linux with glibc, the platform this crate targets.
use vstd::prelude::*;

verus! {

/// `libc::AF_INET`, the IPv4 address family: 2 on Linux.
#[verifier::external_body]
pub(crate) fn af_inet() -> (r: i32)
    ensures
        r == 2,
{
    libc::AF_INET
}

/// `libc::AF_INET6`, the IPv6 address family: 10 on Linux.
#[verifier::external_body]
pub(crate) fn af_inet6() -> (r: i32)
    ensures
        r == 10,
{
    libc::AF_INET6
}

/// `libc::SHUT_RD`: 0 on Linux with glibc.
#[verifier::external_body]
pub(crate) fn shut_rd() -> (r: i32)
    ensures
        r == 0,
{
    libc::SHUT_RD
}

/// `libc::SHUT_WR`: 1 on Linux with glibc.
#[verifier::external_body]
pub(crate) fn shut_wr() -> (r: i32)
    ensures
        r == 1,
{
    libc::SHUT_WR
}

/// `libc::SHUT_RDWR`: 2 on Linux with glibc.
#[verifier::external_body]
pub(crate) fn shut_rdwr() -> (r: i32)
    ensures
        r == 2,
{
    libc::SHUT_RDWR
}

/// The size of `libc::sockaddr`, the generic socket address: 16 bytes on Linux.
#[verifier::external_body]
pub(crate) fn sockaddr_size() -> (r: u32)
    ensures
        r == 16,
{
    std::mem::size_of::<libc::sockaddr>() as u32
}

/// The size of `libc::sockaddr_in`, the IPv4 socket address: 16 bytes on Linux.
#[verifier::external_body]
pub(crate) fn sockaddr_in_size() -> (r: u32)
    ensures
        r == 16,
{
    std::mem::size_of::<libc::sockaddr_in>() as u32
}

/// The size of `libc::sockaddr_in6`, the IPv6 socket address: 28 bytes on Linux.
#[verifier::external_body]
pub(crate) fn sockaddr_in6_size() -> (r: u32)
    ensures
        r == 28,
{
    std::mem::size_of::<libc::sockaddr_in6>() as u32
}

} // verus!
