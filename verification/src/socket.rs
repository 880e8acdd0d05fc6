//! The decisions of the SCTP socket operations: which flag or constant a
//! call is given, and what each call's return value, with the `errno` that
//! it left, makes of the operation.
use vstd::prelude::*;
use crate::addr::{address_of_raw, holds_at, SockAddr};
use crate::error::SctpError;
use crate::sys::{shut_rd, shut_rdwr, shut_wr};

verus! {

broadcast use vstd::slice::axiom_spec_len;

/// SCTP bind operation.
#[derive(Clone, Copy, Debug, PartialEq, Eq, Structural)]
pub enum BindOp {
    /// Add bind addresses
    AddAddr,
    /// Remove bind addresses
    RemAddr,
}

/// The flag that `sctp_bindx` takes for `op`: `SCTP_BINDX_ADD_ADDR` (1) or
/// `SCTP_BINDX_REM_ADDR` (2) of the SCTP socket interface.
pub open spec fn bindx_flag(op: BindOp) -> int {
    match op {
        BindOp::AddAddr => 1,
        BindOp::RemAddr => 2,
    }
}

impl BindOp {
    /// The flag that `sctp_bindx` takes for this operation.
    pub fn flag(&self) -> (r: i32)
        ensures
            r == bindx_flag(*self),
    {
        match self {
            BindOp::AddAddr => 1,
            BindOp::RemAddr => 2,
        }
    }
}

/// Which halves of a connection a shutdown closes.
#[derive(Clone, Copy, Debug, PartialEq, Eq, Structural)]
pub enum Shutdown {
    /// The reading half.
    Read,
    /// The writing half.
    Write,
    /// Both halves.
    Both,
}

/// The `how` argument of `shutdown` for `s`: `SHUT_RD` (0), `SHUT_WR` (1)
/// or `SHUT_RDWR` (2).
pub open spec fn shutdown_side(s: Shutdown) -> int {
    match s {
        Shutdown::Read => 0,
        Shutdown::Write => 1,
        Shutdown::Both => 2,
    }
}

impl Shutdown {
    /// The `how` argument that `shutdown` takes for these halves.
    pub fn side(&self) -> (r: i32)
        ensures
            r == shutdown_side(*self),
    {
        match self {
            Shutdown::Read => shut_rd(),
            Shutdown::Write => shut_wr(),
            Shutdown::Both => shut_rdwr(),
        }
    }
}

/// The outcome of a call that returns a socket descriptor (`socket`,
/// `accept`, `dup`): a negative one is the failure that `errno` tells.
pub fn check_socket(sock: i32, errno: i32) -> (r: Result<i32, SctpError>)
    ensures
        r == (if sock < 0 {
            Err::<i32, SctpError>(SctpError::Os(errno))
        } else {
            Ok(sock)
        }),
{
    if sock < 0 {
        Err(SctpError::Os(errno))
    } else {
        Ok(sock)
    }
}

/// The outcome of a call that returns 0 on success (`connect`, `bind`,
/// `sctp_bindx`, `listen`, `shutdown`, `setsockopt`, `getsockopt`,
/// `sctp_opt_info`): any other value is the failure that `errno` tells.
pub fn check_status(ret: i32, errno: i32) -> (r: Result<(), SctpError>)
    ensures
        r == (if ret == 0 {
            Ok::<(), SctpError>(())
        } else {
            Err(SctpError::Os(errno))
        }),
{
    if ret == 0 {
        Ok(())
    } else {
        Err(SctpError::Os(errno))
    }
}

/// The outcome of `sctp_connectx`, which returns 0 on success and then has
/// written the association's identifier `assoc`.
pub fn check_connectx(ret: i32, assoc: u32, errno: i32) -> (r: Result<u32, SctpError>)
    ensures
        r == (if ret == 0 {
            Ok::<u32, SctpError>(assoc)
        } else {
            Err(SctpError::Os(errno))
        }),
{
    if ret == 0 {
        Ok(assoc)
    } else {
        Err(SctpError::Os(errno))
    }
}

/// The outcome of `recv` or `send`: the count of bytes moved, or, where it
/// is negative, the failure that `errno` tells.
pub fn check_transfer(ret: isize, errno: i32) -> (r: Result<usize, SctpError>)
    ensures
        r == (if ret >= 0 {
            Ok::<usize, SctpError>(ret as usize)
        } else {
            Err(SctpError::Os(errno))
        }),
{
    if ret >= 0 {
        Ok(ret as usize)
    } else {
        Err(SctpError::Os(errno))
    }
}

/// The outcome of `sctp_recvmsg` or `sctp_sendmsg`: the count of bytes
/// moved where it is positive, else the failure that `errno` tells.
pub fn check_message(ret: isize, errno: i32) -> (r: Result<usize, SctpError>)
    ensures
        r == (if ret > 0 {
            Ok::<usize, SctpError>(ret as usize)
        } else {
            Err(SctpError::Os(errno))
        }),
{
    if ret > 0 {
        Ok(ret as usize)
    } else {
        Err(SctpError::Os(errno))
    }
}

/// The outcome of `accept`, from the descriptor it returned, the raw peer
/// address it wrote with its length, and `errno`.
pub fn accept_outcome(sock: i32, raw: &[u8], len: u32, errno: i32) -> (r: Result<
    (i32, SockAddr),
    SctpError,
>)
    requires
        len <= raw.len() || 28 <= raw.len(),
    ensures
        r == (if sock < 0 {
            Err(SctpError::Os(errno))
        } else {
            match address_of_raw(raw@, len as nat) {
                Ok(a) => Ok((sock, a)),
                Err(e) => Err(e),
            }
        }),
        r matches Ok((_, a)) ==> holds_at(raw@, 0, a),
{
    let sock = match check_socket(sock, errno) {
        Ok(s) => s,
        Err(e) => return Err(e),
    };
    match SockAddr::from_raw(raw, len) {
        Ok(a) => Ok((sock, a)),
        Err(e) => Err(e),
    }
}

/// The outcome of `sctp_recvmsg`, from its return value, the stream on
/// which the data came, the raw sender address it wrote with its length,
/// and `errno`: the count of bytes, the stream and the sender.
pub fn recvmsg_outcome(ret: isize, stream: u16, raw: &[u8], len: u32, errno: i32) -> (r: Result<
    (usize, u16, SockAddr),
    SctpError,
>)
    requires
        len <= raw.len() || 28 <= raw.len(),
    ensures
        r == (if ret > 0 {
            match address_of_raw(raw@, len as nat) {
                Ok(a) => Ok((ret as usize, stream, a)),
                Err(e) => Err(e),
            }
        } else {
            Err(SctpError::Os(errno))
        }),
        r matches Ok((_, _, a)) ==> holds_at(raw@, 0, a),
{
    let n = match check_message(ret, errno) {
        Ok(n) => n,
        Err(e) => return Err(e),
    };
    match SockAddr::from_raw(raw, len) {
        Ok(a) => Ok((n, stream, a)),
        Err(e) => Err(e),
    }
}

} // verus!
