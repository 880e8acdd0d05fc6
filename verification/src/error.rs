//! The errors that the socket operations report.
use vstd::prelude::*;

verus! {

/// The category of an error that the library raises itself.
#[derive(Clone, Copy, Debug, PartialEq, Eq, Structural)]
pub enum ErrorKind {
    /// A parameter or a returned address was not acceptable.
    InvalidInput,
    /// The socket has no address of the kind asked for.
    AddrNotAvailable,
    /// Any other failure.
    Other,
}

/// An error of an SCTP socket operation.
#[derive(Clone, Copy, Debug, PartialEq, Eq, Structural)]
pub enum SctpError {
    /// The operating system reported a failure with this `errno` value.
    Os(i32),
    /// A raw socket address was shorter than a generic `sockaddr`.
    InvalidAddressLength,
    /// A raw socket address was of an unknown family, or too short for its family.
    UnsupportedAddress,
    /// An address could not be resolved.
    InvalidAddress,
    /// An operation on a list of addresses was given none.
    NoAddresses,
    /// The address list of a socket could not be retrieved.
    AddressListUnavailable,
    /// The socket is not bound.
    Unbound,
    /// An address list held an address of this unsupported family.
    UnsupportedFamily(i32),
}

impl SctpError {
    /// The category of the error, or `None` for one that the operating
    /// system reported, whose category its code decides.
    pub fn kind(&self) -> (r: Option<ErrorKind>)
        ensures
            r == (match *self {
                SctpError::Os(_) => None,
                SctpError::InvalidAddressLength => Some(ErrorKind::InvalidInput),
                SctpError::UnsupportedAddress => Some(ErrorKind::InvalidInput),
                SctpError::InvalidAddress => Some(ErrorKind::InvalidInput),
                SctpError::NoAddresses => Some(ErrorKind::InvalidInput),
                SctpError::AddressListUnavailable => Some(ErrorKind::Other),
                SctpError::Unbound => Some(ErrorKind::AddrNotAvailable),
                SctpError::UnsupportedFamily(_) => Some(ErrorKind::Other),
            }),
    {
        match self {
            SctpError::Os(_) => None,
            SctpError::InvalidAddressLength => Some(ErrorKind::InvalidInput),
            SctpError::UnsupportedAddress => Some(ErrorKind::InvalidInput),
            SctpError::InvalidAddress => Some(ErrorKind::InvalidInput),
            SctpError::NoAddresses => Some(ErrorKind::InvalidInput),
            SctpError::AddressListUnavailable => Some(ErrorKind::Other),
            SctpError::Unbound => Some(ErrorKind::AddrNotAvailable),
            SctpError::UnsupportedFamily(_) => Some(ErrorKind::Other),
        }
    }
}

} // verus!
