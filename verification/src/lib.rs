//! SCTP sockets: socket addresses and their raw forms, address lists as the
//! SCTP extensions of the socket interface pass them, and the outcome of
//! each socket call as its return value and `errno` decide it.
pub mod addr;
pub mod bytes;
pub mod error;
pub mod socket;
mod sys;
