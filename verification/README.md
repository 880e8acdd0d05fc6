# sctp

SCTP sockets for Linux, with the parts that decide something verified by Verus.

- `src/` is the verified library:
  - `addr`: IPv4 and IPv6 socket addresses, their raw `sockaddr_in` /
    `sockaddr_in6` form, and the packed address lists that `sctp_connectx`,
    `sctp_bindx`, `sctp_getladdrs` and `sctp_getpaddrs` exchange, with the
    proofs that reading gives back what was written;
  - `bytes`: integers as network-order and host-order bytes;
  - `socket`: the flags and constants that the calls take, and what each
    call's return value and `errno` make of an operation;
  - `error`: the errors;
  - `sys`: the constants of `libc` that the library relies on.
- `app/` holds `SctpSocket`: the system calls themselves, which hand the
  library plain values and turn its answers into `std::io` results.

The raw layout is that of Linux on little-endian machines.
