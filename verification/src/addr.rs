//! Socket addresses and their raw form: the `sockaddr_in` and
//! `sockaddr_in6` structures of Linux on a little-endian machine, alone or
//! packed one after another as the SCTP address-list calls take and give them.
use vstd::prelude::*;
use crate::bytes::{
    be_bytes, be_value, le_bytes, le_value, lemma_be_bytes_len, lemma_be_value_bound,
    lemma_be_roundtrip, lemma_le_bytes_len, lemma_le_roundtrip, lemma_le_value_bound,
    lemma_pow256_values, push_be, push_le, read_be, read_le, octet, pow256, lemma_be_bytes_index,
    lemma_le_bytes_index, lemma_be_value_octet, lemma_le_value_octet,
};
use crate::error::SctpError;
use crate::sys::{af_inet, af_inet6, sockaddr_in6_size, sockaddr_in_size, sockaddr_size};

verus! {

broadcast use vstd::slice::axiom_spec_len;

/// An IPv4 or IPv6 socket address.
#[derive(Clone, Copy, Debug, PartialEq, Eq, Hash, Structural)]
#[allow(inconsistent_fields)]
pub enum SockAddr {
    /// An IPv4 address: `ip` holds its four octets, the first one most significant.
    V4 { ip: u32, port: u16 },
    /// An IPv6 address: `ip` holds its sixteen octets, the first one most significant.
    V6 { ip: u128, port: u16, flowinfo: u32, scope_id: u32 },
}

/// The address family of `a`: `AF_INET` (2) or `AF_INET6` (10).
pub open spec fn family_of(a: SockAddr) -> int {
    match a {
        SockAddr::V4 { .. } => 2,
        SockAddr::V6 { .. } => 10,
    }
}

/// The size of the raw structure of `a`: that of `sockaddr_in` or of `sockaddr_in6`.
pub open spec fn raw_len_of(a: SockAddr) -> nat {
    match a {
        SockAddr::V4 { .. } => 16,
        SockAddr::V6 { .. } => 28,
    }
}

/// The bytes of the `sockaddr_in` or `sockaddr_in6` that holds `a`: the
/// family in host order, the port and the address in network order,
/// flow information and scope in host order, and zeros as padding.
pub open spec fn raw_of(a: SockAddr) -> Seq<u8> {
    match a {
        SockAddr::V4 { ip, port } => le_bytes(2, 2) + be_bytes(port as nat, 2) + be_bytes(
            ip as nat,
            4,
        ) + Seq::new(8, |i: int| 0u8),
        SockAddr::V6 { ip, port, flowinfo, scope_id } => le_bytes(10, 2) + be_bytes(port as nat, 2)
            + le_bytes(flowinfo as nat, 4) + be_bytes(ip as nat, 16) + le_bytes(scope_id as nat, 4),
    }
}

/// The family field of the raw address that starts at `off`.
pub open spec fn family_at(raw: Seq<u8>, off: int) -> nat {
    le_value(raw.subrange(off, off + 2))
}

/// The IPv4 address held by the `sockaddr_in` that starts at `off`.
pub open spec fn v4_at(raw: Seq<u8>, off: int) -> SockAddr {
    SockAddr::V4 {
        ip: be_value(raw.subrange(off + 4, off + 8)) as u32,
        port: be_value(raw.subrange(off + 2, off + 4)) as u16,
    }
}

/// The IPv6 address held by the `sockaddr_in6` that starts at `off`.
pub open spec fn v6_at(raw: Seq<u8>, off: int) -> SockAddr {
    SockAddr::V6 {
        ip: be_value(raw.subrange(off + 8, off + 24)) as u128,
        port: be_value(raw.subrange(off + 2, off + 4)) as u16,
        flowinfo: le_value(raw.subrange(off + 4, off + 8)) as u32,
        scope_id: le_value(raw.subrange(off + 24, off + 28)) as u32,
    }
}

/// The address that a raw socket address of `len` bytes holds: an error
/// where `len` is shorter than a `sockaddr`, or where the family is not
/// IPv4 or IPv6 with enough bytes for it.
pub open spec fn address_of_raw(raw: Seq<u8>, len: nat) -> Result<SockAddr, SctpError> {
    if len < 16 {
        Err(SctpError::InvalidAddressLength)
    } else if family_at(raw, 0) == 2 {
        Ok(v4_at(raw, 0))
    } else if family_at(raw, 0) == 10 && len >= 28 {
        Ok(v6_at(raw, 0))
    } else {
        Err(SctpError::UnsupportedAddress)
    }
}

/// The raw forms of the addresses `s`, one after another.
pub open spec fn packed(s: Seq<SockAddr>) -> Seq<u8>
    decreases s.len(),
{
    if s.len() == 0 {
        Seq::empty()
    } else {
        packed(s.drop_last()) + raw_of(s.last())
    }
}

/// How far reading a packed address list has come.
pub enum Unpacked {
    /// So many more bytes are needed than were given.
    MoreBytes(nat),
    /// The list, or why there is none.
    Done(Result<Seq<SockAddr>, SctpError>),
}

/// What reading a packed address list gives, as the library hands it out.
pub enum AddrsStep {
    /// The bytes given end too early: so many more are needed.
    MoreBytes(usize),
    /// The list, or why there is none.
    Done(Result<Vec<SockAddr>, SctpError>),
}

impl View for AddrsStep {
    type V = Unpacked;

    open spec fn view(&self) -> Unpacked {
        match self {
            AddrsStep::MoreBytes(n) => Unpacked::MoreBytes(*n as nat),
            AddrsStep::Done(Ok(v)) => Unpacked::Done(Ok(v@)),
            AddrsStep::Done(Err(e)) => Unpacked::Done(Err(*e)),
        }
    }
}

/// `rest` with the addresses `found` in front of its list, when it has one.
pub open spec fn after(found: Seq<SockAddr>, rest: Unpacked) -> Unpacked {
    match rest {
        Unpacked::Done(Ok(tail)) => Unpacked::Done(Ok(found + tail)),
        _ => rest,
    }
}

/// Reading `count` packed addresses from `raw`, starting at `off`: each
/// one is as long as its family says; a family other than IPv4 or IPv6
/// ends the reading with an error.
pub open spec fn unpack_from(raw: Seq<u8>, off: nat, count: nat) -> Unpacked
    decreases count,
{
    if count == 0 {
        Unpacked::Done(Ok(Seq::empty()))
    } else if raw.len() < off + 2 {
        Unpacked::MoreBytes((off + 2 - raw.len()) as nat)
    } else {
        let fam = family_at(raw, off as int);
        if fam == 2 {
            if raw.len() < off + 16 {
                Unpacked::MoreBytes((off + 16 - raw.len()) as nat)
            } else {
                after(seq![v4_at(raw, off as int)], unpack_from(raw, off + 16, (count - 1) as nat))
            }
        } else if fam == 10 {
            if raw.len() < off + 28 {
                Unpacked::MoreBytes((off + 28 - raw.len()) as nat)
            } else {
                after(seq![v6_at(raw, off as int)], unpack_from(raw, off + 28, (count - 1) as nat))
            }
        } else {
            Unpacked::Done(Err(SctpError::UnsupportedFamily(fam as i32)))
        }
    }
}

/// The address list of a socket, from the count that the SCTP library
/// returned and the packed addresses that it handed out: a negative count
/// is a failure, a count of zero an unbound socket.
pub open spec fn unpack(count: i32, raw: Seq<u8>) -> Unpacked {
    if count < 0 {
        Unpacked::Done(Err(SctpError::AddressListUnavailable))
    } else if count == 0 {
        Unpacked::Done(Err(SctpError::Unbound))
    } else {
        unpack_from(raw, 0, count as nat)
    }
}

proof fn lemma_le_two_fits(s: Seq<u8>)
    requires
        s.len() == 2,
    ensures
        le_value(s) < 0x1_0000,
{
    lemma_le_value_bound(s);
    lemma_pow256_values();
}

/// Reads the IPv4 address of the `sockaddr_in` at `off`.
fn read_v4(raw: &[u8], off: usize) -> (a: SockAddr)
    requires
        off + 16 <= raw.len(),
    ensures
        a == v4_at(raw@, off as int),
{
    proof {
        lemma_be_value_bound(raw@.subrange(off + 2, off + 4));
        lemma_be_value_bound(raw@.subrange(off + 4, off + 8));
        lemma_pow256_values();
    }
    let port = read_be(raw, off + 2, 2) as u16;
    let ip = read_be(raw, off + 4, 4) as u32;
    SockAddr::V4 { ip, port }
}

/// Reads the IPv6 address of the `sockaddr_in6` at `off`.
fn read_v6(raw: &[u8], off: usize) -> (a: SockAddr)
    requires
        off + 28 <= raw.len(),
    ensures
        a == v6_at(raw@, off as int),
{
    proof {
        lemma_be_value_bound(raw@.subrange(off + 2, off + 4));
        lemma_le_value_bound(raw@.subrange(off + 4, off + 8));
        lemma_be_value_bound(raw@.subrange(off + 8, off + 24));
        lemma_le_value_bound(raw@.subrange(off + 24, off + 28));
        lemma_pow256_values();
    }
    let port = read_be(raw, off + 2, 2) as u16;
    let flowinfo = read_le(raw, off + 4, 4) as u32;
    let ip = read_be(raw, off + 8, 16);
    let scope_id = read_le(raw, off + 24, 4) as u32;
    SockAddr::V6 { ip, port, flowinfo, scope_id }
}

/// Reads the family field of the raw address at `off`.
fn read_family(raw: &[u8], off: usize) -> (f: i32)
    requires
        off + 2 <= raw.len(),
    ensures
        f == family_at(raw@, off as int),
{
    proof {
        lemma_le_two_fits(raw@.subrange(off as int, off + 2));
    }
    read_le(raw, off, 2) as i32
}

impl SockAddr {
    /// The address family: `libc::AF_INET` or `libc::AF_INET6`.
    pub fn family(&self) -> (r: i32)
        ensures
            r == family_of(*self),
    {
        match self {
            SockAddr::V4 { .. } => af_inet(),
            SockAddr::V6 { .. } => af_inet6(),
        }
    }

    /// The size of the raw structure that holds the address.
    pub fn addr_len(&self) -> (r: u32)
        ensures
            r == raw_len_of(*self),
    {
        match self {
            SockAddr::V4 { .. } => sockaddr_in_size(),
            SockAddr::V6 { .. } => sockaddr_in6_size(),
        }
    }

    /// The raw structure that holds the address, as the socket calls take it.
    pub fn to_raw(&self) -> (r: Vec<u8>)
        ensures
            r@ == raw_of(*self),
            r@.len() == raw_len_of(*self),
            holds_at(r@, 0, *self),
            *self is V4 ==> forall|j: int| 8 <= j < 16 ==> #[trigger] r@[j] == 0,
    {
        proof {
            lemma_raw_of_holds(*self);
        }
        let mut out: Vec<u8> = Vec::new();
        match *self {
            SockAddr::V4 { ip, port } => {
                push_le(&mut out, af_inet() as u128, 2);
                push_be(&mut out, port as u128, 2);
                push_be(&mut out, ip as u128, 4);
                let mut i: usize = 0;
                while i < 8
                    invariant
                        i <= 8,
                        out@ == le_bytes(2, 2) + be_bytes(port as nat, 2) + be_bytes(ip as nat, 4)
                            + Seq::new(i as nat, |j: int| 0u8),
                    decreases 8 - i,
                {
                    out.push(0u8);
                    i = i + 1;
                    assert(out@ =~= le_bytes(2, 2) + be_bytes(port as nat, 2) + be_bytes(
                        ip as nat,
                        4,
                    ) + Seq::new(i as nat, |j: int| 0u8));
                }
                proof {
                    lemma_le_bytes_len(2, 2);
                    lemma_be_bytes_len(port as nat, 2);
                    lemma_be_bytes_len(ip as nat, 4);
                }
            },
            SockAddr::V6 { ip, port, flowinfo, scope_id } => {
                push_le(&mut out, af_inet6() as u128, 2);
                push_be(&mut out, port as u128, 2);
                push_le(&mut out, flowinfo as u128, 4);
                push_be(&mut out, ip, 16);
                push_le(&mut out, scope_id as u128, 4);
                proof {
                    lemma_le_bytes_len(10, 2);
                    lemma_be_bytes_len(port as nat, 2);
                    lemma_le_bytes_len(flowinfo as nat, 4);
                    lemma_be_bytes_len(ip as nat, 16);
                    lemma_le_bytes_len(scope_id as nat, 4);
                }
            },
        }
        assert(out@ =~= raw_of(*self));
        out
    }

    /// The address held by a raw socket address of `len` bytes, of which
    /// `raw` holds at least those that are read: all `len`, or the 28 of a
    /// `sockaddr_in6`.
    pub fn from_raw(raw: &[u8], len: u32) -> (r: Result<SockAddr, SctpError>)
        requires
            len <= raw.len() || 28 <= raw.len(),
        ensures
            r == address_of_raw(raw@, len as nat),
            r matches Ok(a) ==> holds_at(raw@, 0, a),
    {
        proof {
            lemma_address_of_raw_holds(raw@, len as nat);
        }
        if len < sockaddr_size() {
            return Err(SctpError::InvalidAddressLength);
        }
        let fam = read_family(raw, 0);
        if fam == af_inet() && len >= sockaddr_in_size() {
            Ok(read_v4(raw, 0))
        } else if fam == af_inet6() && len >= sockaddr_in6_size() {
            Ok(read_v6(raw, 0))
        } else {
            Err(SctpError::UnsupportedAddress)
        }
    }
}


proof fn lemma_after_empty(rest: Unpacked)
    ensures
        after(Seq::empty(), rest) == rest,
{
    if let Unpacked::Done(Ok(tail)) = rest {
        assert(Seq::<SockAddr>::empty() + tail =~= tail);
    }
}

proof fn lemma_after_after(found: Seq<SockAddr>, a: SockAddr, rest: Unpacked)
    ensures
        after(found, after(seq![a], rest)) == after(found.push(a), rest),
{
    if let Unpacked::Done(Ok(tail)) = rest {
        assert(found + (seq![a] + tail) =~= found.push(a) + tail);
    }
}

/// Reads the address list of a socket from the count that the SCTP library
/// returned and the packed addresses it handed out, of which `raw` holds a
/// prefix; where that prefix ends too early, says how many more bytes the
/// reading needs.
pub fn unpack_addrs(count: i32, raw: &[u8]) -> (r: AddrsStep)
    ensures
        r@ == unpack(count, raw@),
        r matches AddrsStep::MoreBytes(n) ==> n > 0,
        r matches AddrsStep::Done(Ok(v)) ==> v@.len() == count && list_holds_at(raw@, 0, v@),
        count < 0 ==> r matches AddrsStep::Done(Err(SctpError::AddressListUnavailable)),
        count == 0 ==> r matches AddrsStep::Done(Err(SctpError::Unbound)),
{
    proof {
        lemma_unpack_holds(count, raw@);
    }
    if count < 0 {
        return AddrsStep::Done(Err(SctpError::AddressListUnavailable));
    }
    if count == 0 {
        return AddrsStep::Done(Err(SctpError::Unbound));
    }
    let mut found: Vec<SockAddr> = Vec::new();
    let mut off: usize = 0;
    let mut i: i32 = 0;
    proof {
        lemma_after_empty(unpack_from(raw@, 0, count as nat));
    }
    while i < count
        invariant
            0 <= i <= count,
            off <= raw@.len(),
            unpack(count, raw@) == after(found@, unpack_from(raw@, off as nat, (count - i) as nat)),
            count > 0,
        decreases count - i,
    {
        let avail = raw.len() - off;
        if avail < 2 {
            return AddrsStep::MoreBytes(2 - avail);
        }
        let fam = read_family(raw, off);
        let size: usize;
        let a: SockAddr;
        if fam == af_inet() {
            size = sockaddr_in_size() as usize;
            if avail < size {
                return AddrsStep::MoreBytes(size - avail);
            }
            a = read_v4(raw, off);
        } else if fam == af_inet6() {
            size = sockaddr_in6_size() as usize;
            if avail < size {
                return AddrsStep::MoreBytes(size - avail);
            }
            a = read_v6(raw, off);
        } else {
            return AddrsStep::Done(Err(SctpError::UnsupportedFamily(fam)));
        }
        proof {
            lemma_after_after(found@, a, unpack_from(raw@, (off + size) as nat, (count - i - 1) as nat));
        }
        found.push(a);
        off = off + size;
        i = i + 1;
    }
    assert(found@ + Seq::<SockAddr>::empty() =~= found@);
    AddrsStep::Done(Ok(found))
}

/// The packed raw forms of the addresses `addrs`, as the SCTP calls that
/// connect to or bind several addresses take them; none is an error.
pub fn pack_addrs(addrs: &[SockAddr]) -> (r: Result<Vec<u8>, SctpError>)
    ensures
        match r {
            Ok(v) => addrs@.len() > 0 && v@ == packed(addrs@) && list_holds_at(v@, 0, addrs@),
            Err(e) => addrs@.len() == 0 && e == SctpError::NoAddresses,
        },
{
    if addrs.len() == 0 {
        return Err(SctpError::NoAddresses);
    }
    let mut out: Vec<u8> = Vec::new();
    let mut i: usize = 0;
    while i < addrs.len()
        invariant
            i <= addrs@.len(),
            out@ == packed(addrs@.take(i as int)),
        decreases addrs@.len() - i,
    {
        let raw = addrs[i].to_raw();
        assert(addrs@.take(i + 1).drop_last() =~= addrs@.take(i as int));
        out.extend_from_slice(raw.as_slice());
        i = i + 1;
    }
    assert(addrs@.take(addrs@.len() as int) =~= addrs@);
    proof {
        lemma_packed_holds(addrs@);
    }
    Ok(out)
}


/// The raw form of `a`, followed by any bytes `rest`, read at offset
/// `pre.len()` of a buffer that starts with `pre`, has the family of `a`
/// and gives back `a`.
proof fn lemma_raw_at(pre: Seq<u8>, a: SockAddr, rest: Seq<u8>)
    ensures
        ({
            let buf = pre + raw_of(a) + rest;
            let off = pre.len() as int;
            &&& buf.len() == pre.len() + raw_len_of(a) + rest.len()
            &&& family_at(buf, off) == family_of(a)
            &&& a is V4 ==> v4_at(buf, off) == a
            &&& a is V6 ==> v6_at(buf, off) == a
        }),
{
    let buf = pre + raw_of(a) + rest;
    let off = pre.len() as int;
    lemma_pow256_values();
    match a {
        SockAddr::V4 { ip, port } => {
            lemma_le_bytes_len(2, 2);
            lemma_be_bytes_len(port as nat, 2);
            lemma_be_bytes_len(ip as nat, 4);
            lemma_le_roundtrip(2, 2);
            lemma_be_roundtrip(port as nat, 2);
            lemma_be_roundtrip(ip as nat, 4);
            assert(buf.subrange(off, off + 2) =~= le_bytes(2, 2));
            assert(buf.subrange(off + 2, off + 4) =~= be_bytes(port as nat, 2));
            assert(buf.subrange(off + 4, off + 8) =~= be_bytes(ip as nat, 4));
        },
        SockAddr::V6 { ip, port, flowinfo, scope_id } => {
            lemma_le_bytes_len(10, 2);
            lemma_be_bytes_len(port as nat, 2);
            lemma_le_bytes_len(flowinfo as nat, 4);
            lemma_be_bytes_len(ip as nat, 16);
            lemma_le_bytes_len(scope_id as nat, 4);
            lemma_le_roundtrip(10, 2);
            lemma_be_roundtrip(port as nat, 2);
            lemma_le_roundtrip(flowinfo as nat, 4);
            lemma_be_roundtrip(ip as nat, 16);
            lemma_le_roundtrip(scope_id as nat, 4);
            assert(buf.subrange(off, off + 2) =~= le_bytes(10, 2));
            assert(buf.subrange(off + 2, off + 4) =~= be_bytes(port as nat, 2));
            assert(buf.subrange(off + 4, off + 8) =~= le_bytes(flowinfo as nat, 4));
            assert(buf.subrange(off + 8, off + 24) =~= be_bytes(ip as nat, 16));
            assert(buf.subrange(off + 24, off + 28) =~= le_bytes(scope_id as nat, 4));
        },
    }
}

/// Reading the raw form of an address, with as many bytes as its
/// structure has, gives the address back, whatever bytes follow it.
pub proof fn lemma_raw_roundtrip(a: SockAddr, rest: Seq<u8>)
    ensures
        address_of_raw(raw_of(a) + rest, raw_len_of(a)) == Ok::<SockAddr, SctpError>(a),
{
    lemma_raw_at(Seq::empty(), a, rest);
    assert(Seq::<u8>::empty() + raw_of(a) + rest =~= raw_of(a) + rest);
}

/// A packed list is the raw form of its first address followed by the
/// packed rest.
proof fn lemma_packed_front(s: Seq<SockAddr>)
    requires
        s.len() > 0,
    ensures
        packed(s) == raw_of(s[0]) + packed(s.drop_first()),
    decreases s.len(),
{
    if s.len() > 1 {
        lemma_packed_front(s.drop_last());
        assert(s.drop_last().drop_first() =~= s.drop_first().drop_last());
        assert(s.drop_last()[0] == s[0]);
        assert(s.drop_first().last() == s.last());
        assert(packed(s) =~= raw_of(s[0]) + packed(s.drop_first()));
    } else {
        assert(s.drop_last() =~= Seq::<SockAddr>::empty());
        assert(s.drop_first() =~= Seq::<SockAddr>::empty());
        assert(packed(s) =~= raw_of(s[0]) + packed(s.drop_first()));
    }
}

proof fn lemma_unpack_from_packed(pre: Seq<u8>, s: Seq<SockAddr>, tail: Seq<u8>)
    ensures
        unpack_from(pre + packed(s) + tail, pre.len(), s.len()) == Unpacked::Done(Ok(s)),
    decreases s.len(),
{
    if s.len() > 0 {
        let a = s[0];
        let rest = packed(s.drop_first()) + tail;
        lemma_packed_front(s);
        assert(pre + packed(s) + tail =~= pre + raw_of(a) + rest);
        lemma_raw_at(pre, a, rest);
        let pre2 = pre + raw_of(a);
        assert(pre + raw_of(a) + rest =~= pre2 + packed(s.drop_first()) + tail);
        lemma_unpack_from_packed(pre2, s.drop_first(), tail);
        assert(seq![a] + s.drop_first() =~= s);
    } else {
        assert(s =~= Seq::<SockAddr>::empty());
    }
}

/// Reading a packed list of addresses, with the count of its addresses,
/// gives the list back, whatever bytes follow it.
pub proof fn lemma_unpack_packed(s: Seq<SockAddr>, tail: Seq<u8>)
    requires
        0 < s.len() <= i32::MAX,
    ensures
        unpack(s.len() as i32, packed(s) + tail) == Unpacked::Done(Ok(s)),
{
    lemma_unpack_from_packed(Seq::empty(), s, tail);
    assert(Seq::<u8>::empty() + packed(s) + tail =~= packed(s) + tail);
}

proof fn lemma_unpack_from_stable(raw: Seq<u8>, ext: Seq<u8>, off: nat, count: nat)
    requires
        unpack_from(raw, off, count) is Done,
    ensures
        unpack_from(raw + ext, off, count) == unpack_from(raw, off, count),
    decreases count,
{
    let big = raw + ext;
    let o = off as int;
    if count > 0 {
        assert(big.subrange(o, o + 2) =~= raw.subrange(o, o + 2));
        let fam = family_at(raw, off as int);
        if fam == 2 {
            assert(big.subrange(o + 2, o + 4) =~= raw.subrange(o + 2, o + 4));
            assert(big.subrange(o + 4, o + 8) =~= raw.subrange(o + 4, o + 8));
            lemma_unpack_from_stable(raw, ext, off + 16, (count - 1) as nat);
        } else if fam == 10 {
            assert(big.subrange(o + 2, o + 4) =~= raw.subrange(o + 2, o + 4));
            assert(big.subrange(o + 4, o + 8) =~= raw.subrange(o + 4, o + 8));
            assert(big.subrange(o + 8, o + 24) =~= raw.subrange(o + 8, o + 24));
            assert(big.subrange(o + 24, o + 28) =~= raw.subrange(o + 24, o + 28));
            lemma_unpack_from_stable(raw, ext, off + 28, (count - 1) as nat);
        }
    }
}

/// Once the bytes given suffice to read an address list, or to find that
/// there is none, more bytes after them change nothing.
pub proof fn lemma_unpack_stable(count: i32, raw: Seq<u8>, ext: Seq<u8>)
    requires
        unpack(count, raw) is Done,
    ensures
        unpack(count, raw + ext) == unpack(count, raw),
{
    if count > 0 {
        lemma_unpack_from_stable(raw, ext, 0, count as nat);
    }
}


/// The bytes of `raw` from `off` on are a raw socket address that holds
/// `a`, as the socket interface lays it out: the family (`AF_INET`, 2, or
/// `AF_INET6`, 10) in host order; then the port, most significant octet
/// first; for IPv4, the four address octets, first octet first; for IPv6,
/// the flow information in host order, the sixteen address octets, first
/// octet first, and the scope identifier in host order.
pub open spec fn holds_at(raw: Seq<u8>, off: int, a: SockAddr) -> bool {
    match a {
        SockAddr::V4 { ip, port } => {
            &&& 0 <= off && off + 16 <= raw.len()
            &&& raw[off] == 2 && raw[off + 1] == 0
            &&& raw[off + 2] == octet(port as nat, 1) && raw[off + 3] == octet(port as nat, 0)
            &&& forall|j: int|
                off + 4 <= j < off + 8 ==> #[trigger] raw[j] == octet(ip as nat, (off + 7 - j) as nat)
        },
        SockAddr::V6 { ip, port, flowinfo, scope_id } => {
            &&& 0 <= off && off + 28 <= raw.len()
            &&& raw[off] == 10 && raw[off + 1] == 0
            &&& raw[off + 2] == octet(port as nat, 1) && raw[off + 3] == octet(port as nat, 0)
            &&& forall|j: int|
                off + 4 <= j < off + 8 ==> #[trigger] raw[j] == octet(
                    flowinfo as nat,
                    (j - off - 4) as nat,
                )
            &&& forall|j: int|
                off + 8 <= j < off + 24 ==> #[trigger] raw[j] == octet(ip as nat, (off + 23 - j) as nat)
            &&& forall|j: int|
                off + 24 <= j < off + 28 ==> #[trigger] raw[j] == octet(
                    scope_id as nat,
                    (j - off - 24) as nat,
                )
        },
    }
}

/// The addresses `s` lie one after another in `raw` from `off` on, each
/// held by the bytes of its own raw form: 16 for IPv4, 28 for IPv6.
pub open spec fn list_holds_at(raw: Seq<u8>, off: int, s: Seq<SockAddr>) -> bool
    decreases s.len(),
{
    if s.len() == 0 {
        true
    } else {
        holds_at(raw, off, s[0]) && list_holds_at(
            raw,
            off + (if s[0] is V4 {
                16int
            } else {
                28int
            }),
            s.drop_first(),
        )
    }
}

proof fn lemma_family_bytes(sub: Seq<u8>, f: nat)
    requires
        sub.len() == 2,
        le_value(sub) == f,
        f < 256,
    ensures
        sub[0] == f,
        sub[1] == 0,
{
    lemma_le_value_octet(sub, 0);
    lemma_le_value_octet(sub, 1);
    reveal_with_fuel(pow256, 2);
}

proof fn lemma_small_octets(f: nat)
    requires
        f < 256,
    ensures
        octet(f, 0) == f,
        octet(f, 1) == 0,
{
    reveal_with_fuel(pow256, 2);
    assert(pow256(0) == 1 && pow256(1) == 256);
    assert(f / 1 == f);
    assert(f / 256 == 0);
}

/// An IPv4 address read at `off` is held by the bytes there.
proof fn lemma_v4_at_holds(raw: Seq<u8>, off: int)
    requires
        0 <= off,
        off + 16 <= raw.len(),
        family_at(raw, off) == 2,
    ensures
        holds_at(raw, off, v4_at(raw, off)),
{
    lemma_pow256_values();
    let fam = raw.subrange(off, off + 2);
    lemma_family_bytes(fam, 2);
    let ps = raw.subrange(off + 2, off + 4);
    let is = raw.subrange(off + 4, off + 8);
    lemma_be_value_bound(ps);
    lemma_be_value_bound(is);
    lemma_be_value_octet(ps, 0);
    lemma_be_value_octet(ps, 1);
    let a = v4_at(raw, off);
    if let SockAddr::V4 { ip, port } = a {
        assert(ip as nat == be_value(is));
        assert(port as nat == be_value(ps));
        assert forall|j: int| off + 4 <= j < off + 8 implies #[trigger] raw[j] == octet(
            ip as nat,
            (off + 7 - j) as nat,
        ) by {
            lemma_be_value_octet(is, (j - off - 4) as nat);
        }
    }
}

/// An IPv6 address read at `off` is held by the bytes there.
proof fn lemma_v6_at_holds(raw: Seq<u8>, off: int)
    requires
        0 <= off,
        off + 28 <= raw.len(),
        family_at(raw, off) == 10,
    ensures
        holds_at(raw, off, v6_at(raw, off)),
{
    lemma_pow256_values();
    let fam = raw.subrange(off, off + 2);
    lemma_family_bytes(fam, 10);
    let ps = raw.subrange(off + 2, off + 4);
    let fs = raw.subrange(off + 4, off + 8);
    let is = raw.subrange(off + 8, off + 24);
    let ss = raw.subrange(off + 24, off + 28);
    lemma_be_value_bound(ps);
    lemma_le_value_bound(fs);
    lemma_be_value_bound(is);
    lemma_le_value_bound(ss);
    lemma_be_value_octet(ps, 0);
    lemma_be_value_octet(ps, 1);
    let a = v6_at(raw, off);
    if let SockAddr::V6 { ip, port, flowinfo, scope_id } = a {
        assert(ip as nat == be_value(is));
        assert(port as nat == be_value(ps));
        assert(flowinfo as nat == le_value(fs));
        assert(scope_id as nat == le_value(ss));
        assert forall|j: int| off + 4 <= j < off + 8 implies #[trigger] raw[j] == octet(
            flowinfo as nat,
            (j - off - 4) as nat,
        ) by {
            lemma_le_value_octet(fs, (j - off - 4) as nat);
        }
        assert forall|j: int| off + 8 <= j < off + 24 implies #[trigger] raw[j] == octet(
            ip as nat,
            (off + 23 - j) as nat,
        ) by {
            lemma_be_value_octet(is, (j - off - 8) as nat);
        }
        assert forall|j: int| off + 24 <= j < off + 28 implies #[trigger] raw[j] == octet(
            scope_id as nat,
            (j - off - 24) as nat,
        ) by {
            lemma_le_value_octet(ss, (j - off - 24) as nat);
        }
    }
}

/// The raw form of every address holds it: family, port, address octets
/// in network order, flow information and scope in host order; an IPv4
/// form is 16 bytes with zeros after the address, an IPv6 form 28 bytes.
pub proof fn lemma_raw_of_holds(a: SockAddr)
    ensures
        holds_at(raw_of(a), 0, a),
        raw_of(a).len() == (if a is V4 {
            16int
        } else {
            28int
        }),
        a is V4 ==> forall|j: int| 8 <= j < 16 ==> #[trigger] raw_of(a)[j] == 0,
{
    let r = raw_of(a);
    match a {
        SockAddr::V4 { ip, port } => {
            lemma_le_bytes_len(2, 2);
            lemma_be_bytes_len(port as nat, 2);
            lemma_be_bytes_len(ip as nat, 4);
            lemma_small_octets(2);
            lemma_le_bytes_index(2, 2, 0);
            lemma_le_bytes_index(2, 2, 1);
            lemma_be_bytes_index(port as nat, 2, 0);
            lemma_be_bytes_index(port as nat, 2, 1);
            assert(r[2] == be_bytes(port as nat, 2)[0]);
            assert(r[3] == be_bytes(port as nat, 2)[1]);
            assert forall|j: int| 0 + 4 <= j < 0 + 8 implies #[trigger] r[j] == octet(
                ip as nat,
                (0 + 7 - j) as nat,
            ) by {
                assert(r[j] == be_bytes(ip as nat, 4)[j - 4]);
                lemma_be_bytes_index(ip as nat, 4, (j - 4) as nat);
            }
        },
        SockAddr::V6 { ip, port, flowinfo, scope_id } => {
            lemma_le_bytes_len(10, 2);
            lemma_be_bytes_len(port as nat, 2);
            lemma_le_bytes_len(flowinfo as nat, 4);
            lemma_be_bytes_len(ip as nat, 16);
            lemma_le_bytes_len(scope_id as nat, 4);
            lemma_small_octets(10);
            lemma_le_bytes_index(10, 2, 0);
            lemma_le_bytes_index(10, 2, 1);
            lemma_be_bytes_index(port as nat, 2, 0);
            lemma_be_bytes_index(port as nat, 2, 1);
            assert(r[2] == be_bytes(port as nat, 2)[0]);
            assert(r[3] == be_bytes(port as nat, 2)[1]);
            assert forall|j: int| 0 + 4 <= j < 0 + 8 implies #[trigger] r[j] == octet(
                flowinfo as nat,
                (j - 0 - 4) as nat,
            ) by {
                assert(r[j] == le_bytes(flowinfo as nat, 4)[j - 4]);
                lemma_le_bytes_index(flowinfo as nat, 4, (j - 4) as nat);
            }
            assert forall|j: int| 0 + 8 <= j < 0 + 24 implies #[trigger] r[j] == octet(
                ip as nat,
                (0 + 23 - j) as nat,
            ) by {
                assert(r[j] == be_bytes(ip as nat, 16)[j - 8]);
                lemma_be_bytes_index(ip as nat, 16, (j - 8) as nat);
            }
            assert forall|j: int| 0 + 24 <= j < 0 + 28 implies #[trigger] r[j] == octet(
                scope_id as nat,
                (j - 0 - 24) as nat,
            ) by {
                assert(r[j] == le_bytes(scope_id as nat, 4)[j - 24]);
                lemma_le_bytes_index(scope_id as nat, 4, (j - 24) as nat);
            }
        },
    }
}

/// Reading a raw socket address: one shorter than a `sockaddr` is refused;
/// an IPv4 family (bytes 2, 0) gives an IPv4 address, an IPv6 family
/// (bytes 10, 0) with 28 bytes an IPv6 address; and every address read is
/// held by the bytes it was read from.
pub proof fn lemma_address_of_raw_holds(raw: Seq<u8>, len: nat)
    requires
        len <= raw.len() || 28 <= raw.len(),
    ensures
        address_of_raw(raw, len) matches Ok(a) ==> holds_at(raw, 0, a),
        len < 16 ==> address_of_raw(raw, len) == Err::<SockAddr, SctpError>(
            SctpError::InvalidAddressLength,
        ),
        len >= 16 && raw[0] == 2 && raw[1] == 0 ==> (address_of_raw(raw, len) matches Ok(a)
            && a is V4),
        len >= 28 && raw[0] == 10 && raw[1] == 0 ==> (address_of_raw(raw, len) matches Ok(a)
            && a is V6),
{
    if len >= 16 {
        let fam = raw.subrange(0, 2);
        reveal_with_fuel(le_value, 3);
        assert(fam.drop_first().drop_first().len() == 0);
        assert(le_value(fam) == raw[0] as nat + 256 * (raw[1] as nat));
        if family_at(raw, 0) == 2 {
            lemma_v4_at_holds(raw, 0);
        } else if family_at(raw, 0) == 10 && len >= 28 {
            lemma_v6_at_holds(raw, 0);
        }
    }
}

proof fn lemma_unpack_from_holds(raw: Seq<u8>, off: nat, count: nat)
    ensures
        unpack_from(raw, off, count) matches Unpacked::Done(Ok(s)) ==> s.len() == count
            && list_holds_at(raw, off as int, s),
    decreases count,
{
    if count > 0 && raw.len() >= off + 2 {
        let fam = family_at(raw, off as int);
        if fam == 2 && raw.len() >= off + 16 {
            lemma_unpack_from_holds(raw, off + 16, (count - 1) as nat);
            lemma_v4_at_holds(raw, off as int);
            if let Unpacked::Done(Ok(t)) = unpack_from(raw, off + 16, (count - 1) as nat) {
                let s = seq![v4_at(raw, off as int)] + t;
                assert(s.drop_first() =~= t);
                assert(s[0] == v4_at(raw, off as int));
            }
        } else if fam == 10 && raw.len() >= off + 28 {
            lemma_unpack_from_holds(raw, off + 28, (count - 1) as nat);
            lemma_v6_at_holds(raw, off as int);
            if let Unpacked::Done(Ok(t)) = unpack_from(raw, off + 28, (count - 1) as nat) {
                let s = seq![v6_at(raw, off as int)] + t;
                assert(s.drop_first() =~= t);
                assert(s[0] == v6_at(raw, off as int));
            }
        }
    }
}

/// A list that reading gives has as many addresses as the count said, and
/// they lie one after another from the start of the bytes, each held by
/// the bytes of its own raw form.
pub proof fn lemma_unpack_holds(count: i32, raw: Seq<u8>)
    ensures
        unpack(count, raw) matches Unpacked::Done(Ok(s)) ==> s.len() == count && list_holds_at(
            raw,
            0,
            s,
        ),
{
    if count > 0 {
        lemma_unpack_from_holds(raw, 0, count as nat);
    }
}

proof fn lemma_holds_at_shift(r: Seq<u8>, buf: Seq<u8>, o: int, a: SockAddr)
    requires
        holds_at(r, 0, a),
        0 <= o,
        o + r.len() <= buf.len(),
        buf.subrange(o, o + r.len()) == r,
    ensures
        holds_at(buf, o, a),
{
    assert forall|j: int| 0 <= j < r.len() implies buf[o + j] == r[j] by {
        assert(buf.subrange(o, o + r.len())[j] == buf[o + j]);
    }
    match a {
        SockAddr::V4 { ip, port } => {
            assert(buf[o] == r[0] && buf[o + 1] == r[1] && buf[o + 2] == r[2] && buf[o + 3] == r[3]);
            assert forall|j: int| o + 4 <= j < o + 8 implies #[trigger] buf[j] == octet(
                ip as nat,
                (o + 7 - j) as nat,
            ) by {
                assert(buf[o + (j - o)] == r[j - o]);
            }
        },
        SockAddr::V6 { ip, port, flowinfo, scope_id } => {
            assert(buf[o] == r[0] && buf[o + 1] == r[1] && buf[o + 2] == r[2] && buf[o + 3] == r[3]);
            assert forall|j: int| o + 4 <= j < o + 8 implies #[trigger] buf[j] == octet(
                flowinfo as nat,
                (j - o - 4) as nat,
            ) by {
                assert(buf[o + (j - o)] == r[j - o]);
            }
            assert forall|j: int| o + 8 <= j < o + 24 implies #[trigger] buf[j] == octet(
                ip as nat,
                (o + 23 - j) as nat,
            ) by {
                assert(buf[o + (j - o)] == r[j - o]);
            }
            assert forall|j: int| o + 24 <= j < o + 28 implies #[trigger] buf[j] == octet(
                scope_id as nat,
                (j - o - 24) as nat,
            ) by {
                assert(buf[o + (j - o)] == r[j - o]);
            }
        },
    }
}

proof fn lemma_packed_holds_from(pre: Seq<u8>, s: Seq<SockAddr>, tail: Seq<u8>)
    ensures
        list_holds_at(pre + packed(s) + tail, pre.len() as int, s),
    decreases s.len(),
{
    if s.len() > 0 {
        let a = s[0];
        let rest = packed(s.drop_first()) + tail;
        let buf = pre + packed(s) + tail;
        lemma_packed_front(s);
        assert(buf =~= pre + raw_of(a) + rest);
        lemma_raw_of_holds(a);
        let n = raw_of(a).len();
        assert(buf.subrange(pre.len() as int, pre.len() + n as int) =~= raw_of(a));
        lemma_holds_at_shift(raw_of(a), buf, pre.len() as int, a);
        let pre2 = pre + raw_of(a);
        assert(buf =~= pre2 + packed(s.drop_first()) + tail);
        lemma_packed_holds_from(pre2, s.drop_first(), tail);
    }
}

/// Packing lays the addresses one after another, each in the bytes of its
/// own raw form.
pub proof fn lemma_packed_holds(s: Seq<SockAddr>)
    ensures
        list_holds_at(packed(s), 0, s),
{
    lemma_packed_holds_from(Seq::empty(), s, Seq::empty());
    assert(Seq::<u8>::empty() + packed(s) + Seq::<u8>::empty() =~= packed(s));
}

} // verus!
