//! Fixed-width integers laid out as bytes, most significant byte first
//! (network order) or least significant byte first (the host order of the
//! little-endian Linux targets whose `sockaddr` layout this crate writes).
use vstd::prelude::*;

verus! {

broadcast use vstd::slice::axiom_spec_len;

/// `256` raised to the power `n`: one more than the largest value that fits in `n` bytes.
pub open spec fn pow256(n: nat) -> nat
    decreases n,
{
    if n == 0 {
        1
    } else {
        256 * pow256((n - 1) as nat)
    }
}

/// The `n` low bytes of `v`, most significant first.
pub open spec fn be_bytes(v: nat, n: nat) -> Seq<u8>
    decreases n,
{
    if n == 0 {
        Seq::empty()
    } else {
        be_bytes(v / 256, (n - 1) as nat).push((v % 256) as u8)
    }
}

/// The `n` low bytes of `v`, least significant first.
pub open spec fn le_bytes(v: nat, n: nat) -> Seq<u8>
    decreases n,
{
    if n == 0 {
        Seq::empty()
    } else {
        seq![(v % 256) as u8] + le_bytes(v / 256, (n - 1) as nat)
    }
}

/// The number that the bytes `s` spell, most significant first.
pub open spec fn be_value(s: Seq<u8>) -> nat
    decreases s.len(),
{
    if s.len() == 0 {
        0
    } else {
        be_value(s.drop_last()) * 256 + s.last() as nat
    }
}

/// The number that the bytes `s` spell, least significant first.
pub open spec fn le_value(s: Seq<u8>) -> nat
    decreases s.len(),
{
    if s.len() == 0 {
        0
    } else {
        s[0] as nat + 256 * le_value(s.drop_first())
    }
}

/// The bounds of two, four and sixteen bytes.
pub proof fn lemma_pow256_values()
    ensures
        pow256(2) == 0x1_0000,
        pow256(4) == 0x1_0000_0000,
        pow256(16) == 0x1_0000_0000_0000_0000_0000_0000_0000_0000,
{
    reveal_with_fuel(pow256, 17);
}

/// `be_bytes` writes exactly `n` bytes.
pub proof fn lemma_be_bytes_len(v: nat, n: nat)
    ensures
        be_bytes(v, n).len() == n,
    decreases n,
{
    if n > 0 {
        lemma_be_bytes_len(v / 256, (n - 1) as nat);
    }
}

/// `le_bytes` writes exactly `n` bytes.
pub proof fn lemma_le_bytes_len(v: nat, n: nat)
    ensures
        le_bytes(v, n).len() == n,
    decreases n,
{
    if n > 0 {
        lemma_le_bytes_len(v / 256, (n - 1) as nat);
    }
}

/// Reading back what `be_bytes` wrote gives the number, when it fits.
pub proof fn lemma_be_roundtrip(v: nat, n: nat)
    requires
        v < pow256(n),
    ensures
        be_value(be_bytes(v, n)) == v,
    decreases n,
{
    if n > 0 {
        let p = pow256((n - 1) as nat);
        assert(v / 256 < p) by (nonlinear_arith)
            requires
                v < 256 * p,
        ;
        lemma_be_roundtrip(v / 256, (n - 1) as nat);
        assert(be_bytes(v, n).drop_last() =~= be_bytes(v / 256, (n - 1) as nat));
    }
}

/// Reading back what `le_bytes` wrote gives the number, when it fits.
pub proof fn lemma_le_roundtrip(v: nat, n: nat)
    requires
        v < pow256(n),
    ensures
        le_value(le_bytes(v, n)) == v,
    decreases n,
{
    if n > 0 {
        let p = pow256((n - 1) as nat);
        assert(v / 256 < p) by (nonlinear_arith)
            requires
                v < 256 * p,
        ;
        lemma_le_roundtrip(v / 256, (n - 1) as nat);
        assert(le_bytes(v, n).drop_first() =~= le_bytes(v / 256, (n - 1) as nat));
    }
}

/// What `n` bytes spell is less than `256` to the power `n`.
pub proof fn lemma_be_value_bound(s: Seq<u8>)
    ensures
        be_value(s) < pow256(s.len()),
    decreases s.len(),
{
    if s.len() > 0 {
        lemma_be_value_bound(s.drop_last());
        let p = pow256((s.len() - 1) as nat);
        let w = be_value(s.drop_last());
        let b = s.last();
        assert(w * 256 + b < 256 * p) by (nonlinear_arith)
            requires
                w < p,
                b < 256,
        ;
    }
}

/// What `n` bytes spell is less than `256` to the power `n`.
pub proof fn lemma_le_value_bound(s: Seq<u8>)
    ensures
        le_value(s) < pow256(s.len()),
    decreases s.len(),
{
    if s.len() > 0 {
        lemma_le_value_bound(s.drop_first());
        let p = pow256((s.len() - 1) as nat);
        let w = le_value(s.drop_first());
        let b = s[0];
        assert(b + 256 * w < 256 * p) by (nonlinear_arith)
            requires
                w < p,
                b < 256,
        ;
    }
}

/// Appends the `n` low bytes of `v` to `out`, most significant first.
pub fn push_be(out: &mut Vec<u8>, v: u128, n: usize)
    requires
        n <= 16,
    ensures
        final(out)@ == old(out)@ + be_bytes(v as nat, n as nat),
    decreases n,
{
    if n > 0 {
        push_be(out, v / 256, n - 1);
        out.push((v % 256) as u8);
        assert(final(out)@ =~= old(out)@ + be_bytes(v as nat, n as nat));
    }
}

/// Appends the `n` low bytes of `v` to `out`, least significant first.
pub fn push_le(out: &mut Vec<u8>, v: u128, n: usize)
    requires
        n <= 16,
    ensures
        final(out)@ == old(out)@ + le_bytes(v as nat, n as nat),
    decreases n,
{
    if n > 0 {
        out.push((v % 256) as u8);
        push_le(out, v / 256, n - 1);
        assert(final(out)@ =~= old(out)@ + le_bytes(v as nat, n as nat));
    }
}

/// The number spelled by `raw[off .. off + n]`, most significant byte first.
pub fn read_be(raw: &[u8], off: usize, n: usize) -> (r: u128)
    requires
        n <= 16,
        off + n <= raw.len(),
    ensures
        r == be_value(raw@.subrange(off as int, off + n)),
    decreases n,
{
    if n == 0 {
        0
    } else {
        let high = read_be(raw, off, n - 1);
        let ghost s = raw@.subrange(off as int, off + n);
        assert(s.drop_last() =~= raw@.subrange(off as int, off + n - 1));
        proof {
            lemma_be_value_bound(raw@.subrange(off as int, off + n - 1));
            lemma_pow256_values();
            lemma_pow256_monotone((n - 1) as nat, 15);
        }
        high * 256 + raw[off + n - 1] as u128
    }
}

/// The number spelled by `raw[off .. off + n]`, least significant byte first.
pub fn read_le(raw: &[u8], off: usize, n: usize) -> (r: u128)
    requires
        n <= 16,
        off + n <= raw.len(),
    ensures
        r == le_value(raw@.subrange(off as int, off + n)),
    decreases n,
{
    if n == 0 {
        0
    } else {
        let high = read_le(raw, off + 1, n - 1);
        let ghost s = raw@.subrange(off as int, off + n);
        assert(s.drop_first() =~= raw@.subrange(off + 1, off + n));
        proof {
            lemma_le_value_bound(raw@.subrange(off + 1, off + n));
            lemma_pow256_values();
            lemma_pow256_monotone((n - 1) as nat, 15);
        }
        raw[off] as u128 + 256 * high
    }
}

/// More bytes hold larger numbers.
pub proof fn lemma_pow256_monotone(a: nat, b: nat)
    requires
        a <= b,
    ensures
        pow256(a) <= pow256(b),
    decreases b,
{
    if a < b {
        lemma_pow256_monotone(a, (b - 1) as nat);
    }
}


/// Octet `k` of `v`, counting from the least significant one.
pub open spec fn octet(v: nat, k: nat) -> nat {
    (v / pow256(k)) % 256
}

/// `256` to any power is positive.
pub proof fn lemma_pow256_positive(n: nat)
    ensures
        pow256(n) > 0,
    decreases n,
{
    if n > 0 {
        lemma_pow256_positive((n - 1) as nat);
    }
}

/// Octet `k` of `v / 256` is octet `k + 1` of `v`.
pub proof fn lemma_octet_shift(v: nat, k: nat)
    ensures
        octet(v / 256, k) == octet(v, k + 1),
{
    lemma_pow256_positive(k);
    vstd::arithmetic::div_mod::lemma_div_denominator(v as int, 256, pow256(k) as int);
    assert(pow256(k + 1) == 256 * pow256(k));
}

/// Byte `k` of `le_bytes(v, n)` is octet `k` of `v`: the least significant first.
pub proof fn lemma_le_bytes_index(v: nat, n: nat, k: nat)
    requires
        k < n,
    ensures
        le_bytes(v, n)[k as int] == octet(v, k),
    decreases n,
{
    lemma_le_bytes_len(v / 256, (n - 1) as nat);
    if k > 0 {
        lemma_le_bytes_index(v / 256, (n - 1) as nat, (k - 1) as nat);
        lemma_octet_shift(v, (k - 1) as nat);
    } else {
        assert(pow256(0) == 1);
        assert(v / 1 == v);
        assert(le_bytes(v, n)[0] == (v % 256) as u8);
    }
}

/// Byte `k` of `be_bytes(v, n)` is octet `n - 1 - k` of `v`: the most significant first.
pub proof fn lemma_be_bytes_index(v: nat, n: nat, k: nat)
    requires
        k < n,
    ensures
        be_bytes(v, n)[k as int] == octet(v, (n - 1 - k) as nat),
    decreases n,
{
    lemma_be_bytes_len(v / 256, (n - 1) as nat);
    if k < n - 1 {
        lemma_be_bytes_index(v / 256, (n - 1) as nat, k);
        lemma_octet_shift(v, (n - 2 - k) as nat);
    } else {
        assert(pow256(0) == 1);
        assert(v / 1 == v);
        assert(be_bytes(v, n)[k as int] == (v % 256) as u8);
    }
}

/// Writing out the number that bytes spell, most significant first, gives the bytes back.
pub proof fn lemma_be_bytes_of_value(s: Seq<u8>)
    ensures
        be_bytes(be_value(s), s.len()) == s,
    decreases s.len(),
{
    if s.len() > 0 {
        let w = be_value(s.drop_last());
        let b = s.last() as nat;
        let v = w * 256 + b;
        vstd::arithmetic::div_mod::lemma_fundamental_div_mod_converse(v as int, 256, w as int, b as int);
        lemma_be_bytes_of_value(s.drop_last());
        assert(be_bytes(v, s.len()) =~= s);
    } else {
        assert(be_bytes(be_value(s), s.len()) =~= s);
    }
}

/// Writing out the number that bytes spell, least significant first, gives the bytes back.
pub proof fn lemma_le_bytes_of_value(s: Seq<u8>)
    ensures
        le_bytes(le_value(s), s.len()) == s,
    decreases s.len(),
{
    if s.len() > 0 {
        let w = le_value(s.drop_first());
        let b = s[0] as nat;
        let v = b + 256 * w;
        vstd::arithmetic::div_mod::lemma_fundamental_div_mod_converse(v as int, 256, w as int, b as int);
        lemma_le_bytes_of_value(s.drop_first());
        assert(le_bytes(v, s.len()) =~= s);
    } else {
        assert(le_bytes(le_value(s), s.len()) =~= s);
    }
}

/// Byte `k` of `s` is octet `s.len() - 1 - k` of the number that `s` spells, most significant first.
pub proof fn lemma_be_value_octet(s: Seq<u8>, k: nat)
    requires
        k < s.len(),
    ensures
        octet(be_value(s), (s.len() - 1 - k) as nat) == s[k as int],
{
    lemma_be_bytes_of_value(s);
    lemma_be_bytes_index(be_value(s), s.len(), k);
}

/// Byte `k` of `s` is octet `k` of the number that `s` spells, least significant first.
pub proof fn lemma_le_value_octet(s: Seq<u8>, k: nat)
    requires
        k < s.len(),
    ensures
        octet(le_value(s), k) == s[k as int],
{
    lemma_le_bytes_of_value(s);
    lemma_le_bytes_index(le_value(s), s.len(), k);
}

} // verus!
