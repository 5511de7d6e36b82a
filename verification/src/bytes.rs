//! Little-endian conversions between integers and bytes.

use vstd::prelude::*;

verus! {

/// The `n` little-endian bytes of `v` (the bits of `v` beyond `n` bytes are dropped).
pub open spec fn le_bytes(v: nat, n: nat) -> Seq<u8>
    decreases n,
{
    if n == 0 {
        Seq::empty()
    } else {
        seq![(v % 256) as u8] + le_bytes(v / 256, (n - 1) as nat)
    }
}

/// The number whose little-endian encoding is `s`.
pub open spec fn le_value(s: Seq<u8>) -> nat
    decreases s.len(),
{
    if s.len() == 0 {
        0
    } else {
        s[0] as nat + 256 * le_value(s.drop_first())
    }
}

/// `256` to the power `n`.
pub open spec fn pow256(n: nat) -> nat
    decreases n,
{
    if n == 0 {
        1
    } else {
        256 * pow256((n - 1) as nat)
    }
}

pub proof fn lemma_le_bytes_len(v: nat, n: nat)
    ensures
        le_bytes(v, n).len() == n,
    decreases n,
{
    if n > 0 {
        lemma_le_bytes_len(v / 256, (n - 1) as nat);
    }
}

/// Decoding the `n` little-endian bytes of `v` gives back `v` modulo `256^n`.
pub proof fn lemma_le_value_of_bytes(v: nat, n: nat)
    ensures
        le_value(le_bytes(v, n)) == v % pow256(n),
    decreases n,
{
    if n > 0 {
        let rest = le_bytes(v / 256, (n - 1) as nat);
        lemma_le_value_of_bytes(v / 256, (n - 1) as nat);
        assert(le_bytes(v, n).drop_first() =~= rest);
        lemma_pow256_pos((n - 1) as nat);
        let p = pow256((n - 1) as nat);
        assert(v % (256 * p) == v % 256 + 256 * ((v / 256) % p)) by {
            vstd::arithmetic::div_mod::lemma_mod_breakdown(v as int, 256, p as int);
        }
    }
}

pub proof fn lemma_pow256_pos(n: nat)
    ensures
        pow256(n) >= 1,
    decreases n,
{
    if n > 0 {
        lemma_pow256_pos((n - 1) as nat);
    }
}

/// A value decoded from `s` is below `256^len`.
pub proof fn lemma_le_value_bound(s: Seq<u8>)
    ensures
        le_value(s) < pow256(s.len()),
    decreases s.len(),
{
    if s.len() > 0 {
        lemma_le_value_bound(s.drop_first());
        let p = pow256((s.len() - 1) as nat);
        assert(le_value(s.drop_first()) + 1 <= p);
        assert(256 * le_value(s.drop_first()) + 256 <= 256 * p) by (nonlinear_arith)
            requires
                le_value(s.drop_first()) + 1 <= p,
        ;
    }
}

pub proof fn lemma_pow256_8()
    ensures
        pow256(8) == 0x1_0000_0000_0000_0000,
        pow256(4) == 0x1_0000_0000,
{
    reveal_with_fuel(pow256, 9);
}

/// Encoding the value of a byte string as that many bytes gives the string back.
pub proof fn lemma_le_bytes_of_value(s: Seq<u8>)
    ensures
        le_bytes(le_value(s), s.len()) == s,
    decreases s.len(),
{
    if s.len() > 0 {
        lemma_le_bytes_of_value(s.drop_first());
        let v = le_value(s);
        let r = le_value(s.drop_first());
        assert(v % 256 == s[0] as nat && v / 256 == r) by {
            vstd::arithmetic::div_mod::lemma_fundamental_div_mod_converse(
                v as int, 256, r as int, s[0] as int);
        }
        assert(le_bytes(v, s.len()) =~= seq![s[0]] + le_bytes(r, s.drop_first().len()));
        assert(seq![s[0]] + s.drop_first() =~= s);
    }
}


pub proof fn lemma_pow256_mono(a: nat, b: nat)
    requires
        a <= b,
    ensures
        pow256(a) <= pow256(b),
    decreases b,
{
    if a < b {
        lemma_pow256_mono(a, (b - 1) as nat);
        lemma_pow256_pos((b - 1) as nat);
    }
}

/// The byte at position `j` of the encoding of `v`.
pub proof fn lemma_le_bytes_index(v: nat, n: nat, j: nat)
    requires
        j < n,
    ensures
        le_bytes(v, n)[j as int] == ((v / pow256(j)) % 256) as u8,
    decreases n,
{
    lemma_le_bytes_len(v / 256, (n - 1) as nat);
    let rest = le_bytes(v / 256, (n - 1) as nat);
    assert(le_bytes(v, n) == seq![(v % 256) as u8] + rest);
    if j > 0 {
        lemma_le_bytes_index(v / 256, (n - 1) as nat, (j - 1) as nat);
        lemma_pow256_pos((j - 1) as nat);
        vstd::arithmetic::div_mod::lemma_div_denominator(v as int, 256, pow256((j - 1) as nat) as int);
        assert(pow256(j) == 256 * pow256((j - 1) as nat));
        assert(le_bytes(v, n)[j as int] == rest[j - 1]);
    } else {
        assert(pow256(0) == 1);
        assert(v / 1 == v);
    }
}

/// Decoding a concatenation: the second part counts `256^len` times its value.
pub proof fn lemma_le_value_append(a: Seq<u8>, b: Seq<u8>)
    ensures
        le_value(a + b) == le_value(a) + pow256(a.len()) * le_value(b),
    decreases a.len(),
{
    if a.len() == 0 {
        assert(a + b =~= b);
        assert(pow256(0) == 1);
    } else {
        lemma_le_value_append(a.drop_first(), b);
        assert((a + b).drop_first() =~= a.drop_first() + b);
        assert((a + b)[0] == a[0]);
        assert(pow256(a.len()) == 256 * pow256((a.len() - 1) as nat));
        let p = pow256((a.len() - 1) as nat);
        let x = le_value(a.drop_first());
        let y = le_value(b);
        assert(256 * (x + p * y) == 256 * x + (256 * p) * y) by (nonlinear_arith);
    }
}

} // verus!
