//! Bit lists and bit vectors as bytes: bit `i` is bit `i % 8` of byte
//! `i / 8`, and a bit list ends with a marker bit just past its last bit.

use vstd::prelude::*;
use vstd::std_specs::bits::u8_leading_zeros;

verus! {

/// Bit `i` of a byte string.
pub open spec fn bit_at(bytes: Seq<u8>, i: int) -> bool {
    (bytes[i / 8] >> ((i % 8) as u8)) & 1u8 == 1u8
}

/// The bytes hold the bits `bits`, then the marker bit for a list, then zeros.
pub open spec fn encodes(bytes: Seq<u8>, bits: Seq<bool>, is_list: bool) -> bool {
    &&& bytes.len() == (bits.len() + if is_list { 8int } else { 7int }) / 8
    &&& forall|i: int| 0 <= i < bits.len() ==> #[trigger] bit_at(bytes, i) == bits[i]
    &&& forall|i: int| bits.len() <= i < 8 * bytes.len() ==> #[trigger] bit_at(bytes, i) == (is_list && i == bits.len())
}

/// The number of bits a byte string decodes to: all but those above the
/// highest set bit of the last byte, and that bit itself for a list.
pub open spec fn decoded_len(bytes: Seq<u8>, is_list: bool) -> int {
    (bytes.len() - 1) * 8 + (if is_list { 7int } else { 8int }) - u8_leading_zeros(bytes.last()) as int
}

/// Setting bit `s` of a byte to `x` leaves the other bits as they were.
proof fn lemma_set_bit(b: u8, x: u8, s: u8, t: u8)
    requires
        x <= 1,
        s < 8,
        t < 8,
    ensures
        ((((b | (x << s)) >> t) & 1u8) == 1u8) == if t == s { ((b >> t) & 1u8) == 1u8 || x == 1u8 } else {
            ((b >> t) & 1u8) == 1u8
        },
{
    assert(x <= 1 && s < 8 && t < 8 ==> ((((b | (x << s)) >> t) & 1u8) == 1u8) == if t == s {
        ((b >> t) & 1u8) == 1u8 || x == 1u8
    } else {
        ((b >> t) & 1u8) == 1u8
    }) by (bit_vector);
}

/// A bit is zero or one.
proof fn lemma_bit_values(b: u8, t: u8)
    ensures
        ((b >> t) & 1u8) == 0u8 || ((b >> t) & 1u8) == 1u8,
{
    assert(((b >> t) & 1u8) == 0u8 || ((b >> t) & 1u8) == 1u8) by (bit_vector);
}

/// A zero byte has no bit set.
proof fn lemma_zero_bits(t: u8)
    requires
        t < 8,
    ensures
        (0u8 >> t) & 1u8 == 0u8,
{
    assert(t < 8 ==> (0u8 >> t) & 1u8 == 0u8) by (bit_vector);
}

/// Encode bits as bytes, with the marker bit for a list.
pub fn serialize_bitseq(value: &[bool], is_list: bool) -> (r: Vec<u8>)
    requires
        value@.len() + 8 <= usize::MAX,
    ensures
        encodes(r@, value@, is_list),
{
    let n = value.len();
    let len = (n + if is_list { 8 } else { 7 }) / 8;
    let mut bytes: Vec<u8> = Vec::new();
    let mut k: usize = 0;
    while k < len
        invariant
            k <= len,
            bytes@.len() == k,
            forall|j: int| 0 <= j < k ==> bytes@[j] == 0u8,
        decreases len - k,
    {
        bytes.push(0u8);
        k = k + 1;
    }
    proof {
        assert forall|i: int| 0 <= i < 8 * len implies #[trigger] bit_at(bytes@, i) == false by {
            lemma_zero_bits((i % 8) as u8);
        }
    }
    let mut i: usize = 0;
    while i < n
        invariant
            n == value@.len(),
            len == (n + if is_list { 8int } else { 7int }) / 8,
            i <= n,
            bytes@.len() == len,
            forall|j: int| 0 <= j < 8 * len ==> #[trigger] bit_at(bytes@, j) == (j < i && value@[j]),
        decreases n - i,
    {
        let x: u8 = if value[i] { 1 } else { 0 };
        let s: u8 = (i % 8) as u8;
        let old_byte = bytes[i / 8];
        let ghost before = bytes@;
        bytes.set(i / 8, old_byte | (x << s));
        proof {
            assert forall|j: int| 0 <= j < 8 * len implies #[trigger] bit_at(bytes@, j) == (j < i + 1 && value@[j]) by {
                let t = (j % 8) as u8;
                lemma_set_bit(old_byte, x, s, t);
                if j / 8 == (i / 8) as int {
                    assert(bytes@[j / 8] == old_byte | (x << s));
                    assert(old_byte == before[j / 8]);
                    assert(j == 8 * (j / 8) + j % 8);
                    assert(i == 8 * (i / 8) + i % 8);
                    assert((t == s) == (j == i));
                    assert(bit_at(before, j) == (j < i && value@[j]));
                } else {
                    assert(bytes@[j / 8] == before[j / 8]);
                    assert(bit_at(before, j) == bit_at(bytes@, j));
                }
            }
        }
        i = i + 1;
    }
    if is_list {
        let old_byte = bytes[n / 8];
        let s: u8 = (n % 8) as u8;
        let ghost before = bytes@;
        bytes.set(n / 8, old_byte | (1u8 << s));
        proof {
            assert forall|j: int| 0 <= j < 8 * len implies #[trigger] bit_at(bytes@, j)
                == ((j < n && value@[j]) || j == n) by {
                let t = (j % 8) as u8;
                lemma_set_bit(old_byte, 1u8, s, t);
                if j / 8 == (n / 8) as int {
                    assert(bytes@[j / 8] == old_byte | (1u8 << s));
                    assert(old_byte == before[j / 8]);
                    assert(j == 8 * (j / 8) + j % 8);
                    assert(n == 8 * (n / 8) + n % 8);
                    assert((t == s) == (j == n));
                    assert(bit_at(before, j) == (j < n && value@[j]));
                } else {
                    assert(bytes@[j / 8] == before[j / 8]);
                    assert(bit_at(before, j) == bit_at(bytes@, j));
                }
            }
        }
    }
    bytes
}

/// Decode bytes to bits: all bits up to the highest set bit of the last
/// byte, without that bit for a list.
pub fn deserialize_bitseq(bytes: &[u8], is_list: bool) -> (r: Vec<bool>)
    requires
        bytes@.len() >= 1,
        bytes@.len() * 8 <= usize::MAX,
        is_list ==> bytes@.last() != 0u8,
    ensures
        r@.len() == decoded_len(bytes@, is_list),
        forall|i: int| 0 <= i < r@.len() ==> #[trigger] r@[i] == bit_at(bytes@, i),
{
    let last = bytes[bytes.len() - 1];
    let lz = last.leading_zeros() as usize;
    proof {
        vstd::std_specs::bits::axiom_u8_leading_zeros(last);
    }
    let len = (bytes.len() - 1) * 8 + (if is_list { 7 } else { 8 }) - lz;
    let mut ret: Vec<bool> = Vec::new();
    let mut i: usize = 0;
    while i < len
        invariant
            len == decoded_len(bytes@, is_list),
            len <= 8 * bytes@.len(),
            i <= len,
            ret@.len() == i,
            forall|j: int| 0 <= j < i ==> #[trigger] ret@[j] == bit_at(bytes@, j),
        decreases len - i,
    {
        let s: u8 = (i % 8) as u8;
        let byte = bytes[i / 8];
        let bit = (byte >> s) & 1u8 == 1u8;
        proof {
            assert((byte & (1u8 << s) != 0u8) == ((byte >> s) & 1u8 == 1u8)) by (bit_vector)
                requires
                    s < 8,
            ;
        }
        ret.push(bit);
        i = i + 1;
    }
    ret
}

/// Decode a bit vector of `len` bits: the decoded bits padded with zeros,
/// or `None` when there are more than `len` of them.
pub fn deserialize_bitvector(bytes: &[u8], len: usize) -> (r: Option<Vec<bool>>)
    requires
        bytes@.len() >= 1,
        bytes@.len() * 8 <= usize::MAX,
    ensures
        match r {
            Some(v) => decoded_len(bytes@, false) <= len && v@.len() == len
                && forall|i: int| 0 <= i < len ==> #[trigger] v@[i] == (i < decoded_len(bytes@, false) && bit_at(bytes@, i)),
            None => decoded_len(bytes@, false) > len,
        },
{
    let mut seq = deserialize_bitseq(bytes, false);
    let ghost d = seq@.len();
    while seq.len() < len
        invariant
            d == decoded_len(bytes@, false),
            d <= seq@.len(),
            seq@.len() <= if d <= len { len as int } else { d as int },
            forall|i: int| 0 <= i < seq@.len() ==> #[trigger] seq@[i] == (i < d && bit_at(bytes@, i)),
        decreases len - seq@.len(),
    {
        seq.push(false);
    }
    if seq.len() == len {
        Some(seq)
    } else {
        None
    }
}

/// The highest set bit of a nonzero byte is the one the leading zeros point at.
proof fn lemma_highest_bit(b: u8, h: u8)
    requires
        h < 8,
        (b >> h) & 1u8 == 1u8,
        forall|t: u8| h < t < 8 ==> #[trigger] ((b >> t) & 1u8) == 0u8,
    ensures
        u8_leading_zeros(b) == 7 - h,
{
    vstd::std_specs::bits::axiom_u8_leading_zeros(b);
    let lz = u8_leading_zeros(b);
    assert(b != 0) by {
        if b == 0 {
            assert((0u8 >> h) & 1u8 == 0u8) by (bit_vector)
                requires
                    h < 8,
            ;
        }
    }
    if lz < 7 - h {
        let t = (7 - lz) as u8;
        assert((b >> t) & 1u8 != 0u8);
    }
    if lz > 7 - h {
        assert(8 - lz <= h);
        assert((b >> h) & 1u8 == 0u8);
    }
}

/// Decoding an encoded bit list gives the bits back.
pub proof fn lemma_bitlist_roundtrip(bytes: Seq<u8>, bits: Seq<bool>)
    requires
        encodes(bytes, bits, true),
    ensures
        bytes.len() >= 1,
        bytes.last() != 0u8,
        decoded_len(bytes, true) == bits.len(),
        forall|i: int| 0 <= i < bits.len() ==> #[trigger] bit_at(bytes, i) == bits[i],
{
    let n = bits.len() as int;
    let k = bytes.len() - 1;
    assert(k == n / 8);
    let h = (n % 8) as u8;
    assert(bit_at(bytes, n));
    assert((n / 8) == k);
    assert(n == 8 * k + h);
    assert forall|t: u8| h < t < 8 implies #[trigger] ((bytes.last() >> t) & 1u8) == 0u8 by {
        let j = 8 * k + t;
        assert(j / 8 == k && j % 8 == t) by (nonlinear_arith)
            requires
                j == 8 * k + t,
                0 <= t < 8,
                k >= 0,
        ;
        assert(n <= j < 8 * bytes.len());
        assert(!bit_at(bytes, j));
        assert(bytes[j / 8] == bytes.last());
        lemma_bit_values(bytes.last(), t);
    }
    assert((bytes.last() >> h) & 1u8 == 1u8) by {
        assert(n / 8 == k && n % 8 == h);
    }
    lemma_highest_bit(bytes.last(), h);
    assert(bytes.last() != 0u8) by {
        if bytes.last() == 0u8 {
            lemma_zero_bits(h);
        }
    }
}

} // verus!
