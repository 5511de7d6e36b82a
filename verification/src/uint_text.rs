//! Unsigned integers written as text: decimal, or hexadecimal after `0x`.

use vstd::prelude::*;
use vstd::string::StringSliceAdditionalSpecFns;

verus! {

/// Why a number failed to parse.
#[derive(Clone, Copy, Debug, PartialEq, Eq, Structural)]
pub enum IntErrorKind {
    /// There were no characters.
    Empty,
    /// A character is not a digit of the radix.
    InvalidDigit,
    /// The number does not fit in 64 bits.
    PosOverflow,
}

/// Why an integer text was refused.
#[derive(Clone, Copy, Debug, PartialEq, Eq, Structural)]
pub enum UintError {
    /// The text after `0x` is no hexadecimal number.
    InvalidHex(IntErrorKind),
    /// The text is no decimal number.
    InvalidDecimal(IntErrorKind),
}

/// The value of a byte as a digit of `radix`: `0`-`9`, then letters of
/// either case from ten on.
pub open spec fn digit_of(b: u8, radix: nat) -> Option<nat> {
    let d: int = if 48 <= b <= 57 {
        b - 48
    } else if 97 <= b <= 122 {
        b - 97 + 10
    } else if 65 <= b <= 90 {
        b - 65 + 10
    } else {
        36
    };
    if d < radix { Some(d as nat) } else { None }
}

/// Position of the first byte that is no digit, or the length.
pub open spec fn first_invalid(s: Seq<u8>, radix: nat) -> nat
    decreases s.len(),
{
    if s.len() == 0 {
        0
    } else if digit_of(s[0], radix) is None {
        0
    } else {
        1 + first_invalid(s.drop_first(), radix)
    }
}

/// The value of a string of digits, most significant first.
pub open spec fn digits_value(s: Seq<u8>, radix: nat) -> nat
    decreases s.len(),
{
    if s.len() == 0 {
        0
    } else {
        digits_value(s.drop_last(), radix) * radix + match digit_of(s.last(), radix) {
            Some(d) => d,
            None => 0,
        }
    }
}

/// Parse an unsigned 64-bit number in `radix`, with an optional leading
/// `+`; digits are read from the left, and the first failure decides.
pub open spec fn parse_radix(s: Seq<u8>, radix: nat) -> Result<u64, IntErrorKind> {
    if s.len() == 0 {
        Err(IntErrorKind::Empty)
    } else {
        let body = if s[0] == 43u8 { s.drop_first() } else { s };
        if body.len() == 0 {
            Err(IntErrorKind::InvalidDigit)
        } else {
            let k = first_invalid(body, radix);
            if digits_value(body.take(k as int), radix) > u64::MAX {
                Err(IntErrorKind::PosOverflow)
            } else if k < body.len() {
                Err(IntErrorKind::InvalidDigit)
            } else {
                Ok(digits_value(body, radix) as u64)
            }
        }
    }
}

/// The number a text stands for: zero when empty or just `0x`, hexadecimal
/// after `0x`, decimal otherwise.
pub open spec fn uint_from_text(s: Seq<u8>) -> Result<u64, UintError> {
    let hex = s.len() >= 2 && s[0] == 48u8 && s[1] == 120u8;
    if s.len() == 0 {
        Ok(0)
    } else if s.len() == 2 && hex {
        Ok(0)
    } else if hex {
        match parse_radix(s.skip(2), 16) {
            Ok(v) => Ok(v),
            Err(e) => Err(UintError::InvalidHex(e)),
        }
    } else {
        match parse_radix(s, 10) {
            Ok(v) => Ok(v),
            Err(e) => Err(UintError::InvalidDecimal(e)),
        }
    }
}

/// The first invalid position is past every valid digit and at an invalid one.
proof fn lemma_first_invalid(s: Seq<u8>, radix: nat, k: nat)
    requires
        k <= s.len(),
        forall|j: int| 0 <= j < k ==> digit_of(#[trigger] s[j], radix) is Some,
        k < s.len() ==> digit_of(s[k as int], radix) is None,
    ensures
        first_invalid(s, radix) == k,
    decreases s.len(),
{
    if s.len() > 0 && k > 0 {
        assert forall|j: int| 0 <= j < k - 1 implies digit_of(#[trigger] s.drop_first()[j], radix) is Some by {
            assert(s.drop_first()[j] == s[j + 1]);
        }
        lemma_first_invalid(s.drop_first(), radix, (k - 1) as nat);
    }
}

/// A longer prefix of digits is worth at least as much.
proof fn lemma_digits_value_mono(s: Seq<u8>, radix: nat, i: nat, j: nat)
    requires
        radix >= 1,
        i <= j <= s.len(),
    ensures
        digits_value(s.take(i as int), radix) <= digits_value(s.take(j as int), radix),
    decreases j - i,
{
    if i < j {
        lemma_digits_value_mono(s, radix, i, (j - 1) as nat);
        assert(s.take(j as int).drop_last() =~= s.take(j - 1));
        let v = digits_value(s.take(j - 1), radix);
        assert(v * radix >= v) by (nonlinear_arith)
            requires
                radix >= 1,
                v >= 0,
        ;
    }
}

/// The byte that writes digit `d`: `0`-`9`, then lowercase letters.
pub open spec fn digit_char(d: nat) -> u8 {
    if d < 10 { (48 + d) as u8 } else { (87 + d) as u8 }
}

/// `x` written in `radix`, most significant digit first, without leading
/// zeros; zero is written `0`.
pub open spec fn digits_text(x: nat, radix: nat) -> Seq<u8>
    decreases x,
{
    if radix < 2 || x < radix {
        seq![digit_char(x)]
    } else {
        proof {
            assert(x / radix < x) by (nonlinear_arith)
                requires
                    radix >= 2,
                    x >= radix,
            ;
        }
        digits_text(x / radix, radix).push(digit_char(x % radix))
    }
}

/// The text of a number is digits only, and reads back as the number.
proof fn lemma_digits_text(x: nat, radix: nat)
    requires
        2 <= radix <= 36,
    ensures
        digits_text(x, radix).len() >= 1,
        forall|j: int| 0 <= j < digits_text(x, radix).len()
            ==> digit_of(#[trigger] digits_text(x, radix)[j], radix) is Some
                && (48 <= digits_text(x, radix)[j] <= 57 || 97 <= digits_text(x, radix)[j] <= 122),
        digits_value(digits_text(x, radix), radix) == x,
    decreases x,
{
    if x < radix {
        let t = digits_text(x, radix);
        assert(t == seq![digit_char(x)]);
        assert(digit_of(digit_char(x), radix) == Some(x));
        assert(t.drop_last() =~= Seq::<u8>::empty());
        assert(digits_value(t.drop_last(), radix) == 0);
        assert(digits_value(t, radix) == 0 * radix + x);
    } else {
        let q = x / radix;
        let d = x % radix;
        assert(q < x) by (nonlinear_arith)
            requires
                radix >= 2,
                x >= radix,
                q == x / radix,
        ;
        lemma_digits_text(q, radix);
        let t = digits_text(x, radix);
        let u = digits_text(q, radix);
        assert(t.drop_last() =~= u);
        assert(digit_of(digit_char(d), radix) == Some(d));
        assert forall|j: int| 0 <= j < t.len() implies digit_of(#[trigger] t[j], radix) is Some
            && (48 <= t[j] <= 57 || 97 <= t[j] <= 122) by {
            if j < u.len() {
                assert(t[j] == u[j]);
            }
        }
        vstd::arithmetic::div_mod::lemma_fundamental_div_mod(x as int, radix as int);
        assert(x == q * radix + d) by (nonlinear_arith)
            requires
                x == radix * q + d,
        ;
        assert(d < radix);
        assert(t.last() == digit_char(d));
        assert(digits_value(t, radix) == digits_value(u, radix) * radix + d);
    }
}

/// A number's digits parse back as the number.
pub proof fn lemma_parse_radix_digits(x: u64, radix: nat)
    requires
        2 <= radix <= 36,
    ensures
        parse_radix(digits_text(x as nat, radix), radix) == Ok::<u64, IntErrorKind>(x),
{
    let t = digits_text(x as nat, radix);
    lemma_digits_text(x as nat, radix);
    assert(digit_of(t[0], radix) is Some && (48 <= t[0] <= 57 || 97 <= t[0] <= 122));
    assert(t[0] != 43u8);
    lemma_first_invalid(t, radix, t.len());
    assert(t.take(t.len() as int) =~= t);
}

/// The decimal text of a number reads back as the number, and so does
/// `0x` followed by its lowercase hexadecimal text.
pub proof fn lemma_uint_text_roundtrip(x: u64)
    ensures
        uint_from_text(digits_text(x as nat, 10)) == Ok::<u64, UintError>(x),
        uint_from_text(seq![48u8, 120u8] + digits_text(x as nat, 16)) == Ok::<u64, UintError>(x),
{
    lemma_parse_radix_digits(x, 10);
    lemma_parse_radix_digits(x, 16);
    lemma_digits_text(x as nat, 10);
    lemma_digits_text(x as nat, 16);
    let d = digits_text(x as nat, 10);
    if d.len() >= 2 {
        assert(digit_of(d[1], 10) is Some && (48 <= d[1] <= 57 || 97 <= d[1] <= 122));
        assert(digit_of(d[1], 10) is Some);
        assert(d[1] != 120u8);
    }
    let h = seq![48u8, 120u8] + digits_text(x as nat, 16);
    assert(h.skip(2) =~= digits_text(x as nat, 16));
    assert(h[0] == 48u8 && h[1] == 120u8);
}

/// The digit value of a byte, computed.
fn digit(b: u8, radix: u64) -> (r: Option<u64>)
    requires
        2 <= radix <= 36,
    ensures
        match r {
            Some(d) => digit_of(b, radix as nat) == Some(d as nat),
            None => digit_of(b, radix as nat) is None,
        },
{
    let d: u64 = if 48 <= b && b <= 57 {
        (b - 48) as u64
    } else if 97 <= b && b <= 122 {
        (b - 97) as u64 + 10
    } else if 65 <= b && b <= 90 {
        (b - 65) as u64 + 10
    } else {
        36
    };
    if d < radix { Some(d) } else { None }
}

/// `u64::from_str_radix` on the bytes of a text.
pub fn parse_radix_bytes(s: &[u8], radix: u64) -> (r: Result<u64, IntErrorKind>)
    requires
        2 <= radix <= 36,
    ensures
        r == parse_radix(s@, radix as nat),
{
    if s.len() == 0 {
        return Err(IntErrorKind::Empty);
    }
    let start: usize = if s[0] == 43u8 { 1 } else { 0 };
    let ghost body = if s@[0] == 43u8 { s@.drop_first() } else { s@ };
    proof {
        assert(body =~= s@.skip(start as int));
    }
    if start == s.len() {
        return Err(IntErrorKind::InvalidDigit);
    }
    let mut acc: u64 = 0;
    let mut i: usize = start;
    while i < s.len()
        invariant
            2 <= radix <= 36,
            start <= i <= s@.len(),
            start < s@.len(),
            body =~= s@.skip(start as int),
            body == (if s@[0] == 43u8 { s@.drop_first() } else { s@ }),
            forall|j: int| 0 <= j < i - start ==> digit_of(#[trigger] body[j], radix as nat) is Some,
            acc as nat == digits_value(body.take(i - start), radix as nat),
        decreases s@.len() - i,
    {
        let n = i - start;
        proof {
            assert(body[n as int] == s@[i as int]);
            assert(body.take(n + 1).drop_last() =~= body.take(n as int));
        }
        match digit(s[i], radix) {
            None => {
                proof {
                    lemma_first_invalid(body, radix as nat, n as nat);
                    assert(first_invalid(body, radix as nat) == n);
                    assert(digits_value(body.take(n as int), radix as nat) <= u64::MAX);
                    assert(n < body.len());
                    assert(parse_radix(s@, radix as nat) == Err::<u64, IntErrorKind>(IntErrorKind::InvalidDigit));
                }
                return Err(IntErrorKind::InvalidDigit);
            },
            Some(d) => {
                match acc.checked_mul(radix) {
                    None => {
                        proof {
                            let k = first_invalid_at_least(body, radix as nat, (n + 1) as nat);
                            lemma_digits_value_mono(body, radix as nat, (n + 1) as nat, k);
                            assert(digits_value(body.take(n + 1), radix as nat)
                                == acc * radix + d);
                            assert(acc * radix > u64::MAX);
                            assert(digits_value(body.take(k as int), radix as nat) > u64::MAX);
                            assert(parse_radix(s@, radix as nat) == Err::<u64, IntErrorKind>(IntErrorKind::PosOverflow));
                        }
                        return Err(IntErrorKind::PosOverflow);
                    },
                    Some(m) => match m.checked_add(d) {
                        None => {
                            proof {
                                let k = first_invalid_at_least(body, radix as nat, (n + 1) as nat);
                                lemma_digits_value_mono(body, radix as nat, (n + 1) as nat, k);
                            }
                            return Err(IntErrorKind::PosOverflow);
                        },
                        Some(v) => {
                            acc = v;
                        },
                    },
                }
            },
        }
        i = i + 1;
    }
    proof {
        let n = (s@.len() - start) as nat;
        assert(body.len() == n);
        lemma_first_invalid(body, radix as nat, n);
        assert(body.take(n as int) =~= body);
    }
    Ok(acc)
}

/// The first invalid position of digits valid up to `n` is at least `n`.
proof fn first_invalid_at_least(s: Seq<u8>, radix: nat, n: nat) -> (k: nat)
    requires
        n <= s.len(),
        forall|j: int| 0 <= j < n ==> digit_of(#[trigger] s[j], radix) is Some,
    ensures
        k == first_invalid(s, radix),
        n <= k <= s.len(),
    decreases s.len(),
{
    if s.len() == 0 || n == 0 {
        lemma_first_invalid_bound(s, radix);
        first_invalid(s, radix)
    } else {
        assert forall|j: int| 0 <= j < n - 1 implies digit_of(#[trigger] s.drop_first()[j], radix) is Some by {
            assert(s.drop_first()[j] == s[j + 1]);
        }
        assert(digit_of(s[0], radix) is Some);
        let k = first_invalid_at_least(s.drop_first(), radix, (n - 1) as nat);
        k + 1
    }
}

proof fn lemma_first_invalid_bound(s: Seq<u8>, radix: nat)
    ensures
        first_invalid(s, radix) <= s.len(),
    decreases s.len(),
{
    if s.len() > 0 {
        lemma_first_invalid_bound(s.drop_first(), radix);
    }
}

/// Read an unsigned integer from text: zero when empty or just `0x`,
/// hexadecimal after `0x`, decimal otherwise.
pub fn deserialize_uint(value: &str) -> (r: Result<u64, UintError>)
    ensures
        r == uint_from_text(value.spec_bytes()),
{
    let s = value.as_bytes();
    let hex = s.len() >= 2 && s[0] == 48u8 && s[1] == 120u8;
    if s.len() == 0 {
        Ok(0)
    } else if s.len() == 2 && hex {
        Ok(0)
    } else if hex {
        let digits = slice_from(s, 2);
        match parse_radix_bytes(digits.as_slice(), 16) {
            Ok(v) => Ok(v),
            Err(e) => Err(UintError::InvalidHex(e)),
        }
    } else {
        match parse_radix_bytes(s, 10) {
            Ok(v) => Ok(v),
            Err(e) => Err(UintError::InvalidDecimal(e)),
        }
    }
}

/// The bytes of `s` from position `start` on.
pub(crate) fn slice_from(s: &[u8], start: usize) -> (r: Vec<u8>)
    requires
        start <= s@.len(),
    ensures
        r@ == s@.skip(start as int),
{
    let mut r: Vec<u8> = Vec::new();
    let mut i = start;
    while i < s.len()
        invariant
            start <= i <= s@.len(),
            r@ == s@.subrange(start as int, i as int),
        decreases s@.len() - i,
    {
        r.push(s[i]);
        i = i + 1;
        proof {
            assert(r@ =~= s@.subrange(start as int, i as int));
        }
    }
    proof {
        assert(s@.subrange(start as int, s@.len() as int) =~= s@.skip(start as int));
    }
    r
}

} // verus!
