//! Text forms of unsigned 32-bit integers.
//!
//! The wire protocol writes addresses and data as lowercase hexadecimal and
//! byte counts as decimal; the command grammar additionally accepts `0x`/`0X`
//! and `0b`/`0B` prefixed literals. Everything here is defined over byte
//! sequences of ASCII digits.

use vstd::arithmetic::div_mod::lemma_div_decreases;
use vstd::arithmetic::div_mod::lemma_fundamental_div_mod;
use vstd::arithmetic::div_mod::lemma_mod_division_less_than_divisor;
use vstd::arithmetic::mul::lemma_mul_inequality;
use vstd::prelude::*;
use vstd::slice::slice_index_get;
use vstd::string::StringSliceAdditionalSpecFns;

verus! {

/// Numeric value of the ASCII byte `b` as a digit of `radix`, or `-1` when
/// it is no such digit. Hexadecimal letters may be upper or lower case.
pub open spec fn digit_val(b: u8, radix: int) -> int {
    let v: int = if 0x30 <= b <= 0x39 {
        b - 0x30
    } else if 0x61 <= b <= 0x66 {
        b - 0x61 + 10
    } else if 0x41 <= b <= 0x46 {
        b - 0x41 + 10
    } else {
        -1
    };
    if 0 <= v < radix {
        v
    } else {
        -1
    }
}

pub open spec fn is_digit(b: u8, radix: int) -> bool {
    digit_val(b, radix) >= 0
}

/// A nonempty run of digits of `radix`.
pub open spec fn digits_valid(s: Seq<u8>, radix: int) -> bool {
    s.len() > 0 && forall|i: int| 0 <= i < s.len() ==> is_digit(#[trigger] s[i], radix)
}

/// The value of a digit run, most significant digit first.
pub open spec fn digits_value(s: Seq<u8>, radix: int) -> int
    decreases s.len(),
{
    if s.len() == 0 {
        0
    } else {
        digits_value(s.drop_last(), radix) * radix + digit_val(s.last(), radix)
    }
}

/// What parsing a digit run as a `u32` yields: a value exactly when the run
/// is nonempty, made of digits of `radix` only, and in range.
pub open spec fn spec_parse_u32(s: Seq<u8>, radix: int) -> Option<u32> {
    if digits_valid(s, radix) && digits_value(s, radix) <= u32::MAX {
        Some(digits_value(s, radix) as u32)
    } else {
        None
    }
}

proof fn lemma_digits_value_nonneg(s: Seq<u8>, radix: int)
    requires
        radix >= 1,
        forall|i: int| 0 <= i < s.len() ==> is_digit(#[trigger] s[i], radix),
    ensures
        digits_value(s, radix) >= 0,
    decreases s.len(),
{
    if s.len() > 0 {
        lemma_digits_value_nonneg(s.drop_last(), radix);
        lemma_mul_inequality(0, digits_value(s.drop_last(), radix), radix);
    }
}

/// Appending digits can only grow the value.
proof fn lemma_digits_value_take_le(s: Seq<u8>, i: int, radix: int)
    requires
        radix >= 1,
        forall|j: int| 0 <= j < s.len() ==> is_digit(#[trigger] s[j], radix),
        0 <= i <= s.len(),
    ensures
        digits_value(s.take(i), radix) <= digits_value(s, radix),
    decreases s.len() - i,
{
    if i < s.len() {
        let t = s.take(i + 1);
        assert(t.drop_last() =~= s.take(i));
        let v = digits_value(s.take(i), radix);
        lemma_digits_value_nonneg(s.take(i), radix);
        lemma_mul_inequality(1, radix, v);
        assert(v * 1 == v) by (nonlinear_arith);
        assert(v * radix >= v * 1) by (nonlinear_arith)
            requires v >= 0 && radix >= 1,
        ;
        assert(digits_value(t, radix) >= v);
        lemma_digits_value_take_le(s, i + 1, radix);
    } else {
        assert(s.take(i) =~= s);
    }
}

/// `x <= y / r` allows one more digit step without passing `y`.
proof fn lemma_mul_digit_fits(x: int, y: int, r: int)
    requires
        r >= 1,
        0 <= y,
        0 <= x <= y / r,
    ensures
        x * r <= y,
{
    lemma_fundamental_div_mod(y, r);
    lemma_mod_division_less_than_divisor(y, r);
    lemma_mul_inequality(x, y / r, r);
    assert((y / r) * r == r * (y / r)) by (nonlinear_arith);
}

/// `x > y / r` means a further digit step passes `y`.
proof fn lemma_mul_digit_overflows(x: int, y: int, r: int)
    requires
        r >= 1,
        0 <= y,
        x > y / r,
    ensures
        x * r > y,
{
    lemma_fundamental_div_mod(y, r);
    lemma_mod_division_less_than_divisor(y, r);
    lemma_mul_inequality(y / r + 1, x, r);
    assert((y / r + 1) * r == r * (y / r) + r) by (nonlinear_arith);
}

/// Decode one ASCII digit of `radix`.
fn digit_of(b: u8, radix: u32) -> (r: Option<u32>)
    requires
        2 <= radix <= 16,
    ensures
        match r {
            Some(d) => digit_val(b, radix as int) == d as int,
            None => !is_digit(b, radix as int),
        },
{
    let v: u32 = if 0x30 <= b && b <= 0x39 {
        (b - 0x30) as u32
    } else if 0x61 <= b && b <= 0x66 {
        (b - 0x61) as u32 + 10
    } else if 0x41 <= b && b <= 0x46 {
        (b - 0x41) as u32 + 10
    } else {
        return None;
    };
    if v < radix {
        Some(v)
    } else {
        None
    }
}

/// Parse `s[from..]` as a `u32` written in `radix`.
///
/// Mirrors integer parsing from text: the run must be nonempty, all digits,
/// and fit in 32 bits, else nothing is returned.
pub fn parse_u32_radix(s: &[u8], from: usize, radix: u32) -> (r: Option<u32>)
    requires
        radix == 2 || radix == 10 || radix == 16,
        from <= s@.len(),
    ensures
        r == spec_parse_u32(s@.skip(from as int), radix as int),
{
    let ghost digits = s@.skip(from as int);
    let len = s.len();
    if from == len {
        return None;
    }
    let mut acc: u32 = 0;
    let mut i = from;
    while i < len
        invariant
            from <= i <= len,
            len == s@.len(),
            digits == s@.skip(from as int),
            radix == 2 || radix == 10 || radix == 16,
            forall|j: int| 0 <= j < i - from ==> is_digit(#[trigger] digits[j], radix as int),
            acc == digits_value(digits.take(i - from), radix as int),
        decreases len - i,
    {
        let b = *slice_index_get(s, i);
        proof {
            assert(digits[i - from] == s@[i as int]);
        }
        let d = match digit_of(b, radix) {
            Some(d) => d,
            None => {
                return None;
            },
        };
        if acc > (u32::MAX - d) / radix {
            proof {
                let r = radix as int;
                let prefix2 = digits.take(i - from + 1);
                assert(prefix2.drop_last() =~= digits.take(i - from));
                lemma_mul_digit_overflows(acc as int, u32::MAX - d, r);
                lemma_digits_value_nonneg(digits.take(i - from), r);
                if digits_valid(digits, r) && digits_value(digits, r) <= u32::MAX {
                    lemma_digits_value_take_le(digits, i - from + 1, r);
                    assert(false);
                }
            }
            return None;
        }
        proof {
            let prefix2 = digits.take(i - from + 1);
            assert(prefix2.drop_last() =~= digits.take(i - from));
            lemma_mul_digit_fits(acc as int, u32::MAX - d, radix as int);
        }
        acc = acc * radix + d;
        i = i + 1;
    }
    proof {
        assert(digits.take(len - from) =~= digits);
    }
    Some(acc)
}

/// What parsing a prefixed integer literal yields: `0x`/`0X` selects base 16,
/// `0b`/`0B` base 2, anything else is read as decimal.
pub open spec fn spec_based_u32(b: Seq<u8>) -> Option<u32> {
    if b.len() >= 2 && b[0] == 0x30 && (b[1] == 0x78 || b[1] == 0x58) {
        spec_parse_u32(b.skip(2), 16)
    } else if b.len() >= 2 && b[0] == 0x30 && (b[1] == 0x62 || b[1] == 0x42) {
        spec_parse_u32(b.skip(2), 2)
    } else {
        spec_parse_u32(b, 10)
    }
}

/// Parse an integer literal with an optional base prefix, as entered by a
/// user or echoed on the wire.
pub fn parse_based_int(s: &str) -> (r: Option<u32>)
    ensures
        r == spec_based_u32(s.spec_bytes()),
{
    let b = s.as_bytes();
    parse_based_bytes(b)
}

/// [`parse_based_int`] on a raw byte run.
pub fn parse_based_bytes(b: &[u8]) -> (r: Option<u32>)
    ensures
        r == spec_based_u32(b@),
{
    if b.len() >= 2 && *slice_index_get(b, 0) == 0x30 {
        let tag = *slice_index_get(b, 1);
        if tag == 0x78 || tag == 0x58 {
            return parse_u32_radix(b, 2, 16);
        }
        if tag == 0x62 || tag == 0x42 {
            return parse_u32_radix(b, 2, 2);
        }
    }
    proof {
        assert(b@.skip(0) =~= b@);
    }
    parse_u32_radix(b, 0, 10)
}

/// What a hex-dump byte token means: a value exactly when the token is one
/// or two hexadecimal digits.
pub open spec fn spec_hex_byte(t: Seq<u8>) -> Option<u8> {
    if 1 <= t.len() <= 2 && digits_valid(t, 16) {
        Some(digits_value(t, 16) as u8)
    } else {
        None
    }
}

/// Parse one hex-dump byte token.
pub fn parse_hex_byte(t: &[u8]) -> (r: Option<u8>)
    ensures
        r == spec_hex_byte(t@),
{
    if t.len() == 1 {
        let d = digit_of(*slice_index_get(t, 0), 16);
        proof {
            assert(t@.drop_last() =~= Seq::<u8>::empty());
            assert(digits_value(Seq::<u8>::empty(), 16) == 0);
            if is_digit(t@[0], 16) {
                assert(digits_value(t@, 16) == 0 * 16 + digit_val(t@[0], 16));
            }
        }
        match d {
            Some(d) => Some(d as u8),
            None => None,
        }
    } else if t.len() == 2 {
        let d0 = digit_of(*slice_index_get(t, 0), 16);
        let d1 = digit_of(*slice_index_get(t, 1), 16);
        proof {
            let lo = t@.drop_last();
            assert(lo =~= seq![t@[0]]);
            assert(lo.drop_last() =~= Seq::<u8>::empty());
            assert(digits_value(Seq::<u8>::empty(), 16) == 0);
            if is_digit(t@[0], 16) && is_digit(t@[1], 16) {
                assert(digits_value(lo, 16) == 0 * 16 + digit_val(t@[0], 16));
                assert(digits_value(t@, 16) == digits_value(lo, 16) * 16 + digit_val(t@[1], 16));
            }
        }
        match (d0, d1) {
            (Some(d0), Some(d1)) => Some((d0 * 16 + d1) as u8),
            _ => None,
        }
    } else {
        None
    }
}

/// Lowercase ASCII digit for the value `v`.
pub open spec fn digit_char(v: int) -> u8 {
    if v < 10 {
        (0x30 + v) as u8
    } else {
        (0x61 + v - 10) as u8
    }
}

/// The shortest digit run for `n` in `radix`: lowercase, no leading zeros,
/// a single `0` for zero.
pub open spec fn spec_digits(n: nat, radix: nat) -> Seq<u8>
    decreases n,
    when radix >= 2
    via spec_digits_decreases
{
    if n < radix {
        seq![digit_char(n as int)]
    } else {
        spec_digits(n / radix, radix).push(digit_char((n % radix) as int))
    }
}

#[via_fn]
proof fn spec_digits_decreases(n: nat, radix: nat) {
    if n >= radix {
        lemma_div_decreases(n as int, radix as int);
    }
}

/// Append the digit run of `n` in `radix` to `out`.
pub fn push_digits(n: u32, radix: u32, out: &mut Vec<u8>)
    requires
        radix == 2 || radix == 10 || radix == 16,
    ensures
        final(out)@ == old(out)@ + spec_digits(n as nat, radix as nat),
    decreases n,
{
    if n < radix {
        let d: u8 = if n < 10 {
            0x30 + (n as u8)
        } else {
            0x61 + (n as u8) - 10
        };
        out.push(d);
        proof {
            assert(final(out)@ =~= old(out)@ + spec_digits(n as nat, radix as nat));
        }
    } else {
        proof {
            lemma_div_decreases(n as int, radix as int);
        }
        push_digits(n / radix, radix, out);
        let rem = n % radix;
        let d: u8 = if rem < 10 {
            0x30 + (rem as u8)
        } else {
            0x61 + (rem as u8) - 10
        };
        out.push(d);
        proof {
            assert(final(out)@ =~= old(out)@ + spec_digits(n as nat, radix as nat));
        }
    }
}

/// Formatting then parsing a digit run gives the number back: the wire's
/// textual number forms are lossless.
pub proof fn lemma_digits_round_trip(n: nat, radix: nat)
    requires
        2 <= radix <= 16,
    ensures
        digits_valid(spec_digits(n, radix), radix as int),
        digits_value(spec_digits(n, radix), radix as int) == n,
    decreases n,
{
    let s = spec_digits(n, radix);
    let r = radix as int;
    if n < radix {
        assert(s =~= seq![digit_char(n as int)]);
        assert(s.drop_last() =~= Seq::<u8>::empty());
        assert(digits_value(Seq::<u8>::empty(), r) == 0);
        assert(digit_val(digit_char(n as int), r) == n);
        assert(digits_value(s, r) == 0 * r + digit_val(s.last(), r));
        assert(0 * r == 0) by (nonlinear_arith);
    } else {
        let q = (n / radix) as int;
        let m = (n % radix) as int;
        lemma_div_decreases(n as int, r);
        lemma_digits_round_trip(n / radix, radix);
        lemma_mod_division_less_than_divisor(n as int, r);
        assert(s.drop_last() =~= spec_digits(n / radix, radix));
        assert(s.last() == digit_char(m));
        assert(digit_val(digit_char(m), r) == m);
        assert(digits_value(s, r) == q * r + m);
        lemma_fundamental_div_mod(n as int, r);
        assert(q * r == r * q) by (nonlinear_arith);
    }
}

/// How many of `rhs` cover `lhs`: division rounding up.
pub open spec fn spec_div_ceil(lhs: nat, rhs: nat) -> nat
    recommends
        rhs > 0,
{
    if lhs % rhs == 0 {
        lhs / rhs
    } else {
        lhs / rhs + 1
    }
}

/// Division rounding up, used to count response lines per read command.
pub fn div_ceil(lhs: u32, rhs: u32) -> (r: u32)
    requires
        rhs > 0,
    ensures
        r == spec_div_ceil(lhs as nat, rhs as nat),
{
    let q = lhs / rhs;
    let rem = lhs % rhs;
    if rem == 0 {
        q
    } else {
        proof {
            lemma_mod_division_less_than_divisor(lhs as int, rhs as int);
            if rhs == 1 {
                assert(lhs as int % 1int == 0) by (nonlinear_arith);
            }
            if lhs == 0 {
                assert(0int % (rhs as int) == 0) by (nonlinear_arith)
                    requires rhs >= 1,
                ;
            }
            lemma_div_decreases(lhs as int, rhs as int);
        }
        q + 1
    }
}

} // verus!
