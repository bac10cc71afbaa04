//! The shared back end: exact conversion of decimal and hexadecimal digit
//! strings into four 64-bit limbs by multiply-and-add with explicit 128-bit
//! intermediates, and the reverse rendering of limbs as decimal digits.

use crate::error::ParseError;
use crate::model::{
    all_dec_digits, dec_digit_val, dec_value, hex_digit_val, hex_value, is_dec_digit,
    is_dec_string, is_hex_digit, is_hex_string, lemma_char_eq_iff_u32, lemma_dec_value_prefix_le,
    lemma_dec_value_prepend, lemma_dec_value_snoc, lemma_hex_value_prefix_le, lemma_hex_value_snoc,
    limbs_val, pow10,
    result_models, reversed, spec_digits_result, spec_hex_result, u256_bound,
};
use vstd::arithmetic::div_mod::lemma_fundamental_div_mod;
use vstd::arithmetic::mul::lemma_mul_upper_bound;
use vstd::prelude::*;

verus! {

/// A limb scaled by a digit base stays well under `2^128`.
proof fn lemma_scale_fits(a: u64, base: u64)
    requires
        base <= 16,
    ensures
        a * base <= 0xFFFF_FFFF_FFFF_FFFFint * 16,
{
    lemma_mul_upper_bound(a as int, 0xFFFF_FFFF_FFFF_FFFFint, base as int, 16);
}

/// `2^64`, the weight of one limb.
const LIMB_BASE: u128 = 0x1_0000_0000_0000_0000;

/// One accumulation step: multiply the four-limb value by `base` (ten or
/// sixteen) and add the digit `d`; the second component is the carry out of
/// the top limb, zero exactly when the result still fits.
fn scale_add(l: [u64; 4], base: u64, d: u64) -> (r: ([u64; 4], u64))
    requires
        base == 10 || base == 16,
        d < base,
    ensures
        limbs_val(r.0) + r.1 * u256_bound() == limbs_val(l) * base + d,
{
    proof {
        lemma_scale_fits(l[0], base);
    }
    let p0: u128 = (l[0] as u128) * (base as u128) + (d as u128);
    let n0: u64 = (p0 % LIMB_BASE) as u64;
    let c0: u64 = (p0 / LIMB_BASE) as u64;
    proof {
        lemma_fundamental_div_mod(p0 as int, LIMB_BASE as int);
    }
    proof {
        lemma_scale_fits(l[1], base);
    }
    let p1: u128 = (l[1] as u128) * (base as u128) + (c0 as u128);
    let n1: u64 = (p1 % LIMB_BASE) as u64;
    let c1: u64 = (p1 / LIMB_BASE) as u64;
    proof {
        lemma_fundamental_div_mod(p1 as int, LIMB_BASE as int);
    }
    proof {
        lemma_scale_fits(l[2], base);
    }
    let p2: u128 = (l[2] as u128) * (base as u128) + (c1 as u128);
    let n2: u64 = (p2 % LIMB_BASE) as u64;
    let c2: u64 = (p2 / LIMB_BASE) as u64;
    proof {
        lemma_fundamental_div_mod(p2 as int, LIMB_BASE as int);
    }
    proof {
        lemma_scale_fits(l[3], base);
    }
    let p3: u128 = (l[3] as u128) * (base as u128) + (c2 as u128);
    let n3: u64 = (p3 % LIMB_BASE) as u64;
    let c3: u64 = (p3 / LIMB_BASE) as u64;
    proof {
        lemma_fundamental_div_mod(p3 as int, LIMB_BASE as int);
    }
    let out: [u64; 4] = [n0, n1, n2, n3];
    proof {
        assert(out[0] == n0 && out[1] == n1 && out[2] == n2 && out[3] == n3);
        assert(limbs_val(out) + c3 * u256_bound() == limbs_val(l) * base + d);
    }
    (out, c3)
}

/// Recognizes a decimal digit and yields its value.
fn dec_digit_of(c: char) -> (r: Option<u64>)
    ensures
        match r {
            Some(d) => is_dec_digit(c) && d == dec_digit_val(c),
            None => !is_dec_digit(c),
        },
{
    let u = c as u32;
    if 48 <= u && u <= 57 {
        Some((u - 48) as u64)
    } else {
        None
    }
}

/// Recognizes a hexadecimal digit (either case) and yields its value.
fn hex_digit_of(c: char) -> (r: Option<u64>)
    ensures
        match r {
            Some(d) => is_hex_digit(c) && d == hex_digit_val(c),
            None => !is_hex_digit(c),
        },
{
    let u = c as u32;
    if 48 <= u && u <= 57 {
        Some((u - 48) as u64)
    } else if 97 <= u && u <= 102 {
        Some((u - 87) as u64)
    } else if 65 <= u && u <= 70 {
        Some((u - 55) as u64)
    } else {
        None
    }
}

/// Converts a non-empty decimal digit string into four limbs, least
/// significant first, exactly; a value of `2^256` or more is `Overflow`, and
/// anything that is not a non-empty run of decimal digits is
/// `UnsupportedLiteralShape`.
pub fn digits_to_limbs(s: &str) -> (r: Result<[u64; 4], ParseError>)
    ensures
        result_models(r, spec_digits_result(s@)),
{
    let n = s.unicode_len();
    if n == 0 {
        return Err(ParseError::UnsupportedLiteralShape);
    }
    let mut i: usize = 0;
    while i < n
        invariant
            i <= n,
            n == s@.len(),
            forall|j: int| 0 <= j < i ==> is_dec_digit(#[trigger] s@[j]),
        decreases n - i,
    {
        let c = s.get_char(i);
        if dec_digit_of(c).is_none() {
            return Err(ParseError::UnsupportedLiteralShape);
        }
        i += 1;
    }
    assert(is_dec_string(s@));
    let mut limbs: [u64; 4] = [0, 0, 0, 0];
    proof {
        assert(s@.subrange(0, 0) =~= Seq::<char>::empty());
    }
    let mut i: usize = 0;
    while i < n
        invariant
            i <= n,
            n == s@.len(),
            is_dec_string(s@),
            limbs_val(limbs) == dec_value(s@.subrange(0, i as int)),
        decreases n - i,
    {
        let c = s.get_char(i);
        let d = match dec_digit_of(c) {
            Some(d) => d,
            None => {
                return Err(ParseError::UnsupportedLiteralShape);
            },
        };
        let (nl, carry) = scale_add(limbs, 10, d);
        proof {
            lemma_dec_value_snoc(s@, i as int);
        }
        if carry != 0 {
            proof {
                lemma_dec_value_prefix_le(s@, i as int + 1);
            }
            return Err(ParseError::Overflow);
        }
        limbs = nl;
        i += 1;
    }
    proof {
        assert(s@.subrange(0, n as int) =~= s@);
    }
    Ok(limbs)
}

/// Converts a non-empty hexadecimal digit string (no prefix) into four limbs,
/// least significant first, exactly; overflow and shape failures are reported
/// as in the decimal conversion.
pub fn hex_to_limbs(s: &str) -> (r: Result<[u64; 4], ParseError>)
    ensures
        result_models(r, spec_hex_result(s@)),
{
    let n = s.unicode_len();
    if n == 0 {
        return Err(ParseError::UnsupportedLiteralShape);
    }
    let mut i: usize = 0;
    while i < n
        invariant
            i <= n,
            n == s@.len(),
            forall|j: int| 0 <= j < i ==> is_hex_digit(#[trigger] s@[j]),
        decreases n - i,
    {
        let c = s.get_char(i);
        if hex_digit_of(c).is_none() {
            return Err(ParseError::UnsupportedLiteralShape);
        }
        i += 1;
    }
    assert(is_hex_string(s@));
    let mut limbs: [u64; 4] = [0, 0, 0, 0];
    proof {
        assert(s@.subrange(0, 0) =~= Seq::<char>::empty());
    }
    let mut i: usize = 0;
    while i < n
        invariant
            i <= n,
            n == s@.len(),
            is_hex_string(s@),
            limbs_val(limbs) == hex_value(s@.subrange(0, i as int)),
        decreases n - i,
    {
        let c = s.get_char(i);
        let d = match hex_digit_of(c) {
            Some(d) => d,
            None => {
                return Err(ParseError::UnsupportedLiteralShape);
            },
        };
        let (nl, carry) = scale_add(limbs, 16, d);
        proof {
            lemma_hex_value_snoc(s@, i as int);
        }
        if carry != 0 {
            proof {
                lemma_hex_value_prefix_le(s@, i as int + 1);
            }
            return Err(ParseError::Overflow);
        }
        limbs = nl;
        i += 1;
    }
    proof {
        assert(s@.subrange(0, n as int) =~= s@);
    }
    Ok(limbs)
}

/// One step of long division: divides the four-limb value by ten, yielding
/// the quotient limbs and the remainder digit.
fn div10(l: [u64; 4]) -> (r: ([u64; 4], u64))
    ensures
        limbs_val(r.0) * 10 + r.1 == limbs_val(l),
        r.1 < 10,
{
    let c3: u128 = l[3] as u128;
    let q3: u64 = (c3 / 10) as u64;
    let r3: u64 = (c3 % 10) as u64;
    proof {
        lemma_fundamental_div_mod(c3 as int, 10);
    }
    let c2: u128 = (r3 as u128) * LIMB_BASE + (l[2] as u128);
    let q2: u64 = (c2 / 10) as u64;
    let r2: u64 = (c2 % 10) as u64;
    proof {
        lemma_fundamental_div_mod(c2 as int, 10);
    }
    let c1: u128 = (r2 as u128) * LIMB_BASE + (l[1] as u128);
    let q1: u64 = (c1 / 10) as u64;
    let r1: u64 = (c1 % 10) as u64;
    proof {
        lemma_fundamental_div_mod(c1 as int, 10);
    }
    let c0: u128 = (r1 as u128) * LIMB_BASE + (l[0] as u128);
    let q0: u64 = (c0 / 10) as u64;
    let r0: u64 = (c0 % 10) as u64;
    proof {
        lemma_fundamental_div_mod(c0 as int, 10);
    }
    let out: [u64; 4] = [q0, q1, q2, q3];
    proof {
        assert(out[0] == q0 && out[1] == q1 && out[2] == q2 && out[3] == q3);
        assert(limbs_val(out) * 10 + r0 == limbs_val(l));
    }
    (out, r0)
}

/// The decimal digit with value `d`.
fn digit_char(d: u64) -> (c: char)
    requires
        d < 10,
    ensures
        is_dec_digit(c),
        dec_digit_val(c) == d,
{
    match d {
        0 => '0',
        1 => '1',
        2 => '2',
        3 => '3',
        4 => '4',
        5 => '5',
        6 => '6',
        7 => '7',
        8 => '8',
        _ => '9',
    }
}

/// Renders four limbs as the canonical decimal digit string of their value:
/// non-empty, digits only, and no leading zero unless the value is zero.
pub fn limbs_to_decimal(l: [u64; 4]) -> (r: Vec<char>)
    ensures
        is_dec_string(r@),
        dec_value(r@) == limbs_val(l),
        r@.len() > 1 ==> r@[0] != '0',
{
    if l[0] == 0 && l[1] == 0 && l[2] == 0 && l[3] == 0 {
        let mut out: Vec<char> = Vec::new();
        out.push('0');
        proof {
            assert(out@ =~= seq!['0']);
            assert(out@.drop_last() =~= Seq::<char>::empty());
            assert(dec_value(Seq::<char>::empty()) == 0);
            assert(dec_value(out@) == dec_digit_val('0'));
        }
        return out;
    }
    let mut rev: Vec<char> = Vec::new();
    let mut cur = l;
    proof {
        assert(reversed(rev@) =~= Seq::<char>::empty());
        assert(limbs_val(cur) * pow10(rev@.len()) == limbs_val(l));
    }
    while cur[0] != 0 || cur[1] != 0 || cur[2] != 0 || cur[3] != 0
        invariant
            all_dec_digits(rev@),
            dec_value(reversed(rev@)) + limbs_val(cur) * pow10(rev@.len()) == limbs_val(l),
            limbs_val(cur) == 0 ==> rev@.len() > 0 && rev@[rev@.len() - 1] != '0',
        decreases limbs_val(cur),
    {
        let (q, rem) = div10(cur);
        let c = digit_char(rem);
        let ghost old_rev = rev@;
        rev.push(c);
        proof {
            assert(limbs_val(cur) > 0);
            assert(reversed(rev@) =~= seq![c] + reversed(old_rev));
            lemma_dec_value_prepend(c, reversed(old_rev));
            let p = pow10(old_rev.len());
            assert((limbs_val(q) * 10 + rem) * p == limbs_val(q) * (10 * p) + rem * p)
                by (nonlinear_arith);
            assert(pow10(rev@.len()) == 10 * p);
            assert(limbs_val(q) < limbs_val(cur));
            if limbs_val(q) == 0 {
                assert(rem != 0);
                lemma_char_eq_iff_u32(c, '0');
                assert(rev@[rev@.len() - 1] != '0');
            }
        }
        cur = q;
    }
    assert(limbs_val(cur) == 0);
    assert(dec_value(reversed(rev@)) == limbs_val(l));
    let mut out: Vec<char> = Vec::new();
    let mut i: usize = rev.len();
    while i > 0
        invariant
            i <= rev@.len(),
            out@.len() == rev@.len() - i,
            forall|j: int| 0 <= j < out@.len() ==> out@[j] == rev@[rev@.len() - 1 - j],
        decreases i,
    {
        i -= 1;
        let c = rev[i];
        out.push(c);
    }
    proof {
        assert(out@ =~= reversed(rev@));
        assert forall|j: int| 0 <= j < out@.len() implies is_dec_digit(#[trigger] out@[j]) by {
            assert(out@[j] == rev@[rev@.len() - 1 - j]);
        }
    }
    out
}

} // verus!
