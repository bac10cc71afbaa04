//! The literal parser: classification of the input text, canonicalization of
//! float literals into all-digit strings, and the integer entry points.

use crate::error::ParseError;
use crate::limbs::{digits_to_limbs, hex_to_limbs};
use crate::model::{
    all_dec_digits, dec_value, has_dot, has_exp, has_hex_prefix, is_dec_digit, is_dec_string,
    is_exp_marker, is_first_dot, is_first_exp, lemma_dec_value_prefix_le, lemma_dec_value_snoc,
    lemma_first_dot_idx, lemma_first_exp_idx, result_models, spec_expand_float, spec_parse_integer,
    spec_parse_literal, zero_digits,
};
use vstd::arithmetic::div_mod::lemma_fundamental_div_mod;
use vstd::prelude::*;

verus! {

/// Finds the first decimal point of `s`, if any.
fn find_first_dot(s: &str) -> (r: Option<usize>)
    ensures
        match r {
            Some(i) => is_first_dot(s@, i as int),
            None => !has_dot(s@),
        },
{
    let n = s.unicode_len();
    let mut i: usize = 0;
    while i < n
        invariant
            i <= n,
            n == s@.len(),
            forall|j: int| 0 <= j < i ==> s@[j] != '.',
        decreases n - i,
    {
        let c = s.get_char(i);
        if c == '.' {
            return Some(i);
        }
        i += 1;
    }
    None
}

/// Finds the first exponent marker (`e` or `E`) of `s`, if any.
fn find_first_exp(s: &str) -> (r: Option<usize>)
    ensures
        match r {
            Some(i) => is_first_exp(s@, i as int),
            None => !has_exp(s@),
        },
{
    let n = s.unicode_len();
    let mut i: usize = 0;
    while i < n
        invariant
            i <= n,
            n == s@.len(),
            forall|j: int| 0 <= j < i ==> !is_exp_marker(#[trigger] s@[j]),
        decreases n - i,
    {
        let c = s.get_char(i);
        if c == 'e' || c == 'E' {
            return Some(i);
        }
        i += 1;
    }
    None
}

/// Reads the exponent text `s[start..]` as an unsigned decimal integer that
/// fits the machine word; anything else is a malformed exponent.
fn parse_exponent(s: &str, start: usize) -> (r: Result<usize, ParseError>)
    requires
        start <= s@.len(),
    ensures
        match r {
            Ok(v) => is_dec_string(s@.subrange(start as int, s@.len() as int)) && v == dec_value(
                s@.subrange(start as int, s@.len() as int),
            ),
            Err(e) => e == ParseError::MalformedExponent && !(is_dec_string(
                s@.subrange(start as int, s@.len() as int),
            ) && dec_value(s@.subrange(start as int, s@.len() as int)) <= usize::MAX),
        },
{
    let ghost t = s@.subrange(start as int, s@.len() as int);
    let n = s.unicode_len();
    if start >= n {
        return Err(ParseError::MalformedExponent);
    }
    let mut i: usize = start;
    while i < n
        invariant
            start <= i <= n,
            n == s@.len(),
            t == s@.subrange(start as int, s@.len() as int),
            forall|j: int| start <= j < i ==> is_dec_digit(#[trigger] s@[j]),
        decreases n - i,
    {
        let c = s.get_char(i);
        let u = c as u32;
        if u < 48 || u > 57 {
            assert(t[i - start as int] == s@[i as int]);
            return Err(ParseError::MalformedExponent);
        }
        i += 1;
    }
    assert(is_dec_string(t)) by {
        assert(forall|j: int| 0 <= j < t.len() ==> t[j] == s@[j + start] && is_dec_digit(
            #[trigger] s@[j + start],
        ));
    }
    let mut v: usize = 0;
    let mut i: usize = start;
    proof {
        assert(t.subrange(0, 0) =~= Seq::<char>::empty());
    }
    while i < n
        invariant
            start <= i <= n,
            n == s@.len(),
            t == s@.subrange(start as int, s@.len() as int),
            is_dec_string(t),
            v == dec_value(t.subrange(0, i - start as int)),
        decreases n - i,
    {
        let c = s.get_char(i);
        let u = c as u32;
        assert(t[i - start as int] == s@[i as int]);
        assert(is_dec_digit(s@[i as int]));
        let d: usize = ((u - 48) as u8) as usize;
        proof {
            lemma_dec_value_snoc(t, i - start as int);
            lemma_fundamental_div_mod(usize::MAX - d, 10);
        }
        if v > (usize::MAX - d) / 10 {
            proof {
                lemma_dec_value_prefix_le(t, i + 1 - start as int);
            }
            return Err(ParseError::MalformedExponent);
        }
        v = v * 10 + d;
        i += 1;
    }
    proof {
        assert(t.subrange(0, n - start as int) =~= t);
    }
    Ok(v)
}

/// Decides whether `s[from..to]` is a run of decimal digits (an empty range
/// counts as one).
fn digits_run(s: &str, from: usize, to: usize) -> (r: bool)
    requires
        from <= to <= s@.len(),
    ensures
        r == all_dec_digits(s@.subrange(from as int, to as int)),
{
    let ghost t = s@.subrange(from as int, to as int);
    let mut i: usize = from;
    while i < to
        invariant
            from <= i <= to,
            to <= s@.len(),
            t == s@.subrange(from as int, to as int),
            forall|j: int| from <= j < i ==> is_dec_digit(#[trigger] s@[j]),
        decreases to - i,
    {
        let c = s.get_char(i);
        let u = c as u32;
        if u < 48 || u > 57 {
            assert(t[i - from as int] == s@[i as int]);
            return false;
        }
        i += 1;
    }
    assert(all_dec_digits(t)) by {
        assert(forall|j: int| 0 <= j < t.len() ==> t[j] == s@[j + from] && is_dec_digit(
            #[trigger] s@[j + from],
        ));
    }
    true
}

/// Appends `pad` zero digits to `out`.
fn push_zero_digits(out: &mut String, pad: usize)
    ensures
        final(out)@ == old(out)@ + zero_digits(pad as int),
{
    let mut k: usize = 0;
    proof {
        assert(out@ =~= out@ + zero_digits(0));
    }
    while k < pad
        invariant
            k <= pad,
            out@ == old(out)@ + zero_digits(k as int),
        decreases pad - k,
    {
        out.append("0");
        proof {
            reveal_strlit("0");
            assert(("0")@ =~= seq!['0']);
            assert(old(out)@ + zero_digits(k + 1) =~= (old(out)@ + zero_digits(k as int))
                + seq!['0']);
        }
        k += 1;
    }
}

/// Canonicalizes a float literal — optional integer part, optional `.` and
/// fractional part, optional `e`/`E` and unsigned exponent — into the
/// equivalent all-digit decimal string.
///
/// The integer and fractional parts must be runs of decimal digits (each may
/// be empty); any other residue — a sign included — is an unsupported
/// literal shape, judged before the finer failures. A fractional part
/// survives only when the exponent absorbs every one of its digits;
/// otherwise the literal is rejected rather than rounded. A literal that
/// ends right at its decimal point keeps its integer part.
pub fn expand_float(s: &str) -> (r: Result<String, ParseError>)
    ensures
        match r {
            Ok(t) => spec_expand_float(s@) matches Ok(m) && t@ == m,
            Err(e1) => spec_expand_float(s@) matches Err(e2) && e1 == e2,
        },
{
    let n = s.unicode_len();
    let dot = find_first_dot(s);
    let exp = find_first_exp(s);
    match (dot, exp) {
        (Some(d), Some(ep)) => {
            proof {
                lemma_first_dot_idx(s@, d as int);
                lemma_first_exp_idx(s@, ep as int);
            }
            if ep < d {
                return Err(ParseError::UnsupportedLiteralShape);
            }
            assert(d < ep);
            if !digits_run(s, 0, d) || !digits_run(s, d + 1, ep) {
                return Err(ParseError::UnsupportedLiteralShape);
            }
            let exp_val = match parse_exponent(s, ep + 1) {
                Ok(v) => v,
                Err(e) => {
                    return Err(e);
                },
            };
            let frac_len = ep - d - 1;
            if frac_len > exp_val {
                return Err(ParseError::UnsupportedFraction);
            }
            let int_part = s.substring_char(0, d);
            let frac_part = s.substring_char(d + 1, ep);
            let mut out = int_part.to_owned();
            out.append(frac_part);
            push_zero_digits(&mut out, exp_val - frac_len);
            proof {
                assert(out@ =~= s@.subrange(0, d as int) + s@.subrange(d as int + 1, ep as int)
                    + zero_digits(exp_val - frac_len));
            }
            Ok(out)
        },
        (None, Some(ep)) => {
            proof {
                lemma_first_exp_idx(s@, ep as int);
            }
            if !digits_run(s, 0, ep) {
                return Err(ParseError::UnsupportedLiteralShape);
            }
            let exp_val = match parse_exponent(s, ep + 1) {
                Ok(v) => v,
                Err(e) => {
                    return Err(e);
                },
            };
            let int_part = s.substring_char(0, ep);
            let mut out = int_part.to_owned();
            push_zero_digits(&mut out, exp_val);
            proof {
                assert(out@ =~= s@.subrange(0, ep as int) + zero_digits(exp_val as int));
            }
            Ok(out)
        },
        (Some(d), None) => {
            proof {
                lemma_first_dot_idx(s@, d as int);
            }
            if !digits_run(s, 0, d) || !digits_run(s, d + 1, n) {
                return Err(ParseError::UnsupportedLiteralShape);
            }
            if d + 1 < n {
                return Err(ParseError::UnsupportedFraction);
            }
            Ok(s.substring_char(0, d).to_owned())
        },
        (None, None) => Err(ParseError::UnsupportedLiteralShape),
    }
}

/// Parses an integer literal: a `0x`/`0X` prefix selects hexadecimal, and
/// everything else must be a non-empty run of decimal digits.
pub fn parse_integer(s: &str) -> (r: Result<[u64; 4], ParseError>)
    ensures
        result_models(r, spec_parse_integer(s@)),
{
    let n = s.unicode_len();
    if n >= 2 {
        let c0 = s.get_char(0);
        let c1 = s.get_char(1);
        if c0 == '0' && (c1 == 'x' || c1 == 'X') {
            assert(has_hex_prefix(s@));
            let rest = s.substring_char(2, n);
            return hex_to_limbs(rest);
        }
    }
    assert(!has_hex_prefix(s@));
    digits_to_limbs(s)
}

/// Parses a numeric literal of any supported shape — decimal integer,
/// `0x`/`0X` hexadecimal integer, or decimal float with an unsigned exponent
/// — into four 64-bit limbs, least significant first.
pub fn parse_literal(s: &str) -> (r: Result<[u64; 4], ParseError>)
    ensures
        result_models(r, spec_parse_literal(s@)),
{
    let n = s.unicode_len();
    if n >= 2 {
        let c0 = s.get_char(0);
        let c1 = s.get_char(1);
        if c0 == '0' && (c1 == 'x' || c1 == 'X') {
            assert(has_hex_prefix(s@));
            return parse_integer(s);
        }
    }
    assert(!has_hex_prefix(s@));
    let dot = find_first_dot(s);
    let exp = find_first_exp(s);
    if dot.is_some() || exp.is_some() {
        proof {
            if dot is Some {
                lemma_first_dot_idx(s@, dot->0 as int);
            }
            if exp is Some {
                lemma_first_exp_idx(s@, exp->0 as int);
            }
        }
        match expand_float(s) {
            Ok(t) => digits_to_limbs(t.as_str()),
            Err(e) => Err(e),
        }
    } else {
        digits_to_limbs(s)
    }
}

} // verus!
