//! The mathematical model of literal parsing: what a digit string denotes,
//! what a limb array denotes, and the exact outcome every parsing function
//! must produce for every input.

use crate::error::ParseError;
use vstd::prelude::*;

verus! {

// ---------------------------------------------------------------------------
// Digits and their values
// ---------------------------------------------------------------------------

pub open spec fn is_dec_digit(c: char) -> bool {
    48 <= c as u32 <= 57
}

pub open spec fn dec_digit_val(c: char) -> int {
    c as u32 - 48
}

pub open spec fn is_hex_digit(c: char) -> bool {
    is_dec_digit(c) || (97 <= c as u32 <= 102) || (65 <= c as u32 <= 70)
}

pub open spec fn hex_digit_val(c: char) -> int {
    if is_dec_digit(c) {
        dec_digit_val(c)
    } else if 97 <= c as u32 <= 102 {
        c as u32 - 87
    } else {
        c as u32 - 55
    }
}

pub open spec fn all_dec_digits(s: Seq<char>) -> bool {
    forall|i: int| 0 <= i < s.len() ==> is_dec_digit(#[trigger] s[i])
}

pub open spec fn all_hex_digits(s: Seq<char>) -> bool {
    forall|i: int| 0 <= i < s.len() ==> is_hex_digit(#[trigger] s[i])
}

/// A non-empty string of decimal digits.
pub open spec fn is_dec_string(s: Seq<char>) -> bool {
    s.len() >= 1 && all_dec_digits(s)
}

/// A non-empty string of hexadecimal digits.
pub open spec fn is_hex_string(s: Seq<char>) -> bool {
    s.len() >= 1 && all_hex_digits(s)
}

/// The value of a decimal digit string, most significant digit first.
pub open spec fn dec_value(s: Seq<char>) -> int
    decreases s.len(),
{
    if s.len() == 0 {
        0
    } else {
        dec_value(s.drop_last()) * 10 + dec_digit_val(s.last())
    }
}

/// The value of a hexadecimal digit string, most significant digit first.
pub open spec fn hex_value(s: Seq<char>) -> int
    decreases s.len(),
{
    if s.len() == 0 {
        0
    } else {
        hex_value(s.drop_last()) * 16 + hex_digit_val(s.last())
    }
}

// ---------------------------------------------------------------------------
// Limb arrays
// ---------------------------------------------------------------------------

/// The value represented by four 64-bit limbs, least significant first.
pub open spec fn limbs_val(l: [u64; 4]) -> int {
    l[0] + l[1] * 0x1_0000_0000_0000_0000int + l[2]
        * 0x1_0000_0000_0000_0000_0000_0000_0000_0000int + l[3]
        * 0x1_0000_0000_0000_0000_0000_0000_0000_0000_0000_0000_0000_0000int
}

/// The first value that does not fit in four limbs: `2^256`.
pub open spec fn u256_bound() -> int {
    0x1_0000_0000_0000_0000_0000_0000_0000_0000_0000_0000_0000_0000_0000_0000_0000_0000int
}

// ---------------------------------------------------------------------------
// Literal shapes
// ---------------------------------------------------------------------------

/// The input opens with `0x` or `0X`.
pub open spec fn has_hex_prefix(s: Seq<char>) -> bool {
    s.len() >= 2 && s[0] == '0' && (s[1] == 'x' || s[1] == 'X')
}

pub open spec fn has_dot(s: Seq<char>) -> bool {
    exists|i: int| 0 <= i < s.len() && s[i] == '.'
}

pub open spec fn is_exp_marker(c: char) -> bool {
    c == 'e' || c == 'E'
}

pub open spec fn has_exp(s: Seq<char>) -> bool {
    exists|i: int| 0 <= i < s.len() && is_exp_marker(#[trigger] s[i])
}

/// `i` is the position of the first decimal point in `s`.
pub open spec fn is_first_dot(s: Seq<char>, i: int) -> bool {
    0 <= i < s.len() && s[i] == '.' && forall|j: int| 0 <= j < i ==> s[j] != '.'
}

/// `i` is the position of the first exponent marker in `s`.
pub open spec fn is_first_exp(s: Seq<char>, i: int) -> bool {
    0 <= i < s.len() && is_exp_marker(s[i]) && forall|j: int| 0 <= j < i ==> !is_exp_marker(
        #[trigger] s[j],
    )
}

pub open spec fn dot_idx(s: Seq<char>) -> int {
    choose|i: int| is_first_dot(s, i)
}

pub open spec fn exp_idx(s: Seq<char>) -> int {
    choose|i: int| is_first_exp(s, i)
}

/// A run of `n` zero digits.
pub open spec fn zero_digits(n: int) -> Seq<char> {
    Seq::new(n as nat, |i: int| '0')
}

// ---------------------------------------------------------------------------
// The intended outcome of each parsing function
// ---------------------------------------------------------------------------

/// The outcome of converting a would-be decimal digit string: its value when
/// it fits, `Overflow` when it does not, and `UnsupportedLiteralShape` when
/// the text is not a non-empty run of decimal digits.
pub open spec fn spec_digits_result(s: Seq<char>) -> Result<int, ParseError> {
    if is_dec_string(s) {
        if dec_value(s) < u256_bound() {
            Ok(dec_value(s))
        } else {
            Err(ParseError::Overflow)
        }
    } else {
        Err(ParseError::UnsupportedLiteralShape)
    }
}

/// The outcome of converting a would-be hexadecimal digit string.
pub open spec fn spec_hex_result(s: Seq<char>) -> Result<int, ParseError> {
    if is_hex_string(s) {
        if hex_value(s) < u256_bound() {
            Ok(hex_value(s))
        } else {
            Err(ParseError::Overflow)
        }
    } else {
        Err(ParseError::UnsupportedLiteralShape)
    }
}

/// The outcome of parsing an integer literal: hexadecimal after a `0x`/`0X`
/// prefix, plain decimal otherwise.
pub open spec fn spec_parse_integer(s: Seq<char>) -> Result<int, ParseError> {
    if has_hex_prefix(s) {
        spec_hex_result(s.subrange(2, s.len() as int))
    } else {
        spec_digits_result(s)
    }
}

/// The outcome of canonicalizing a float literal into an all-digit string.
///
/// The shape is judged first: the integer and fractional parts must be runs
/// of decimal digits (each may be empty), so any other residue — a sign
/// included — is `UnsupportedLiteralShape`. Only then come the finer
/// failures: the exponent text must be an unsigned decimal integer no larger
/// than the machine word allows, and with both a point and an exponent
/// marker the fractional digits must be absorbed by the exponent, while with
/// a point alone the fractional part must be empty.
pub open spec fn spec_expand_float(s: Seq<char>) -> Result<Seq<char>, ParseError> {
    if has_dot(s) && has_exp(s) {
        let d = dot_idx(s);
        let e = exp_idx(s);
        if e < d || !all_dec_digits(s.subrange(0, d)) || !all_dec_digits(s.subrange(d + 1, e)) {
            Err(ParseError::UnsupportedLiteralShape)
        } else {
            let expt = s.subrange(e + 1, s.len() as int);
            if !is_dec_string(expt) || dec_value(expt) > usize::MAX as int {
                Err(ParseError::MalformedExponent)
            } else if e - d - 1 > dec_value(expt) {
                Err(ParseError::UnsupportedFraction)
            } else {
                Ok(s.subrange(0, d) + s.subrange(d + 1, e) + zero_digits(
                    dec_value(expt) - (e - d - 1),
                ))
            }
        }
    } else if has_exp(s) {
        let e = exp_idx(s);
        if !all_dec_digits(s.subrange(0, e)) {
            Err(ParseError::UnsupportedLiteralShape)
        } else {
            let expt = s.subrange(e + 1, s.len() as int);
            if !is_dec_string(expt) || dec_value(expt) > usize::MAX as int {
                Err(ParseError::MalformedExponent)
            } else {
                Ok(s.subrange(0, e) + zero_digits(dec_value(expt)))
            }
        }
    } else if has_dot(s) {
        let d = dot_idx(s);
        if !all_dec_digits(s.subrange(0, d)) || !all_dec_digits(
            s.subrange(d + 1, s.len() as int),
        ) {
            Err(ParseError::UnsupportedLiteralShape)
        } else if d + 1 < s.len() {
            Err(ParseError::UnsupportedFraction)
        } else {
            Ok(s.subrange(0, d))
        }
    } else {
        Err(ParseError::UnsupportedLiteralShape)
    }
}

/// The outcome of the dispatching entry point: hexadecimal literals go to the
/// integer parser, literals with a point or exponent marker are expanded and
/// then converted as decimal digit strings, and everything else is a plain
/// decimal integer.
pub open spec fn spec_parse_literal(s: Seq<char>) -> Result<int, ParseError> {
    if has_hex_prefix(s) {
        spec_parse_integer(s)
    } else if has_dot(s) || has_exp(s) {
        match spec_expand_float(s) {
            Ok(t) => spec_digits_result(t),
            Err(e) => Err(e),
        }
    } else {
        spec_digits_result(s)
    }
}

/// An executable parse result matches the model when it succeeds exactly when
/// the model does, its limbs reassemble to the model's value, and it reports
/// the model's error.
pub open spec fn result_models(r: Result<[u64; 4], ParseError>, m: Result<int, ParseError>) -> bool {
    match r {
        Ok(l) => m matches Ok(v) && limbs_val(l) == v,
        Err(e1) => m matches Err(e2) && e1 == e2,
    }
}

/// `s` with leading zeros stripped; a single `0` stands for the value zero.
pub open spec fn strip_leading_zeros(s: Seq<char>) -> Seq<char>
    decreases s.len(),
{
    if s.len() > 1 && s[0] == '0' {
        strip_leading_zeros(s.drop_first())
    } else {
        s
    }
}

/// `s` read back to front.
pub open spec fn reversed(s: Seq<char>) -> Seq<char> {
    Seq::new(s.len(), |j: int| s[s.len() - 1 - j])
}

/// `10^k`.
pub open spec fn pow10(k: nat) -> int
    decreases k,
{
    if k == 0 {
        1
    } else {
        10 * pow10((k - 1) as nat)
    }
}

// ---------------------------------------------------------------------------
// Facts about digit-string values
// ---------------------------------------------------------------------------

/// A witness for the first decimal point pins down `dot_idx`.
pub proof fn lemma_first_dot_idx(s: Seq<char>, i: int)
    requires
        is_first_dot(s, i),
    ensures
        has_dot(s),
        dot_idx(s) == i,
{
    assert(has_dot(s));
    let k = dot_idx(s);
    assert(is_first_dot(s, k));
    if k < i {
        assert(s[k] == '.');
        assert(false);
    } else if i < k {
        assert(s[i] == '.');
        assert(false);
    }
}

/// A witness for the first exponent marker pins down `exp_idx`.
pub proof fn lemma_first_exp_idx(s: Seq<char>, i: int)
    requires
        is_first_exp(s, i),
    ensures
        has_exp(s),
        exp_idx(s) == i,
{
    assert(has_exp(s));
    let k = exp_idx(s);
    assert(is_first_exp(s, k));
    if k < i {
        assert(is_exp_marker(s[k]));
        assert(false);
    } else if i < k {
        assert(is_exp_marker(s[i]));
        assert(false);
    }
}

/// Two characters are equal exactly when their scalar values are.
pub proof fn lemma_char_eq_iff_u32(a: char, b: char)
    ensures
        (a == b) <==> (a as u32 == b as u32),
{
    if a as u32 == b as u32 {
        vstd::utf8::char_u32_cast(a, a as u32);
        vstd::utf8::char_u32_cast(b, b as u32);
    }
}

pub proof fn lemma_dec_value_nonneg(s: Seq<char>)
    requires
        all_dec_digits(s),
    ensures
        dec_value(s) >= 0,
    decreases s.len(),
{
    if s.len() > 0 {
        assert(all_dec_digits(s.drop_last()));
        lemma_dec_value_nonneg(s.drop_last());
    }
}

pub proof fn lemma_hex_value_nonneg(s: Seq<char>)
    requires
        all_hex_digits(s),
    ensures
        hex_value(s) >= 0,
    decreases s.len(),
{
    if s.len() > 0 {
        assert(all_hex_digits(s.drop_last()));
        lemma_hex_value_nonneg(s.drop_last());
    }
}

/// Extending a prefix by one digit multiplies its value by ten and adds it.
pub proof fn lemma_dec_value_snoc(s: Seq<char>, i: int)
    requires
        0 <= i < s.len(),
    ensures
        dec_value(s.subrange(0, i + 1)) == dec_value(s.subrange(0, i)) * 10 + dec_digit_val(s[i]),
{
    assert(s.subrange(0, i + 1).drop_last() =~= s.subrange(0, i));
    assert(s.subrange(0, i + 1).last() == s[i]);
}

pub proof fn lemma_hex_value_snoc(s: Seq<char>, i: int)
    requires
        0 <= i < s.len(),
    ensures
        hex_value(s.subrange(0, i + 1)) == hex_value(s.subrange(0, i)) * 16 + hex_digit_val(s[i]),
{
    assert(s.subrange(0, i + 1).drop_last() =~= s.subrange(0, i));
    assert(s.subrange(0, i + 1).last() == s[i]);
}

/// The value of a prefix of a digit string never exceeds the whole.
pub proof fn lemma_dec_value_prefix_le(s: Seq<char>, i: int)
    requires
        all_dec_digits(s),
        0 <= i <= s.len(),
    ensures
        dec_value(s.subrange(0, i)) <= dec_value(s),
    decreases s.len() - i,
{
    if i == s.len() {
        assert(s.subrange(0, i) =~= s);
    } else {
        lemma_dec_value_snoc(s, i);
        assert(all_dec_digits(s.subrange(0, i)));
        lemma_dec_value_nonneg(s.subrange(0, i));
        lemma_dec_value_prefix_le(s, i + 1);
    }
}

pub proof fn lemma_hex_value_prefix_le(s: Seq<char>, i: int)
    requires
        all_hex_digits(s),
        0 <= i <= s.len(),
    ensures
        hex_value(s.subrange(0, i)) <= hex_value(s),
    decreases s.len() - i,
{
    if i == s.len() {
        assert(s.subrange(0, i) =~= s);
    } else {
        lemma_hex_value_snoc(s, i);
        assert(all_hex_digits(s.subrange(0, i)));
        lemma_hex_value_nonneg(s.subrange(0, i));
        lemma_hex_value_prefix_le(s, i + 1);
    }
}

pub proof fn lemma_pow10_pos(k: nat)
    ensures
        pow10(k) >= 1,
    decreases k,
{
    if k > 0 {
        lemma_pow10_pos((k - 1) as nat);
    }
}

/// Prepending a digit adds its value scaled by ten to the power of the rest.
pub proof fn lemma_dec_value_prepend(c: char, t: Seq<char>)
    ensures
        dec_value(seq![c] + t) == dec_digit_val(c) * pow10(t.len()) + dec_value(t),
    decreases t.len(),
{
    if t.len() == 0 {
        assert(seq![c] + t =~= seq![c]);
        assert(seq![c].drop_last() =~= Seq::<char>::empty());
        assert(dec_value(Seq::<char>::empty()) == 0);
        assert(dec_value(seq![c]) == dec_digit_val(c));
    } else {
        let u = seq![c] + t;
        assert(u.drop_last() =~= seq![c] + t.drop_last());
        assert(u.last() == t.last());
        lemma_dec_value_prepend(c, t.drop_last());
        let p = pow10((t.len() - 1) as nat);
        assert(dec_value(u) == (dec_digit_val(c) * p + dec_value(t.drop_last())) * 10
            + dec_digit_val(t.last()));
        assert((dec_digit_val(c) * p + dec_value(t.drop_last())) * 10 == dec_digit_val(c) * (p * 10)
            + dec_value(t.drop_last()) * 10) by (nonlinear_arith);
        assert(pow10(t.len()) == p * 10);
    }
}

/// A string of `n` digits denotes less than `10^n`.
pub proof fn lemma_dec_value_lt_pow10(s: Seq<char>)
    requires
        all_dec_digits(s),
    ensures
        dec_value(s) < pow10(s.len()),
    decreases s.len(),
{
    if s.len() > 0 {
        assert(all_dec_digits(s.drop_last()));
        lemma_dec_value_lt_pow10(s.drop_last());
        assert(is_dec_digit(s.last()));
        let v = dec_value(s.drop_last());
        let p = pow10((s.len() - 1) as nat);
        assert(v <= p - 1);
        lemma_pow10_pos((s.len() - 1) as nat);
        assert(v * 10 <= (p - 1) * 10) by (nonlinear_arith)
            requires
                v <= p - 1,
        ;
    }
}

/// A digit string that does not open with `0` denotes at least
/// ten to the power of its remaining length.
pub proof fn lemma_dec_value_leading_nonzero(s: Seq<char>)
    requires
        all_dec_digits(s),
        s.len() >= 1,
        s[0] != '0',
    ensures
        dec_value(s) >= pow10((s.len() - 1) as nat),
{
    assert(s =~= seq![s[0]] + s.drop_first());
    lemma_dec_value_prepend(s[0], s.drop_first());
    assert(all_dec_digits(s.drop_first()));
    lemma_dec_value_nonneg(s.drop_first());
    let p = pow10((s.len() - 1) as nat);
    lemma_pow10_pos((s.len() - 1) as nat);
    assert(is_dec_digit(s[0]));
    lemma_char_eq_iff_u32(s[0], '0');
    assert(dec_digit_val(s[0]) >= 1);
    assert(dec_digit_val(s[0]) * p >= p) by (nonlinear_arith)
        requires
            dec_digit_val(s[0]) >= 1,
            p >= 1,
    ;
    assert(s.drop_first().len() == s.len() - 1);
}

} // verus!
