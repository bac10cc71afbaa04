//! Laws that relate the parsing functions to each other: a limb array
//! determines its value uniquely, hexadecimal and decimal spellings of one
//! value produce identical limbs, and rendering parsed limbs back to decimal
//! recovers the input digits up to leading zeros.

use crate::model::{
    all_dec_digits, dec_digit_val, dec_value, hex_value, is_dec_string, is_hex_string,
    lemma_char_eq_iff_u32, lemma_dec_value_leading_nonzero, lemma_dec_value_nonneg,
    lemma_dec_value_prepend, lemma_pow10_pos, limbs_val, pow10, strip_leading_zeros,
};
use vstd::arithmetic::div_mod::{
    lemma_fundamental_div_mod_converse_div, lemma_fundamental_div_mod_converse_mod,
};
use vstd::prelude::*;

verus! {

broadcast use vstd::array::axiom_array_ext_equal;

/// A 256-bit value has exactly one four-limb representation: two limb arrays
/// that reassemble to the same value are the same array.
pub proof fn lemma_limbs_val_injective(a: [u64; 4], b: [u64; 4])
    requires
        limbs_val(a) == limbs_val(b),
    ensures
        a == b,
{
    let base = 0x1_0000_0000_0000_0000int;
    let v = limbs_val(a);
    let qa = a[1] + a[2] * base + a[3] * base * base;
    let qb = b[1] + b[2] * base + b[3] * base * base;
    lemma_fundamental_div_mod_converse_mod(v, base, qa, a[0] as int);
    lemma_fundamental_div_mod_converse_div(v, base, qa, a[0] as int);
    lemma_fundamental_div_mod_converse_mod(v, base, qb, b[0] as int);
    lemma_fundamental_div_mod_converse_div(v, base, qb, b[0] as int);
    assert(a[0] == b[0] && qa == qb);
    let qa2 = a[2] + a[3] * base;
    let qb2 = b[2] + b[3] * base;
    lemma_fundamental_div_mod_converse_mod(qa, base, qa2, a[1] as int);
    lemma_fundamental_div_mod_converse_div(qa, base, qa2, a[1] as int);
    lemma_fundamental_div_mod_converse_mod(qb, base, qb2, b[1] as int);
    lemma_fundamental_div_mod_converse_div(qb, base, qb2, b[1] as int);
    assert(a[1] == b[1] && qa2 == qb2);
    lemma_fundamental_div_mod_converse_mod(qa2, base, a[3] as int, a[2] as int);
    lemma_fundamental_div_mod_converse_div(qa2, base, a[3] as int, a[2] as int);
    lemma_fundamental_div_mod_converse_mod(qb2, base, b[3] as int, b[2] as int);
    lemma_fundamental_div_mod_converse_div(qb2, base, b[3] as int, b[2] as int);
    assert(a[2] == b[2] && a[3] == b[3]);
    assert(a =~= b);
}

/// Hexadecimal and decimal spellings of one value parse to identical limb
/// arrays: the limbs are fixed by the value alone, however it was written.
pub proof fn lemma_hex_dec_same_limbs(h: Seq<char>, d: Seq<char>, lh: [u64; 4], ld: [u64; 4])
    requires
        is_hex_string(h),
        is_dec_string(d),
        hex_value(h) == dec_value(d),
        limbs_val(lh) == hex_value(h),
        limbs_val(ld) == dec_value(d),
    ensures
        lh == ld,
{
    lemma_limbs_val_injective(lh, ld);
}

/// Stripping leading zeros does not change the value a digit string denotes.
pub proof fn lemma_strip_preserves_value(s: Seq<char>)
    ensures
        dec_value(strip_leading_zeros(s)) == dec_value(s),
    decreases s.len(),
{
    if s.len() > 1 && s[0] == '0' {
        assert(s =~= seq![s[0]] + s.drop_first());
        lemma_dec_value_prepend(s[0], s.drop_first());
        assert(dec_digit_val(s[0]) == 0);
        let p = pow10(s.drop_first().len());
        assert(dec_digit_val(s[0]) * p == 0) by (nonlinear_arith)
            requires
                dec_digit_val(s[0]) == 0,
        ;
        lemma_strip_preserves_value(s.drop_first());
    }
}

/// Stripping leading zeros from a digit string leaves a canonical digit
/// string: non-empty, and with no leading zero unless it is the single `0`.
pub proof fn lemma_strip_shape(s: Seq<char>)
    requires
        is_dec_string(s),
    ensures
        is_dec_string(strip_leading_zeros(s)),
        strip_leading_zeros(s).len() > 1 ==> strip_leading_zeros(s)[0] != '0',
    decreases s.len(),
{
    if s.len() > 1 && s[0] == '0' {
        assert(all_dec_digits(s.drop_first()));
        lemma_strip_shape(s.drop_first());
    }
}

/// Two canonical decimal digit strings with equal values are equal: the
/// decimal rendering of a value is unique.
pub proof fn lemma_canonical_digits_unique(a: Seq<char>, b: Seq<char>)
    requires
        is_dec_string(a),
        is_dec_string(b),
        a.len() > 1 ==> a[0] != '0',
        b.len() > 1 ==> b[0] != '0',
        dec_value(a) == dec_value(b),
    ensures
        a == b,
    decreases a.len(),
{
    let v = dec_value(a);
    if a.len() == 1 && b.len() == 1 {
        assert(a.drop_last() =~= Seq::<char>::empty());
        assert(b.drop_last() =~= Seq::<char>::empty());
        assert(dec_value(Seq::<char>::empty()) == 0);
        assert(dec_digit_val(a[0]) == dec_digit_val(b[0]));
        lemma_char_eq_iff_u32(a[0], b[0]);
        assert(a =~= b);
    } else if a.len() == 1 {
        assert(a.drop_last() =~= Seq::<char>::empty());
        assert(dec_value(Seq::<char>::empty()) == 0);
        assert(v <= 9);
        lemma_dec_value_leading_nonzero(b);
        lemma_pow10_pos((b.len() - 2) as nat);
        assert(pow10((b.len() - 1) as nat) == 10 * pow10((b.len() - 2) as nat));
        assert(false);
    } else if b.len() == 1 {
        assert(b.drop_last() =~= Seq::<char>::empty());
        assert(dec_value(Seq::<char>::empty()) == 0);
        assert(v <= 9);
        lemma_dec_value_leading_nonzero(a);
        lemma_pow10_pos((a.len() - 2) as nat);
        assert(pow10((a.len() - 1) as nat) == 10 * pow10((a.len() - 2) as nat));
        assert(false);
    } else {
        let a1 = a.drop_last();
        let b1 = b.drop_last();
        assert(all_dec_digits(a1) && all_dec_digits(b1));
        lemma_dec_value_nonneg(a1);
        lemma_dec_value_nonneg(b1);
        lemma_fundamental_div_mod_converse_mod(v, 10, dec_value(a1), dec_digit_val(a.last()));
        lemma_fundamental_div_mod_converse_div(v, 10, dec_value(a1), dec_digit_val(a.last()));
        lemma_fundamental_div_mod_converse_mod(v, 10, dec_value(b1), dec_digit_val(b.last()));
        lemma_fundamental_div_mod_converse_div(v, 10, dec_value(b1), dec_digit_val(b.last()));
        assert(dec_digit_val(a.last()) == dec_digit_val(b.last()));
        lemma_char_eq_iff_u32(a.last(), b.last());
        assert(dec_value(a1) == dec_value(b1));
        assert(a1[0] == a[0] && b1[0] == b[0]);
        lemma_canonical_digits_unique(a1, b1);
        assert(a.len() == b.len());
        assert forall|i: int| 0 <= i < a.len() implies a[i] == b[i] by {
            if i < a.len() - 1 {
                assert(a[i] == a1[i]);
                assert(b[i] == b1[i]);
            } else {
                assert(a[i] == a.last());
                assert(b[i] == b.last());
            }
        }
        assert(a =~= b);
    }
}

/// The round trip: limbs produced from a decimal digit string, rendered back
/// to decimal in canonical form, give the original digits with leading zeros
/// stripped. The hypotheses are exactly what the conversions ensure: the
/// limbs reassemble to the input's value, and the rendering is a canonical
/// digit string of that same value.
pub proof fn lemma_decimal_round_trip(d: Seq<char>, l: [u64; 4], out: Seq<char>)
    requires
        is_dec_string(d),
        limbs_val(l) == dec_value(d),
        is_dec_string(out),
        dec_value(out) == limbs_val(l),
        out.len() > 1 ==> out[0] != '0',
    ensures
        out == strip_leading_zeros(d),
{
    lemma_strip_preserves_value(d);
    lemma_strip_shape(d);
    lemma_canonical_digits_unique(out, strip_leading_zeros(d));
}

} // verus!
