//! Decimal literals: their grammar, and the decimal that each one denotes.

use crate::decimal::{Decimal, DecimalView, NumberSign};
use crate::digits::{
    digits_value, is_canonical, lemma_digits_value_concat, lemma_pow10_add, pow10,
};
use crate::error::Error;
use crate::text::to_chars;
use bigdecimal::num_bigint::Sign;
use bigdecimal::BigDecimal;
use vstd::prelude::*;

verus! {

/// One of the ten decimal digits.
pub open spec fn is_digit(c: char) -> bool {
    '0' <= c && c <= '9'
}

/// The number that the digit `c` stands for.
pub open spec fn digit_of(c: char) -> u8 {
    (c as int - '0' as int) as u8
}

/// The numbers that the digits of `s` stand for.
pub open spec fn text_digits(s: Seq<char>) -> Seq<u8> {
    Seq::new(s.len(), |i: int| digit_of(s[i]))
}

/// The end of the longest run of digits of `s` that starts at `i`.
pub open spec fn digits_end(s: Seq<char>, i: int) -> int
    decreases s.len() - i,
{
    if 0 <= i < s.len() && is_digit(s[i]) {
        digits_end(s, i + 1)
    } else {
        i
    }
}

/// 1 where `s` has a sign at `i`, else 0.
pub open spec fn sign_length(s: Seq<char>, i: int) -> int {
    if 0 <= i < s.len() && (s[i] == '+' || s[i] == '-') {
        1
    } else {
        0
    }
}

/// Where the parts of a decimal literal lie in its text.
pub struct Shape {
    /// The literal starts with `-`.
    pub negative: bool,
    /// The digits before the point are at `int_start..int_end`.
    pub int_start: int,
    pub int_end: int,
    /// The digits after the point are at `frac_start..frac_end`.
    pub frac_start: int,
    pub frac_end: int,
    /// The exponent starts with `-`.
    pub exp_negative: bool,
    /// The digits of the exponent are at `exp_start..exp_end`; there are
    /// none where the literal has no exponent.
    pub exp_start: int,
    pub exp_end: int,
}

/// The shape of `s` as a decimal literal: an optional sign, digits, an
/// optional point with digits after it, and an optional exponent made of `e`
/// or `E`, an optional sign and at least one digit. There is at least one
/// digit before or after the point. `None` where `s` is no such literal.
pub open spec fn literal_shape(s: Seq<char>) -> Option<Shape> {
    let int_start = sign_length(s, 0);
    let int_end = digits_end(s, int_start);
    let has_point = int_end < s.len() && s[int_end] == '.';
    let frac_start = if has_point { int_end + 1 } else { int_end };
    let frac_end = if has_point { digits_end(s, frac_start) } else { int_end };
    let has_exp = frac_end < s.len() && (s[frac_end] == 'e' || s[frac_end] == 'E');
    let exp_start = if has_exp { frac_end + 1 + sign_length(s, frac_end + 1) } else { frac_end };
    let exp_end = if has_exp { digits_end(s, exp_start) } else { frac_end };
    if (int_end - int_start) + (frac_end - frac_start) >= 1 && (has_exp ==> exp_end > exp_start)
        && exp_end == s.len() {
        Some(
            Shape {
                negative: s.len() > 0 && s[0] == '-',
                int_start,
                int_end,
                frac_start,
                frac_end,
                exp_negative: has_exp && frac_end + 1 < s.len() && s[frac_end + 1] == '-',
                exp_start,
                exp_end,
            },
        )
    } else {
        None
    }
}

/// The digits of the literal `s` without its point: those before the point,
/// then those after it.
pub open spec fn literal_mantissa(s: Seq<char>) -> Seq<u8>
    recommends
        literal_shape(s) is Some,
{
    let shape = literal_shape(s)->0;
    text_digits(
        s.subrange(shape.int_start, shape.int_end) + s.subrange(shape.frac_start, shape.frac_end),
    )
}

/// The exponent that the literal `s` writes after `e`, or 0.
pub open spec fn literal_exponent(s: Seq<char>) -> int
    recommends
        literal_shape(s) is Some,
{
    let shape = literal_shape(s)->0;
    let written = digits_value(text_digits(s.subrange(shape.exp_start, shape.exp_end)));
    if shape.exp_negative {
        -written
    } else {
        written as int
    }
}

/// The number of digits after the point, less the exponent.
pub open spec fn literal_scale(s: Seq<char>) -> int
    recommends
        literal_shape(s) is Some,
{
    let shape = literal_shape(s)->0;
    (shape.frac_end - shape.frac_start) - literal_exponent(s)
}

/// The sign of the integer that the mantissa of the literal `s` writes.
pub open spec fn literal_sign(s: Seq<char>) -> NumberSign
    recommends
        literal_shape(s) is Some,
{
    if digits_value(literal_mantissa(s)) == 0 {
        NumberSign::NoSign
    } else if literal_shape(s)->0.negative {
        NumberSign::Minus
    } else {
        NumberSign::Plus
    }
}

/// The decimal that the text `s` denotes. Its coefficient is the mantissa
/// read as one integer, with every zero that the text writes; its exponent is
/// the written exponent less the number of digits after the point. `None`
/// where `s` is no decimal literal or the exponent lies outside
/// `-i64::MAX..=i64::MAX`.
pub open spec fn literal_decimal(s: Seq<char>) -> Option<DecimalView> {
    if literal_shape(s) is Some && -i64::MAX <= literal_scale(s) <= i64::MAX {
        Some(
            DecimalView {
                sign: if literal_sign(s) == NumberSign::Minus { -1 } else { 1 },
                coefficient: digits_value(literal_mantissa(s)) as int,
                exponent: -literal_scale(s),
            },
        )
    } else {
        None
    }
}

/// The number that the literal `s` writes, times ten to the power `k`, read
/// digit by digit: the digits before the point count units, those after it
/// count fractions, and the exponent shifts both.
pub open spec fn literal_scaled(s: Seq<char>, k: int) -> int
    recommends
        literal_shape(s) is Some,
        k - literal_scale(s) >= 0,
{
    let shape = literal_shape(s)->0;
    let whole = digits_value(text_digits(s.subrange(shape.int_start, shape.int_end)));
    let fraction = digits_value(text_digits(s.subrange(shape.frac_start, shape.frac_end)));
    let shift = k + literal_exponent(s);
    let magnitude = whole * pow10(shift as nat) + fraction * pow10(
        (shift - (shape.frac_end - shape.frac_start)) as nat,
    );
    if shape.negative {
        -magnitude
    } else {
        magnitude as int
    }
}

/// A run of digits ends between its start and the end of the text.
pub proof fn lemma_digits_end_bounds(s: Seq<char>, i: int)
    requires
        0 <= i <= s.len(),
    ensures
        i <= digits_end(s, i) <= s.len(),
    decreases s.len() - i,
{
    if i < s.len() && is_digit(s[i]) {
        lemma_digits_end_bounds(s, i + 1);
    }
}

/// The decimal of a literal is exactly the number that the literal writes,
/// however many digits it has: scaled by any power of ten that makes both
/// integers, the two are the same integer.
pub proof fn lemma_literal_value_exact(s: Seq<char>, k: int)
    requires
        literal_decimal(s) is Some,
        k + literal_decimal(s)->0.exponent >= 0,
    ensures
        literal_decimal(s)->0.scaled(k) == literal_scaled(s, k),
{
    let shape = literal_shape(s)->0;
    let whole_text = s.subrange(shape.int_start, shape.int_end);
    let fraction_text = s.subrange(shape.frac_start, shape.frac_end);
    let whole = digits_value(text_digits(whole_text));
    let fraction = digits_value(text_digits(fraction_text));
    lemma_digits_end_bounds(s, shape.int_start);
    if shape.frac_start > shape.int_end {
        lemma_digits_end_bounds(s, shape.frac_start);
    }
    let places = (shape.frac_end - shape.frac_start) as nat;
    assert(text_digits(whole_text + fraction_text) =~= text_digits(whole_text) + text_digits(
        fraction_text,
    ));
    lemma_digits_value_concat(text_digits(whole_text), text_digits(fraction_text));
    let coefficient = digits_value(literal_mantissa(s));
    assert(coefficient == whole * pow10(places) + fraction);
    let low = (k + literal_exponent(s) - places) as nat;
    lemma_pow10_add(places, low);
    assert(pow10((k + literal_exponent(s)) as nat) == pow10(places) * pow10(low));
    assert((whole * pow10(places) + fraction) * pow10(low) == whole * (pow10(places) * pow10(low))
        + fraction * pow10(low)) by (nonlinear_arith);
    let decimal = literal_decimal(s)->0;
    assert(decimal.exponent + k == low);
    let magnitude = coefficient * pow10(low);
    if decimal.sign == -1 {
        assert(decimal.sign * decimal.coefficient * pow10(low) == -magnitude) by (nonlinear_arith)
            requires
                decimal.sign == -1,
                decimal.coefficient == coefficient,
                magnitude == coefficient * pow10(low),
        ;
    } else {
        assert(decimal.sign * decimal.coefficient * pow10(low) == magnitude) by (nonlinear_arith)
            requires
                decimal.sign == 1,
                decimal.coefficient == coefficient,
                magnitude == coefficient * pow10(low),
        ;
        if shape.negative {
            assert(coefficient == 0);
            assert(magnitude == 0) by (nonlinear_arith)
                requires
                    coefficient == 0,
                    magnitude == coefficient * pow10(low),
            ;
        }
    }
}

/// The end of the run of digits of `s` that starts at `i`.
pub(crate) fn scan_digits(s: &[char], i: usize) -> (j: usize)
    requires
        i <= s.len(),
    ensures
        j == digits_end(s@, i as int),
        i <= j <= s.len(),
{
    let mut j = i;
    while j < s.len() && s[j] >= '0' && s[j] <= '9'
        invariant
            i <= j <= s.len(),
            digits_end(s@, i as int) == digits_end(s@, j as int),
        decreases s.len() - j,
    {
        j += 1;
    }
    j
}

/// Whether `s` has a sign at `i`.
fn has_sign(s: &[char], i: usize) -> (r: bool)
    ensures
        r == (sign_length(s@, i as int) == 1),
{
    i < s.len() && (s[i] == '+' || s[i] == '-')
}

/// Whether `s` is a decimal literal.
pub fn is_decimal_literal(s: &[char]) -> (ok: bool)
    ensures
        ok == literal_shape(s@) is Some,
{
    let int_start: usize = if has_sign(s, 0) { 1 } else { 0 };
    let int_end = scan_digits(s, int_start);
    let has_point = int_end < s.len() && s[int_end] == '.';
    let frac_start = if has_point { int_end + 1 } else { int_end };
    let frac_end = if has_point { scan_digits(s, frac_start) } else { int_end };
    if (int_end - int_start) + (frac_end - frac_start) == 0 {
        return false;
    }
    if frac_end < s.len() && (s[frac_end] == 'e' || s[frac_end] == 'E') {
        let exp_start = if has_sign(s, frac_end + 1) { frac_end + 2 } else { frac_end + 1 };
        let exp_end = scan_digits(s, exp_start);
        exp_end > exp_start && exp_end == s.len()
    } else {
        frac_end == s.len()
    }
}

/// `BigDecimal::from_str`, with `BigDecimal::into_bigint_and_exponent` and
/// `BigInt::to_radix_be` to read the result. Of a decimal literal the parser
/// reads the mantissa as one integer, whose sign is that of the literal and
/// is `NoSign` for zero, and sets the scale to the number of digits after the
/// point less the exponent; it fails exactly where that scale does not fit
/// in an `i64`. The digits come back canonical.
#[verifier::external_body]
fn big_decimal_parts(literal: &[char]) -> (r: Option<(NumberSign, Vec<u8>, i64)>)
    requires
        literal_shape(literal@) is Some,
    ensures
        r is Some <==> i64::MIN <= literal_scale(literal@) <= i64::MAX,
        r matches Some((sign, magnitude, scale)) ==> {
            &&& sign == literal_sign(literal@)
            &&& is_canonical(magnitude@)
            &&& digits_value(magnitude@) == digits_value(literal_mantissa(literal@))
            &&& scale == literal_scale(literal@)
        },
{
    let text: String = literal.iter().collect();
    match text.parse::<BigDecimal>() {
        Ok(number) => {
            let (unscaled, scale) = number.into_bigint_and_exponent();
            let (sign, magnitude) = unscaled.to_radix_be(10);
            let sign = match sign {
                Sign::Minus => NumberSign::Minus,
                Sign::NoSign => NumberSign::NoSign,
                Sign::Plus => NumberSign::Plus,
            };
            Some((sign, magnitude, scale))
        },
        Err(_) => None,
    }
}

/// The decimal that the literal denotes: `literal_decimal` says which, and
/// it is exactly the number that the literal writes. Fails with
/// `InvalidDecimal` where `literal_decimal` says `None`.
pub fn normalize(literal: &[char]) -> (r: Result<Decimal, Error>)
    ensures
        match literal_decimal(literal@) {
            Some(view) => r matches Ok(d) && d@ == view,
            None => r == Err::<Decimal, Error>(Error::InvalidDecimal),
        },
        r matches Ok(d) ==> forall|k: int|
            k + d@.exponent >= 0 ==> #[trigger] d@.scaled(k) == literal_scaled(literal@, k),
{
    proof {
        if literal_decimal(literal@) is Some {
            let view = literal_decimal(literal@)->0;
            assert forall|k: int| k + view.exponent >= 0 implies #[trigger] view.scaled(k)
                == literal_scaled(literal@, k) by {
                lemma_literal_value_exact(literal@, k);
            }
        }
    }
    if !is_decimal_literal(literal) {
        return Err(Error::InvalidDecimal);
    }
    match big_decimal_parts(literal) {
        Some((sign, magnitude, scale)) => Decimal::from_parts(sign, magnitude, scale),
        None => Err(Error::InvalidDecimal),
    }
}

/// The decimal that the text `input` denotes, as `normalize` gives it.
pub fn make_decimal(input: &str) -> (r: Result<Decimal, Error>)
    ensures
        match literal_decimal(input@) {
            Some(view) => r matches Ok(d) && d@ == view,
            None => r == Err::<Decimal, Error>(Error::InvalidDecimal),
        },
        r matches Ok(d) ==> forall|k: int|
            k + d@.exponent >= 0 ==> #[trigger] d@.scaled(k) == literal_scaled(input@, k),
{
    let chars = to_chars(input);
    normalize(chars.as_slice())
}

} // verus!
