//! Exact decimal numbers as sign, coefficient and exponent.

use crate::digits::{
    digits_value, is_canonical, lemma_canonical_unique, lemma_nat_digits, lemma_pow10_add,
    lemma_pow10_positive, lemma_scaled_equal, lemma_significant, lemma_zero_digits, nat_digits,
    pow10, significant, trailing_zeros,
};
use crate::error::Error;
use vstd::prelude::*;
use vstd::std_specs::cmp::PartialEqSpecImpl;

verus! {

/// The sign of a big integer.
#[derive(Clone, Copy, Debug, PartialEq, Eq, Structural)]
pub enum NumberSign {
    Minus,
    NoSign,
    Plus,
}

/// The mathematical content of a `Decimal`: it stands for
/// `sign * coefficient * 10^exponent`.
pub struct DecimalView {
    pub sign: int,
    pub coefficient: int,
    pub exponent: int,
}

impl DecimalView {
    /// The coefficient is not negative; the sign is 1 or -1, and 1 for zero.
    pub open spec fn is_normal(self) -> bool {
        &&& self.coefficient >= 0
        &&& self.sign == 1 || self.sign == -1
        &&& self.coefficient == 0 ==> self.sign == 1
    }

    /// The number times ten to the power `k`, which is an integer where `k`
    /// makes up for the exponent.
    pub open spec fn scaled(self, k: int) -> int
        recommends
            self.exponent + k >= 0,
    {
        self.sign * self.coefficient * pow10((self.exponent + k) as nat)
    }

    /// Both stand for the same number.
    pub open spec fn same_value(self, other: DecimalView) -> bool {
        let k = if self.exponent < other.exponent {
            -self.exponent
        } else {
            -other.exponent
        };
        self.scaled(k) == other.scaled(k)
    }
}

/// A decimal number of arbitrary precision. Two decimals are equal where
/// they stand for the same number: `1.50` equals `1.5`, though they differ in
/// coefficient and exponent.
#[derive(Debug, Eq)]
pub struct Decimal {
    // the digits of the number as an integer, most significant first
    coef: Vec<u8>,
    // the power of ten
    exp: i64,
    // only 1 or -1
    sign: i8,
}

impl View for Decimal {
    type V = DecimalView;

    closed spec fn view(&self) -> DecimalView {
        DecimalView {
            sign: self.sign as int,
            coefficient: digits_value(self.coef@) as int,
            exponent: self.exp as int,
        }
    }
}

impl Clone for Decimal {
    fn clone(&self) -> (r: Self)
        ensures
            r@ == self@,
    {
        proof {
            use_type_invariant(self);
        }
        let coef = self.coef.clone();
        assert(coef@ =~= self.coef@);
        Decimal { coef, exp: self.exp, sign: self.sign }
    }
}

/// The number of zeros at the end of `digits`.
fn count_trailing_zeros(digits: &Vec<u8>) -> (z: usize)
    ensures
        z == trailing_zeros(digits@),
        z <= digits.len(),
{
    let n = digits.len();
    let mut z: usize = 0;
    assert(digits@.take(n as int) =~= digits@);
    while z < n && digits[n - 1 - z] == 0
        invariant
            z <= n,
            n == digits.len(),
            trailing_zeros(digits@) == z + trailing_zeros(digits@.take(n - z)),
        decreases n - z,
    {
        assert(digits@.take(n - z).drop_last() =~= digits@.take(n - z - 1));
        z += 1;
    }
    z
}

/// What decides whether two decimals other than zero stand for the same
/// number: the sign, the digits before the zeros at the end of the
/// coefficient, and the exponent with those zeros added.
proof fn lemma_same_value(a: Decimal, b: Decimal)
    requires
        a.well_formed(),
        b.well_formed(),
        digits_value(a.coef@) != 0,
        digits_value(b.coef@) != 0,
    ensures
        a@.same_value(b@) <==> a.sign == b.sign && significant(a.coef@) == significant(b.coef@)
            && a.exp + trailing_zeros(a.coef@) == b.exp + trailing_zeros(b.coef@),
{
    let k = if a.exp < b.exp { -a.exp } else { -b.exp };
    let (p, q) = ((a.exp + k) as nat, (b.exp + k) as nat);
    let (za, zb) = (trailing_zeros(a.coef@), trailing_zeros(b.coef@));
    let (sa, sb) = (significant(a.coef@), significant(b.coef@));
    let (x, y) = (digits_value(sa), digits_value(sb));
    lemma_significant(a.coef@);
    lemma_significant(b.coef@);
    lemma_pow10_add(za, p);
    lemma_pow10_add(zb, q);
    assert(a.sign * digits_value(a.coef@) * pow10(p) == a.sign * x * pow10(za + p))
        by (nonlinear_arith)
        requires
            digits_value(a.coef@) == x * pow10(za),
            pow10(za + p) == pow10(za) * pow10(p),
    ;
    assert(b.sign * digits_value(b.coef@) * pow10(q) == b.sign * y * pow10(zb + q))
        by (nonlinear_arith)
        requires
            digits_value(b.coef@) == y * pow10(zb),
            pow10(zb + q) == pow10(zb) * pow10(q),
    ;
    assert(x % 10 == sa.last() as nat);
    assert(y % 10 == sb.last() as nat);
    lemma_scaled_equal(a.sign as int, x, za + p, b.sign as int, y, zb + q);
    lemma_canonical_unique(sa);
    lemma_canonical_unique(sb);
}

/// Zero stands for the same number as zero only.
proof fn lemma_same_value_zero(a: Decimal, b: Decimal)
    requires
        a.well_formed(),
        b.well_formed(),
        digits_value(a.coef@) == 0 || digits_value(b.coef@) == 0,
    ensures
        a@.same_value(b@) <==> digits_value(a.coef@) == 0 && digits_value(b.coef@) == 0,
{
    let k = if a.exp < b.exp { -a.exp } else { -b.exp };
    let (p, q) = ((a.exp + k) as nat, (b.exp + k) as nat);
    lemma_pow10_positive(p);
    lemma_pow10_positive(q);
    let (x, y) = (digits_value(a.coef@), digits_value(b.coef@));
    assert((a.sign * x * pow10(p) == 0) <==> x == 0) by (nonlinear_arith)
        requires
            a.sign == 1 || a.sign == -1,
            pow10(p) >= 1,
    ;
    assert((b.sign * y * pow10(q) == 0) <==> y == 0) by (nonlinear_arith)
        requires
            b.sign == 1 || b.sign == -1,
            pow10(q) >= 1,
    ;
}

impl PartialEq for Decimal {
    fn eq(&self, other: &Decimal) -> (r: bool) {
        proof {
            use_type_invariant(self);
            use_type_invariant(other);
            lemma_zero_digits(self.coef@);
            lemma_zero_digits(other.coef@);
        }
        let zero = self.coef.len() == 1 && self.coef[0] == 0;
        let other_zero = other.coef.len() == 1 && other.coef[0] == 0;
        proof {
            if zero {
                assert(self.coef@ =~= seq![0u8]);
            }
            if other_zero {
                assert(other.coef@ =~= seq![0u8]);
            }
        }
        if zero || other_zero {
            proof {
                lemma_same_value_zero(*self, *other);
            }
            return zero && other_zero;
        }
        proof {
            lemma_same_value(*self, *other);
        }
        let zeros = count_trailing_zeros(&self.coef);
        let other_zeros = count_trailing_zeros(&other.coef);
        let n = self.coef.len() - zeros;
        assert(significant(self.coef@).len() == n);
        assert(significant(other.coef@).len() == other.coef.len() - other_zeros);
        if self.sign != other.sign || n != other.coef.len() - other_zeros {
            return false;
        }
        if self.exp as i128 + zeros as i128 != other.exp as i128 + other_zeros as i128 {
            return false;
        }
        let mut i: usize = 0;
        while i < n
            invariant
                i <= n,
                zeros == trailing_zeros(self.coef@),
                other_zeros == trailing_zeros(other.coef@),
                n == self.coef.len() - zeros,
                n == other.coef.len() - other_zeros,
                self@.same_value(other@) <==> significant(self.coef@) == significant(other.coef@),
                forall|j: int| 0 <= j < i ==> self.coef@[j] == other.coef@[j],
            decreases n - i,
        {
            if self.coef[i] != other.coef[i] {
                assert(significant(self.coef@)[i as int] != significant(other.coef@)[i as int]);
                return false;
            }
            i += 1;
        }
        assert(significant(self.coef@) =~= significant(other.coef@));
        true
    }
}

impl PartialEqSpecImpl for Decimal {
    open spec fn obeys_eq_spec() -> bool {
        true
    }

    open spec fn eq_spec(&self, other: &Decimal) -> bool {
        self@.same_value(other@)
    }
}

/// Appends the canonical digits of `n` to `out`.
fn push_digits(n: u64, out: &mut Vec<u8>)
    ensures
        final(out)@ == old(out)@ + nat_digits(n as nat),
    decreases n,
{
    if n >= 10 {
        push_digits(n / 10, out);
    }
    out.push((n % 10) as u8);
    assert(final(out)@ =~= old(out)@ + nat_digits(n as nat));
}

/// Whether `digits` is canonical.
fn check_canonical(digits: &Vec<u8>) -> (ok: bool)
    ensures
        ok == is_canonical(digits@),
{
    if digits.len() == 0 || (digits.len() > 1 && digits[0] == 0) {
        return false;
    }
    let mut i: usize = 0;
    while i < digits.len()
        invariant
            i <= digits.len(),
            forall|j: int| 0 <= j < i ==> #[trigger] digits@[j] < 10,
        decreases digits.len() - i,
    {
        if digits[i] >= 10 {
            return false;
        }
        i += 1;
    }
    true
}

impl Decimal {
    /// The coefficient is canonical, the sign 1 or -1, and 1 for zero.
    #[verifier::type_invariant]
    spec fn well_formed(self) -> bool {
        &&& is_canonical(self.coef@)
        &&& self.sign == 1 || self.sign == -1
        &&& digits_value(self.coef@) == 0 ==> self.sign == 1
    }

    /// The decimal equal to `integer`: its exponent is zero, its coefficient
    /// the absolute value.
    pub fn from_int(integer: i64) -> (r: Decimal)
        ensures
            r@ == (DecimalView {
                sign: if integer < 0 { -1 } else { 1 },
                coefficient: if integer < 0 { -integer } else { integer as int },
                exponent: 0,
            }),
    {
        let negative = integer < 0;
        let magnitude: u64 = if negative {
            (-(integer + 1)) as u64 + 1
        } else {
            integer as u64
        };
        let mut coef: Vec<u8> = Vec::new();
        push_digits(magnitude, &mut coef);
        proof {
            lemma_nat_digits(magnitude as nat);
            assert(coef@ =~= nat_digits(magnitude as nat));
        }
        Decimal { coef, exp: 0, sign: if negative { -1 } else { 1 } }
    }

    /// The decimal of a big integer, given by its sign and the canonical
    /// digits of its magnitude, divided by ten to the power `scale`. The sign
    /// of zero is 1. Fails when the digits are not canonical or the exponent,
    /// which is the scale negated, does not fit.
    pub fn from_parts(sign: NumberSign, magnitude: Vec<u8>, scale: i64) -> (r: Result<
        Decimal,
        Error,
    >)
        ensures
            r is Ok <==> is_canonical(magnitude@) && scale != i64::MIN,
            r is Err ==> r == Err::<Decimal, Error>(Error::InvalidDecimal),
            r matches Ok(d) ==> d@ == (DecimalView {
                sign: if sign == NumberSign::Minus && digits_value(magnitude@) != 0 {
                    -1
                } else {
                    1
                },
                coefficient: digits_value(magnitude@) as int,
                exponent: -scale,
            }),
    {
        if scale == i64::MIN || !check_canonical(&magnitude) {
            return Err(Error::InvalidDecimal);
        }
        let zero = magnitude.len() == 1 && magnitude[0] == 0;
        proof {
            lemma_zero_digits(magnitude@);
            if zero {
                assert(magnitude@ =~= seq![0u8]);
            }
        }
        let sign: i8 = match sign {
            NumberSign::Plus => 1,
            NumberSign::Minus => if zero { 1 } else { -1 },
            NumberSign::NoSign => 1,
        };
        Ok(Decimal { coef: magnitude, exp: -scale, sign })
    }

    /// 1 or -1.
    pub fn sign(&self) -> (r: i8)
        ensures
            r == self@.sign,
            self@.is_normal(),
    {
        proof {
            use_type_invariant(self);
        }
        self.sign
    }

    /// The power of ten.
    pub fn exponent(&self) -> (r: i64)
        ensures
            r == self@.exponent,
    {
        self.exp
    }

    /// The canonical digits of the coefficient, most significant first.
    pub fn coefficient(&self) -> (r: &Vec<u8>)
        ensures
            is_canonical(r@),
            digits_value(r@) == self@.coefficient,
    {
        proof {
            use_type_invariant(self);
        }
        &self.coef
    }
}

} // verus!
