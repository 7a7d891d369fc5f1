//! Decimal digit sequences and the natural numbers they denote.

use vstd::prelude::*;

verus! {

/// Ten to the power `n`.
pub open spec fn pow10(n: nat) -> nat
    decreases n,
{
    if n == 0 {
        1
    } else {
        10 * pow10((n - 1) as nat)
    }
}

/// The number written by the digits `d`, most significant digit first.
pub open spec fn digits_value(d: Seq<u8>) -> nat
    decreases d.len(),
{
    if d.len() == 0 {
        0
    } else {
        digits_value(d.drop_last()) * 10 + d.last() as nat
    }
}

/// Every element of `d` is a decimal digit.
pub open spec fn all_decimal(d: Seq<u8>) -> bool {
    forall|i: int| 0 <= i < d.len() ==> #[trigger] d[i] < 10
}

/// `d` is the shortest digit sequence for its number: it is not empty, and it
/// starts with a zero only when it is the single digit zero.
pub open spec fn is_canonical(d: Seq<u8>) -> bool {
    &&& d.len() >= 1
    &&& all_decimal(d)
    &&& d.len() > 1 ==> d[0] != 0
}

/// The canonical digits of `n`.
pub open spec fn nat_digits(n: nat) -> Seq<u8>
    decreases n,
{
    if n < 10 {
        seq![n as u8]
    } else {
        nat_digits(n / 10).push((n % 10) as u8)
    }
}

/// A power of ten is at least one.
pub proof fn lemma_pow10_positive(n: nat)
    ensures
        pow10(n) >= 1,
    decreases n,
{
    if n > 0 {
        lemma_pow10_positive((n - 1) as nat);
    }
}

/// Ten to a sum is the product of the powers.
pub proof fn lemma_pow10_add(a: nat, b: nat)
    ensures
        pow10(a + b) == pow10(a) * pow10(b),
    decreases a,
{
    if a == 0 {
        assert(pow10(0 + b) == 1 * pow10(b));
    } else {
        lemma_pow10_add((a - 1) as nat, b);
        assert(pow10(a + b) == 10 * pow10((a - 1 + b) as nat));
        assert(10 * (pow10((a - 1) as nat) * pow10(b)) == (10 * pow10((a - 1) as nat)) * pow10(b))
            by (nonlinear_arith);
    }
}

/// The digits of `n` denote `n` and are canonical.
pub proof fn lemma_nat_digits(n: nat)
    ensures
        digits_value(nat_digits(n)) == n,
        is_canonical(nat_digits(n)),
        n == 0 <==> nat_digits(n) == seq![0u8],
    decreases n,
{
    if n < 10 {
        let d = nat_digits(n);
        assert(d.drop_last() =~= Seq::<u8>::empty());
        assert(digits_value(d.drop_last()) == 0);
        assert(d.last() == n as u8);
        if n != 0 {
            assert(d[0] != seq![0u8][0]);
        }
    } else {
        lemma_nat_digits(n / 10);
        let h = nat_digits(n / 10);
        let d = nat_digits(n);
        assert(d.drop_last() =~= h);
        assert(d.last() == (n % 10) as u8);
        assert(d[0] == h[0]);
        assert(h[0] != 0) by {
            if h.len() == 1 && h[0] == 0 {
                assert(h =~= seq![0u8]);
            }
        }
        assert forall|i: int| 0 <= i < d.len() implies #[trigger] d[i] < 10 by {
            if i < h.len() {
                assert(d[i] == h[i]);
            }
        }
        assert(d.len() != seq![0u8].len());
    }
}

/// Among canonical digit sequences only the single digit zero denotes zero.
pub proof fn lemma_zero_digits(d: Seq<u8>)
    requires
        is_canonical(d),
    ensures
        digits_value(d) == 0 <==> d == seq![0u8],
    decreases d.len(),
{
    if d.len() == 1 {
        assert(d.drop_last() =~= Seq::<u8>::empty());
        assert(digits_value(d.drop_last()) == 0);
        if d[0] == 0 {
            assert(d =~= seq![0u8]);
        }
    } else {
        let h = d.drop_last();
        assert(h[0] == d[0]);
        assert(all_decimal(h)) by {
            assert forall|i: int| 0 <= i < h.len() implies #[trigger] h[i] < 10 by {
                assert(h[i] == d[i]);
            }
        }
        lemma_zero_digits(h);
        if h.len() == 1 {
            assert(h != seq![0u8]);
        } else {
            assert(h.len() != seq![0u8].len());
        }
        assert(d.len() != seq![0u8].len());
    }
}

/// Appending the digits `b` to `a` shifts `a` by the length of `b`.
pub proof fn lemma_digits_value_concat(a: Seq<u8>, b: Seq<u8>)
    ensures
        digits_value(a + b) == digits_value(a) * pow10(b.len()) + digits_value(b),
    decreases b.len(),
{
    let x = digits_value(a);
    if b.len() == 0 {
        assert(a + b =~= a);
        assert(pow10(0) == 1);
        assert(x * 1 == x);
    } else {
        lemma_digits_value_concat(a, b.drop_last());
        assert((a + b).drop_last() =~= a + b.drop_last());
        assert((a + b).last() == b.last());
        let p = pow10((b.len() - 1) as nat);
        let y = digits_value(b.drop_last());
        assert(pow10(b.len()) == 10 * p);
        assert(digits_value(b) == y * 10 + b.last() as nat);
        assert(digits_value(a + b) == (x * p + y) * 10 + b.last() as nat);
        assert((x * p + y) * 10 == x * (10 * p) + y * 10) by (nonlinear_arith);
    }
}

/// A canonical digit sequence is the digits of its number: no other
/// canonical sequence denotes that number.
pub proof fn lemma_canonical_unique(d: Seq<u8>)
    requires
        is_canonical(d),
    ensures
        d == nat_digits(digits_value(d)),
    decreases d.len(),
{
    if d.len() == 1 {
        assert(d.drop_last() =~= Seq::<u8>::empty());
        assert(digits_value(d.drop_last()) == 0);
        assert(d =~= seq![d[0]]);
    } else {
        let high = d.drop_last();
        assert(high[0] == d[0]);
        assert(all_decimal(high)) by {
            assert forall|i: int| 0 <= i < high.len() implies #[trigger] high[i] < 10 by {
                assert(high[i] == d[i]);
            }
        }
        lemma_canonical_unique(high);
        lemma_zero_digits(high);
        assert(high != seq![0u8]) by {
            if high.len() == 1 {
                assert(high[0] != 0);
            } else {
                assert(high.len() != seq![0u8].len());
            }
        }
        let n = digits_value(d);
        assert(n == digits_value(high) * 10 + d.last() as nat);
        assert(n / 10 == digits_value(high) && n % 10 == d.last() as nat);
        assert(d =~= high.push(d.last()));
    }
}

/// The number of zeros at the end of `d`.
pub open spec fn trailing_zeros(d: Seq<u8>) -> nat
    decreases d.len(),
{
    if d.len() > 0 && d.last() == 0 {
        1 + trailing_zeros(d.drop_last())
    } else {
        0
    }
}

/// The digits of `d` before the zeros at its end.
pub open spec fn significant(d: Seq<u8>) -> Seq<u8> {
    d.take(d.len() - trailing_zeros(d))
}

/// The zeros at the end of `d` are a power of ten: the number of `d` is the
/// number of the digits before them times that power. Where `d` is canonical
/// and not zero, those digits are canonical and do not end in zero.
pub proof fn lemma_significant(d: Seq<u8>)
    ensures
        trailing_zeros(d) <= d.len(),
        digits_value(d) == digits_value(significant(d)) * pow10(trailing_zeros(d)),
        is_canonical(d) && digits_value(d) != 0 ==> is_canonical(significant(d)) && significant(
            d,
        ).last() != 0,
    decreases d.len(),
{
    if d.len() > 0 && d.last() == 0 {
        let high = d.drop_last();
        lemma_significant(high);
        let z = trailing_zeros(high);
        assert(significant(d) =~= significant(high));
        assert(pow10(z + 1) == 10 * pow10(z));
        assert(digits_value(d) == digits_value(high) * 10);
        assert(digits_value(significant(high)) * pow10(z) * 10 == digits_value(significant(high))
            * (10 * pow10(z))) by (nonlinear_arith);
        if is_canonical(d) && digits_value(d) != 0 {
            assert(high.len() > 0) by {
                if high.len() == 0 {
                    assert(digits_value(high) == 0);
                }
            }
            assert(high[0] == d[0]);
            assert(all_decimal(high)) by {
                assert forall|i: int| 0 <= i < high.len() implies #[trigger] high[i] < 10 by {
                    assert(high[i] == d[i]);
                }
            }
            assert(is_canonical(high));
            assert(digits_value(high) != 0);
        }
    } else {
        assert(significant(d) =~= d);
        assert(pow10(0) == 1);
        assert(digits_value(d) * 1 == digits_value(d));
    }
}

/// Two numbers that do not end in zero, each with a sign and a power of ten,
/// are equal only where sign, number and power are.
pub proof fn lemma_scaled_equal(s1: int, a: nat, p: nat, s2: int, b: nat, q: nat)
    requires
        s1 == 1 || s1 == -1,
        s2 == 1 || s2 == -1,
        a % 10 != 0,
        b % 10 != 0,
    ensures
        s1 * a * pow10(p) == s2 * b * pow10(q) <==> s1 == s2 && a == b && p == q,
{
    lemma_pow10_positive(p);
    lemma_pow10_positive(q);
    let x = a * pow10(p);
    let y = b * pow10(q);
    assert(x > 0) by (nonlinear_arith)
        requires
            a > 0,
            pow10(p) >= 1,
            x == a * pow10(p),
    ;
    assert(y > 0) by (nonlinear_arith)
        requires
            b > 0,
            pow10(q) >= 1,
            y == b * pow10(q),
    ;
    assert(s1 * a * pow10(p) == s1 * x) by (nonlinear_arith)
        requires
            x == a * pow10(p),
    ;
    assert(s2 * b * pow10(q) == s2 * y) by (nonlinear_arith)
        requires
            y == b * pow10(q),
    ;
    assert(s1 * x == if s1 == 1 { x as int } else { -x }) by (nonlinear_arith)
        requires
            s1 == 1 || s1 == -1,
    ;
    assert(s2 * y == if s2 == 1 { y as int } else { -y }) by (nonlinear_arith)
        requires
            s2 == 1 || s2 == -1,
    ;
    if s1 * x == s2 * y {
        assert(s1 == s2);
        assert(x == y);
        if p < q {
            lemma_shifted_ends_in_zero(a, p, b, q);
        } else if q < p {
            lemma_shifted_ends_in_zero(b, q, a, p);
        } else {
            assert(a == b) by (nonlinear_arith)
                requires
                    a * pow10(p) == b * pow10(p),
                    pow10(p) >= 1,
            ;
        }
    }
}

/// A number that equals another shifted by more places ends in zero.
proof fn lemma_shifted_ends_in_zero(a: nat, p: nat, b: nat, q: nat)
    requires
        p < q,
        a * pow10(p) == b * pow10(q),
    ensures
        a % 10 == 0,
{
    let more = (q - p - 1) as nat;
    lemma_pow10_positive(p);
    lemma_pow10_add(p, (q - p) as nat);
    assert(pow10((q - p) as nat) == 10 * pow10(more));
    let t = b * pow10(more);
    assert(b * pow10(q) == (10 * t) * pow10(p)) by (nonlinear_arith)
        requires
            pow10(q) == pow10(p) * pow10((q - p) as nat),
            pow10((q - p) as nat) == 10 * pow10(more),
            t == b * pow10(more),
    ;
    assert(a == 10 * t) by (nonlinear_arith)
        requires
            a * pow10(p) == (10 * t) * pow10(p),
            pow10(p) >= 1,
    ;
}

} // verus!
