//! Hexadecimal digits read as a number and written in decimal digits.

use crate::digits::{
    all_decimal, digits_value, is_canonical, lemma_digits_value_concat, lemma_pow10_positive, pow10,
};
use crate::literal::is_digit;
use vstd::prelude::*;

verus! {

/// One of the digits of base sixteen.
pub open spec fn is_hex_digit(c: char) -> bool {
    is_digit(c) || ('a' <= c && c <= 'f') || ('A' <= c && c <= 'F')
}

/// The number that the hexadecimal digit `c` stands for.
pub open spec fn hex_digit_value(c: char) -> int {
    if is_digit(c) {
        c as int - '0' as int
    } else if 'a' <= c && c <= 'f' {
        c as int - 'a' as int + 10
    } else {
        c as int - 'A' as int + 10
    }
}

/// The number that the hexadecimal digit `c` stands for, if it is one.
pub fn hex_digit(c: char) -> (r: Option<u32>)
    ensures
        r is Some == is_hex_digit(c),
        r matches Some(v) ==> v == hex_digit_value(c) && v < 16,
{
    if c >= '0' && c <= '9' {
        Some(c as u32 - '0' as u32)
    } else if c >= 'a' && c <= 'f' {
        Some(c as u32 - 'a' as u32 + 10)
    } else if c >= 'A' && c <= 'F' {
        Some(c as u32 - 'A' as u32 + 10)
    } else {
        None
    }
}

/// Every character of `s` is a hexadecimal digit.
pub open spec fn all_hex(s: Seq<char>) -> bool {
    forall|i: int| 0 <= i < s.len() ==> is_hex_digit(#[trigger] s[i])
}

/// The number written by the hexadecimal digits `s`, most significant first.
pub open spec fn hex_value(s: Seq<char>) -> nat
    decreases s.len(),
{
    if s.len() == 0 {
        0
    } else {
        hex_value(s.drop_last()) * 16 + hex_digit_value(s.last()) as nat
    }
}

/// The number written by the decimal digits `d`, least significant first.
pub open spec fn le_value(d: Seq<u8>) -> nat
    decreases d.len(),
{
    if d.len() == 0 {
        0
    } else {
        le_value(d.drop_last()) + d.last() as nat * pow10((d.len() - 1) as nat)
    }
}

/// `d` holds decimal digits and does not end in a zero.
pub open spec fn is_trimmed(d: Seq<u8>) -> bool {
    all_decimal(d) && (d.len() > 0 ==> d.last() != 0)
}

/// Reading digits from the other end gives the same number.
proof fn lemma_reverse_value(d: Seq<u8>)
    ensures
        digits_value(d.reverse()) == le_value(d),
    decreases d.len(),
{
    if d.len() > 0 {
        let low = d.drop_last();
        lemma_reverse_value(low);
        let top = seq![d.last()];
        assert(d.reverse() =~= top + low.reverse());
        lemma_digits_value_concat(top, low.reverse());
        assert(top.drop_last() =~= Seq::<u8>::empty());
        assert(digits_value(top) == d.last() as nat) by {
            assert(digits_value(top.drop_last()) == 0);
        }
    }
}

/// A trimmed sequence of digits that is not empty denotes a positive number.
proof fn lemma_trimmed_positive(d: Seq<u8>)
    requires
        is_trimmed(d),
        d.len() > 0,
    ensures
        le_value(d) > 0,
{
    lemma_pow10_positive((d.len() - 1) as nat);
    assert(d.last() as nat * pow10((d.len() - 1) as nat) > 0) by (nonlinear_arith)
        requires
            d.last() > 0,
            pow10((d.len() - 1) as nat) >= 1,
    ;
}

/// The digits of sixteen times the number of `digits`, plus `add`.
fn times_sixteen_plus(digits: &Vec<u8>, add: u32) -> (out: Vec<u8>)
    requires
        is_trimmed(digits@),
        add < 16,
    ensures
        is_trimmed(out@),
        le_value(out@) == 16 * le_value(digits@) + add,
{
    let mut out: Vec<u8> = Vec::new();
    let mut carry: u32 = add;
    let mut k: usize = 0;
    proof {
        assert(digits@.take(0) =~= Seq::<u8>::empty());
        assert(pow10(0) == 1);
        assert(carry * 1 == carry);
    }
    while k < digits.len()
        invariant
            k <= digits.len(),
            out.len() == k,
            carry < 16,
            all_decimal(digits@),
            all_decimal(out@),
            le_value(out@) + carry * pow10(k as nat) == 16 * le_value(digits@.take(k as int)) + add,
            k > 0 && digits@[k - 1] != 0 ==> carry > 0,
        decreases digits.len() - k,
    {
        let digit = digits[k];
        assert(digit < 10);
        let t: u32 = 16 * (digit as u32) + carry;
        let ghost before = out@;
        let ghost old_carry = carry;
        out.push((t % 10) as u8);
        carry = t / 10;
        proof {
            let p = pow10(k as nat);
            let x = (t % 10) as nat;
            let prefix = digits@.take(k as int);
            let next = digits@.take(k + 1);
            assert(out@.drop_last() =~= before);
            assert(next.drop_last() =~= prefix);
            assert(next.last() == digit);
            assert(le_value(out@) == le_value(before) + x * p);
            assert(le_value(next) == le_value(prefix) + digit as nat * p);
            assert(pow10((k + 1) as nat) == 10 * p);
            assert(x + 10 * carry == 16 * digit + old_carry);
            assert(le_value(before) + x * p + carry * (10 * p) == 16 * (le_value(prefix)
                + digit as nat * p) + add) by (nonlinear_arith)
                requires
                    le_value(before) + old_carry * p == 16 * le_value(prefix) + add,
                    x + 10 * carry == 16 * digit + old_carry,
            ;
            assert forall|j: int| 0 <= j < out@.len() implies #[trigger] out@[j] < 10 by {
                if j < before.len() {
                    assert(out@[j] == before[j]);
                }
            }
        }
        k += 1;
    }
    assert(digits@.take(digits.len() as int) =~= digits@);
    while carry > 0
        invariant
            carry < 16,
            all_decimal(out@),
            le_value(out@) + carry * pow10(out.len() as nat) == 16 * le_value(digits@) + add,
            carry == 0 && out.len() > 0 ==> out@.last() != 0,
        decreases carry,
    {
        let ghost before = out@;
        let ghost old_carry = carry;
        out.push((carry % 10) as u8);
        carry = carry / 10;
        proof {
            let p = pow10(before.len());
            let x = (old_carry % 10) as nat;
            assert(out@.drop_last() =~= before);
            assert(le_value(out@) == le_value(before) + x * p);
            assert(pow10(out.len() as nat) == 10 * p);
            assert(le_value(before) + x * p + carry * (10 * p) == le_value(before) + old_carry
                * p) by (nonlinear_arith)
                requires
                    x + 10 * carry == old_carry,
            ;
            assert forall|j: int| 0 <= j < out@.len() implies #[trigger] out@[j] < 10 by {
                if j < before.len() {
                    assert(out@[j] == before[j]);
                }
            }
        }
    }
    assert(carry * pow10(out.len() as nat) == 0) by (nonlinear_arith)
        requires
            carry == 0,
    ;
    out
}

/// The canonical decimal digits of the number that the hexadecimal digits
/// `hex` write; `None` where a character of `hex` is no such digit.
pub fn hex_to_decimal(hex: &[char]) -> (r: Option<Vec<u8>>)
    ensures
        r is Some <==> all_hex(hex@),
        r matches Some(digits) ==> is_canonical(digits@) && digits_value(digits@) == hex_value(
            hex@,
        ),
{
    let mut low_first: Vec<u8> = Vec::new();
    let mut j: usize = 0;
    while j < hex.len()
        invariant
            j <= hex.len(),
            all_hex(hex@.take(j as int)),
            is_trimmed(low_first@),
            le_value(low_first@) == hex_value(hex@.take(j as int)),
        decreases hex.len() - j,
    {
        let digit = match hex_digit(hex[j]) {
            Some(digit) => digit,
            None => {
                return None;
            },
        };
        low_first = times_sixteen_plus(&low_first, digit);
        proof {
            let next = hex@.take(j + 1);
            assert(next.drop_last() =~= hex@.take(j as int));
            assert(next.last() == hex@[j as int]);
            assert forall|i: int| 0 <= i < next.len() implies is_hex_digit(#[trigger] next[i]) by {
                if i < j {
                    assert(next[i] == hex@.take(j as int)[i]);
                }
            }
        }
        j += 1;
    }
    assert(hex@.take(hex.len() as int) =~= hex@);
    let mut digits: Vec<u8> = Vec::new();
    if low_first.len() == 0 {
        digits.push(0);
        assert(digits@.drop_last() =~= Seq::<u8>::empty());
        assert(digits_value(digits@.drop_last()) == 0);
        return Some(digits);
    }
    let n = low_first.len();
    let mut k: usize = 0;
    while k < n
        invariant
            k <= n,
            n == low_first.len(),
            digits@ == low_first@.reverse().take(k as int),
        decreases n - k,
    {
        digits.push(low_first[n - 1 - k]);
        assert(low_first@.reverse().take(k + 1) =~= low_first@.reverse().take(k as int).push(
            low_first@[n - 1 - k],
        ));
        k += 1;
    }
    proof {
        assert(digits@ =~= low_first@.reverse());
        lemma_reverse_value(low_first@);
        lemma_trimmed_positive(low_first@);
        assert(digits@[0] == low_first@.last());
        assert forall|i: int| 0 <= i < digits@.len() implies #[trigger] digits@[i] < 10 by {
            assert(digits@[i] == low_first@[n - 1 - i]);
        }
    }
    Some(digits)
}

} // verus!
