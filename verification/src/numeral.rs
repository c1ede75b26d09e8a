//! Fixed-width numerals in an arbitrary base, as mathematical sequences of
//! digits, and the facts that make encoding and decoding mutual inverses.

use vstd::arithmetic::power::{lemma_pow0, pow};
use vstd::prelude::*;

verus! {

/// The `width` low-order digits of `value` in base `base`, most significant
/// digit first.
pub open spec fn numeral(value: int, base: int, width: nat) -> Seq<int>
    decreases width,
{
    if width == 0 {
        Seq::empty()
    } else {
        numeral(value / base, base, (width - 1) as nat).push(value % base)
    }
}

/// The number that `digits` denotes in base `base`, most significant digit
/// first.
pub open spec fn numeral_value(digits: Seq<int>, base: int) -> int
    decreases digits.len(),
{
    if digits.len() == 0 {
        0
    } else {
        numeral_value(digits.drop_last(), base) * base + digits.last()
    }
}

/// Every element of `digits` is a digit of base `base`.
pub open spec fn digits_in_base(digits: Seq<int>, base: int) -> bool {
    forall|i: int| 0 <= i < digits.len() ==> 0 <= #[trigger] digits[i] < base
}

/// A numeral has exactly as many digits as its width.
pub proof fn lemma_numeral_len(value: int, base: int, width: nat)
    ensures
        numeral(value, base, width).len() == width,
    decreases width,
{
    if width > 0 {
        lemma_numeral_len(value / base, base, (width - 1) as nat);
    }
}

/// Every digit of a numeral is a digit of the base.
pub proof fn lemma_numeral_digits(value: int, base: int, width: nat)
    requires
        base > 0,
    ensures
        digits_in_base(numeral(value, base, width), base),
    decreases width,
{
    lemma_numeral_len(value, base, width);
    if width > 0 {
        lemma_numeral_len(value / base, base, (width - 1) as nat);
        lemma_numeral_digits(value / base, base, (width - 1) as nat);
    }
}

/// `base^(e + 1) == base * base^e`, phrased for linear reasoning.
pub proof fn lemma_pow_step(base: int, e: nat)
    ensures
        pow(base, e + 1) == base * pow(base, e),
{
    reveal(pow);
}

/// Dividing by the base takes a value below `base^(e + 1)` to one below `base^e`.
pub proof fn lemma_quotient_below(value: int, base: int, e: nat)
    requires
        base > 0,
        0 <= value < pow(base, e + 1),
    ensures
        0 <= value / base < pow(base, e),
{
    lemma_pow_step(base, e);
    let bound = pow(base, e);
    assert(0 <= value / base < bound) by (nonlinear_arith)
        requires
            base > 0,
            0 <= value < base * bound,
    ;
}

/// Decoding the numeral of a value that fits the width gives the value back.
pub proof fn lemma_value_of_numeral(value: int, base: int, width: nat)
    requires
        base > 0,
        0 <= value < pow(base, width),
    ensures
        numeral_value(numeral(value, base, width), base) == value,
    decreases width,
{
    if width == 0 {
        lemma_pow0(base);
    } else {
        let shorter = (width - 1) as nat;
        lemma_quotient_below(value, base, shorter);
        lemma_value_of_numeral(value / base, base, shorter);
        let high = numeral(value / base, base, shorter);
        assert(high.push(value % base).drop_last() =~= high);
        assert(value == (value / base) * base + value % base) by (nonlinear_arith)
            requires
                base > 0,
        ;
    }
}

/// A sequence of digits denotes a value below `base^len`, and the numeral of
/// that value is the sequence itself.
pub proof fn lemma_numeral_of_value(digits: Seq<int>, base: int)
    requires
        base > 0,
        digits_in_base(digits, base),
    ensures
        0 <= numeral_value(digits, base) < pow(base, digits.len()),
        numeral(numeral_value(digits, base), base, digits.len()) == digits,
    decreases digits.len(),
{
    if digits.len() == 0 {
        lemma_pow0(base);
        assert(numeral(0, base, 0) =~= digits);
    } else {
        let high = digits.drop_last();
        let low = digits.last();
        lemma_numeral_of_value(high, base);
        let h = numeral_value(high, base);
        let v = h * base + low;
        lemma_pow_step(base, high.len());
        let bound = pow(base, high.len());
        assert(0 <= v < base * bound && v / base == h && v % base == low) by (nonlinear_arith)
            requires
                base > 0,
                0 <= h < bound,
                0 <= low < base,
                v == h * base + low,
        ;
        assert(numeral(v, base, digits.len()) =~= digits);
    }
}

/// Two values that fit the width and have the same numeral are equal.
pub proof fn lemma_numeral_injective(a: int, b: int, base: int, width: nat)
    requires
        base > 0,
        0 <= a < pow(base, width),
        0 <= b < pow(base, width),
        numeral(a, base, width) == numeral(b, base, width),
    ensures
        a == b,
{
    lemma_value_of_numeral(a, base, width);
    lemma_value_of_numeral(b, base, width);
}

} // verus!
