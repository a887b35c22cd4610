//! Decimal digits: the digit sum of a number and its numeral.

use vstd::prelude::*;

verus! {

/// The sum of the base-10 digits of `n`.
pub open spec fn digits_sum(n: nat) -> nat
    decreases n,
{
    if n == 0 {
        0
    } else {
        (n % 10) + digits_sum(n / 10)
    }
}

/// ASCII `0`, the first of the ten digits.
pub const DIGIT_ZERO: u8 = 0x30;

/// `n` in decimal, as ASCII digits without leading zeros.
pub open spec fn decimal(n: nat) -> Seq<u8>
    decreases n,
{
    if n < 10 {
        seq![(DIGIT_ZERO + n) as u8]
    } else {
        decimal(n / 10).push((DIGIT_ZERO + n % 10) as u8)
    }
}

/// The number that a sequence of ASCII digits stands for.
pub open spec fn decimal_value(digits: Seq<u8>) -> nat
    decreases digits.len(),
{
    if digits.len() == 0 {
        0
    } else {
        (10 * decimal_value(digits.drop_last()) + (digits.last() - DIGIT_ZERO)) as nat
    }
}

/// The sum of the digits that a sequence of ASCII digits holds.
pub open spec fn digits_total(digits: Seq<u8>) -> nat
    decreases digits.len(),
{
    if digits.len() == 0 {
        0
    } else {
        (digits_total(digits.drop_last()) + (digits.last() - DIGIT_ZERO)) as nat
    }
}

/// `decimal(n)` is the decimal numeral of `n`: it consists of digits, stands
/// for `n`, and starts with a zero only where `n` is zero.
pub proof fn lemma_decimal_is_numeral(n: nat)
    ensures
        decimal(n).len() >= 1,
        forall|i: int|
            0 <= i < decimal(n).len() ==> DIGIT_ZERO <= #[trigger] decimal(n)[i] <= DIGIT_ZERO + 9,
        decimal_value(decimal(n)) == n,
        decimal(n)[0] == DIGIT_ZERO ==> n == 0,
    decreases n,
{
    if n < 10 {
        assert(decimal_value(decimal(n).drop_last()) == 0);
    } else {
        lemma_decimal_is_numeral(n / 10);
        assert(decimal(n).drop_last() =~= decimal(n / 10));
    }
}

/// The digit sum of `n` is the sum of the digits of its decimal numeral.
pub proof fn lemma_digits_sum_of_decimal(n: nat)
    ensures
        digits_sum(n) == digits_total(decimal(n)),
        digits_sum(0) == 0,
    decreases n,
{
    if n < 10 {
        assert(digits_total(decimal(n).drop_last()) == 0);
        if n > 0 {
            assert(digits_sum(n / 10) == 0);
        }
    } else {
        lemma_digits_sum_of_decimal(n / 10);
        assert(decimal(n).drop_last() =~= decimal(n / 10));
    }
}

/// Ten to the power `k`.
pub open spec fn pow10(k: nat) -> nat
    decreases k,
{
    if k == 0 {
        1
    } else {
        10 * pow10((k - 1) as nat)
    }
}

/// A number below `10^k` has at most `k` digits, each at most nine.
pub proof fn lemma_digits_sum_bound(n: nat, k: nat)
    requires
        n < pow10(k),
    ensures
        digits_sum(n) <= 9 * k,
    decreases k,
{
    if n != 0 {
        lemma_digits_sum_bound(n / 10, (k - 1) as nat);
    }
}

/// Every `usize` has a digit sum of at most 180, whatever the platform's width.
pub proof fn lemma_digits_sum_usize(n: usize)
    ensures
        digits_sum(n as nat) <= 180,
{
    assert(pow10(20) == 100_000_000_000_000_000_000nat) by {
        reveal_with_fuel(pow10, 21);
    }
    lemma_digits_sum_bound(n as nat, 20);
}

/// Sum of the decimal digits of `n`.
///
/// The result always fits: no `usize` has a digit sum above 180.
pub fn get_digits_sum(n: usize) -> (sum: u16)
    ensures
        sum == digits_sum(n as nat),
        sum <= 180,
{
    let mut n_rem: usize = n;
    let mut acc: u16 = 0;

    proof {
        lemma_digits_sum_usize(n);
    }
    while n_rem > 0
        invariant
            acc + digits_sum(n_rem as nat) == digits_sum(n as nat),
            digits_sum(n as nat) <= 180,
        decreases n_rem,
    {
        acc = acc + (n_rem % 10) as u16;
        n_rem = n_rem / 10;
    }
    acc
}

} // verus!
