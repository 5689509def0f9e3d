//! Digits of a number in an arbitrary radix, and their sum.

use vstd::prelude::*;

verus! {

/// Dividing a positive number by a radix of at least 2 makes it smaller and
/// splits it into a quotient and a last digit.
pub proof fn lemma_strip_digit(n: nat, base: nat)
    requires
        n > 0,
        base >= 2,
    ensures
        n / base < n,
        n % base < base,
        n == base * (n / base) + n % base,
{
    assert(n == base * (n / base) + n % base && n % base < base) by (nonlinear_arith)
        requires
            base >= 2,
    ;
    assert(2 * (n / base) <= base * (n / base)) by (nonlinear_arith)
        requires
            base >= 2,
    ;
}

/// Sum of the digits of `n` written in radix `base`.
///
/// The radix must be at least 2 for digits to exist; for a smaller radix the
/// sum is defined as 0 so that the function is total.
pub open spec fn digit_sum(n: nat, base: nat) -> nat
    decreases n,
    via digit_sum_decreases
{
    if n == 0 || base < 2 {
        0
    } else {
        n % base + digit_sum(n / base, base)
    }
}

#[via_fn]
proof fn digit_sum_decreases(n: nat, base: nat) {
    if n != 0 && base >= 2 {
        lemma_strip_digit(n, base);
    }
}

/// The digit sum never exceeds the number itself.
pub proof fn lemma_digit_sum_le(n: nat, base: nat)
    ensures
        digit_sum(n, base) <= n,
    decreases n,
{
    if n != 0 && base >= 2 {
        lemma_strip_digit(n, base);
        lemma_digit_sum_le(n / base, base);
        assert(n / base <= base * (n / base)) by (nonlinear_arith)
            requires
                base >= 2,
        ;
    }
}

/// The digits of `n` in radix `base`, most significant first. Zero has the
/// single digit 0.
pub open spec fn digits_of(n: nat, base: nat) -> Seq<nat>
    decreases n,
    via digits_of_decreases
{
    if n < base || base < 2 {
        seq![n]
    } else {
        digits_of(n / base, base).push(n % base)
    }
}

#[via_fn]
proof fn digits_of_decreases(n: nat, base: nat) {
    if n >= base && base >= 2 {
        lemma_strip_digit(n, base);
    }
}

/// The number that a sequence of digits, most significant first, stands for.
pub open spec fn digits_value(digits: Seq<nat>, base: nat) -> nat
    decreases digits.len(),
{
    if digits.len() == 0 {
        0
    } else {
        digits_value(digits.drop_last(), base) * base + digits.last()
    }
}

/// The sum of the elements of a sequence.
pub open spec fn seq_sum(values: Seq<nat>) -> nat
    decreases values.len(),
{
    if values.len() == 0 {
        0
    } else {
        seq_sum(values.drop_last()) + values.last()
    }
}

/// The digits of a number are a positional representation of it: they stand
/// for the number, each is below the radix, and only zero begins with 0.
pub proof fn lemma_digits_represent(n: nat, base: nat)
    requires
        base >= 2,
    ensures
        digits_of(n, base).len() >= 1,
        digits_value(digits_of(n, base), base) == n,
        forall|i: int| 0 <= i < digits_of(n, base).len() ==> digits_of(n, base)[i] < base,
        n > 0 ==> digits_of(n, base)[0] > 0,
    decreases n,
{
    let digits = digits_of(n, base);
    if n < base {
        assert(digits.drop_last() =~= Seq::<nat>::empty());
        assert(digits_value(digits.drop_last(), base) == 0);
        assert(digits_value(digits, base) == 0 * base + n);
    } else {
        lemma_strip_digit(n, base);
        lemma_digits_represent(n / base, base);
        let upper = digits_of(n / base, base);
        assert(digits.drop_last() =~= upper);
        assert((n / base) * base == base * (n / base)) by (nonlinear_arith);
        assert(n / base > 0) by (nonlinear_arith)
            requires
                n >= base,
                base >= 2,
        ;
        assert(digits[0] == upper[0]);
    }
}

/// The digit sum is the sum of the digits.
pub proof fn lemma_digit_sum_of_digits(n: nat, base: nat)
    requires
        base >= 2,
    ensures
        digit_sum(n, base) == seq_sum(digits_of(n, base)),
    decreases n,
{
    let digits = digits_of(n, base);
    if n < base {
        assert(digits.drop_last() =~= Seq::<nat>::empty());
        assert(seq_sum(digits.drop_last()) == 0);
        if n > 0 {
            assert(n / base == 0) by (nonlinear_arith)
                requires
                    0 < n < base,
            ;
            assert(n % base == n) by (nonlinear_arith)
                requires
                    0 < n < base,
            ;
            assert(digit_sum(n / base, base) == 0);
        }
    } else {
        lemma_strip_digit(n, base);
        lemma_digit_sum_of_digits(n / base, base);
        assert(digits.drop_last() =~= digits_of(n / base, base));
    }
}

/// Sum of the digits of `n` in radix `base`.
pub fn sum_digits(n: u32, base: u32) -> (s: u32)
    requires
        base >= 2,
    ensures
        s == digit_sum(n as nat, base as nat),
{
    let mut rest: u32 = n;
    let mut s: u32 = 0;
    while rest > 0
        invariant
            base >= 2,
            s + digit_sum(rest as nat, base as nat) == digit_sum(n as nat, base as nat),
        decreases rest,
    {
        proof {
            lemma_digit_sum_le(n as nat, base as nat);
            lemma_strip_digit(rest as nat, base as nat);
        }
        s += rest % base;
        rest /= base;
    }
    s
}

/// The digits of `n` in radix `base`, most significant first.
pub fn to_base_digits(n: u32, base: u32) -> (digits: Vec<u32>)
    requires
        base >= 2,
    ensures
        digits@.map_values(|d: u32| d as nat) == digits_of(n as nat, base as nat),
{
    let mut digits: Vec<u32> = Vec::new();
    let mut rest: u32 = n;
    assert(digits@.map_values(|d: u32| d as nat) =~= Seq::<nat>::empty());
    while rest >= base
        invariant
            base >= 2,
            digits_of(n as nat, base as nat) == digits_of(rest as nat, base as nat)
                + digits@.map_values(|d: u32| d as nat),
        decreases rest,
    {
        let ghost lower = digits@.map_values(|d: u32| d as nat);
        proof {
            lemma_strip_digit(rest as nat, base as nat);
        }
        digits.insert(0, rest % base);
        proof {
            let upper = digits_of((rest / base) as nat, base as nat);
            assert(digits@.map_values(|d: u32| d as nat) =~= seq![(rest % base) as nat] + lower);
            assert(upper.push((rest % base) as nat) + lower =~= upper + (seq![
                (rest % base) as nat,
            ] + lower));
        }
        rest /= base;
    }
    let ghost lower = digits@.map_values(|d: u32| d as nat);
    digits.insert(0, rest);
    proof {
        assert(digits@.map_values(|d: u32| d as nat) =~= seq![rest as nat] + lower);
    }
    digits
}

} // verus!
