//! The digit-sum-square map and the trajectories it generates.

use crate::digits::{digit_sum, lemma_strip_digit, sum_digits};
use vstd::arithmetic::div_mod::lemma_div_is_ordered_by_denominator;
use vstd::arithmetic::power2::{lemma2_to64, lemma_pow2_unfold, pow2};
use vstd::prelude::*;

verus! {

/// One step of the dynamical system: the square of the digit sum of `x` in
/// radix `base`.
pub open spec fn digit_square(x: nat, base: nat) -> nat {
    digit_sum(x, base) * digit_sum(x, base)
}

/// The value reached from `n` after `k` steps of the map.
pub open spec fn orbit(n: nat, base: nat, k: nat) -> nat
    decreases k,
{
    if k == 0 {
        n
    } else {
        digit_square(orbit(n, base, (k - 1) as nat), base)
    }
}

/// The first `bound` values produced from `n` all fit in 32 bits.
pub open spec fn values_fit(n: nat, base: nat, bound: nat) -> bool {
    forall|k: nat| 1 <= k <= bound ==> #[trigger] orbit(n, base, k) <= u32::MAX
}

/// One step of the map, or `None` when the square does not fit in 32 bits.
pub fn digit_sum_square(value: u32, base: u32) -> (r: Option<u32>)
    requires
        base >= 2,
    ensures
        match r {
            Some(v) => v == digit_square(value as nat, base as nat),
            None => digit_square(value as nat, base as nat) > u32::MAX,
        },
{
    let s = sum_digits(value, base);
    s.checked_mul(s)
}

/// Trajectories that meet keep together: equal values stay equal after the
/// same number of further steps.
pub proof fn lemma_orbit_shift(n: nat, base: nat, i: nat, k: nat, j: nat)
    requires
        orbit(n, base, i) == orbit(n, base, k),
    ensures
        orbit(n, base, i + j) == orbit(n, base, k + j),
    decreases j,
{
    if j > 0 {
        lemma_orbit_shift(n, base, i, k, (j - 1) as nat);
    }
}

/// Once step `k` repeats the value of an earlier step `i`, every later value
/// is one of those between `i` and `k`.
pub proof fn lemma_orbit_periodic(n: nat, base: nat, i: nat, k: nat, m: nat) -> (t: nat)
    requires
        i < k,
        orbit(n, base, i) == orbit(n, base, k),
        i <= m,
    ensures
        i <= t < k,
        orbit(n, base, t) == orbit(n, base, m),
    decreases m,
{
    if m < k {
        m
    } else {
        let back = (m - (k - i)) as nat;
        lemma_orbit_shift(n, base, i, k, (m - k) as nat);
        assert(i + (m - k) == back);
        assert(k + (m - k) == m);
        lemma_orbit_periodic(n, base, i, k, back)
    }
}

/// A number below `2^k` has a digit sum of at most `k * (base - 1)`.
proof fn lemma_digit_sum_bound(x: nat, base: nat, k: nat)
    requires
        base >= 2,
        x < pow2(k),
    ensures
        digit_sum(x, base) <= k * (base - 1),
    decreases k,
{
    if x == 0 {
        assert(0 <= k * (base - 1)) by (nonlinear_arith)
            requires
                base >= 2,
        ;
    } else {
        if k == 0 {
            lemma2_to64();
        } else {
            lemma_pow2_unfold(k);
            lemma_strip_digit(x, base);
            lemma_div_is_ordered_by_denominator(x as int, 2, base as int);
            assert(x / base < pow2((k - 1) as nat));
            lemma_digit_sum_bound(x / base, base, (k - 1) as nat);
            assert(k * (base - 1) == (k - 1) * (base - 1) + (base - 1)) by (nonlinear_arith);
        }
    }
}

/// In a radix of at most 2048 the map never leaves the 32-bit range.
pub proof fn lemma_digit_square_fits(x: nat, base: nat)
    requires
        2 <= base <= 2048,
        x <= u32::MAX,
    ensures
        digit_square(x, base) <= u32::MAX,
{
    lemma2_to64();
    lemma_digit_sum_bound(x, base, 32);
    let s = digit_sum(x, base);
    assert(32 * (base - 1) <= 65504);
    assert(s * s <= 65504 * 65504) by (nonlinear_arith)
        requires
            0 <= s <= 65504,
    ;
}

/// In a radix of at most 2048 every trajectory that starts in the 32-bit
/// range stays there.
pub proof fn lemma_small_base_fits(n: nat, base: nat, bound: nat)
    requires
        2 <= base <= 2048,
        n <= u32::MAX,
    ensures
        values_fit(n, base, bound),
        orbit(n, base, bound) <= u32::MAX,
    decreases bound,
{
    if bound > 0 {
        lemma_small_base_fits(n, base, (bound - 1) as nat);
        lemma_digit_square_fits(orbit(n, base, (bound - 1) as nat), base);
    }
}

} // verus!
