//! Bounded cycle detection on the trajectories of the digit-sum-square map.
//!
//! A trajectory is followed for a limited number of steps. The first step
//! whose value was already produced by an earlier step closes a cycle: the
//! values from that earlier step up to, but not including, the repetition.

use crate::error::ClassifyError;
use crate::orbit::{digit_square, digit_sum_square, lemma_orbit_periodic, orbit, values_fit};
use crate::lex::lemma_lex_lt_irreflexive;
use crate::rotation::{
    canonical, is_canonical, is_least_rotation, lemma_canonical_fixes_canonical,
    lemma_canonical_idempotent, lemma_canonical_is_least, minimal_rotation, rotation,
};
use vstd::prelude::*;
use vstd::slice::slice_subrange;

verus! {

/// Step `k` produces a value that an earlier step already produced.
///
/// The starting value itself is not a produced value: steps count from 1.
pub open spec fn repeats_at(n: nat, base: nat, k: nat) -> bool {
    exists|i: nat| 1 <= i < k && #[trigger] orbit(n, base, i) == orbit(n, base, k)
}

/// The first step, among the first `bound`, that repeats an earlier value.
pub open spec fn first_repeat(n: nat, base: nat, bound: nat) -> Option<nat>
    decreases bound,
{
    if bound == 0 {
        None
    } else {
        match first_repeat(n, base, (bound - 1) as nat) {
            Some(k) => Some(k),
            None => if repeats_at(n, base, bound) {
                Some(bound)
            } else {
                None
            },
        }
    }
}

/// An earlier step whose value step `k` repeats. When `k` is the first
/// repeating step there is exactly one.
pub open spec fn repeat_source(n: nat, base: nat, k: nat) -> nat {
    choose|i: nat| 1 <= i < k && #[trigger] orbit(n, base, i) == orbit(n, base, k)
}

/// The values produced by steps `from`, `from + 1`, ..., `to - 1`.
pub open spec fn orbit_segment(n: nat, base: nat, from: nat, to: nat) -> Seq<u32> {
    Seq::new((to - from) as nat, |j: int| orbit(n, base, (from + j) as nat) as u32)
}

/// The canonical cycle that a trajectory from `n` runs into within `bound`
/// steps, if it is seen to repeat a value by then.
pub open spec fn detected_cycle(n: nat, base: nat, bound: nat) -> Option<Seq<u32>> {
    match first_repeat(n, base, bound) {
        None => None,
        Some(k) => Some(canonical(orbit_segment(n, base, repeat_source(n, base, k), k))),
    }
}

/// What `first_repeat` finds: the least repeating step within the bound, or
/// nothing when no step within the bound repeats.
pub proof fn lemma_first_repeat(n: nat, base: nat, bound: nat)
    ensures
        match first_repeat(n, base, bound) {
            Some(k) => {
                &&& 1 <= k <= bound
                &&& repeats_at(n, base, k)
                &&& forall|j: nat| 1 <= j < k ==> !repeats_at(n, base, j)
            },
            None => forall|j: nat| 1 <= j <= bound ==> !repeats_at(n, base, j),
        },
    decreases bound,
{
    if bound > 0 {
        lemma_first_repeat(n, base, (bound - 1) as nat);
    }
}

/// Raising the bound does not change a repetition that was already found.
pub proof fn lemma_first_repeat_stable(n: nat, base: nat, bound: nat, later: nat)
    requires
        bound <= later,
        first_repeat(n, base, bound) is Some,
    ensures
        first_repeat(n, base, later) == first_repeat(n, base, bound),
    decreases later,
{
    if later > bound {
        lemma_first_repeat_stable(n, base, bound, (later - 1) as nat);
    }
}

/// A detected cycle is never empty and is in canonical form.
pub proof fn lemma_detected_cycle_canonical(n: nat, base: nat, bound: nat)
    requires
        detected_cycle(n, base, bound) is Some,
    ensures
        detected_cycle(n, base, bound)->0.len() > 0,
        is_canonical(detected_cycle(n, base, bound)->0),
{
    lemma_first_repeat(n, base, bound);
    let k = first_repeat(n, base, bound)->0;
    let i = repeat_source(n, base, k);
    let seg = orbit_segment(n, base, i, k);
    assert(seg.len() > 0);
    lemma_canonical_is_least(seg);
    lemma_canonical_idempotent(seg);
}

/// The values produced by the first `count` steps are all different.
pub open spec fn distinct_steps(n: nat, base: nat, count: nat) -> bool {
    forall|i: nat, j: nat|
        1 <= i < j <= count ==> #[trigger] orbit(n, base, i) != #[trigger] orbit(n, base, j)
}

/// Nothing is detected exactly when the values produced within the bound are
/// all different.
pub proof fn lemma_no_cycle_detected(n: nat, base: nat, bound: nat)
    ensures
        detected_cycle(n, base, bound) is None <==> distinct_steps(n, base, bound),
{
    lemma_first_repeat(n, base, bound);
    match first_repeat(n, base, bound) {
        Some(k) => {
            let i = choose|i: nat| 1 <= i < k && #[trigger] orbit(n, base, i) == orbit(n, base, k);
            assert(orbit(n, base, i) == orbit(n, base, k));
        },
        None => {
            assert forall|i: nat, j: nat| 1 <= i < j <= bound implies #[trigger] orbit(n, base, i)
                != #[trigger] orbit(n, base, j) by {
                assert(!repeats_at(n, base, j));
            }
        },
    }
}

/// When step `k` is the first to repeat a value, that of step `i`, the
/// detected cycle is the canonical form of the values of the steps from `i`
/// up to, but not including, `k`.
pub proof fn lemma_detected_cycle_at(n: nat, base: nat, bound: nat, i: nat, k: nat)
    requires
        1 <= i < k <= bound,
        orbit(n, base, i) == orbit(n, base, k),
        distinct_steps(n, base, (k - 1) as nat),
    ensures
        detected_cycle(n, base, bound) == Some(canonical(orbit_segment(n, base, i, k))),
{
    assert(repeats_at(n, base, k));
    assert forall|j: nat| 1 <= j < k implies !repeats_at(n, base, j) by {
        if repeats_at(n, base, j) {
            let t = choose|t: nat| 1 <= t < j && #[trigger] orbit(n, base, t) == orbit(n, base, j);
            assert(orbit(n, base, t) != orbit(n, base, j));
        }
    }
    lemma_first_repeat(n, base, k);
    assert(first_repeat(n, base, k) == Some(k));
    lemma_first_repeat_stable(n, base, k, bound);
    let chosen = repeat_source(n, base, k);
    if chosen < i {
        assert(orbit(n, base, chosen) != orbit(n, base, i));
    } else if chosen > i {
        assert(orbit(n, base, i) != orbit(n, base, chosen));
    }
}

/// A fixed point of the map is detected as the cycle that holds it alone,
/// as soon as two steps are allowed.
pub proof fn lemma_fixed_point_cycle(n: nat, base: nat, bound: nat)
    requires
        n <= u32::MAX,
        digit_square(n, base) == n,
        bound >= 2,
    ensures
        detected_cycle(n, base, bound) == Some(seq![n as u32]),
{
    assert(orbit(n, base, 0) == n);
    assert(orbit(n, base, 1) == n);
    assert(orbit(n, base, 2) == n);
    assert(repeats_at(n, base, 2));
    assert(!repeats_at(n, base, 1));
    assert(first_repeat(n, base, 0) is None);
    assert(first_repeat(n, base, 1) is None);
    assert(first_repeat(n, base, 2) == Some(2nat));
    lemma_first_repeat_stable(n, base, 2, bound);
    let src = repeat_source(n, base, 2);
    assert(src == 1);
    let seg = orbit_segment(n, base, 1, 2);
    assert(seg =~= seq![n as u32]);
    assert(rotation(seg, 0) =~= seg);
    lemma_lex_lt_irreflexive(seg);
    assert(is_least_rotation(seg, seg));
    lemma_canonical_fixes_canonical(seg);
}

/// Position of the first occurrence of `x` in `values`.
pub fn first_position(values: &Vec<u32>, x: u32) -> (r: Option<usize>)
    ensures
        match r {
            Some(i) => {
                &&& i < values@.len()
                &&& values@[i as int] == x
                &&& forall|j: int| 0 <= j < i ==> values@[j] != x
            },
            None => forall|j: int| 0 <= j < values@.len() ==> values@[j] != x,
        },
{
    let mut i: usize = 0;
    while i < values.len()
        invariant
            i <= values@.len(),
            forall|j: int| 0 <= j < i ==> values@[j] != x,
        decreases values@.len() - i,
    {
        if values[i] == x {
            return Some(i);
        }
        i += 1;
    }
    None
}

/// Follows the trajectory of `n` for at most `max_iter` steps and returns the
/// canonical form of the first cycle it closes, or `None` when no value
/// repeats within the bound.
///
/// The run is refused when the radix is below 2, and when one of the first
/// `max_iter` values of the trajectory does not fit in 32 bits.
pub fn try_detect_cycle(n: u32, base: u32, max_iter: usize) -> (r: Result<
    Option<Vec<u32>>,
    ClassifyError,
>)
    ensures
        r == Err::<Option<Vec<u32>>, ClassifyError>(ClassifyError::InvalidBase) <==> base < 2,
        r == Err::<Option<Vec<u32>>, ClassifyError>(ClassifyError::ValueOverflow) <==> base >= 2
            && !values_fit(n as nat, base as nat, max_iter as nat),
        r is Ok <==> base >= 2 && values_fit(n as nat, base as nat, max_iter as nat),
        match r {
            Ok(Some(c)) => detected_cycle(n as nat, base as nat, max_iter as nat) == Some(c@),
            Ok(None) => detected_cycle(n as nat, base as nat, max_iter as nat) is None,
            Err(_) => true,
        },
{
    if base < 2 {
        return Err(ClassifyError::InvalidBase);
    }
    let ghost start = n as nat;
    let ghost radix = base as nat;
    let mut history: Vec<u32> = Vec::new();
    let mut x: u32 = n;
    let mut step: usize = 0;
    while step < max_iter
        invariant
            base >= 2,
            start == n as nat,
            radix == base as nat,
            step <= max_iter,
            history@.len() == step,
            x == orbit(start, radix, step as nat),
            forall|k: nat| 1 <= k <= step ==> history@[k - 1] == #[trigger] orbit(start, radix, k),
            forall|k: nat| 1 <= k <= step ==> !repeats_at(start, radix, k),
        decreases max_iter - step,
    {
        let ghost here = (step + 1) as nat;
        match digit_sum_square(x, base) {
            None => {
                assert(orbit(start, radix, here) > u32::MAX);
                return Err(ClassifyError::ValueOverflow);
            },
            Some(next) => {
                assert(next == orbit(start, radix, here));
                match first_position(&history, next) {
                    Some(idx) => {
                        let cycle = slice_subrange(history.as_slice(), idx, history.len());
                        let found = minimal_rotation(cycle);
                        proof {
                            let src = (idx + 1) as nat;
                            assert(history@[idx as int] == orbit(start, radix, src));
                            assert(repeats_at(start, radix, here));
                            lemma_first_repeat(start, radix, step as nat);
                            assert(first_repeat(start, radix, here) == Some(here));
                            lemma_first_repeat_stable(start, radix, here, max_iter as nat);
                            // Only one earlier step holds the repeated value.
                            let chosen = repeat_source(start, radix, here);
                            assert(1 <= chosen < here && orbit(start, radix, chosen) == orbit(
                                start,
                                radix,
                                here,
                            ));
                            assert(history@[chosen - 1] == orbit(start, radix, chosen));
                            if chosen < src {
                                assert(history@[chosen - 1] != next);
                            } else if chosen > src {
                                assert(!repeats_at(start, radix, chosen));
                                assert(orbit(start, radix, src) == orbit(start, radix, chosen));
                            }
                            assert(chosen == src);
                            assert(cycle@ =~= orbit_segment(start, radix, src, here)) by {
                                assert forall|j: int| 0 <= j < cycle@.len() implies cycle@[j]
                                    == orbit_segment(start, radix, src, here)[j] by {
                                    assert(cycle@[j] == history@[idx + j]);
                                    assert(history@[idx + j] == orbit(
                                        start,
                                        radix,
                                        (idx + j + 1) as nat,
                                    ));
                                }
                            }
                            // After the repetition all values are among those seen.
                            assert forall|k: nat| 1 <= k <= max_iter implies #[trigger] orbit(
                                start,
                                radix,
                                k,
                            ) <= u32::MAX by {
                                if k <= step {
                                    assert(history@[k - 1] == orbit(start, radix, k));
                                } else {
                                    let t = lemma_orbit_periodic(start, radix, src, here, k);
                                    assert(history@[t - 1] == orbit(start, radix, t));
                                }
                            }
                        }
                        return Ok(Some(found));
                    },
                    None => {
                        proof {
                            assert forall|i: nat| 1 <= i < here implies #[trigger] orbit(
                                start,
                                radix,
                                i,
                            ) != orbit(start, radix, here) by {
                                assert(history@[i - 1] == orbit(start, radix, i));
                            }
                        }
                        history.push(next);
                        x = next;
                        step += 1;
                    },
                }
            },
        }
    }
    proof {
        lemma_first_repeat(start, radix, max_iter as nat);
        assert forall|k: nat| 1 <= k <= max_iter implies #[trigger] orbit(start, radix, k)
            <= u32::MAX by {
            assert(history@[k - 1] == orbit(start, radix, k));
        }
    }
    Ok(None)
}

/// Follows the trajectory of `n` for at most `max_iter` steps and returns the
/// canonical form of the first cycle it closes, or `None` when no value
/// repeats within the bound.
pub fn detect_cycle(n: u32, base: u32, max_iter: usize) -> (r: Option<Vec<u32>>)
    requires
        base >= 2,
        values_fit(n as nat, base as nat, max_iter as nat),
    ensures
        match r {
            Some(c) => detected_cycle(n as nat, base as nat, max_iter as nat) == Some(c@),
            None => detected_cycle(n as nat, base as nat, max_iter as nat) is None,
        },
{
    match try_detect_cycle(n, base, max_iter) {
        Ok(found) => found,
        Err(_) => vstd::pervasive::unreached(),
    }
}

} // verus!
