//! What holds of every classification: which label each integer bears, what
//! the table holds, when a run succeeds and why it fails.

use crate::classify::{
    all_fit, classification, cycles_seen, is_classification_of, Classification,
    ClassificationView,
};
use crate::detect::{detected_cycle, lemma_detected_cycle_canonical};
use crate::error::ClassifyError;
use crate::label::{
    label_text, lemma_label_text_injective, lemma_label_text_not_other, other_text, LABEL_COUNT,
};
use crate::orbit::{lemma_small_base_fits, values_fit};
use crate::rotation::is_canonical;
use crate::table::{cycle_to_label, is_table, lemma_table_position};
use vstd::prelude::*;

verus! {

/// A run that has failed stays failed however far the range is extended.
pub proof fn lemma_failure_persists(n: nat, n_max: nat, base: nat, bound: nat)
    requires
        n <= n_max,
        classification(n, base, bound) is Err,
    ensures
        classification(n_max, base, bound) == classification(n, base, bound),
    decreases n_max,
{
    if n < n_max {
        lemma_failure_persists(n, (n_max - 1) as nat, base, bound);
    }
}

/// A classification holds one label per integer, and its cycles form a table.
pub proof fn lemma_classification_shape(n_max: nat, base: nat, bound: nat)
    requires
        classification(n_max, base, bound) is Ok,
    ensures
        classification(n_max, base, bound)->Ok_0.labels.len() == n_max,
        is_table(classification(n_max, base, bound)->Ok_0.table),
    decreases n_max,
{
    if n_max > 0 {
        lemma_classification_shape((n_max - 1) as nat, base, bound);
    }
}

/// The classification of a shorter range is the beginning of that of a
/// longer one: later integers change neither the labels of earlier ones nor
/// the positions of the cycles found before.
pub proof fn lemma_classification_prefix(n: nat, n_max: nat, base: nat, bound: nat)
    requires
        n <= n_max,
        classification(n_max, base, bound) is Ok,
    ensures
        classification(n, base, bound) is Ok,
        classification(n, base, bound)->Ok_0.labels == classification(
            n_max,
            base,
            bound,
        )->Ok_0.labels.take(n as int),
        classification(n, base, bound)->Ok_0.table.len() <= classification(
            n_max,
            base,
            bound,
        )->Ok_0.table.len(),
        classification(n, base, bound)->Ok_0.table == classification(
            n_max,
            base,
            bound,
        )->Ok_0.table.take(classification(n, base, bound)->Ok_0.table.len() as int),
    decreases n_max,
{
    lemma_classification_shape(n_max, base, bound);
    let full = classification(n_max, base, bound)->Ok_0;
    if n == n_max {
        assert(full.labels.take(n as int) =~= full.labels);
        assert(full.table.take(full.table.len() as int) =~= full.table);
    } else {
        lemma_classification_prefix(n, (n_max - 1) as nat, base, bound);
        lemma_classification_shape((n_max - 1) as nat, base, bound);
        let prev = classification((n_max - 1) as nat, base, bound)->Ok_0;
        let part = classification(n, base, bound)->Ok_0;
        assert(full.labels.take(n as int) =~= prev.labels.take(n as int));
        assert(full.table.take(part.table.len() as int) =~= prev.table.take(
            part.table.len() as int,
        ));
    }
}

/// The table holds exactly the cycles that were detected for some integer of
/// the range.
pub proof fn lemma_table_holds_detected(n_max: nat, base: nat, bound: nat, cycle: Seq<u32>)
    requires
        classification(n_max, base, bound) is Ok,
    ensures
        classification(n_max, base, bound)->Ok_0.table.contains(cycle) <==> exists|m: nat|
            1 <= m <= n_max && #[trigger] detected_cycle(m, base, bound) == Some(cycle),
    decreases n_max,
{
    let full = classification(n_max, base, bound)->Ok_0;
    if n_max == 0 {
        assert(!full.table.contains(cycle));
    } else {
        let before = (n_max - 1) as nat;
        lemma_table_holds_detected(before, base, bound, cycle);
        let prev = classification(before, base, bound)->Ok_0;
        let outcome = detected_cycle(n_max, base, bound);
        if full.table.contains(cycle) {
            let i = choose|i: int| 0 <= i < full.table.len() && full.table[i] == cycle;
            if i < prev.table.len() {
                assert(prev.table[i] == cycle);
                assert(prev.table.contains(cycle));
                let m = choose|m: nat|
                    1 <= m <= before && #[trigger] detected_cycle(m, base, bound) == Some(cycle);
                assert(1 <= m <= n_max && detected_cycle(m, base, bound) == Some(cycle));
            } else {
                assert(outcome == Some(cycle));
            }
        }
        if exists|m: nat|
            1 <= m <= n_max && #[trigger] detected_cycle(m, base, bound) == Some(cycle) {
            let m = choose|m: nat|
                1 <= m <= n_max && #[trigger] detected_cycle(m, base, bound) == Some(cycle);
            if m <= before {
                assert(prev.table.contains(cycle));
                let i = prev.table.index_of(cycle);
                assert(full.table[i] == cycle);
            } else {
                if !prev.table.contains(cycle) {
                    assert(full.table[prev.table.len() as int] == cycle);
                } else {
                    let i = prev.table.index_of(cycle);
                    assert(full.table[i] == cycle);
                }
            }
        }
    }
}

/// The label of each integer of the range: the reserved label when no cycle
/// was detected for it, else the label that the table gives to its cycle.
pub proof fn lemma_label_of_integer(n_max: nat, base: nat, bound: nat, m: nat)
    requires
        classification(n_max, base, bound) is Ok,
        1 <= m <= n_max,
    ensures
        match detected_cycle(m, base, bound) {
            None => classification(n_max, base, bound)->Ok_0.labels[m - 1] == other_text(),
            Some(cycle) => {
                let table = classification(n_max, base, bound)->Ok_0.table;
                &&& table.contains(cycle)
                &&& classification(n_max, base, bound)->Ok_0.labels[m - 1] == cycle_to_label(
                    table,
                )[cycle]
            },
        },
    decreases n_max,
{
    lemma_classification_shape(n_max, base, bound);
    let full = classification(n_max, base, bound)->Ok_0;
    let before = (n_max - 1) as nat;
    let prev = classification(before, base, bound)->Ok_0;
    lemma_classification_shape(before, base, bound);
    if m < n_max {
        lemma_label_of_integer(before, base, bound, m);
        assert(full.labels[m - 1] == prev.labels[m - 1]);
        if let Some(cycle) = detected_cycle(m, base, bound) {
            let i = prev.table.index_of(cycle);
            assert(full.table[i] == cycle);
            lemma_table_position(full.table, i);
        }
    } else {
        if let Some(cycle) = detected_cycle(m, base, bound) {
            if prev.table.contains(cycle) {
                let i = prev.table.index_of(cycle);
                assert(full.table[i] == cycle);
                lemma_table_position(full.table, i);
            } else {
                let i = prev.table.len() as int;
                assert(full.table[i] == cycle);
                lemma_table_position(full.table, i);
            }
        }
    }
}

/// Two integers of the range bear the same label exactly when the same
/// cycle, or none, was detected for both.
pub proof fn lemma_same_label_same_cycle(n_max: nat, base: nat, bound: nat, m1: nat, m2: nat)
    requires
        classification(n_max, base, bound) is Ok,
        1 <= m1 <= n_max,
        1 <= m2 <= n_max,
    ensures
        classification(n_max, base, bound)->Ok_0.labels[m1 - 1] == classification(
            n_max,
            base,
            bound,
        )->Ok_0.labels[m2 - 1] <==> detected_cycle(m1, base, bound) == detected_cycle(
            m2,
            base,
            bound,
        ),
{
    lemma_classification_shape(n_max, base, bound);
    lemma_label_of_integer(n_max, base, bound, m1);
    lemma_label_of_integer(n_max, base, bound, m2);
    let table = classification(n_max, base, bound)->Ok_0.table;
    match (detected_cycle(m1, base, bound), detected_cycle(m2, base, bound)) {
        (Some(c1), Some(c2)) => {
            let i1 = table.index_of(c1);
            let i2 = table.index_of(c2);
            if label_text(i1 as nat) == label_text(i2 as nat) {
                lemma_label_text_injective(i1 as nat, i2 as nat);
            }
        },
        (Some(c1), None) => {
            lemma_label_text_not_other(table.index_of(c1) as nat);
        },
        (None, Some(c2)) => {
            lemma_label_text_not_other(table.index_of(c2) as nat);
        },
        (None, None) => {},
    }
}

/// A cycle that no smaller integer led to gets the next unused label: the
/// one whose index is the number of labels given out so far. No smaller
/// integer bears that label, and every label before it is in use.
pub proof fn lemma_new_cycle_gets_next_label(
    n_max: nat,
    base: nat,
    bound: nat,
    m: nat,
    cycle: Seq<u32>,
)
    requires
        classification(n_max, base, bound) is Ok,
        1 <= m <= n_max,
        detected_cycle(m, base, bound) == Some(cycle),
        forall|j: nat| 1 <= j < m ==> #[trigger] detected_cycle(j, base, bound) != Some(cycle),
    ensures
        classification((m - 1) as nat, base, bound) is Ok,
        ({
            let used = classification((m - 1) as nat, base, bound)->Ok_0.table.len();
            let full = classification(n_max, base, bound)->Ok_0;
            &&& used < full.table.len()
            &&& full.labels[m - 1] == label_text(used)
            &&& full.table[used as int] == cycle
            &&& !full.labels.take(m - 1).contains(label_text(used))
            &&& forall|i: nat|
                i < used ==> #[trigger] full.labels.take(m - 1).contains(label_text(i))
        }),
{
    let before = (m - 1) as nat;
    lemma_classification_prefix(m, n_max, base, bound);
    lemma_classification_prefix(before, n_max, base, bound);
    lemma_classification_shape(n_max, base, bound);
    lemma_classification_shape(m, base, bound);
    lemma_classification_shape(before, base, bound);
    let prev = classification(before, base, bound)->Ok_0;
    let here = classification(m, base, bound)->Ok_0;
    let full = classification(n_max, base, bound)->Ok_0;
    let used = prev.table.len();
    lemma_table_holds_detected(before, base, bound, cycle);
    assert(!prev.table.contains(cycle));
    assert(here.table == prev.table.push(cycle));
    assert(here.labels == prev.labels.push(label_text(used)));
    assert(full.labels[m - 1] == here.labels[m - 1]);
    assert(full.table[used as int] == here.table[used as int]);
    let earlier = full.labels.take(m - 1);
    assert(earlier == prev.labels);
    assert forall|t: int| 0 <= t < earlier.len() implies earlier[t] != label_text(used) by {
        let j = t + 1;
        lemma_label_of_integer(before, base, bound, j as nat);
        match detected_cycle(j as nat, base, bound) {
            None => {
                lemma_label_text_not_other(used);
            },
            Some(other) => {
                let i = prev.table.index_of(other);
                if label_text(i as nat) == label_text(used) {
                    lemma_label_text_injective(i as nat, used);
                }
            },
        }
    }
    assert forall|i: nat| i < used implies #[trigger] earlier.contains(label_text(i)) by {
        lemma_table_position(prev.table, i as int);
        lemma_table_holds_detected(before, base, bound, prev.table[i as int]);
        let j = choose|j: nat|
            1 <= j <= before && #[trigger] detected_cycle(j, base, bound) == Some(
                prev.table[i as int],
            );
        lemma_label_of_integer(before, base, bound, j);
        assert(earlier[j - 1] == label_text(i));
    }
}

/// Every cycle of the table is a detected cycle: non-empty and canonical.
pub proof fn lemma_table_cycles_canonical(n_max: nat, base: nat, bound: nat, i: int)
    requires
        classification(n_max, base, bound) is Ok,
        0 <= i < classification(n_max, base, bound)->Ok_0.table.len(),
    ensures
        classification(n_max, base, bound)->Ok_0.table[i].len() > 0,
        is_canonical(classification(n_max, base, bound)->Ok_0.table[i]),
{
    let table = classification(n_max, base, bound)->Ok_0.table;
    assert(table.contains(table[i]));
    lemma_table_holds_detected(n_max, base, bound, table[i]);
    let m = choose|m: nat|
        1 <= m <= n_max && #[trigger] detected_cycle(m, base, bound) == Some(table[i]);
    lemma_detected_cycle_canonical(m, base, bound);
}

/// One more integer adds its cycle, if it has one, to the cycles seen.
proof fn lemma_cycles_seen_next(n_max: nat, base: nat, bound: nat)
    requires
        n_max > 0,
    ensures
        cycles_seen(n_max, base, bound) == match detected_cycle(n_max, base, bound) {
            Some(c) => cycles_seen((n_max - 1) as nat, base, bound).insert(c),
            None => cycles_seen((n_max - 1) as nat, base, bound),
        },
{
    let before = cycles_seen((n_max - 1) as nat, base, bound);
    let after = cycles_seen(n_max, base, bound);
    let expected = match detected_cycle(n_max, base, bound) {
        Some(c) => before.insert(c),
        None => before,
    };
    assert forall|c: Seq<u32>| after.contains(c) <==> expected.contains(c) by {
        if after.contains(c) {
            let m = choose|m: nat|
                1 <= m <= n_max && #[trigger] detected_cycle(m, base, bound) == Some(c);
            if m < n_max {
                assert(before.contains(c));
            }
        }
        if expected.contains(c) {
            if before.contains(c) {
                let m = choose|m: nat|
                    1 <= m <= n_max - 1 && #[trigger] detected_cycle(m, base, bound) == Some(c);
                assert(1 <= m <= n_max && detected_cycle(m, base, bound) == Some(c));
            } else {
                assert(detected_cycle(n_max, base, bound) == Some(c));
            }
        }
    }
    assert(after =~= expected);
}

/// Only finitely many cycles are seen, and their number does not shrink when
/// the range grows.
pub proof fn lemma_cycles_seen_finite(n_max: nat, base: nat, bound: nat)
    ensures
        cycles_seen(n_max, base, bound).finite(),
        cycles_seen(n_max, base, bound).len() <= n_max,
        n_max > 0 ==> cycles_seen((n_max - 1) as nat, base, bound).len() <= cycles_seen(
            n_max,
            base,
            bound,
        ).len(),
    decreases n_max,
{
    if n_max == 0 {
        assert(cycles_seen(0, base, bound) =~= Set::<Seq<u32>>::empty());
    } else {
        lemma_cycles_seen_finite((n_max - 1) as nat, base, bound);
        lemma_cycles_seen_next(n_max, base, bound);
    }
}

/// When a run succeeds. A run on a radix of at least 2 succeeds exactly when
/// every trajectory stays in the 32-bit range within the bound and there is a
/// label for each cycle seen. The table then holds as many cycles as were
/// seen.
pub proof fn lemma_run_succeeds_iff(n_max: nat, base: nat, bound: nat)
    ensures
        classification(n_max, base, bound) is Ok <==> base >= 2 && all_fit(n_max, base, bound)
            && cycles_seen(n_max, base, bound).len() <= LABEL_COUNT,
        classification(n_max, base, bound) is Ok ==> classification(
            n_max,
            base,
            bound,
        )->Ok_0.table.len() == cycles_seen(n_max, base, bound).len(),
        classification(n_max, base, bound) == Err::<ClassificationView, ClassifyError>(
            ClassifyError::InvalidBase,
        ) <==> base < 2,
    decreases n_max,
{
    lemma_cycles_seen_finite(n_max, base, bound);
    if base >= 2 {
        if n_max == 0 {
            assert(cycles_seen(0, base, bound) =~= Set::<Seq<u32>>::empty());
        } else {
            let before = (n_max - 1) as nat;
            lemma_run_succeeds_iff(before, base, bound);
            lemma_cycles_seen_finite(before, base, bound);
            lemma_cycles_seen_next(n_max, base, bound);
            if all_fit(n_max, base, bound) {
                assert forall|m: nat| 1 <= m <= before implies #[trigger] values_fit(
                    m,
                    base,
                    bound,
                ) by {}
                assert(values_fit(n_max, base, bound));
            }
            if classification(before, base, bound) is Ok {
                let prev = classification(before, base, bound)->Ok_0;
                assert(all_fit(before, base, bound));
                if let Some(c) = detected_cycle(n_max, base, bound) {
                    lemma_table_holds_detected(before, base, bound, c);
                    assert(prev.table.contains(c) <==> cycles_seen(before, base, bound).contains(
                        c,
                    ));
                }
                if classification(n_max, base, bound) is Ok {
                    assert forall|m: nat| 1 <= m <= n_max implies #[trigger] values_fit(
                        m,
                        base,
                        bound,
                    ) by {
                        if m <= before {
                            assert(values_fit(m, base, bound));
                        }
                    }
                }
            }
        }
    }
}

/// The run fails at the integer `n` and not before.
pub open spec fn first_failure(n: nat, base: nat, bound: nat) -> bool {
    &&& n >= 1
    &&& classification((n - 1) as nat, base, bound) is Ok
    &&& classification(n, base, bound) is Err
}

/// Why a run on a radix of at least 2 fails: at the first integer at which it
/// fails, either the trajectory leaves the 32-bit range, which is reported as
/// an overflow, or it stays there and one cycle more is seen than there are
/// labels, which is reported as such.
pub proof fn lemma_failure_reason(n_max: nat, base: nat, bound: nat) -> (n: nat)
    requires
        base >= 2,
        classification(n_max, base, bound) is Err,
    ensures
        1 <= n <= n_max,
        first_failure(n, base, bound),
        classification(n_max, base, bound) == if values_fit(n, base, bound) {
            Err::<ClassificationView, ClassifyError>(ClassifyError::LabelsExhausted)
        } else {
            Err::<ClassificationView, ClassifyError>(ClassifyError::ValueOverflow)
        },
        values_fit(n, base, bound) ==> cycles_seen(n, base, bound).len() > LABEL_COUNT,
    decreases n_max,
{
    let before = (n_max - 1) as nat;
    if classification(before, base, bound) is Err {
        let n = lemma_failure_reason(before, base, bound);
        lemma_failure_persists(before, n_max, base, bound);
        n
    } else {
        if values_fit(n_max, base, bound) {
            let prev = classification(before, base, bound)->Ok_0;
            let c = detected_cycle(n_max, base, bound)->0;
            lemma_run_succeeds_iff(before, base, bound);
            lemma_cycles_seen_finite(before, base, bound);
            lemma_cycles_seen_next(n_max, base, bound);
            lemma_classification_shape(before, base, bound);
            lemma_table_holds_detected(before, base, bound, c);
            assert(!cycles_seen(before, base, bound).contains(c));
        }
        n_max
    }
}

/// A run succeeds whenever the radix is between 2 and 2048 and the range
/// holds no more integers than there are labels.
pub proof fn lemma_small_run_succeeds(n_max: nat, base: nat, bound: nat)
    requires
        2 <= base <= 2048,
        n_max <= LABEL_COUNT,
    ensures
        classification(n_max, base, bound) is Ok,
        classification(n_max, base, bound)->Ok_0.table.len() <= n_max,
    decreases n_max,
{
    if n_max > 0 {
        lemma_small_run_succeeds((n_max - 1) as nat, base, bound);
        lemma_small_base_fits(n_max, base, bound);
    }
}

/// Two runs on the same arguments agree: they fail for the same reason, or
/// they give the same sequence of labels and the same table.
pub proof fn lemma_classify_deterministic(
    first: Result<Classification, ClassifyError>,
    second: Result<Classification, ClassifyError>,
    n_max: nat,
    base: nat,
    bound: nat,
)
    requires
        is_classification_of(first, n_max, base, bound),
        is_classification_of(second, n_max, base, bound),
    ensures
        match (first, second) {
            (Ok(a), Ok(b)) => a@.labels == b@.labels && a@.table == b@.table,
            (Err(e), Err(f)) => e == f,
            _ => false,
        },
{
}

/// With no step allowed nothing is detected: every integer gets the reserved
/// label and the table stays empty.
pub proof fn lemma_zero_bound_all_other(n_max: nat, base: nat)
    requires
        base >= 2,
    ensures
        classification(n_max, base, 0) is Ok,
        classification(n_max, base, 0)->Ok_0.table == Seq::<Seq<u32>>::empty(),
        classification(n_max, base, 0)->Ok_0.labels == Seq::new(
            n_max,
            |i: int| other_text(),
        ),
    decreases n_max,
{
    if n_max > 0 {
        lemma_zero_bound_all_other((n_max - 1) as nat, base);
        assert(classification(n_max, base, 0)->Ok_0.labels =~= Seq::new(
            n_max,
            |i: int| other_text(),
        ));
    } else {
        assert(classification(n_max, base, 0)->Ok_0.labels =~= Seq::new(
            n_max,
            |i: int| other_text(),
        ));
    }
}

} // verus!
