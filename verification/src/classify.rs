//! The classifier: scans the integers from 1 upwards, detects the cycle of
//! each and gives every distinct canonical cycle a label, in the order in
//! which the cycles first appear.
//!
//! What holds of every classification is proved in [`crate::laws`].

use crate::detect::{detected_cycle, try_detect_cycle};
use crate::error::ClassifyError;
use crate::label::{get_label, label_text, other_label, other_text, LABEL_COUNT};
use crate::laws::{lemma_classification_shape, lemma_failure_persists, lemma_run_succeeds_iff};
use crate::orbit::values_fit;
use crate::table::{is_table, ClassificationTable};
use vstd::prelude::*;

verus! {

/// The mathematical content of a classification.
pub struct ClassificationView {
    /// The label of each integer, in increasing order of the integers from 1.
    pub labels: Seq<Seq<char>>,
    /// The canonical cycles in the order of their labels.
    pub table: Seq<Seq<u32>>,
}

/// The result of a classification run.
pub struct Classification {
    /// The label of each integer, in increasing order of the integers from 1.
    pub labels: Vec<String>,
    /// The labelled cycles.
    pub table: ClassificationTable,
}

impl View for Classification {
    type V = ClassificationView;

    open spec fn view(&self) -> ClassificationView {
        ClassificationView {
            labels: self.labels@.map_values(|l: String| l@),
            table: self.table@,
        }
    }
}

/// The classification of no integer at all.
pub open spec fn empty_classification() -> ClassificationView {
    ClassificationView { labels: Seq::empty(), table: Seq::empty() }
}

/// Extends a classification by the next integer, whose detection gave
/// `outcome`.
///
/// Without a cycle the integer gets the reserved label. With a cycle that the
/// table holds it gets that cycle's label. A cycle not seen before enters the
/// table and gets the next label; when all labels are in use the run fails.
pub open spec fn observe(prev: ClassificationView, outcome: Option<Seq<u32>>) -> Result<
    ClassificationView,
    ClassifyError,
> {
    match outcome {
        None => Ok(
            ClassificationView { labels: prev.labels.push(other_text()), table: prev.table },
        ),
        Some(cycle) => if prev.table.contains(cycle) {
            Ok(
                ClassificationView {
                    labels: prev.labels.push(label_text(prev.table.index_of(cycle) as nat)),
                    table: prev.table,
                },
            )
        } else if prev.table.len() >= LABEL_COUNT {
            Err(ClassifyError::LabelsExhausted)
        } else {
            Ok(
                ClassificationView {
                    labels: prev.labels.push(label_text(prev.table.len())),
                    table: prev.table.push(cycle),
                },
            )
        },
    }
}

/// The classification of the integers `1..=n_max` in radix `base`, with
/// trajectories followed for at most `bound` steps.
///
/// The integers are taken in increasing order. The run fails on a radix below
/// 2, at the first integer whose trajectory leaves the 32-bit range within the
/// bound, and at the first new cycle for which no label is left.
pub open spec fn classification(n_max: nat, base: nat, bound: nat) -> Result<
    ClassificationView,
    ClassifyError,
>
    decreases n_max,
{
    if base < 2 {
        Err(ClassifyError::InvalidBase)
    } else if n_max == 0 {
        Ok(empty_classification())
    } else {
        match classification((n_max - 1) as nat, base, bound) {
            Err(e) => Err(e),
            Ok(prev) => if !values_fit(n_max, base, bound) {
                Err(ClassifyError::ValueOverflow)
            } else {
                observe(prev, detected_cycle(n_max, base, bound))
            },
        }
    }
}

/// The cycles detected for the integers `1..=n_max`.
pub open spec fn cycles_seen(n_max: nat, base: nat, bound: nat) -> Set<Seq<u32>> {
    Set::new(
        |c: Seq<u32>|
            exists|m: nat| 1 <= m <= n_max && #[trigger] detected_cycle(m, base, bound) == Some(c),
    )
}

/// The trajectory of every integer of `1..=n_max` stays in the 32-bit range
/// for `bound` steps.
pub open spec fn all_fit(n_max: nat, base: nat, bound: nat) -> bool {
    forall|m: nat| 1 <= m <= n_max ==> #[trigger] values_fit(m, base, bound)
}

/// `r` is the result that a run on the integers `1..=n_max` has to give: the
/// failure of the model, or labels and a table with the model's content.
pub open spec fn is_classification_of(
    r: Result<Classification, ClassifyError>,
    n_max: nat,
    base: nat,
    bound: nat,
) -> bool {
    match r {
        Ok(c) => classification(n_max, base, bound) == Ok::<ClassificationView, ClassifyError>(c@),
        Err(e) => classification(n_max, base, bound) == Err::<ClassificationView, ClassifyError>(
            e,
        ),
    }
}

/// The cycle of a detection, if any, as a sequence of values.
pub open spec fn outcome_view(outcome: Option<Vec<u32>>) -> Option<Seq<u32>> {
    match outcome {
        Some(cycle) => Some(cycle@),
        None => None,
    }
}

impl Classification {
    /// The classification of no integer at all.
    pub fn new() -> (c: Self)
        ensures
            c@ == empty_classification(),
    {
        let c = Classification { labels: Vec::new(), table: ClassificationTable::new() };
        assert(c@.labels =~= Seq::<Seq<char>>::empty());
        c
    }

    /// Extends the classification by the next integer, whose detection gave
    /// `outcome`: the integer gets its label, and a cycle not seen before
    /// enters the table. Fails when a new cycle comes and all labels are in
    /// use.
    pub fn record(self, outcome: Option<Vec<u32>>) -> (r: Result<Classification, ClassifyError>)
        ensures
            match r {
                Ok(c) => observe(self@, outcome_view(outcome)) == Ok::<
                    ClassificationView,
                    ClassifyError,
                >(c@),
                Err(e) => observe(self@, outcome_view(outcome)) == Err::<
                    ClassificationView,
                    ClassifyError,
                >(e),
            },
    {
        let ghost before = self.labels@;
        let mut labels = self.labels;
        let mut table = self.table;
        let label = match outcome {
            None => other_label(),
            Some(cycle) => {
                match table.position(cycle.as_slice()) {
                    Some(i) => get_label(i),
                    None => {
                        let count = table.len();
                        if count >= LABEL_COUNT {
                            return Err(ClassifyError::LabelsExhausted);
                        }
                        table = table.with_cycle(cycle);
                        get_label(count)
                    },
                }
            },
        };
        labels.push(label);
        proof {
            assert(labels@.map_values(|l: String| l@) =~= before.map_values(|l: String| l@).push(
                label@,
            ));
        }
        Ok(Classification { labels, table })
    }
}

/// Scans the integers `1..=n_max` in increasing order, recording for each
/// the cycle detected for it.
fn scan(n_max: u32, base: u32, max_iter: usize) -> (r: Result<Classification, ClassifyError>)
    ensures
        is_classification_of(r, n_max as nat, base as nat, max_iter as nat),
{
    if base < 2 {
        return Err(ClassifyError::InvalidBase);
    }
    let ghost radix = base as nat;
    let ghost bound = max_iter as nat;
    let mut current = Classification::new();
    let mut n: u32 = 0;
    while n < n_max
        invariant
            base >= 2,
            radix == base as nat,
            bound == max_iter as nat,
            n <= n_max,
            classification(n as nat, radix, bound) == Ok::<ClassificationView, ClassifyError>(
                current@,
            ),
        decreases n_max - n,
    {
        n += 1;
        let outcome = match try_detect_cycle(n, base, max_iter) {
            Ok(outcome) => outcome,
            Err(e) => {
                proof {
                    assert(e == ClassifyError::ValueOverflow);
                    lemma_failure_persists(n as nat, n_max as nat, radix, bound);
                }
                return Err(e);
            },
        };
        current = match current.record(outcome) {
            Ok(next) => next,
            Err(e) => {
                proof {
                    lemma_failure_persists(n as nat, n_max as nat, radix, bound);
                }
                return Err(e);
            },
        };
    }
    Ok(current)
}

/// Classifies the integers `1..=n_max` by the cycle that the digit-sum-square
/// map in radix `base` leads each of them into, following each trajectory for
/// at most `max_iter` steps.
///
/// The result holds the label of each integer, in increasing order, and the
/// table of the labelled cycles. The run fails on a radix below 2, when a
/// trajectory leaves the 32-bit range, and when the labels run out; of two
/// failures the one at the smaller integer is reported.
pub fn classify(n_max: u32, base: u32, max_iter: usize) -> (r: Result<
    Classification,
    ClassifyError,
>)
    ensures
        is_classification_of(r, n_max as nat, base as nat, max_iter as nat),
        r is Ok <==> base >= 2 && all_fit(n_max as nat, base as nat, max_iter as nat)
            && cycles_seen(n_max as nat, base as nat, max_iter as nat).len() <= LABEL_COUNT,
        r == Err::<Classification, ClassifyError>(ClassifyError::InvalidBase) <==> base < 2,
        match r {
            Ok(c) => c.labels@.len() == n_max && is_table(c.table@),
            Err(_) => true,
        },
{
    let r = scan(n_max, base, max_iter);
    proof {
        lemma_run_succeeds_iff(n_max as nat, base as nat, max_iter as nat);
        if r is Ok {
            lemma_classification_shape(n_max as nat, base as nat, max_iter as nat);
        }
    }
    r
}

} // verus!
