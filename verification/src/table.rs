//! The classification table: the canonical cycles found so far, each with the
//! label it was given.
//!
//! Cycles are kept in the order in which they were first seen. The cycle at
//! position `i` bears the label with index `i`, so the table is at once the
//! mapping from cycle to label and the mapping from label back to cycle.

use crate::label::{get_label, label_text, lemma_label_text_injective, LABEL_COUNT};
use vstd::prelude::*;
use vstd::string::*;

verus! {

/// What a sequence of cycles must satisfy to be a table: no cycle occurs
/// twice, and there is a label for each.
pub open spec fn is_table(cycles: Seq<Seq<u32>>) -> bool {
    &&& cycles.no_duplicates()
    &&& cycles.len() <= LABEL_COUNT
}

/// The mapping from each cycle of the table to its label.
pub open spec fn cycle_to_label(cycles: Seq<Seq<u32>>) -> Map<Seq<u32>, Seq<char>> {
    Map::new(
        |c: Seq<u32>| cycles.contains(c),
        |c: Seq<u32>| label_text(cycles.index_of(c) as nat),
    )
}

/// `label` is the label of the cycle at position `i`.
pub open spec fn labels_position(cycles: Seq<Seq<u32>>, label: Seq<char>, i: int) -> bool {
    0 <= i < cycles.len() && label_text(i as nat) == label
}

/// The mapping from each label in use to the cycle that bears it.
pub open spec fn label_to_cycle(cycles: Seq<Seq<u32>>) -> Map<Seq<char>, Seq<u32>> {
    Map::new(
        |l: Seq<char>| exists|i: int| labels_position(cycles, l, i),
        |l: Seq<char>| cycles[choose|i: int| labels_position(cycles, l, i)],
    )
}

/// In a table each cycle stands at one position only.
pub proof fn lemma_table_position(cycles: Seq<Seq<u32>>, i: int)
    requires
        is_table(cycles),
        0 <= i < cycles.len(),
    ensures
        cycles.contains(cycles[i]),
        cycles.index_of(cycles[i]) == i,
{
}

/// In a table each label in use belongs to one position only.
pub proof fn lemma_label_position(cycles: Seq<Seq<u32>>, i: int)
    requires
        is_table(cycles),
        0 <= i < cycles.len(),
    ensures
        label_to_cycle(cycles).dom().contains(label_text(i as nat)),
        label_to_cycle(cycles)[label_text(i as nat)] == cycles[i],
{
    let l = label_text(i as nat);
    assert(labels_position(cycles, l, i));
    let j = choose|j: int| labels_position(cycles, l, j);
    lemma_label_text_injective(i as nat, j as nat);
}

/// The two mappings of a table are inverse to each other.
pub proof fn lemma_mappings_paired(cycles: Seq<Seq<u32>>)
    requires
        is_table(cycles),
    ensures
        forall|c: Seq<u32>| #[trigger]
            cycle_to_label(cycles).dom().contains(c) ==> {
                &&& label_to_cycle(cycles).dom().contains(cycle_to_label(cycles)[c])
                &&& label_to_cycle(cycles)[cycle_to_label(cycles)[c]] == c
            },
        forall|l: Seq<char>| #[trigger]
            label_to_cycle(cycles).dom().contains(l) ==> {
                &&& cycle_to_label(cycles).dom().contains(label_to_cycle(cycles)[l])
                &&& cycle_to_label(cycles)[label_to_cycle(cycles)[l]] == l
            },
{
    assert forall|c: Seq<u32>| #[trigger] cycle_to_label(cycles).dom().contains(c) implies {
        &&& label_to_cycle(cycles).dom().contains(cycle_to_label(cycles)[c])
        &&& label_to_cycle(cycles)[cycle_to_label(cycles)[c]] == c
    } by {
        let i = cycles.index_of(c);
        lemma_label_position(cycles, i);
    }
    assert forall|l: Seq<char>| #[trigger] label_to_cycle(cycles).dom().contains(l) implies {
        &&& cycle_to_label(cycles).dom().contains(label_to_cycle(cycles)[l])
        &&& cycle_to_label(cycles)[label_to_cycle(cycles)[l]] == l
    } by {
        let i = choose|i: int| labels_position(cycles, l, i);
        lemma_table_position(cycles, i);
    }
}

/// Whether two cycles hold the same values in the same order.
pub fn same_values(a: &[u32], b: &[u32]) -> (r: bool)
    ensures
        r == (a@ == b@),
{
    if a.len() != b.len() {
        return false;
    }
    let mut i: usize = 0;
    while i < a.len()
        invariant
            a@.len() == b@.len(),
            i <= a@.len(),
            forall|j: int| 0 <= j < i ==> a@[j] == b@[j],
        decreases a@.len() - i,
    {
        if a[i] != b[i] {
            return false;
        }
        i += 1;
    }
    assert(a@ =~= b@);
    true
}

/// The canonical cycles found by a classification, in the order of their
/// first appearance, which is also the order of their labels.
pub struct ClassificationTable {
    cycles: Vec<Vec<u32>>,
}

impl View for ClassificationTable {
    type V = Seq<Seq<u32>>;

    closed spec fn view(&self) -> Seq<Seq<u32>> {
        self.cycles@.map_values(|c: Vec<u32>| c@)
    }
}

impl ClassificationTable {
    #[verifier::type_invariant]
    spec fn well_formed(&self) -> bool {
        is_table(self@)
    }

    /// The table without any cycle.
    pub fn new() -> (table: Self)
        ensures
            table@ == Seq::<Seq<u32>>::empty(),
    {
        let table = ClassificationTable { cycles: Vec::new() };
        assert(table@ =~= Seq::<Seq<u32>>::empty());
        table
    }

    /// The number of cycles, which is the number of labels in use.
    pub fn len(&self) -> (n: usize)
        ensures
            n == self@.len(),
            is_table(self@),
    {
        proof {
            use_type_invariant(self);
        }
        self.cycles.len()
    }

    /// The cycles in label order.
    pub fn cycles(&self) -> (cycles: &Vec<Vec<u32>>)
        ensures
            cycles@.map_values(|c: Vec<u32>| c@) == self@,
            is_table(self@),
    {
        proof {
            use_type_invariant(self);
        }
        &self.cycles
    }

    /// The position of `cycle` in the table, which is the index of its label.
    pub fn position(&self, cycle: &[u32]) -> (r: Option<usize>)
        ensures
            is_table(self@),
            match r {
                Some(i) => i < self@.len() && self@[i as int] == cycle@ && self@.index_of(cycle@)
                    == i,
                None => !self@.contains(cycle@),
            },
    {
        proof {
            use_type_invariant(self);
        }
        let mut i: usize = 0;
        while i < self.cycles.len()
            invariant
                is_table(self@),
                i <= self.cycles@.len(),
                self@.len() == self.cycles@.len(),
                forall|j: int| 0 <= j < i ==> self@[j] != cycle@,
            decreases self.cycles@.len() - i,
        {
            assert(self@[i as int] == self.cycles@[i as int]@);
            if same_values(self.cycles[i].as_slice(), cycle) {
                proof {
                    lemma_table_position(self@, i as int);
                }
                return Some(i);
            }
            i += 1;
        }
        None
    }

    /// The label of `cycle`, if the table holds it.
    pub fn label_of(&self, cycle: &[u32]) -> (r: Option<String>)
        ensures
            match r {
                Some(label) => cycle_to_label(self@).dom().contains(cycle@) && label@
                    == cycle_to_label(self@)[cycle@],
                None => !cycle_to_label(self@).dom().contains(cycle@),
            },
    {
        match self.position(cycle) {
            Some(i) => Some(get_label(i)),
            None => None,
        }
    }

    /// The cycle that bears `label`, if the label is in use.
    pub fn cycle_of(&self, label: &str) -> (r: Option<&Vec<u32>>)
        ensures
            match r {
                Some(cycle) => label_to_cycle(self@).dom().contains(label@) && cycle@
                    == label_to_cycle(self@)[label@],
                None => !label_to_cycle(self@).dom().contains(label@),
            },
    {
        proof {
            use_type_invariant(self);
        }
        let wanted = String::from_str(label);
        let mut i: usize = 0;
        while i < self.cycles.len()
            invariant
                is_table(self@),
                i <= self.cycles@.len(),
                self@.len() == self.cycles@.len(),
                wanted@ == label@,
                forall|j: int| 0 <= j < i ==> !labels_position(self@, label@, j),
            decreases self.cycles@.len() - i,
        {
            let candidate = get_label(i);
            if candidate == wanted {
                proof {
                    lemma_label_position(self@, i as int);
                    assert(self@[i as int] == self.cycles@[i as int]@);
                }
                return Some(&self.cycles[i]);
            }
            i += 1;
        }
        None
    }

    /// The table with one more cycle, which it did not hold yet; the new
    /// cycle gets the next label.
    pub(crate) fn with_cycle(self, cycle: Vec<u32>) -> (table: Self)
        requires
            !self@.contains(cycle@),
            self@.len() < LABEL_COUNT,
        ensures
            table@ == self@.push(cycle@),
    {
        proof {
            use_type_invariant(&self);
        }
        let ghost before = self@;
        let mut cycles = self.cycles;
        cycles.push(cycle);
        assert(cycles@.map_values(|c: Vec<u32>| c@) =~= before.push(cycle@));
        ClassificationTable { cycles }
    }
}

} // verus!
