//! Lexicographic order on sequences of integers.

use vstd::prelude::*;

verus! {

/// `a` and `b` agree before position `k`, and at `k` the comparison is decided
/// in favour of `a`: either `a` ends there while `b` goes on, or `a` holds the
/// smaller element.
pub open spec fn decided_at(a: Seq<u32>, b: Seq<u32>, k: int) -> bool {
    &&& 0 <= k <= a.len()
    &&& k < b.len()
    &&& forall|j: int| 0 <= j < k ==> a[j] == b[j]
    &&& (k < a.len() ==> a[k] < b[k])
}

/// Strict lexicographic order on sequences of integers: a proper prefix comes
/// first, otherwise the first differing element decides.
pub open spec fn lex_lt(a: Seq<u32>, b: Seq<u32>) -> bool {
    exists|k: int| decided_at(a, b, k)
}

/// No sequence precedes itself.
pub proof fn lemma_lex_lt_irreflexive(a: Seq<u32>)
    ensures
        !lex_lt(a, a),
{
    assert forall|k: int| !decided_at(a, a, k) by {}
}

/// The order is transitive.
pub proof fn lemma_lex_lt_transitive(a: Seq<u32>, b: Seq<u32>, c: Seq<u32>)
    requires
        lex_lt(a, b),
        lex_lt(b, c),
    ensures
        lex_lt(a, c),
{
    let k1 = choose|k: int| decided_at(a, b, k);
    let k2 = choose|k: int| decided_at(b, c, k);
    if k1 <= k2 {
        assert(decided_at(a, c, k1));
    } else {
        assert(decided_at(a, c, k2));
    }
}

/// Two sequences that agree before `from` are equal or strictly ordered.
proof fn lemma_lex_total_from(a: Seq<u32>, b: Seq<u32>, from: int)
    requires
        0 <= from <= a.len(),
        from <= b.len(),
        forall|j: int| 0 <= j < from ==> a[j] == b[j],
    ensures
        a == b || lex_lt(a, b) || lex_lt(b, a),
    decreases a.len() - from,
{
    if from == a.len() {
        if from == b.len() {
            assert(a =~= b);
        } else {
            assert(decided_at(a, b, from));
        }
    } else if from == b.len() {
        assert(decided_at(b, a, from));
    } else if a[from] < b[from] {
        assert(decided_at(a, b, from));
    } else if b[from] < a[from] {
        assert(decided_at(b, a, from));
    } else {
        lemma_lex_total_from(a, b, from + 1);
    }
}

/// The order is total: two different sequences are ordered one way or the
/// other.
pub proof fn lemma_lex_total(a: Seq<u32>, b: Seq<u32>)
    ensures
        a == b || lex_lt(a, b) || lex_lt(b, a),
{
    lemma_lex_total_from(a, b, 0);
}

} // verus!
