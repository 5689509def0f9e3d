//! Rotations of a cycle and its canonical, rotation-invariant representative.
//!
//! Two cycles are the same cycle when one is a rotation of the other. The
//! canonical representative is the lexicographically least rotation.

use crate::lex::{
    decided_at, lemma_lex_lt_irreflexive, lemma_lex_lt_transitive, lemma_lex_total, lex_lt,
};
use vstd::prelude::*;

verus! {

/// The rotation of `s` that starts at offset `k`: the elements from `k` to the
/// end, followed by the elements before `k`.
pub open spec fn rotation(s: Seq<u32>, k: int) -> Seq<u32> {
    s.subrange(k, s.len() as int) + s.subrange(0, k)
}

/// `c` is a rotation of `s` and no rotation of `s` precedes it.
pub open spec fn is_least_rotation(s: Seq<u32>, c: Seq<u32>) -> bool {
    &&& exists|k: int| 0 <= k < s.len() && c == #[trigger] rotation(s, k)
    &&& forall|k: int| 0 <= k < s.len() ==> !lex_lt(#[trigger] rotation(s, k), c)
}

/// The canonical representative of the cycle `s`: its least rotation.
///
/// For a non-empty `s` exactly one sequence is a least rotation
/// (`lemma_canonical_is_least`, `lemma_least_rotation_unique`).
pub open spec fn canonical(s: Seq<u32>) -> Seq<u32> {
    choose|c: Seq<u32>| is_least_rotation(s, c)
}

/// A cycle is canonical when none of its rotations precedes it.
pub open spec fn is_canonical(c: Seq<u32>) -> bool {
    is_least_rotation(c, c)
}

/// Element `j` of the rotation at offset `k`.
pub proof fn lemma_rotation_index(s: Seq<u32>, k: int, j: int)
    requires
        0 <= k < s.len(),
        0 <= j < s.len(),
    ensures
        rotation(s, k).len() == s.len(),
        rotation(s, k)[j] == s[(k + j) % (s.len() as int)],
        rotation(s, k)[j] == if j < s.len() - k { s[k + j] } else { s[k + j - s.len()] },
{
    let n = s.len() as int;
    if j < n - k {
        assert((k + j) % n == k + j) by (nonlinear_arith)
            requires
                0 <= k + j < n,
        ;
    } else {
        assert((k + j) % n == k + j - n) by (nonlinear_arith)
            requires
                n <= k + j < 2 * n,
        ;
    }
}

/// Rotating a rotation gives the rotation at the sum of the offsets.
pub proof fn lemma_rotation_compose(s: Seq<u32>, k: int, j: int)
    requires
        0 <= k < s.len(),
        0 <= j < s.len(),
    ensures
        rotation(rotation(s, k), j) == rotation(s, (k + j) % (s.len() as int)),
{
    let n = s.len() as int;
    let m = (k + j) % n;
    if k + j < n {
        assert(m == k + j) by (nonlinear_arith)
            requires
                0 <= k + j < n,
                m == (k + j) % n,
        ;
    } else {
        assert(m == k + j - n) by (nonlinear_arith)
            requires
                n <= k + j < 2 * n,
                m == (k + j) % n,
        ;
    }
    assert(rotation(rotation(s, k), j) =~= rotation(s, m));
}

/// Among the rotations at offsets below `upto` there is one that none of them
/// precedes.
proof fn lemma_least_among(s: Seq<u32>, upto: int) -> (best: int)
    requires
        0 < upto <= s.len(),
    ensures
        0 <= best < upto,
        forall|j: int| 0 <= j < upto ==> !lex_lt(#[trigger] rotation(s, j), rotation(s, best)),
    decreases upto,
{
    if upto == 1 {
        lemma_lex_lt_irreflexive(rotation(s, 0));
        0
    } else {
        let prev = lemma_least_among(s, upto - 1);
        let i = upto - 1;
        if lex_lt(rotation(s, i), rotation(s, prev)) {
            lemma_lex_lt_irreflexive(rotation(s, i));
            assert forall|j: int| 0 <= j < upto implies !lex_lt(
                #[trigger] rotation(s, j),
                rotation(s, i),
            ) by {
                if lex_lt(rotation(s, j), rotation(s, i)) {
                    lemma_lex_lt_transitive(rotation(s, j), rotation(s, i), rotation(s, prev));
                }
            }
            i
        } else {
            prev
        }
    }
}

/// A non-empty cycle has a least rotation, and `canonical` names it.
pub proof fn lemma_canonical_is_least(s: Seq<u32>)
    requires
        s.len() > 0,
    ensures
        is_least_rotation(s, canonical(s)),
        canonical(s).len() == s.len(),
{
    let best = lemma_least_among(s, s.len() as int);
    assert(is_least_rotation(s, rotation(s, best)));
    let k = choose|k: int| 0 <= k < s.len() && canonical(s) == #[trigger] rotation(s, k);
    lemma_rotation_index(s, k, 0);
}

/// A cycle has at most one least rotation.
pub proof fn lemma_least_rotation_unique(s: Seq<u32>, c1: Seq<u32>, c2: Seq<u32>)
    requires
        is_least_rotation(s, c1),
        is_least_rotation(s, c2),
    ensures
        c1 == c2,
{
    let k1 = choose|k: int| 0 <= k < s.len() && c1 == #[trigger] rotation(s, k);
    let k2 = choose|k: int| 0 <= k < s.len() && c2 == #[trigger] rotation(s, k);
    assert(!lex_lt(rotation(s, k1), c2));
    assert(!lex_lt(rotation(s, k2), c1));
    lemma_lex_total(c1, c2);
}

/// A least rotation of a cycle is also a least rotation of each of the cycle's
/// rotations.
proof fn lemma_least_rotation_of_rotation(s: Seq<u32>, k: int, c: Seq<u32>)
    requires
        0 <= k < s.len(),
        is_least_rotation(s, c),
    ensures
        is_least_rotation(rotation(s, k), c),
{
    let n = s.len() as int;
    let r = rotation(s, k);
    lemma_rotation_index(s, k, 0);
    let m = choose|m: int| 0 <= m < s.len() && c == #[trigger] rotation(s, m);
    // The offset into `r` that reaches offset `m` of `s`.
    let back = if m >= k { m - k } else { m - k + n };
    lemma_rotation_compose(s, k, back);
    assert((k + back) % n == m) by (nonlinear_arith)
        requires
            0 <= m < n,
            0 <= k < n,
            back == if m >= k { m - k } else { m - k + n },
    ;
    assert(c == rotation(r, back));
    assert forall|j: int| 0 <= j < r.len() implies !lex_lt(#[trigger] rotation(r, j), c) by {
        lemma_rotation_compose(s, k, j);
        let t = (k + j) % n;
        assert(0 <= t < n) by (nonlinear_arith)
            requires
                n > 0,
                t == (k + j) % n,
        ;
        assert(!lex_lt(rotation(s, t), c));
    }
}

/// Canonicalizing any rotation of a cycle gives the canonical form of the
/// cycle itself.
pub proof fn lemma_canonical_rotation_invariant(s: Seq<u32>, k: int)
    requires
        0 <= k < s.len(),
    ensures
        canonical(rotation(s, k)) == canonical(s),
{
    lemma_rotation_index(s, k, 0);
    lemma_canonical_is_least(s);
    lemma_canonical_is_least(rotation(s, k));
    lemma_least_rotation_of_rotation(s, k, canonical(s));
    lemma_least_rotation_unique(rotation(s, k), canonical(rotation(s, k)), canonical(s));
}

/// The canonical form is a key for cycles up to rotation: two cycles have
/// the same canonical form exactly when one is a rotation of the other.
pub proof fn lemma_canonical_is_key(a: Seq<u32>, b: Seq<u32>)
    requires
        a.len() > 0,
        b.len() > 0,
    ensures
        canonical(a) == canonical(b) <==> exists|k: int|
            0 <= k < a.len() && b == #[trigger] rotation(a, k),
{
    if exists|k: int| 0 <= k < a.len() && b == #[trigger] rotation(a, k) {
        let k = choose|k: int| 0 <= k < a.len() && b == #[trigger] rotation(a, k);
        lemma_canonical_rotation_invariant(a, k);
    }
    if canonical(a) == canonical(b) {
        lemma_canonical_is_least(a);
        lemma_canonical_is_least(b);
        let n = a.len() as int;
        let ka = choose|k: int| 0 <= k < a.len() && canonical(a) == #[trigger] rotation(a, k);
        let kb = choose|k: int| 0 <= k < b.len() && canonical(b) == #[trigger] rotation(b, k);
        // Rotating the canonical form back by `kb` gives `b`.
        let back = if kb == 0 { 0 } else { n - kb };
        lemma_rotation_compose(b, kb, back);
        assert((kb + back) % n == 0) by (nonlinear_arith)
            requires
                0 <= kb < n,
                back == if kb == 0 { 0 } else { n - kb },
        ;
        assert(rotation(b, 0) =~= b);
        lemma_rotation_compose(a, ka, back);
        let k = (ka + back) % n;
        assert(0 <= k < n) by (nonlinear_arith)
            requires
                n > 0,
                k == (ka + back) % n,
        ;
        assert(b == rotation(a, k));
    }
}

/// Canonicalizing a canonical cycle returns it unchanged.
pub proof fn lemma_canonical_fixes_canonical(c: Seq<u32>)
    requires
        is_canonical(c),
    ensures
        canonical(c) == c,
{
    // A canonical cycle is one of its own rotations, so it is not empty.
    assert(c.len() > 0);
    lemma_canonical_is_least(c);
    lemma_least_rotation_unique(c, canonical(c), c);
}

/// The canonical form of a non-empty cycle is canonical, so canonicalization
/// is idempotent.
pub proof fn lemma_canonical_idempotent(s: Seq<u32>)
    requires
        s.len() > 0,
    ensures
        is_canonical(canonical(s)),
        canonical(canonical(s)) == canonical(s),
{
    lemma_canonical_is_least(s);
    let k = choose|k: int| 0 <= k < s.len() && canonical(s) == #[trigger] rotation(s, k);
    lemma_least_rotation_of_rotation(s, k, canonical(s));
    lemma_canonical_rotation_invariant(s, k);
}

/// Index into `cycle` of element `j` of its rotation at offset `k`.
fn rotated_index(len: usize, k: usize, j: usize) -> (idx: usize)
    requires
        k < len,
        j < len,
    ensures
        idx < len,
        idx == (k + j) % (len as int),
        idx == if j < len - k { k + j } else { k + j - len },
{
    proof {
        if j < len - k {
            assert((k + j) % (len as int) == k + j) by (nonlinear_arith)
                requires
                    0 <= k + j < len,
            ;
        } else {
            assert((k + j) % (len as int) == k + j - len) by (nonlinear_arith)
                requires
                    len <= k + j < 2 * len,
            ;
        }
    }
    if j < len - k {
        k + j
    } else {
        j - (len - k)
    }
}

/// Whether the rotation of `cycle` at offset `a` precedes the one at offset
/// `b` in lexicographic order.
pub fn rotation_precedes(cycle: &[u32], a: usize, b: usize) -> (r: bool)
    requires
        a < cycle@.len(),
        b < cycle@.len(),
    ensures
        r == lex_lt(rotation(cycle@, a as int), rotation(cycle@, b as int)),
{
    let n = cycle.len();
    let ghost ra = rotation(cycle@, a as int);
    let ghost rb = rotation(cycle@, b as int);
    let mut j: usize = 0;
    while j < n
        invariant
            n == cycle@.len(),
            a < n,
            b < n,
            j <= n,
            ra == rotation(cycle@, a as int),
            rb == rotation(cycle@, b as int),
            ra.len() == n,
            rb.len() == n,
            forall|i: int| 0 <= i < j ==> ra[i] == rb[i],
        decreases n - j,
    {
        let x = cycle[rotated_index(n, a, j)];
        let y = cycle[rotated_index(n, b, j)];
        proof {
            lemma_rotation_index(cycle@, a as int, j as int);
            lemma_rotation_index(cycle@, b as int, j as int);
        }
        if x < y {
            assert(decided_at(ra, rb, j as int));
            return true;
        }
        if x > y {
            assert forall|k: int| !decided_at(ra, rb, k) by {
                if decided_at(ra, rb, k) {
                    if k < j {
                    } else if k > j {
                        assert(ra[j as int] == rb[j as int]);
                    }
                }
            }
            return false;
        }
        j += 1;
    }
    proof {
        assert(ra =~= rb);
        lemma_lex_lt_irreflexive(ra);
    }
    false
}

/// The canonical representative of a non-empty cycle: of all its rotations,
/// the lexicographically least.
pub fn minimal_rotation(cycle: &[u32]) -> (r: Vec<u32>)
    requires
        cycle@.len() > 0,
    ensures
        r@ == canonical(cycle@),
        is_canonical(r@),
        r@.len() == cycle@.len(),
{
    let n = cycle.len();
    let mut best: usize = 0;
    let mut i: usize = 1;
    proof {
        lemma_lex_lt_irreflexive(rotation(cycle@, 0));
    }
    while i < n
        invariant
            n == cycle@.len(),
            best < i <= n,
            forall|j: int|
                0 <= j < i ==> !lex_lt(#[trigger] rotation(cycle@, j), rotation(cycle@, best as int)),
        decreases n - i,
    {
        if rotation_precedes(cycle, i, best) {
            proof {
                lemma_lex_lt_irreflexive(rotation(cycle@, i as int));
                assert forall|j: int| 0 <= j < i + 1 implies !lex_lt(
                    #[trigger] rotation(cycle@, j),
                    rotation(cycle@, i as int),
                ) by {
                    if lex_lt(rotation(cycle@, j), rotation(cycle@, i as int)) {
                        lemma_lex_lt_transitive(
                            rotation(cycle@, j),
                            rotation(cycle@, i as int),
                            rotation(cycle@, best as int),
                        );
                    }
                }
            }
            best = i;
        }
        i += 1;
    }
    let mut out: Vec<u32> = Vec::with_capacity(n);
    let mut j: usize = 0;
    while j < n
        invariant
            n == cycle@.len(),
            best < n,
            j <= n,
            out@.len() == j,
            forall|t: int| 0 <= t < j ==> out@[t] == rotation(cycle@, best as int)[t],
        decreases n - j,
    {
        proof {
            lemma_rotation_index(cycle@, best as int, j as int);
        }
        out.push(cycle[rotated_index(n, best, j)]);
        j += 1;
    }
    proof {
        lemma_rotation_index(cycle@, best as int, 0);
        assert(out@ =~= rotation(cycle@, best as int));
        assert(is_least_rotation(cycle@, out@));
        lemma_canonical_is_least(cycle@);
        lemma_least_rotation_unique(cycle@, out@, canonical(cycle@));
        lemma_canonical_idempotent(cycle@);
    }
    out
}

} // verus!
