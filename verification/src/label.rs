//! Labels of cycles: short alphabetic names handed out in order of first
//! appearance, and the reserved label of integers without a detected cycle.

use crate::lex::{
    decided_at, lemma_lex_lt_irreflexive, lemma_lex_lt_transitive, lemma_lex_total, lex_lt,
};
use vstd::prelude::*;
use vstd::string::*;

verus! {

/// How many labels there are: 26 single letters and 26 * 26 pairs.
pub const LABEL_COUNT: usize = 702;

/// The lower-case letter at position `i` of the alphabet, from 0 for `a`.
pub open spec fn letter(i: int) -> char {
    ((97 + i) as u8) as char
}

/// The label with index `idx`.
///
/// Indices below 26 give the single letters `a` to `z`. From 26 on a label
/// has two letters: the letter at position `idx / 26 - 1`, then the one at
/// position `idx % 26`.
pub open spec fn label_text(idx: nat) -> Seq<char> {
    if idx < 26 {
        seq![letter(idx as int)]
    } else {
        seq![letter(idx as int / 26 - 1), letter(idx as int % 26)]
    }
}

/// The reserved label of an integer for which no cycle was detected.
pub open spec fn other_text() -> Seq<char> {
    seq!['o', 't', 'h', 'e', 'r']
}

/// Different indices give different labels.
pub proof fn lemma_label_text_injective(i: nat, j: nat)
    requires
        i < LABEL_COUNT,
        j < LABEL_COUNT,
        label_text(i) == label_text(j),
    ensures
        i == j,
{
    let a = label_text(i);
    let b = label_text(j);
    assert(a.len() == b.len());
    assert(a[0] == b[0]);
    if i >= 26 {
        assert(a[1] == b[1]);
    }
}

/// No cycle bears the reserved label.
pub proof fn lemma_label_text_not_other(i: nat)
    ensures
        label_text(i) != other_text(),
{
    assert(label_text(i).len() <= 2);
    assert(other_text().len() == 5);
}

/// The one-letter string that holds the letter at position `i`.
fn letter_str(i: usize) -> (r: &'static str)
    requires
        i < 26,
    ensures
        r@ == seq![letter(i as int)],
{
    let alphabet = "abcdefghijklmnopqrstuvwxyz";
    proof {
        reveal_strlit("abcdefghijklmnopqrstuvwxyz");
        assert(alphabet@.len() == 26);
        assert(forall|k: int| 0 <= k < 26 ==> alphabet@[k] == letter(k));
        assert(alphabet.is_ascii());
    }
    let r = alphabet.substring_ascii(i, i + 1);
    assert(r@ =~= seq![letter(i as int)]);
    r
}

/// The label with index `idx`.
pub fn get_label(idx: usize) -> (label: String)
    requires
        idx < LABEL_COUNT,
    ensures
        label@ == label_text(idx as nat),
{
    if idx < 26 {
        String::from_str(letter_str(idx))
    } else {
        let first = letter_str(idx / 26 - 1);
        let second = letter_str(idx % 26);
        let mut label = String::from_str(first);
        label.append(second);
        assert(label@ =~= label_text(idx as nat));
        label
    }
}

/// The reserved label of an integer for which no cycle was detected.
pub fn other_label() -> (label: String)
    ensures
        label@ == other_text(),
{
    proof {
        reveal_strlit("other");
    }
    let label = String::from_str("other");
    assert(label@ =~= other_text());
    label
}

/// A text as the sequence of its characters' code points.
pub open spec fn code_points(text: Seq<char>) -> Seq<u32> {
    Seq::new(text.len(), |i: int| text[i] as u32)
}

/// The order in which distinct labels are listed: the reserved label comes
/// after every other one, and the others are ordered as strings, character by
/// character.
pub open spec fn label_lt(a: Seq<char>, b: Seq<char>) -> bool {
    a != other_text() && (b == other_text() || lex_lt(code_points(a), code_points(b)))
}

/// A character is determined by its code point.
proof fn lemma_char_by_code(c: char, d: char)
    requires
        c as u32 == d as u32,
    ensures
        c == d,
{
}

/// Texts with the same code points are the same text.
pub proof fn lemma_code_points_injective(a: Seq<char>, b: Seq<char>)
    requires
        code_points(a) == code_points(b),
    ensures
        a == b,
{
    assert(a.len() == code_points(a).len());
    assert(b.len() == code_points(b).len());
    assert forall|i: int| 0 <= i < a.len() implies a[i] == b[i] by {
        assert(code_points(a)[i] == a[i] as u32);
        assert(code_points(b)[i] == b[i] as u32);
        lemma_char_by_code(a[i], b[i]);
    }
    assert(a =~= b);
}

/// No label is listed before itself.
pub proof fn lemma_label_lt_irreflexive(a: Seq<char>)
    ensures
        !label_lt(a, a),
{
    lemma_lex_lt_irreflexive(code_points(a));
}

/// The listing order is transitive.
pub proof fn lemma_label_lt_transitive(a: Seq<char>, b: Seq<char>, c: Seq<char>)
    requires
        label_lt(a, b),
        label_lt(b, c),
    ensures
        label_lt(a, c),
{
    if c != other_text() {
        lemma_lex_lt_transitive(code_points(a), code_points(b), code_points(c));
    }
}

/// The listing order is total: of two different labels one is listed first.
pub proof fn lemma_label_lt_total(a: Seq<char>, b: Seq<char>)
    ensures
        a == b || label_lt(a, b) || label_lt(b, a),
{
    if a != b {
        lemma_lex_total(code_points(a), code_points(b));
        if code_points(a) == code_points(b) {
            lemma_code_points_injective(a, b);
        }
    }
}

/// Whether `a` comes before `b` as a string: character by character, a proper
/// prefix first.
pub fn text_precedes(a: &str, b: &str) -> (r: bool)
    ensures
        r == lex_lt(code_points(a@), code_points(b@)),
{
    let len_a = a.unicode_len();
    let len_b = b.unicode_len();
    let ghost ca = code_points(a@);
    let ghost cb = code_points(b@);
    let mut i: usize = 0;
    while i < len_a && i < len_b
        invariant
            len_a == a@.len(),
            len_b == b@.len(),
            ca == code_points(a@),
            cb == code_points(b@),
            i <= len_a,
            i <= len_b,
            forall|j: int| 0 <= j < i ==> ca[j] == cb[j],
        decreases len_a - i,
    {
        let x = a.get_char(i) as u32;
        let y = b.get_char(i) as u32;
        assert(x == ca[i as int] && y == cb[i as int]);
        if x < y {
            assert(decided_at(ca, cb, i as int));
            return true;
        }
        if x > y {
            assert forall|k: int| !decided_at(ca, cb, k) by {
                if decided_at(ca, cb, k) && k > i {
                    assert(ca[i as int] == cb[i as int]);
                }
            }
            return false;
        }
        i += 1;
    }
    if len_a < len_b {
        assert(decided_at(ca, cb, len_a as int));
        true
    } else {
        assert forall|k: int| !decided_at(ca, cb, k) by {}
        false
    }
}

/// Whether `label` is the reserved label.
pub fn is_other(label: &str) -> (r: bool)
    ensures
        r == (label@ == other_text()),
{
    let given = String::from_str(label);
    let other = other_label();
    given == other
}

/// Whether `a` is listed before `b`.
pub fn label_precedes(a: &str, b: &str) -> (r: bool)
    ensures
        r == label_lt(a@, b@),
{
    if is_other(a) {
        false
    } else if is_other(b) {
        true
    } else {
        text_precedes(a, b)
    }
}

/// The texts of a list of labels.
pub open spec fn texts(labels: Seq<String>) -> Seq<Seq<char>> {
    labels.map_values(|l: String| l@)
}

/// The list is in listing order, each label once.
pub open spec fn is_ordered(list: Seq<Seq<char>>) -> bool {
    forall|i: int, j: int| 0 <= i < j < list.len() ==> label_lt(#[trigger] list[i], #[trigger] list[j])
}

/// The members of an ordered list other than its first are the members of
/// the rest of the list.
proof fn lemma_ordered_rest(list: Seq<Seq<char>>, text: Seq<char>)
    requires
        is_ordered(list),
        list.len() > 0,
    ensures
        is_ordered(list.drop_first()),
        list.drop_first().contains(text) <==> list.contains(text) && text != list[0],
{
    let rest = list.drop_first();
    assert forall|i: int, j: int| 0 <= i < j < rest.len() implies label_lt(
        #[trigger] rest[i],
        #[trigger] rest[j],
    ) by {
        assert(label_lt(list[i + 1], list[j + 1]));
    }
    if rest.contains(text) {
        let k = choose|k: int| 0 <= k < rest.len() && rest[k] == text;
        assert(list[k + 1] == text);
        assert(label_lt(list[0], list[k + 1]));
        lemma_label_lt_irreflexive(text);
    }
    if list.contains(text) && text != list[0] {
        let k = choose|k: int| 0 <= k < list.len() && list[k] == text;
        assert(rest[k - 1] == text);
    }
}

/// There is only one ordered list of a given set of labels.
pub proof fn lemma_ordered_list_unique(a: Seq<Seq<char>>, b: Seq<Seq<char>>)
    requires
        is_ordered(a),
        is_ordered(b),
        forall|text: Seq<char>| #[trigger] a.contains(text) <==> b.contains(text),
    ensures
        a == b,
    decreases a.len(),
{
    if a.len() == 0 {
        if b.len() > 0 {
            assert(b.contains(b[0]));
            assert(a.contains(b[0]));
        }
        assert(a =~= b);
    } else {
        assert(a.contains(a[0]));
        assert(b.contains(a[0]));
        assert(b.contains(b[0]));
        assert(a.contains(b[0]));
        let j = choose|j: int| 0 <= j < b.len() && b[j] == a[0];
        let i = choose|i: int| 0 <= i < a.len() && a[i] == b[0];
        if j > 0 {
            assert(label_lt(b[0], b[j]));
            if i > 0 {
                assert(label_lt(a[0], a[i]));
                lemma_label_lt_transitive(a[0], a[i], a[0]);
            }
            lemma_label_lt_irreflexive(a[0]);
        }
        assert(a[0] == b[0]);
        assert forall|text: Seq<char>| #[trigger]
            a.drop_first().contains(text) <==> b.drop_first().contains(text) by {
            lemma_ordered_rest(a, text);
            lemma_ordered_rest(b, text);
        }
        lemma_ordered_rest(a, a[0]);
        lemma_ordered_rest(b, b[0]);
        lemma_ordered_list_unique(a.drop_first(), b.drop_first());
        assert(a =~= seq![a[0]] + a.drop_first());
        assert(b =~= seq![b[0]] + b.drop_first());
    }
}

/// Inserting a label where the order puts it keeps a list ordered.
proof fn lemma_insert_keeps_order(list: Seq<Seq<char>>, p: int, label: Seq<char>)
    requires
        is_ordered(list),
        0 <= p <= list.len(),
        forall|q: int| 0 <= q < p ==> label_lt(#[trigger] list[q], label),
        p < list.len() ==> !label_lt(list[p], label) && list[p] != label,
    ensures
        is_ordered(list.insert(p, label)),
{
    let after = list.insert(p, label);
    assert forall|q: int| p <= q < list.len() implies label_lt(label, #[trigger] list[q]) by {
        lemma_label_lt_total(label, list[p]);
        if q > p {
            lemma_label_lt_transitive(label, list[p], list[q]);
        }
    }
    assert forall|a: int, b: int| 0 <= a < b < after.len() implies label_lt(
        #[trigger] after[a],
        #[trigger] after[b],
    ) by {
        if b < p {
            assert(label_lt(list[a], list[b]));
        } else if b == p {
            assert(label_lt(list[a], label));
        } else if a == p {
            assert(label_lt(label, list[b - 1]));
        } else if a < p {
            assert(label_lt(list[a], label));
            assert(label_lt(label, list[b - 1]));
            lemma_label_lt_transitive(list[a], label, list[b - 1]);
        } else {
            assert(label_lt(list[a - 1], list[b - 1]));
        }
    }
}

/// A list with one more element holds what it held before, and the new
/// element.
proof fn lemma_insert_members(list: Seq<Seq<char>>, p: int, label: Seq<char>, text: Seq<char>)
    requires
        0 <= p <= list.len(),
    ensures
        list.insert(p, label).contains(text) <==> list.contains(text) || text == label,
{
    let after = list.insert(p, label);
    if after.contains(text) {
        let k = choose|k: int| 0 <= k < after.len() && after[k] == text;
        if k < p {
            assert(list[k] == text);
        } else if k > p {
            assert(list[k - 1] == text);
        }
    }
    if list.contains(text) {
        let k = choose|k: int| 0 <= k < list.len() && list[k] == text;
        if k < p {
            assert(after[k] == text);
        } else {
            assert(after[k + 1] == text);
        }
    }
    if text == label {
        assert(after[p] == text);
    }
}

/// The distinct labels among `labels` in listing order: each once, the
/// reserved label last, the others ordered as strings.
pub fn ordered_labels(labels: &Vec<String>) -> (list: Vec<String>)
    ensures
        is_ordered(texts(list@)),
        forall|text: Seq<char>|
            #[trigger] texts(list@).contains(text) <==> texts(labels@).contains(text),
{
    let mut list: Vec<String> = Vec::new();
    let mut i: usize = 0;
    while i < labels.len()
        invariant
            i <= labels@.len(),
            is_ordered(texts(list@)),
            forall|text: Seq<char>|
                #[trigger] texts(list@).contains(text) <==> texts(labels@).take(i as int).contains(
                    text,
                ),
        decreases labels@.len() - i,
    {
        let label = &labels[i];
        let ghost before = texts(list@);
        let ghost seen = texts(labels@).take(i as int);
        let mut p: usize = 0;
        while p < list.len()
            invariant_except_break
                p <= list@.len(),
            invariant
                before == texts(list@),
                forall|q: int| 0 <= q < p ==> label_lt(#[trigger] before[q], label@),
            ensures
                p <= list@.len(),
                p < list@.len() ==> !label_lt(before[p as int], label@),
            decreases list@.len() - p,
        {
            assert(before[p as int] == list@[p as int]@);
            if !label_precedes(list[p].as_str(), label.as_str()) {
                break;
            }
            p += 1;
        }
        let present = p < list.len() && list[p] == *label;
        if !present {
            list.insert(p, label.clone());
        }
        proof {
            let after = texts(list@);
            assert(texts(labels@).take(i + 1) =~= seen.insert(i as int, label@));
            if present {
                assert(before[p as int] == label@);
            } else {
                if p < before.len() {
                    assert(before[p as int] == list@[p + 1]@);
                }
                assert(after =~= before.insert(p as int, label@));
                lemma_insert_keeps_order(before, p as int, label@);
            }
            assert forall|text: Seq<char>| #[trigger]
                after.contains(text) <==> texts(labels@).take(i + 1).contains(text) by {
                lemma_insert_members(seen, i as int, label@, text);
                assert(before.contains(text) <==> seen.contains(text));
                if !present {
                    lemma_insert_members(before, p as int, label@, text);
                }
            }
        }
        i += 1;
    }
    proof {
        assert(texts(labels@).take(labels@.len() as int) =~= texts(labels@));
    }
    list
}

} // verus!
