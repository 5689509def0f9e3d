//! The text of the key that tells which cycle a label stands for.
//!
//! A cycle is written value by value, in its canonical order. Each value is
//! written as its digits in the radix of the run, most significant first; the
//! digits are decimal numbers joined by dots, the values are separated by a
//! comma and a space.

use crate::digits::{digits_of, lemma_digits_represent, to_base_digits};
use crate::label::texts;
use vstd::prelude::*;
use vstd::string::*;

verus! {

/// The character of the decimal digit `d`.
pub open spec fn digit_char(d: nat) -> char {
    ((48 + d) as u8) as char
}

/// The decimal numeral of `n`, without leading zeros.
pub open spec fn decimal_text(n: nat) -> Seq<char> {
    digits_of(n, 10).map_values(|d: nat| digit_char(d))
}

/// The texts of `parts` in a row, with `separator` between neighbours.
pub open spec fn joined(parts: Seq<Seq<char>>, separator: Seq<char>) -> Seq<char>
    decreases parts.len(),
{
    if parts.len() == 0 {
        Seq::empty()
    } else if parts.len() == 1 {
        parts[0]
    } else {
        joined(parts.drop_last(), separator) + separator + parts.last()
    }
}

/// What separates the digits of a value.
pub open spec fn digit_separator() -> Seq<char> {
    seq!['.']
}

/// What separates the values of a cycle.
pub open spec fn value_separator() -> Seq<char> {
    seq![',', ' ']
}

/// The value `x` as text: the decimal numerals of its digits in radix `base`,
/// joined by dots.
pub open spec fn value_text(x: nat, base: nat) -> Seq<char> {
    joined(digits_of(x, base).map_values(|d: nat| decimal_text(d)), digit_separator())
}

/// The cycle as text: the texts of its values, separated by a comma and a
/// space.
pub open spec fn cycle_text(cycle: Seq<u32>, base: nat) -> Seq<char> {
    joined(cycle.map_values(|x: u32| value_text(x as nat, base)), value_separator())
}

/// Joining one more part appends the separator and the part, unless the part
/// is the first.
proof fn lemma_joined_next(parts: Seq<Seq<char>>, separator: Seq<char>, i: int)
    requires
        0 <= i < parts.len(),
    ensures
        joined(parts.take(i + 1), separator) == if i == 0 {
            parts[0]
        } else {
            joined(parts.take(i), separator) + separator + parts[i]
        },
{
    let upto = parts.take(i + 1);
    assert(upto.last() == parts[i]);
    assert(upto.drop_last() =~= parts.take(i));
    assert(upto[0] == parts[0]);
}

/// The one-character string of the decimal digit `d`.
fn digit_str(d: u32) -> (r: &'static str)
    requires
        d < 10,
    ensures
        r@ == seq![digit_char(d as nat)],
{
    let numerals = "0123456789";
    proof {
        reveal_strlit("0123456789");
        assert(numerals@.len() == 10);
        assert(forall|k: int| 0 <= k < 10 ==> numerals@[k] == digit_char(k as nat));
        assert(numerals.is_ascii());
    }
    let r = numerals.substring_ascii(d as usize, d as usize + 1);
    assert(r@ =~= seq![digit_char(d as nat)]);
    r
}

/// The decimal numeral of `n`.
pub fn decimal(n: u32) -> (text: String)
    ensures
        text@ == decimal_text(n as nat),
{
    let digits = to_base_digits(n, 10);
    let ghost model = digits_of(n as nat, 10);
    proof {
        lemma_digits_represent(n as nat, 10);
    }
    let mut text = String::new();
    let mut i: usize = 0;
    while i < digits.len()
        invariant
            i <= digits@.len(),
            digits@.map_values(|d: u32| d as nat) == model,
            forall|k: int| 0 <= k < model.len() ==> model[k] < 10,
            text@ == model.take(i as int).map_values(|d: nat| digit_char(d)),
        decreases digits@.len() - i,
    {
        let ghost before = text@;
        assert(model[i as int] == digits@[i as int] as nat);
        text.append(digit_str(digits[i]));
        proof {
            assert(model.take(i + 1) =~= model.take(i as int).push(model[i as int]));
            assert(text@ =~= model.take(i + 1).map_values(|d: nat| digit_char(d)));
        }
        i += 1;
    }
    proof {
        assert(model.take(digits@.len() as int) =~= model);
    }
    text
}

/// The texts of `parts` in a row, with `separator` between neighbours.
pub fn join(parts: &Vec<String>, separator: &str) -> (text: String)
    ensures
        text@ == joined(texts(parts@), separator@),
{
    let mut text = String::new();
    let mut i: usize = 0;
    proof {
        assert(texts(parts@).take(0) =~= Seq::<Seq<char>>::empty());
    }
    while i < parts.len()
        invariant
            i <= parts@.len(),
            text@ == joined(texts(parts@).take(i as int), separator@),
        decreases parts@.len() - i,
    {
        proof {
            lemma_joined_next(texts(parts@), separator@, i as int);
        }
        if i > 0 {
            text.append(separator);
        }
        text.append(parts[i].as_str());
        assert(texts(parts@)[i as int] == parts@[i as int]@);
        assert(text@ =~= joined(texts(parts@).take(i + 1), separator@));
        i += 1;
    }
    proof {
        assert(texts(parts@).take(parts@.len() as int) =~= texts(parts@));
    }
    text
}

/// The value `x` as text: its digits in radix `base`, each a decimal number,
/// joined by dots.
pub fn value_string(x: u32, base: u32) -> (text: String)
    requires
        base >= 2,
    ensures
        text@ == value_text(x as nat, base as nat),
{
    let digits = to_base_digits(x, base);
    let ghost model = digits_of(x as nat, base as nat);
    let mut parts: Vec<String> = Vec::new();
    let mut i: usize = 0;
    while i < digits.len()
        invariant
            i <= digits@.len(),
            digits@.map_values(|d: u32| d as nat) == model,
            parts@.len() == i,
            forall|k: int| 0 <= k < i ==> (#[trigger] parts@[k])@ == decimal_text(model[k]),
        decreases digits@.len() - i,
    {
        assert(model[i as int] == digits@[i as int] as nat);
        parts.push(decimal(digits[i]));
        i += 1;
    }
    proof {
        reveal_strlit(".");
        assert(texts(parts@) =~= model.map_values(|d: nat| decimal_text(d)));
        assert("."@ =~= digit_separator());
    }
    join(&parts, ".")
}

/// The cycle as text: its values in order, each by its digits in radix
/// `base`, separated by a comma and a space.
pub fn cycle_string(cycle: &[u32], base: u32) -> (text: String)
    requires
        base >= 2,
    ensures
        text@ == cycle_text(cycle@, base as nat),
{
    let mut parts: Vec<String> = Vec::new();
    let mut i: usize = 0;
    while i < cycle.len()
        invariant
            base >= 2,
            i <= cycle@.len(),
            parts@.len() == i,
            forall|k: int|
                0 <= k < i ==> (#[trigger] parts@[k])@ == value_text(cycle@[k] as nat, base as nat),
        decreases cycle@.len() - i,
    {
        parts.push(value_string(cycle[i], base));
        i += 1;
    }
    proof {
        reveal_strlit(", ");
        assert(texts(parts@) =~= cycle@.map_values(|x: u32| value_text(x as nat, base as nat)));
        assert(", "@ =~= value_separator());
    }
    join(&parts, ", ")
}

} // verus!
