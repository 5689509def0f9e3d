//! The data of the scatter plot: the row of each integer and the colour of
//! each row.
//!
//! The distinct labels are listed top to bottom, one per row. Every integer is
//! drawn in the row of its label, in the colour of that row, which comes from
//! the 99%-accessibility palette of `plotters`.

use crate::label::texts;
use plotters::style::{Color, Palette, Palette99};
use vstd::prelude::*;

verus! {

/// The red, green and blue channels of the colour that the 99%-accessibility
/// palette of `plotters` gives for `idx`.
pub uninterp spec fn palette_rgb(idx: nat) -> (u8, u8, u8);

/// `plotters::style::Palette99::pick`, with the colour read as its three
/// channels by `Color::rgb`.
///
/// The palette is a constant table that `pick` indexes by `idx` modulo the
/// table's length, so the colour is a function of the index alone. Neither
/// call panics on any index.
#[verifier::external_body]
fn pick_rgb(idx: usize) -> (rgb: (u8, u8, u8))
    ensures
        rgb == palette_rgb(idx as nat),
{
    Palette99::pick(idx).rgb()
}

/// The colours of the first `count` rows: row `i` has the palette's colour
/// for `i`.
pub fn row_colors(count: usize) -> (colors: Vec<(u8, u8, u8)>)
    ensures
        colors@.len() == count,
        forall|i: int| 0 <= i < count ==> colors@[i] == palette_rgb(i as nat),
{
    let mut colors: Vec<(u8, u8, u8)> = Vec::new();
    let mut i: usize = 0;
    while i < count
        invariant
            i <= count,
            colors@.len() == i,
            forall|j: int| 0 <= j < i ==> colors@[j] == palette_rgb(j as nat),
        decreases count - i,
    {
        colors.push(pick_rgb(i));
        i += 1;
    }
    colors
}

/// The first row of `list` that holds `label`.
pub fn row_of(list: &Vec<String>, label: &String) -> (r: Option<usize>)
    ensures
        match r {
            Some(row) => {
                &&& row < list@.len()
                &&& texts(list@)[row as int] == label@
                &&& forall|j: int| 0 <= j < row ==> texts(list@)[j] != label@
            },
            None => !texts(list@).contains(label@),
        },
{
    let mut row: usize = 0;
    while row < list.len()
        invariant
            row <= list@.len(),
            forall|j: int| 0 <= j < row ==> texts(list@)[j] != label@,
        decreases list@.len() - row,
    {
        assert(texts(list@)[row as int] == list@[row as int]@);
        if list[row] == *label {
            return Some(row);
        }
        row += 1;
    }
    None
}

/// The row of each label of `labels` in `list`, or `None` when `list` lacks
/// one of them.
pub fn label_rows(labels: &Vec<String>, list: &Vec<String>) -> (r: Option<Vec<usize>>)
    ensures
        match r {
            Some(rows) => {
                &&& rows@.len() == labels@.len()
                &&& forall|i: int|
                    0 <= i < rows@.len() ==> {
                        &&& 0 <= #[trigger] rows@[i] < list@.len()
                        &&& texts(list@)[rows@[i] as int] == texts(labels@)[i]
                        &&& forall|j: int| 0 <= j < rows@[i] ==> texts(list@)[j] != texts(labels@)[i]
                    }
            },
            None => exists|i: int|
                0 <= i < labels@.len() && !texts(list@).contains(#[trigger] texts(labels@)[i]),
        },
{
    let mut rows: Vec<usize> = Vec::new();
    let mut i: usize = 0;
    while i < labels.len()
        invariant
            i <= labels@.len(),
            rows@.len() == i,
            forall|k: int|
                0 <= k < i ==> {
                    &&& 0 <= #[trigger] rows@[k] < list@.len()
                    &&& texts(list@)[rows@[k] as int] == texts(labels@)[k]
                    &&& forall|j: int| 0 <= j < rows@[k] ==> texts(list@)[j] != texts(labels@)[k]
                },
        decreases labels@.len() - i,
    {
        assert(texts(labels@)[i as int] == labels@[i as int]@);
        match row_of(list, &labels[i]) {
            Some(row) => rows.push(row),
            None => {
                return None;
            },
        }
        i += 1;
    }
    Some(rows)
}

} // verus!
