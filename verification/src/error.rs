//! The reasons for which a classification run is refused.

use vstd::prelude::*;

verus! {

/// Why a detection or classification could not be carried out.
#[derive(Clone, Copy, Debug, PartialEq, Eq, Structural)]
pub enum ClassifyError {
    /// The radix is below 2, so numbers have no digits in it.
    InvalidBase,
    /// A value of a trajectory does not fit in 32 bits.
    ValueOverflow,
    /// More distinct cycles were found than there are labels.
    LabelsExhausted,
}

} // verus!
