//! Classification of positive integers by the cycle that the iterated
//! digit-sum-square map `x -> (sum of the base-b digits of x)^2` falls into.
//!
//! Integers whose trajectories end in the same cycle, up to rotation, share a
//! label. Every executable function carries a contract that Verus proves
//! against the mathematical model defined next to it.
//!
//! The modules, leaves first:
//!
//! - [`digits`]: the digits of a number in a radix, and their sum;
//! - [`orbit`]: the map itself and the trajectories it generates;
//! - [`lex`], [`rotation`]: the lexicographic order and the canonical,
//!   rotation-invariant form of a cycle;
//! - [`detect`]: bounded cycle detection on a trajectory;
//! - [`label`]: the labels and the order in which they are listed;
//! - [`table`], [`classify`], [`laws`]: the classification table, the
//!   classifier, and what holds of every classification;
//! - [`key`], [`plot`]: what a presentation of a classification needs: the
//!   text of the key, and the row and colour of each integer's mark.

pub mod classify;
pub mod detect;
pub mod digits;
pub mod error;
pub mod key;
pub mod label;
pub mod laws;
pub mod lex;
pub mod orbit;
pub mod plot;
pub mod rotation;
pub mod table;
