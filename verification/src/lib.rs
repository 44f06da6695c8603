//! Draining the elements of a vector that a predicate selects.
//!
//! [`VecDrainWhereExt::e_drain_where`] starts a scan over a `Vec`. The scan
//! hands out, one by one and in their order, the elements for which the
//! predicate answers `true`; the others are kept, in their order. While the
//! scan lives the vector reports length zero; [`VecDrainWhere::drop`] ends the
//! scan and gives the vector back everything that was kept or not yet looked at.
//!
//! [`VecDrainWhere::next`] advances the scan to the next drained element and
//! [`VecDrainWhere::collect`] runs it to the end. A caller that wants to
//! decide about each element itself takes the two steps of which `next` is
//! made: [`VecDrainWhere::inspect`] and [`VecDrainWhere::classify`].
//!
//! * `mask`: subsequences picked out by a sequence of verdicts;
//! * `model`: the scan as a state machine over mathematical sequences;
//! * `drain`: the executable scan, specified by the model;
//! * `laws`: what holds of every scan, proved from the model.

pub mod mask;
pub mod model;
pub mod drain;
pub mod laws;

pub use drain::{DrainError, VecDrainWhere, VecDrainWhereExt};
