//! The errors the binners report.
use vstd::prelude::*;

verus! {

#[derive(PartialEq, Eq, Structural, Clone, Copy, Debug)]
pub enum BinningError {
    /// The constructor's parameters are out of range or inconsistent.
    InvalidConfig,
    /// The inputs of a fit differ in length, are empty, or a target is not 0 or 1.
    InvalidInput,
    /// No fit has completed yet.
    NotFitted,
}

} // verus!
