//! The coefficient record a scatter kernel consumes.

use vstd::prelude::*;

use crate::field::Fr;

verus! {

/// One A- or B-matrix coefficient, grouped by constraint: the scatter unit
/// (and the record of `preprocessed_coeffs.bin` minus its matrix and
/// constraint fields).
#[derive(Clone, Copy, Debug, PartialEq, Eq)]
pub struct GroupedCoeff {
    /// Witness index.
    pub signal: u32,
    /// The coefficient value.
    pub value: Fr,
}

} // verus!
