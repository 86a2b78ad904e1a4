//! What can go wrong in binning.

use polars_core::prelude::PolarsError;
use vstd::prelude::*;

use crate::dtype::{DataType, SpecDataType};

verus! {

/// An error of `polars_core`, carried through.
#[verifier::external_type_specification]
#[verifier::external_body]
pub struct ExPolarsError(PolarsError);

/// The three ways to bin.
#[derive(Clone, Copy, Debug, PartialEq, Eq, Structural)]
pub enum BinForm {
    Intervals,
    Quantiles,
    Ranks,
}

/// Why a column could not be binned.
#[derive(Debug)]
pub enum BinError {
    /// The breakpoints are not of the data type of the column.
    DtypeMismatch { expected: DataType, got: DataType },
    /// No bins were asked for.
    NoBins(BinForm),
    /// There is not one label for every bin.
    LabelCount { n_bins: usize, labels: usize },
    /// The labels do not make an enum.
    Labels(PolarsError),
    /// The column could not be cast to the data type of the breakpoints. Casts between exact
    /// numbers do not come to this.
    Cast(PolarsError),
}

/// What a [`BinError`] stands for.
pub enum SpecError {
    DtypeMismatch { expected: SpecDataType, got: SpecDataType },
    NoBins(BinForm),
    LabelCount { n_bins: int, labels: int },
    Labels,
    Cast,
}

impl View for BinError {
    type V = SpecError;

    open spec fn view(&self) -> SpecError {
        match self {
            BinError::DtypeMismatch { expected, got } => SpecError::DtypeMismatch {
                expected: expected@,
                got: got@,
            },
            BinError::NoBins(form) => SpecError::NoBins(*form),
            BinError::LabelCount { n_bins, labels } => SpecError::LabelCount {
                n_bins: *n_bins as int,
                labels: *labels as int,
            },
            BinError::Labels(_) => SpecError::Labels,
            BinError::Cast(_) => SpecError::Cast,
        }
    }
}

} // verus!
