//! What binning gives: bins under labels, and the bounds of every bin.

use polars_core::prelude::{FrozenCategories, PolarsError};
use vstd::prelude::*;
use vstd::utf8::encode_utf8;

use crate::dtype::{texts, DataType, IntType, SpecDataType, LENGTH_LIMIT};
use crate::error::{BinError, SpecError};
use crate::meaning::{answers, asked, bin_cells_of, law_output_answers};
use crate::series::{cell, cells, gathered, nulls, IdxCa, IdxSize, Series, SpecSeries};
use crate::value::{SpecValue, Value};

verus! {

/// A binned column: the bins alone, or a struct of the bins and their bounds.
#[derive(Debug)]
pub enum Column {
    Series(Series),
    Struct { name: String, bin: Series, left: Series, right: Series },
}

/// What a [`Column`] stands for.
pub enum SpecColumn {
    Series(SpecSeries),
    Struct { name: Seq<char>, bin: SpecSeries, left: SpecSeries, right: SpecSeries },
}

impl View for Column {
    type V = SpecColumn;

    open spec fn view(&self) -> SpecColumn {
        match self {
            Column::Series(s) => SpecColumn::Series(s@),
            Column::Struct { name, bin, left, right } => SpecColumn::Struct {
                name: name@,
                bin: bin@,
                left: left@,
                right: right@,
            },
        }
    }
}

/// What the outcome of binning stands for.
pub open spec fn outcome(binned: Result<Column, BinError>) -> Result<SpecColumn, SpecError> {
    match binned {
        Ok(column) => Ok(column@),
        Err(e) => Err(e@),
    }
}

/// The texts of optional labels.
pub open spec fn label_texts(labels: Option<&[String]>) -> Option<Seq<Seq<char>>> {
    match labels {
        Some(l) => Some(texts(l@)),
        None => None,
    }
}

/// Whether every label is short enough to stand in a column.
pub open spec fn labels_fit(labels: Option<Seq<Seq<char>>>) -> bool {
    labels is Some ==> forall|i: int|
        0 <= i < labels->Some_0.len() ==> encode_utf8(#[trigger] labels->Some_0[i]).len()
            < LENGTH_LIMIT
}

/// The bounds that a struct of bins reports: their data type and values.
pub struct Bounds {
    pub dtype: SpecDataType,
    pub values: Seq<Option<SpecValue>>,
}

/// The cells of bins.
pub open spec fn bin_cells(bin_idx: Seq<Option<IdxSize>>) -> Seq<Option<SpecValue>> {
    bin_idx.map_values(
        |bin: Option<IdxSize>|
            match bin {
                Some(b) => Some(SpecValue::Int(b as int)),
                None => None,
            },
    )
}

/// The data type of bins: the index of the bin, or an enum over the labels.
pub open spec fn bin_dtype(labels: Option<Seq<Seq<char>>>) -> SpecDataType {
    match labels {
        Some(l) => SpecDataType::Enum(l),
        None => SpecDataType::Integer(IntType::UInt32),
    }
}

/// The left bound of a bin: none for the first one, else the breakpoint in front of it.
pub open spec fn left_bound(bin: Option<IdxSize>, breaks: Seq<Option<SpecValue>>) -> Option<
    SpecValue,
> {
    match bin {
        Some(b) => if b == 0 {
            None
        } else {
            breaks[b - 1]
        },
        None => None,
    }
}

/// The right bound of a bin: none for the last one, else the breakpoint behind it.
pub open spec fn right_bound(bin: Option<IdxSize>, breaks: Seq<Option<SpecValue>>) -> Option<
    SpecValue,
> {
    match bin {
        Some(b) => if b == breaks.len() {
            None
        } else {
            breaks[b as int]
        },
        None => None,
    }
}

/// The final output for a column of bins.
pub open spec fn finished(
    name: Seq<char>,
    bin_idx: Seq<Option<IdxSize>>,
    n_bins: int,
    bounds: Option<Bounds>,
    labels: Option<Seq<Seq<char>>>,
) -> Result<SpecColumn, SpecError> {
    if labels is Some && labels->Some_0.len() != n_bins {
        Err(SpecError::LabelCount { n_bins, labels: labels->Some_0.len() as int })
    } else if labels is Some && !labels->Some_0.no_duplicates() {
        Err(SpecError::Labels)
    } else {
        let dtype = bin_dtype(labels);
        let values = bin_cells(bin_idx);
        Ok(
            match bounds {
                None => SpecColumn::Series(SpecSeries { name, dtype, values }),
                Some(b) => SpecColumn::Struct {
                    name,
                    bin: SpecSeries { name: "bin"@, dtype, values },
                    left: SpecSeries {
                        name: "left"@,
                        dtype: b.dtype,
                        values: bin_idx.map_values(
                            |bin: Option<IdxSize>| left_bound(bin, b.values),
                        ),
                    },
                    right: SpecSeries {
                        name: "right"@,
                        dtype: b.dtype,
                        values: bin_idx.map_values(
                            |bin: Option<IdxSize>| right_bound(bin, b.values),
                        ),
                    },
                },
            },
        )
    }
}

/// `FrozenCategories::new` of `polars_core`. Trusted: it takes labels that are all different,
/// and no others, and keeps them in their order.
#[verifier::external_body]
fn frozen_categories(labels: &[String]) -> (categories: Result<Vec<String>, PolarsError>)
    requires
        labels.len() <= u32::MAX,
        labels_fit(Some(texts(labels@))),
    ensures
        categories is Ok <==> texts(labels@).no_duplicates(),
        categories is Ok ==> texts(categories->Ok_0@) == texts(labels@),
{
    let categories = FrozenCategories::new(labels.iter().map(|label| label.as_str()))?;
    Ok(categories.categories().values_iter().map(String::from).collect())
}

/// The cells of a column of bins.
fn write_bins(bin_idx: &Vec<Option<IdxSize>>) -> (values: Vec<Option<Value>>)
    ensures
        cells(values@) == bin_cells(bin_idx@),
{
    let mut values: Vec<Option<Value>> = Vec::new();
    let mut i: usize = 0;
    while i < bin_idx.len()
        invariant
            i <= bin_idx.len(),
            values.len() == i,
            forall|j: int| 0 <= j < i ==> cell(#[trigger] values@[j]) == bin_cells(bin_idx@)[j],
        decreases bin_idx.len() - i,
    {
        let value: Option<Value> = match bin_idx[i] {
            Some(b) => Some(Value::UInt(b as u128)),
            None => None,
        };
        values.push(value);
        i += 1;
    }
    assert(cells(values@) =~= bin_cells(bin_idx@));
    values
}

impl IdxCa {
    /// The column of positions as a column of integers.
    pub(crate) fn into_series(self) -> (column: Series)
        requires
            self.values.len() < LENGTH_LIMIT,
        ensures
            column@ == (SpecSeries {
                name: self.name@,
                dtype: SpecDataType::Integer(IntType::UInt32),
                values: bin_cells(self.values@),
            }),
    {
        let values: Vec<Option<Value>> = write_bins(&self.values);
        Series::from_values(self.name, DataType::Integer(IntType::UInt32), values)
    }
}

/// The positions of the breakpoints at which bins start, or end.
fn bound_positions(bin_idx: &Vec<Option<IdxSize>>, n_breaks: usize, left: bool) -> (positions: Vec<
    Option<IdxSize>,
>)
    requires
        forall|i: int|
            0 <= i < bin_idx.len() && (#[trigger] bin_idx@[i]) is Some ==> bin_idx@[i]->Some_0
                <= n_breaks,
    ensures
        positions.len() == bin_idx.len(),
        forall|i: int|
            0 <= i < positions.len() ==> (#[trigger] positions@[i]) == match bin_idx@[i] {
                Some(b) => if left {
                    if b == 0 {
                        None
                    } else {
                        Some((b - 1) as IdxSize)
                    }
                } else {
                    if b == n_breaks {
                        None
                    } else {
                        Some(b)
                    }
                },
                None => None,
            },
{
    let mut positions: Vec<Option<IdxSize>> = Vec::new();
    let mut i: usize = 0;
    while i < bin_idx.len()
        invariant
            i <= bin_idx.len(),
            positions.len() == i,
            forall|j: int|
                0 <= j < i ==> (#[trigger] positions@[j]) == match bin_idx@[j] {
                    Some(b) => if left {
                        if b == 0 {
                            None
                        } else {
                            Some((b - 1) as IdxSize)
                        }
                    } else {
                        if b == n_breaks {
                            None
                        } else {
                            Some(b)
                        }
                    },
                    None => None,
                },
        decreases bin_idx.len() - i,
    {
        let position: Option<IdxSize> = match bin_idx[i] {
            Some(b) => if left {
                if b == 0 {
                    None
                } else {
                    Some(b - 1)
                }
            } else {
                if b as usize == n_breaks {
                    None
                } else {
                    Some(b)
                }
            },
            None => None,
        };
        positions.push(position);
        i += 1;
    }
    positions
}

/// Turns a column of bin indices into the final output.
///
/// Without labels the bins are returned as `UInt32`, with labels as an enum over them. When
/// `breaks` is given the result is instead a struct of `bin`, `left` and `right`, where `left` is
/// null for the first bin and `right` null for the last. `breaks` holds the `n_bins - 1` boundary
/// values; for rank-based binning these are the gathered boundary values, not the rank positions.
pub fn finish_bins(
    out_name: String,
    bin_idx: &IdxCa,
    n_bins: usize,
    breaks: Option<&Series>,
    labels: Option<&[String]>,
) -> (binned: Result<Column, BinError>)
    requires
        1 <= n_bins <= LENGTH_LIMIT,
        bin_idx.values.len() < LENGTH_LIMIT,
        forall|i: int|
            0 <= i < bin_idx.values.len() && (#[trigger] bin_idx.values@[i]) is Some
                ==> bin_idx.values@[i]->Some_0 < n_bins,
        breaks is Some ==> breaks->Some_0@.values.len() + 1 == n_bins,
        labels_fit(label_texts(labels)),
    ensures
        outcome(binned) == finished(
            out_name@,
            bin_idx.values@,
            n_bins as int,
            match breaks {
                Some(b) => Some(Bounds { dtype: b@.dtype, values: b@.values }),
                None => None,
            },
            label_texts(labels),
        ),
        answers(
            outcome(binned),
            out_name@,
            bin_idx.values@.len(),
            label_texts(labels),
            match breaks {
                Some(b) => Some(b@.dtype),
                None => None,
            },
            match breaks {
                Some(b) => b@.values,
                None => nulls((n_bins - 1) as nat),
            },
        ),
        binned is Ok ==> forall|row: int|
            0 <= row < bin_idx.values.len() ==> (#[trigger] bin_cells_of(outcome(binned))[row])
                == match bin_idx.values@[row] {
                Some(b) => Some(SpecValue::Int(b as int)),
                None => None,
            },
{
    proof {
        let (bounds, values) = match breaks {
            Some(b) => (Some(Bounds { dtype: b@.dtype, values: b@.values }), b@.values),
            None => (None, nulls((n_bins - 1) as nat)),
        };
        law_output_answers(out_name@, bin_idx.values@, values, bounds, label_texts(labels));
    }
    let dtype: DataType = match labels {
        None => DataType::Integer(IntType::UInt32),
        Some(l) => {
            if l.len() != n_bins {
                return Err(BinError::LabelCount { n_bins, labels: l.len() });
            }
            match frozen_categories(l) {
                Ok(categories) => DataType::Enum(categories),
                Err(e) => return Err(BinError::Labels(e)),
            }
        },
    };
    let values: Vec<Option<Value>> = write_bins(&bin_idx.values);
    proof {
        let view = SpecSeries { name: out_name@, dtype: dtype@, values: cells(values@) };
        assert(dtype@ == bin_dtype(label_texts(labels)));
        assert forall|i: int| 0 <= i < view.values.len() && (#[trigger] view.values[i])
            is Some implies view.dtype.admits(view.values[i]->Some_0) by {
            assert(bin_idx.values@[i] is Some);
        }
        assert(view.valid());
    }
    let breaks: &Series = match breaks {
        None => {
            return Ok(Column::Series(Series::from_values(out_name, dtype, values)));
        },
        Some(breaks) => breaks,
    };
    let bin: Series = Series::from_values("bin".to_owned(), dtype, values);
    let lefts: Vec<Option<IdxSize>> = bound_positions(&bin_idx.values, n_bins - 1, true);
    let rights: Vec<Option<IdxSize>> = bound_positions(&bin_idx.values, n_bins - 1, false);
    proof {
        assert forall|i: int| 0 <= i < lefts.len() && (#[trigger] lefts@[i]) is Some implies lefts@[
            i
        ]->Some_0 < breaks@.values.len() by {
            assert(bin_idx.values@[i] is Some);
        }
        assert forall|i: int| 0 <= i < rights.len() && (#[trigger] rights@[i])
            is Some implies rights@[i]->Some_0 < breaks@.values.len() by {
            assert(bin_idx.values@[i] is Some);
        }
        assert(gathered(breaks@.values, lefts@) =~= bin_idx.values@.map_values(
            |bin: Option<IdxSize>| left_bound(bin, breaks@.values),
        ));
        assert(gathered(breaks@.values, rights@) =~= bin_idx.values@.map_values(
            |bin: Option<IdxSize>| right_bound(bin, breaks@.values),
        ));
    }
    let left: Series = breaks.take(&lefts).with_name("left".to_owned());
    let right: Series = breaks.take(&rights).with_name("right".to_owned());
    Ok(Column::Struct { name: out_name, bin, left, right })
}

/// Output for an input with no usable values, keeping the data type and the shape of the struct
/// stable.
pub fn empty_bins(
    s: &Series,
    n_bins: usize,
    bound_dtype: &DataType,
    labels: Option<&[String]>,
    include_intervals: bool,
) -> (binned: Result<Column, BinError>)
    requires
        1 <= n_bins <= LENGTH_LIMIT,
        bound_dtype@.valid(),
        labels_fit(label_texts(labels)),
    ensures
        outcome(binned) == finished(
            s@.name,
            nulls(s@.values.len()),
            n_bins as int,
            if include_intervals {
                Some(Bounds { dtype: bound_dtype@, values: nulls((n_bins - 1) as nat) })
            } else {
                None
            },
            label_texts(labels),
        ),
        answers(
            outcome(binned),
            s@.name,
            s@.values.len(),
            label_texts(labels),
            asked(include_intervals, bound_dtype@),
            nulls((n_bins - 1) as nat),
        ),
        binned is Ok ==> forall|row: int|
            0 <= row < s@.values.len() ==> (#[trigger] bin_cells_of(outcome(binned))[row]) is None,
{
    let breaks: Series = Series::full_null("".to_owned(), n_bins - 1, bound_dtype.clone());
    let len: usize = s.len();
    let mut values: Vec<Option<IdxSize>> = Vec::new();
    let mut i: usize = 0;
    while i < len
        invariant
            i <= len,
            values.len() == i,
            forall|j: int| 0 <= j < i ==> (#[trigger] values@[j]) is None,
        decreases len - i,
    {
        values.push(None);
        i += 1;
    }
    assert(values@ =~= nulls(len as nat));
    let bin_idx: IdxCa = IdxCa { name: s.name().clone(), values };
    let bounds: Option<&Series> = if include_intervals {
        Some(&breaks)
    } else {
        None
    };
    finish_bins(s.name().clone(), &bin_idx, n_bins, bounds, labels)
}

} // verus!
