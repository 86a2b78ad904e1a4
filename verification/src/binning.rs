//! Assigning the values of a column to bins.

use vstd::prelude::*;
use vstd::relations::injective_on;
use vstd::set_lib::{lemma_int_range, lemma_map_size, set_int_range};

use crate::casting::{cast_column, cast_exact};
use crate::dtype::{IntType, SpecDataType, LENGTH_LIMIT};
use crate::error::{BinError, BinForm, SpecError};
use crate::intervals::{
    greatest, least, lemma_extremes, lemma_thresholds_ascend, uniform_breaks,
    uniform_interval_breaks,
};
use crate::laws::law_quantile_breaks_ascend;
use crate::meaning::{
    answers, asked, bin_cells_of, binned_at, binned_by_value, in_equal_parts, is_cast_column,
    law_breaks_place_rows, law_derived_breaks_place_rows, law_equal_width_places_rows,
    law_explicit_breaks_place_cast_rows, law_quantiles_place_rows, law_ranks_place_rows,
    lemma_bin_sits, ranges_over, sits,
};
use crate::output::{
    bin_cells, empty_bins, finish_bins, finished, label_texts, labels_fit, outcome, Bounds, Column,
    SpecColumn,
};
use crate::positions::{
    lemma_quantile_positions, lemma_rank_cuts, lemma_rank_cuts_ascend,
    quantile_break_positions_uniform, quantile_positions, rank_cut_positions_uniform, rank_cuts,
};
use crate::search::{
    ascending, breaks_passed, lemma_breaks_passed_bound, search_sorted, SearchSortedSide,
};
use crate::series::{
    gathered, lemma_valid_count_bounds, nulls, valid_count, IdxCa, IdxSize, Series,
    SpecSeries,
};
use crate::sorting::{
    arg_sort, lemma_sort_order_permutes, lemma_sort_order_ranks, lemma_sort_order_valid_first,
    lemma_valid_rows_len, lists, rank, row_at, valid_rows,
};
use crate::value::{value_le, SpecValue};

verus! {

/// How [`bin_intervals`] delimits its bins.
pub enum IntervalSpec<'a> {
    /// Explicit breakpoints, ascending and in the same data type as the input.
    Breaks(&'a Series),
    /// `n` equal-width bins spanning `[min, max]`.
    Count(usize),
}

/// How [`bin_quantiles`] and [`bin_ranks`] delimit their bins.
pub enum FractionSpec<'a> {
    /// The ascending positions in sorted order that explicit fractions come to.
    Explicit(&'a [IdxSize]),
    /// `n` bins of equal probability, or of equal size for [`bin_ranks`].
    Count(usize),
}

/// The side from which breakpoints are searched: a left-closed binning wants the number of
/// breaks `<= x` and a right-closed one the number of breaks `< x`.
pub open spec fn search_side(right_closed: bool) -> SearchSortedSide {
    if right_closed {
        SearchSortedSide::Left
    } else {
        SearchSortedSide::Right
    }
}

/// The bin of a value among breakpoints, null for a null.
pub open spec fn bin_of(
    value: Option<SpecValue>,
    breaks: Seq<Option<SpecValue>>,
    right_closed: bool,
) -> Option<IdxSize> {
    match value {
        Some(x) => Some(breaks_passed(breaks, x, search_side(right_closed)) as IdxSize),
        None => None,
    }
}

/// The bins of the values of a column among breakpoints.
pub open spec fn bins(
    values: Seq<Option<SpecValue>>,
    breaks: Seq<Option<SpecValue>>,
    right_closed: bool,
) -> Seq<Option<IdxSize>> {
    values.map_values(|value: Option<SpecValue>| bin_of(value, breaks, right_closed))
}

/// Assigns every element of `s` to a bin delimited by `breaks`.
///
/// `breaks` must be ascending, free of nulls, and of exactly `s`'s data type. The result is in
/// `0..=breaks.len()`, and null wherever `s` is null.
///
/// Bin `0` has no left bound, bin `i > 0` has left bound `breaks[i - 1]`, and the last bin has no
/// right bound. So a left-closed binning wants the number of breaks `<= x` and a right-closed one
/// the number of breaks `< x`, which is the difference between searching from the right and from
/// the left.
///
/// NaN sorts above every other float, so it lands in the last bin rather than becoming null. An
/// enum is compared by its codes, which is the order of its variants, and a categorical as a
/// string. Both agree with how columns are sorted.
pub fn bins_from_breaks(s: &Series, breaks: &Series, right_closed: bool) -> (binned: Result<
    IdxCa,
    BinError,
>)
    requires
        s@.dtype == breaks@.dtype ==> ascending(breaks@.values),
    ensures
        match binned {
            Ok(idx) => s@.dtype == breaks@.dtype && idx.name@ == s@.name && idx.values@ == bins(
                s@.values,
                breaks@.values,
                right_closed,
            ),
            Err(e) => s@.dtype != breaks@.dtype && e@ == (SpecError::DtypeMismatch {
                expected: s@.dtype,
                got: breaks@.dtype,
            }),
        },
        binned is Ok ==> binned->Ok_0.values.len() == s@.values.len() && forall|row: int|
            0 <= row < s@.values.len() ==> sits(
                match #[trigger] binned->Ok_0.values@[row] {
                    Some(b) => Some(SpecValue::Int(b as int)),
                    None => None,
                },
                s@.values[row],
                breaks@.values,
                right_closed,
            ),
{
    if !s.dtype().same(breaks.dtype()) {
        return Err(
            BinError::DtypeMismatch { expected: s.dtype().clone(), got: breaks.dtype().clone() },
        );
    }
    let side: SearchSortedSide = if right_closed {
        SearchSortedSide::Left
    } else {
        SearchSortedSide::Right
    };
    let found: Vec<IdxSize> = search_sorted(breaks, s, side);
    // A null needle has been given a position too, so the nulls are put back here.
    let mut values: Vec<Option<IdxSize>> = Vec::new();
    let mut i: usize = 0;
    while i < found.len()
        invariant
            i <= found.len(),
            found.len() == s@.values.len(),
            values.len() == i,
            side == search_side(right_closed),
            forall|j: int|
                0 <= j < found.len() ==> (#[trigger] found@[j]) == match s@.values[j] {
                    Some(x) => breaks_passed(breaks@.values, x, side),
                    None => 0,
                },
            forall|j: int|
                0 <= j < i ==> (#[trigger] values@[j]) == bin_of(
                    s@.values[j],
                    breaks@.values,
                    right_closed,
                ),
        decreases found.len() - i,
    {
        assert(found@[i as int] == match s@.values[i as int] {
            Some(x) => breaks_passed(breaks@.values, x, side),
            None => 0,
        });
        let value: Option<IdxSize> = match s.get(i) {
            Some(_) => Some(found[i]),
            None => None,
        };
        values.push(value);
        i += 1;
    }
    assert(values@ =~= bins(s@.values, breaks@.values, right_closed));
    proof {
        use_type_invariant(breaks);
        assert forall|row: int| 0 <= row < s@.values.len() implies sits(
            match #[trigger] values@[row] {
                Some(b) => Some(SpecValue::Int(b as int)),
                None => None,
            },
            s@.values[row],
            breaks@.values,
            right_closed,
        ) by {
            lemma_bin_sits(s@.values[row], breaks@.values, right_closed);
        }
    }
    Ok(IdxCa { name: s.name().clone(), values })
}

/// Whether a list holds the rows of a column that are not null, in sorted order.
pub open spec fn is_valid_order(values: Seq<Option<SpecValue>>, order: Seq<IdxSize>) -> bool {
    &&& order.len() == valid_count(values)
    &&& forall|i: int|
        0 <= i < order.len() ==> {
            let row = (#[trigger] order[i]) as int;
            row < values.len() && values[row] is Some && rank(values, row) == i && row_at(values, i)
                == row
        }
    &&& forall|row: int|
        0 <= row < values.len() && values[row] is Some ==> #[trigger] lists(order, row)
}

/// The rows of a column that are not null, in sorted order.
fn valid_arg_sort(s: &Series, non_null_len: usize) -> (order: Vec<IdxSize>)
    requires
        non_null_len == s@.non_null_len(),
    ensures
        is_valid_order(s@.values, order@),
{
    let mut order: Vec<IdxSize> = arg_sort(s);
    let ghost all = order@;
    proof {
        lemma_valid_count_bounds(s@.values);
        lemma_sort_order_permutes(s@.values, all);
        lemma_sort_order_valid_first(s@.values, all);
        lemma_sort_order_ranks(s@.values, all);
    }
    order.truncate(non_null_len);
    proof {
        assert(forall|i: int| 0 <= i < order.len() ==> order@[i] == all[i]);
        assert forall|row: int| 0 <= row < s@.values.len() && s@.values[row]
            is Some implies #[trigger] lists(order@, row) by {
            assert(lists(all, row));
            let i = choose|i: int| 0 <= i < all.len() && #[trigger] all[i] == row;
            assert(order@[i] == row);
        }
    }
    order
}

/// The rank of every value in sorted order, null for a null.
pub open spec fn ranks(values: Seq<Option<SpecValue>>) -> Seq<Option<IdxSize>> {
    Seq::new(
        values.len(),
        |row: int|
            if values[row] is Some {
                Some(rank(values, row) as IdxSize)
            } else {
                None
            },
    )
}

/// Whether a list names every row of a column that is not null once, and no other row.
pub open spec fn lists_valid_rows(values: Seq<Option<SpecValue>>, order: Seq<IdxSize>) -> bool {
    &&& forall|k: int|
        0 <= k < order.len() ==> (#[trigger] order[k]) < values.len() && values[order[k] as int]
            is Some
    &&& forall|j: int, k: int|
        0 <= j < k < order.len() ==> #[trigger] order[j] != #[trigger] order[k]
    &&& forall|row: int|
        0 <= row < values.len() && values[row] is Some ==> #[trigger] lists(order, row)
}

/// A list that names every row that is not null once is as long as there are such rows.
pub proof fn lemma_listing_len(values: Seq<Option<SpecValue>>, order: Seq<IdxSize>)
    requires
        lists_valid_rows(values, order),
    ensures
        order.len() == valid_count(values),
{
    let places = set_int_range(0, order.len() as int);
    let f = |k: int| order[k] as int;
    lemma_int_range(0, order.len() as int);
    lemma_valid_rows_len(values);
    assert(injective_on(f, places)) by {
        assert forall|x1: int, x2: int|
            places.contains(x1) && places.contains(x2) && f(x1) == f(x2) implies x1 == x2 by {
            if x1 < x2 {
                assert(order[x1] != order[x2]);
            } else if x2 < x1 {
                assert(order[x2] != order[x1]);
            }
        }
    }
    assert(places.map(f) =~= valid_rows(values)) by {
        assert forall|row: int| valid_rows(values).contains(row) implies places.map(f).contains(
            row,
        ) by {
            assert(lists(order, row));
            let k = choose|k: int| 0 <= k < order.len() && #[trigger] order[k] == row;
            assert(places.contains(k) && f(k) == row);
        }
    }
    lemma_map_size(places, valid_rows(values), f);
}

/// The rows that are not null in sorted order are each listed once.
proof fn lemma_valid_order_lists_rows(values: Seq<Option<SpecValue>>, order: Seq<IdxSize>)
    requires
        is_valid_order(values, order),
    ensures
        lists_valid_rows(values, order),
{
    assert forall|j: int, k: int| 0 <= j < k < order.len() implies #[trigger] order[j]
        != #[trigger] order[k] by {
        assert(rank(values, order[j] as int) == j);
        assert(rank(values, order[k] as int) == k);
    }
}

/// The 0-based position of every element within the list of the non-null rows, null wherever `s`
/// is null. Where the rows are listed in sorted order, these are the ranks.
pub fn ranks_from_sort_idx(s: &Series, sort_idx: &Vec<IdxSize>) -> (idx: IdxCa)
    requires
        lists_valid_rows(s@.values, sort_idx@),
    ensures
        idx.name@ == s@.name,
        idx.values.len() == s@.values.len(),
        forall|k: int|
            0 <= k < sort_idx.len() ==> idx.values@[(#[trigger] sort_idx@[k]) as int] == Some(
                k as IdxSize,
            ),
        forall|i: int|
            0 <= i < s@.values.len() ==> ((#[trigger] idx.values@[i]) is Some <==> s@.values[i]
                is Some),
{
    let len: usize = s.len();
    proof {
        lemma_valid_count_bounds(s@.values);
        lemma_listing_len(s@.values, sort_idx@);
    }
    let mut out: Vec<IdxSize> = vec![0; len];
    let mut r: usize = 0;
    while r < sort_idx.len()
        invariant
            r <= sort_idx.len(),
            sort_idx.len() <= len,
            len == s@.values.len(),
            len < LENGTH_LIMIT,
            out.len() == len,
            lists_valid_rows(s@.values, sort_idx@),
            forall|i: int| 0 <= i < r ==> out@[(#[trigger] sort_idx@[i]) as int] == i,
        decreases sort_idx.len() - r,
    {
        let row: usize = sort_idx[r] as usize;
        let ghost before = out@;
        out.set(row, r as IdxSize);
        assert forall|i: int| 0 <= i < r + 1 implies out@[(#[trigger] sort_idx@[i]) as int]
            == i by {
            if i < r {
                assert(sort_idx@[i] != sort_idx@[r as int]);
                assert(before[sort_idx@[i] as int] == i);
            }
        }
        r += 1;
    }
    let mut values: Vec<Option<IdxSize>> = Vec::new();
    let mut i: usize = 0;
    while i < len
        invariant
            i <= len,
            len == s@.values.len(),
            out.len() == len,
            values.len() == i,
            forall|j: int|
                0 <= j < i ==> (#[trigger] values@[j]) == if s@.values[j] is Some {
                    Some(out@[j])
                } else {
                    None
                },
        decreases len - i,
    {
        let value: Option<IdxSize> = match s.get(i) {
            Some(_) => Some(out[i]),
            None => None,
        };
        values.push(value);
        i += 1;
    }
    assert forall|k: int| 0 <= k < sort_idx.len() implies values@[(#[trigger] sort_idx@[k]) as int]
        == Some(k as IdxSize) by {
        assert(out@[sort_idx@[k] as int] == k);
    }
    IdxCa { name: s.name().clone(), values }
}

/// The value at a position within the non-null values in sorted order, null at or past their
/// number.
pub open spec fn boundary(values: Seq<Option<SpecValue>>, position: IdxSize) -> Option<SpecValue> {
    if position < valid_count(values) {
        values[row_at(values, position as int)]
    } else {
        None
    }
}

/// The values at the given positions within the non-null values in sorted order.
pub open spec fn boundaries(values: Seq<Option<SpecValue>>, positions: Seq<IdxSize>) -> Seq<
    Option<SpecValue>,
> {
    positions.map_values(|position: IdxSize| boundary(values, position))
}

/// The values of the rows at the given places of a list, null at or past its end.
pub open spec fn gathered_at(
    values: Seq<Option<SpecValue>>,
    order: Seq<IdxSize>,
    positions: Seq<IdxSize>,
) -> Seq<Option<SpecValue>> {
    positions.map_values(
        |position: IdxSize|
            if position < order.len() {
                values[order[position as int] as int]
            } else {
                None
            },
    )
}

/// Gathers the value at each given position within the non-null values in sorted order.
///
/// Positions at or past the non-null count yield null, which is what a trailing empty bin needs.
/// Only as many elements as there are positions are copied.
pub fn gather_at_sorted_positions(
    s: &Series,
    sort_idx: &Vec<IdxSize>,
    positions: &[IdxSize],
) -> (values: Series)
    requires
        forall|k: int| 0 <= k < sort_idx.len() ==> (#[trigger] sort_idx@[k]) < s@.values.len(),
        positions.len() < LENGTH_LIMIT,
    ensures
        values@ == (SpecSeries {
            name: s@.name,
            dtype: s@.dtype,
            values: gathered_at(s@.values, sort_idx@, positions@),
        }),
{
    let mut rows: Vec<Option<IdxSize>> = Vec::new();
    let mut i: usize = 0;
    while i < positions.len()
        invariant
            i <= positions.len(),
            rows.len() == i,
            forall|k: int| 0 <= k < sort_idx.len() ==> (#[trigger] sort_idx@[k]) < s@.values.len(),
            forall|j: int|
                0 <= j < i ==> match #[trigger] rows@[j] {
                    Some(row) => row < s@.values.len() && positions@[j] < sort_idx.len()
                        && sort_idx@[positions@[j] as int] == row,
                    None => positions@[j] >= sort_idx.len(),
                },
        decreases positions.len() - i,
    {
        let position: usize = positions[i] as usize;
        let row: Option<IdxSize> = if position < sort_idx.len() {
            assert(sort_idx@[position as int] < s@.values.len());
            Some(sort_idx[position])
        } else {
            None
        };
        rows.push(row);
        i += 1;
    }
    assert(gathered(s@.values, rows@) =~= gathered_at(s@.values, sort_idx@, positions@));
    s.take(&rows)
}

/// The values of the rows at places of the sorted order are those at positions.
proof fn lemma_gathered_boundaries(
    values: Seq<Option<SpecValue>>,
    order: Seq<IdxSize>,
    positions: Seq<IdxSize>,
)
    requires
        is_valid_order(values, order),
    ensures
        gathered_at(values, order, positions) == boundaries(values, positions),
{
    assert forall|j: int| 0 <= j < positions.len() implies gathered_at(values, order, positions)[j]
        == boundaries(values, positions)[j] by {
        if positions[j] < order.len() {
            assert(row_at(values, positions[j] as int) == order[positions[j] as int]);
        }
    }
    assert(gathered_at(values, order, positions) =~= boundaries(values, positions));
}

/// The places of the rows in the sorted order are the ranks.
proof fn lemma_places_are_ranks(
    values: Seq<Option<SpecValue>>,
    order: Seq<IdxSize>,
    idx: Seq<Option<IdxSize>>,
)
    requires
        is_valid_order(values, order),
        idx.len() == values.len(),
        forall|k: int|
            0 <= k < order.len() ==> idx[(#[trigger] order[k]) as int] == Some(k as IdxSize),
        forall|i: int|
            0 <= i < values.len() ==> ((#[trigger] idx[i]) is Some <==> values[i] is Some),
    ensures
        idx == ranks(values),
{
    assert forall|i: int| 0 <= i < values.len() implies (#[trigger] idx[i]) == ranks(values)[i] by {
        if values[i] is Some {
            assert(lists(order, i));
            let k = choose|k: int| 0 <= k < order.len() && #[trigger] order[k] == i;
            assert(rank(values, order[k] as int) == k);
            assert(idx[order[k] as int] == Some(k as IdxSize));
        }
    }
    assert(idx =~= ranks(values));
}

/// The cells of positions.
pub open spec fn position_cells(positions: Seq<IdxSize>) -> Seq<Option<SpecValue>> {
    positions.map_values(|position: IdxSize| Some(SpecValue::Int(position as int)))
}

/// Whether positions never descend.
pub open spec fn positions_ascend(positions: Seq<IdxSize>) -> bool {
    forall|i: int, j: int|
        0 <= i <= j < positions.len() ==> (#[trigger] positions[i]) <= (#[trigger] positions[j])
}

/// The bounds of bins that are delimited at positions in sorted order: the values there.
pub open spec fn position_bounds(
    s: SpecSeries,
    positions: Seq<IdxSize>,
    include_intervals: bool,
) -> Option<Bounds> {
    if include_intervals {
        Some(Bounds { dtype: s.dtype, values: boundaries(s.values, positions) })
    } else {
        None
    }
}

/// A column binned by comparing its values with those at the given positions in sorted order.
pub open spec fn quantile_binned(
    s: SpecSeries,
    positions: Seq<IdxSize>,
    labels: Option<Seq<Seq<char>>>,
    include_intervals: bool,
    right_closed: bool,
) -> Result<SpecColumn, SpecError> {
    finished(
        s.name,
        bins(s.values, boundaries(s.values, positions), right_closed),
        (positions.len() + 1) as int,
        position_bounds(s, positions, include_intervals),
        labels,
    )
}

/// The bins of a column cut at the given positions in sorted order: a row is in the bin whose
/// number is that of the cuts that are not above its rank.
pub open spec fn rank_bins(values: Seq<Option<SpecValue>>, positions: Seq<IdxSize>) -> Seq<
    Option<IdxSize>,
> {
    bins(bin_cells(ranks(values)), position_cells(positions), false)
}

/// A column binned by comparing its ranks with the given positions.
pub open spec fn rank_binned(
    s: SpecSeries,
    positions: Seq<IdxSize>,
    labels: Option<Seq<Seq<char>>>,
    include_intervals: bool,
) -> Result<SpecColumn, SpecError> {
    finished(
        s.name,
        rank_bins(s.values, positions),
        (positions.len() + 1) as int,
        position_bounds(s, positions, include_intervals),
        labels,
    )
}

/// A column binned at positions in sorted order: by value where a side is closed, else by rank.
pub open spec fn position_binned(
    s: SpecSeries,
    positions: Seq<IdxSize>,
    labels: Option<Seq<Seq<char>>>,
    include_intervals: bool,
    right_closed: Option<bool>,
) -> Result<SpecColumn, SpecError> {
    match right_closed {
        Some(right_closed) => quantile_binned(
            s,
            positions,
            labels,
            include_intervals,
            right_closed,
        ),
        None => rank_binned(s, positions, labels, include_intervals),
    }
}

/// Every bin is at most the number of breakpoints.
proof fn lemma_bins_in_range(
    values: Seq<Option<SpecValue>>,
    breaks: Seq<Option<SpecValue>>,
    right_closed: bool,
)
    requires
        breaks.len() < LENGTH_LIMIT,
    ensures
        forall|i: int|
            0 <= i < values.len() && (#[trigger] bins(values, breaks, right_closed)[i]) is Some
                ==> bins(values, breaks, right_closed)[i]->Some_0 <= breaks.len(),
{
    assert forall|i: int|
        0 <= i < values.len() && (#[trigger] bins(values, breaks, right_closed)[i])
            is Some implies bins(values, breaks, right_closed)[i]->Some_0 <= breaks.len() by {
        lemma_breaks_passed_bound(breaks, values[i]->Some_0, search_side(right_closed));
    }
}

/// Shared tail of the forms that are delimited by positions in sorted order.
///
/// `right_closed` is `Some` for quantile binning, which assigns bins by comparing values against
/// the gathered breakpoints, and `None` for rank binning, which instead compares each row's
/// ordinal rank against the cut positions. The rank form therefore splits ties across adjacent
/// bins, and never needs the boundary values unless they are actually reported.
pub fn bin_at_positions(
    s: &Series,
    positions: &[IdxSize],
    n_bins: usize,
    labels: Option<&[String]>,
    include_intervals: bool,
    right_closed: Option<bool>,
) -> (binned: Result<Column, BinError>)
    requires
        positions.len() < LENGTH_LIMIT,
        n_bins == positions.len() + 1,
        positions_ascend(positions@),
        right_closed is Some && s@.non_null_len() > 0 ==> forall|i: int|
            0 <= i < positions.len() ==> (#[trigger] positions@[i]) < s@.non_null_len(),
        labels_fit(label_texts(labels)),
    ensures
        outcome(binned) == position_binned(
            s@,
            positions@,
            label_texts(labels),
            include_intervals,
            right_closed,
        ),
        binned_at(
            outcome(binned),
            s@,
            positions@,
            label_texts(labels),
            include_intervals,
            right_closed,
        ),
{
    proof {
        use_type_invariant(s);
        lemma_valid_count_bounds(s@.values);
        match right_closed {
            Some(closed) => law_quantiles_place_rows(
                s@,
                positions@,
                label_texts(labels),
                include_intervals,
                closed,
            ),
            None => law_ranks_place_rows(s@, positions@, label_texts(labels), include_intervals),
        }
    }
    let non_null_len: usize = s.non_null_len();
    if non_null_len == 0 {
        proof {
            let none = nulls::<IdxSize>(s@.values.len());
            assert(forall|i: int| 0 <= i < s@.values.len() ==> (#[trigger] s@.values[i]) is None);
            assert(boundaries(s@.values, positions@) =~= nulls(positions@.len()));
            assert(rank_bins(s@.values, positions@) =~= none);
            if right_closed is Some {
                assert(bins(
                    s@.values,
                    boundaries(s@.values, positions@),
                    right_closed->Some_0,
                ) =~= none);
            }
        }
        return empty_bins(s, n_bins, s.dtype(), labels, include_intervals);
    }
    // One sort feeds both the ranks and the boundary gather.

    let sort_idx: Vec<IdxSize> = valid_arg_sort(s, non_null_len);
    proof {
        lemma_valid_order_lists_rows(s@.values, sort_idx@);
        lemma_gathered_boundaries(s@.values, sort_idx@, positions@);
    }
    let (bin_idx, breaks): (IdxCa, Option<Series>) = match right_closed {
        Some(right_closed) => {
            proof {
                law_quantile_breaks_ascend(s@.values, positions@);
            }
            let breaks: Series = gather_at_sorted_positions(s, &sort_idx, positions);
            let bin_idx: IdxCa = match bins_from_breaks(s, &breaks, right_closed) {
                Ok(bin_idx) => bin_idx,
                Err(e) => return Err(e),
            };
            (bin_idx, Some(breaks))
        },
        None => {
            let places: IdxCa = ranks_from_sort_idx(s, &sort_idx);
            proof {
                lemma_places_are_ranks(s@.values, sort_idx@, places.values@);
            }
            let ranks: Series = places.into_series();
            let cuts: Series = cuts_series(positions);
            let bin_idx: IdxCa = match bins_from_breaks(&ranks, &cuts, false) {
                Ok(bin_idx) => bin_idx,
                Err(e) => return Err(e),
            };
            let breaks: Option<Series> = if include_intervals {
                Some(gather_at_sorted_positions(s, &sort_idx, positions))
            } else {
                None
            };
            (bin_idx, breaks)
        },
    };
    // The value-based path needs the boundaries to bin at all, so they are dropped again unless
    // they are reported.
    let bounds: Option<&Series> = if include_intervals {
        breaks.as_ref()
    } else {
        None
    };
    proof {
        match right_closed {
            Some(rc) => lemma_bins_in_range(s@.values, boundaries(s@.values, positions@), rc),
            None => lemma_bins_in_range(
                bin_cells(ranks(s@.values)),
                position_cells(positions@),
                false,
            ),
        }
    }
    finish_bins(s.name().clone(), &bin_idx, n_bins, bounds, labels)
}

/// A column of the given cut positions.
fn cuts_series(positions: &[IdxSize]) -> (cuts: Series)
    requires
        positions.len() < LENGTH_LIMIT,
        positions_ascend(positions@),
    ensures
        cuts@.dtype == SpecDataType::Integer(IntType::UInt32),
        cuts@.values == position_cells(positions@),
        ascending(cuts@.values),
{
    let mut values: Vec<Option<IdxSize>> = Vec::new();
    let mut i: usize = 0;
    while i < positions.len()
        invariant
            i <= positions.len(),
            values.len() == i,
            forall|j: int| 0 <= j < i ==> (#[trigger] values@[j]) == Some(positions@[j]),
        decreases positions.len() - i,
    {
        values.push(Some(positions[i]));
        i += 1;
    }
    assert(bin_cells(values@) =~= position_cells(positions@));
    IdxCa { name: "".to_owned(), values }.into_series()
}

/// A column binned by breakpoints of its own data type.
pub open spec fn binned_by_breaks(
    s: SpecSeries,
    breaks: SpecSeries,
    labels: Option<Seq<Seq<char>>>,
    include_intervals: bool,
    right_closed: bool,
) -> Result<SpecColumn, SpecError> {
    if s.dtype != breaks.dtype {
        Err(SpecError::DtypeMismatch { expected: s.dtype, got: breaks.dtype })
    } else {
        finished(
            s.name,
            bins(s.values, breaks.values, right_closed),
            (breaks.values.len() + 1) as int,
            if include_intervals {
                Some(Bounds { dtype: breaks.dtype, values: breaks.values })
            } else {
                None
            },
            labels,
        )
    }
}

/// Whether all of a column is null.
pub open spec fn all_null(values: Seq<Option<SpecValue>>) -> bool {
    forall|i: int| 0 <= i < values.len() ==> (#[trigger] values[i]) is None
}

/// A column binned by equal-width breakpoints over its range. Breakpoints that are all null say
/// that there is no usable range: then every bin is null.
pub open spec fn binned_by_uniform_breaks(
    s: SpecSeries,
    breaks: SpecSeries,
    labels: Option<Seq<Seq<char>>>,
    include_intervals: bool,
    right_closed: bool,
) -> Result<SpecColumn, SpecError> {
    if breaks.values.len() > 0 && all_null(breaks.values) {
        finished(
            s.name,
            nulls(s.values.len()),
            (breaks.values.len() + 1) as int,
            if include_intervals {
                Some(Bounds { dtype: s.dtype, values: nulls(breaks.values.len()) })
            } else {
                None
            },
            labels,
        )
    } else {
        binned_by_breaks(s, breaks, labels, include_intervals, right_closed)
    }
}

/// Bins a column by explicit breakpoints that it has already been cast to.
pub fn bin_cast_intervals(
    s: &Series,
    breaks: &Series,
    labels: Option<&[String]>,
    include_intervals: bool,
    right_closed: bool,
) -> (binned: Result<Column, BinError>)
    requires
        s@.dtype == breaks@.dtype ==> ascending(breaks@.values),
        labels_fit(label_texts(labels)),
    ensures
        outcome(binned) == binned_by_breaks(
            s@,
            breaks@,
            label_texts(labels),
            include_intervals,
            right_closed,
        ),
        s@.dtype == breaks@.dtype ==> binned_by_value(
            outcome(binned),
            s@.name,
            s@.values,
            breaks@.values,
            label_texts(labels),
            asked(include_intervals, breaks@.dtype),
            right_closed,
        ),
        s@.dtype != breaks@.dtype ==> outcome(binned) == Err::<SpecColumn, SpecError>(
            SpecError::DtypeMismatch { expected: s@.dtype, got: breaks@.dtype },
        ),
{
    proof {
        use_type_invariant(s);
        use_type_invariant(breaks);
        if s@.dtype == breaks@.dtype {
            law_breaks_place_rows(
                s@,
                breaks@,
                label_texts(labels),
                include_intervals,
                right_closed,
            );
        }
    }
    let bin_idx: IdxCa = match bins_from_breaks(s, breaks, right_closed) {
        Ok(bin_idx) => bin_idx,
        Err(e) => return Err(e),
    };
    proof {
        lemma_bins_in_range(s@.values, breaks@.values, right_closed);
    }
    let bounds: Option<&Series> = if include_intervals {
        Some(breaks)
    } else {
        None
    };
    finish_bins(s.name().clone(), &bin_idx, breaks.len() + 1, bounds, labels)
}

/// Bins a column by equal-width breakpoints that have been derived from its range.
pub fn bin_uniform_intervals(
    s: &Series,
    breaks: &Series,
    labels: Option<&[String]>,
    include_intervals: bool,
    right_closed: bool,
) -> (binned: Result<Column, BinError>)
    requires
        s@.dtype == breaks@.dtype ==> all_null(breaks@.values) || ascending(breaks@.values),
        labels_fit(label_texts(labels)),
    ensures
        outcome(binned) == binned_by_uniform_breaks(
            s@,
            breaks@,
            label_texts(labels),
            include_intervals,
            right_closed,
        ),
        s@.dtype == breaks@.dtype && ascending(breaks@.values) ==> binned_by_value(
            outcome(binned),
            s@.name,
            s@.values,
            breaks@.values,
            label_texts(labels),
            asked(include_intervals, breaks@.dtype),
            right_closed,
        ),
        breaks@.values.len() > 0 && (forall|k: int|
            0 <= k < breaks@.values.len() ==> (#[trigger] breaks@.values[k]) is None) ==> {
            &&& answers(
                outcome(binned),
                s@.name,
                s@.values.len(),
                label_texts(labels),
                asked(include_intervals, s@.dtype),
                breaks@.values,
            )
            &&& binned is Ok ==> forall|row: int|
                0 <= row < s@.values.len() ==> (#[trigger] bin_cells_of(outcome(binned))[row])
                    is None
        },
{
    proof {
        use_type_invariant(s);
        use_type_invariant(breaks);
        lemma_valid_count_bounds(breaks@.values);
        law_derived_breaks_place_rows(
            s@,
            breaks@,
            label_texts(labels),
            include_intervals,
            right_closed,
        );
    }
    // No usable range: a column that is empty or holds nothing but nulls.
    if breaks.len() > 0 && breaks.non_null_len() == 0 {
        return empty_bins(s, breaks.len() + 1, s.dtype(), labels, include_intervals);
    }
    bin_cast_intervals(s, breaks, labels, include_intervals, right_closed)
}

/// Bins a column by intervals: between explicit breakpoints, or of equal width over its range.
pub open spec fn interval_binned(
    s: SpecSeries,
    spec: IntervalSpec<'_>,
    labels: Option<Seq<Seq<char>>>,
    include_intervals: bool,
    right_closed: bool,
) -> Result<SpecColumn, SpecError> {
    match spec {
        IntervalSpec::Breaks(breaks) => binned_by_breaks(
            cast_column(s, breaks@.dtype),
            breaks@,
            labels,
            include_intervals,
            right_closed,
        ),
        IntervalSpec::Count(n_bins) => if n_bins == 0 {
            Err(SpecError::NoBins(BinForm::Intervals))
        } else {
            binned_by_uniform_breaks(
                s,
                uniform_breaks(s, n_bins as int, right_closed),
                labels,
                include_intervals,
                right_closed,
            )
        },
    }
}

/// Equal-width breakpoints are all null or ascend.
proof fn lemma_uniform_breaks_ascend(s: SpecSeries, n_bins: int, right_closed: bool)
    requires
        n_bins >= 1,
    ensures
        ({
            let breaks = uniform_breaks(s, n_bins, right_closed).values;
            all_null(breaks) || ascending(breaks)
        }),
{
    let breaks = uniform_breaks(s, n_bins, right_closed).values;
    lemma_extremes(s.values);
    if let (Some(SpecValue::Int(min)), Some(SpecValue::Int(max))) = (
        least(s.values),
        greatest(s.values),
    ) {
        let k = choose|k: int| 0 <= k < s.values.len() && s.values[k] == greatest(s.values);
        assert(value_le(least(s.values)->Some_0, s.values[k]->Some_0));
        assert forall|i: int, j: int| 0 <= i <= j < breaks.len() implies value_le(
            (#[trigger] breaks[i])->Some_0,
            (#[trigger] breaks[j])->Some_0,
        ) by {
            lemma_thresholds_ascend(min, max, n_bins, i + 1, j + 1, right_closed);
        }
        assert(ascending(breaks));
    } else {
        assert(all_null(breaks));
    }
}

/// Bins a column by intervals.
///
/// Explicit breakpoints are in the data type that both sides are compared in: the column is cast
/// to it, which changes nothing unless a number was widened to meet its breakpoints. A column of
/// exact numbers that has to become one of floats is cast beforehand, for [`bin_cast_intervals`],
/// and equal-width breakpoints of floats are derived beforehand, for [`bin_uniform_intervals`].
pub fn bin_intervals(
    s: &Series,
    spec: IntervalSpec<'_>,
    labels: Option<&[String]>,
    include_intervals: bool,
    right_closed: bool,
) -> (binned: Result<Column, BinError>)
    requires
        match spec {
            IntervalSpec::Breaks(breaks) => {
                &&& ascending(breaks@.values)
                &&& {
                    ||| s@.dtype == breaks@.dtype
                    ||| s@.dtype.is_exact_number() && breaks@.dtype.is_exact_number()
                    ||| s@.dtype.is_narrower_float(breaks@.dtype)
                }
            },
            IntervalSpec::Count(n_bins) => n_bins <= LENGTH_LIMIT && (n_bins > 0
                ==> s@.dtype.physical() is Some),
        },
        labels_fit(label_texts(labels)),
    ensures
        outcome(binned) == interval_binned(
            s@,
            spec,
            label_texts(labels),
            include_intervals,
            right_closed,
        ),
        match spec {
            IntervalSpec::Breaks(breaks) => forall|cast: SpecSeries|
                #[trigger] is_cast_column(s@, cast, breaks@.dtype) ==> binned_by_value(
                    outcome(binned),
                    s@.name,
                    cast.values,
                    breaks@.values,
                    label_texts(labels),
                    asked(include_intervals, breaks@.dtype),
                    right_closed,
                ),
            IntervalSpec::Count(n_bins) => if n_bins == 0 {
                outcome(binned) == Err::<SpecColumn, SpecError>(
                    SpecError::NoBins(BinForm::Intervals),
                )
            } else {
                forall|min: int, max: int| #[trigger]
                    ranges_over(s@.values, min, max) ==> in_equal_parts(
                        outcome(binned),
                        s@.values,
                        n_bins as int,
                        min,
                        max,
                        right_closed,
                    ) && binned_by_value(
                        outcome(binned),
                        s@.name,
                        s@.values,
                        uniform_breaks(s@, n_bins as int, right_closed).values,
                        label_texts(labels),
                        asked(include_intervals, s@.dtype),
                        right_closed,
                    )
            },
        },
{
    proof {
        use_type_invariant(s);
        match spec {
            IntervalSpec::Breaks(breaks) => {
                use_type_invariant(breaks);
                assert forall|cast: SpecSeries| #[trigger] is_cast_column(
                    s@,
                    cast,
                    breaks@.dtype,
                ) implies binned_by_value(
                    interval_binned(
                        s@,
                        spec,
                        label_texts(labels),
                        include_intervals,
                        right_closed,
                    ),
                    s@.name,
                    cast.values,
                    breaks@.values,
                    label_texts(labels),
                    asked(include_intervals, breaks@.dtype),
                    right_closed,
                ) by {
                    law_explicit_breaks_place_cast_rows(
                        s@,
                        cast,
                        *breaks,
                        label_texts(labels),
                        include_intervals,
                        right_closed,
                    );
                }
            },
            IntervalSpec::Count(n_bins) => {
                assert forall|min: int, max: int|
                    n_bins > 0 && #[trigger] ranges_over(
                        s@.values,
                        min,
                        max,
                    ) implies in_equal_parts(
                    interval_binned(
                        s@,
                        spec,
                        label_texts(labels),
                        include_intervals,
                        right_closed,
                    ),
                    s@.values,
                    n_bins as int,
                    min,
                    max,
                    right_closed,
                ) && binned_by_value(
                    interval_binned(
                        s@,
                        spec,
                        label_texts(labels),
                        include_intervals,
                        right_closed,
                    ),
                    s@.name,
                    s@.values,
                    uniform_breaks(s@, n_bins as int, right_closed).values,
                    label_texts(labels),
                    asked(include_intervals, s@.dtype),
                    right_closed,
                ) by {
                    law_equal_width_places_rows(
                        s@,
                        n_bins,
                        label_texts(labels),
                        include_intervals,
                        right_closed,
                        min,
                        max,
                    );
                }
            },
        }
    }
    match spec {
        IntervalSpec::Breaks(breaks) => {
            if s.dtype().same(breaks.dtype()) {
                return bin_cast_intervals(s, breaks, labels, include_intervals, right_closed);
            }
            if s.dtype().is_narrower_float(breaks.dtype()) {
                let cast: Series = s.widen_floats(breaks.dtype());
                return bin_cast_intervals(&cast, breaks, labels, include_intervals, right_closed);
            }
            proof {
                use_type_invariant(breaks);
            }
            match cast_exact(s, breaks.dtype()) {
                Ok(cast) => bin_cast_intervals(
                    &cast,
                    breaks,
                    labels,
                    include_intervals,
                    right_closed,
                ),
                Err(e) => Err(e),
            }
        },
        IntervalSpec::Count(n_bins) => {
            if n_bins == 0 {
                return Err(BinError::NoBins(BinForm::Intervals));
            }
            let breaks: Series = uniform_interval_breaks(s, n_bins, right_closed);
            proof {
                lemma_uniform_breaks_ascend(s@, n_bins as int, right_closed);
            }
            bin_uniform_intervals(s, &breaks, labels, include_intervals, right_closed)
        },
    }
}

/// Bins a column by quantiles: the values at given positions in sorted order, or those that
/// delimit bins of equal probability.
pub fn bin_quantiles(
    s: &Series,
    spec: FractionSpec<'_>,
    labels: Option<&[String]>,
    include_intervals: bool,
    right_closed: bool,
) -> (binned: Result<Column, BinError>)
    requires
        match spec {
            FractionSpec::Explicit(positions) => {
                &&& positions.len() < LENGTH_LIMIT
                &&& positions_ascend(positions@)
                &&& s@.non_null_len() > 0 ==> forall|i: int|
                    0 <= i < positions.len() ==> (#[trigger] positions@[i]) < s@.non_null_len()
            },
            FractionSpec::Count(n_bins) => n_bins <= LENGTH_LIMIT,
        },
        labels_fit(label_texts(labels)),
    ensures
        outcome(binned) == match spec {
            FractionSpec::Explicit(positions) => quantile_binned(
                s@,
                positions@,
                label_texts(labels),
                include_intervals,
                right_closed,
            ),
            FractionSpec::Count(n_bins) => if n_bins == 0 {
                Err(SpecError::NoBins(BinForm::Quantiles))
            } else {
                quantile_binned(
                    s@,
                    quantile_positions(s@.non_null_len() as int, n_bins as int),
                    label_texts(labels),
                    include_intervals,
                    right_closed,
                )
            },
        },
        match spec {
            FractionSpec::Explicit(positions) => binned_at(
                outcome(binned),
                s@,
                positions@,
                label_texts(labels),
                include_intervals,
                Some(right_closed),
            ),
            FractionSpec::Count(n_bins) => if n_bins == 0 {
                outcome(binned) == Err::<SpecColumn, SpecError>(
                    SpecError::NoBins(BinForm::Quantiles),
                )
            } else {
                binned_at(
                    outcome(binned),
                    s@,
                    quantile_positions(valid_count(s@.values) as int, n_bins as int),
                    label_texts(labels),
                    include_intervals,
                    Some(right_closed),
                )
            },
        },
{
    match spec {
        FractionSpec::Explicit(positions) => bin_at_positions(
            s,
            positions,
            positions.len() + 1,
            labels,
            include_intervals,
            Some(right_closed),
        ),
        FractionSpec::Count(n_bins) => {
            if n_bins == 0 {
                return Err(BinError::NoBins(BinForm::Quantiles));
            }
            let non_null_len: usize = s.non_null_len();
            proof {
                use_type_invariant(s);
                lemma_valid_count_bounds(s@.values);
            }
            let positions: Vec<IdxSize> = quantile_break_positions_uniform(non_null_len, n_bins);
            proof {
                let (len, n) = (non_null_len as int, n_bins as int);
                assert forall|i: int, j: int| 0 <= i <= j < positions.len() implies (
                #[trigger] positions@[i]) <= (#[trigger] positions@[j]) by {
                    lemma_quantile_positions(len, n, i + 1, j + 1);
                }
                assert forall|i: int| 0 <= i < positions.len() && len > 0 implies (
                #[trigger] positions@[i]) < len by {
                    lemma_quantile_positions(len, n, i + 1, i + 1);
                }
                assert(positions@ =~= quantile_positions(len, n));
            }
            bin_at_positions(
                s,
                positions.as_slice(),
                n_bins,
                labels,
                include_intervals,
                Some(right_closed),
            )
        },
    }
}

/// Bins a column by rank: cut at given positions in sorted order, or into bins of near-equal
/// size.
pub fn bin_ranks(
    s: &Series,
    spec: FractionSpec<'_>,
    labels: Option<&[String]>,
    include_intervals: bool,
) -> (binned: Result<Column, BinError>)
    requires
        match spec {
            FractionSpec::Explicit(positions) => positions.len() < LENGTH_LIMIT && positions_ascend(
                positions@,
            ),
            FractionSpec::Count(n_bins) => n_bins <= LENGTH_LIMIT,
        },
        labels_fit(label_texts(labels)),
    ensures
        outcome(binned) == match spec {
            FractionSpec::Explicit(positions) => rank_binned(
                s@,
                positions@,
                label_texts(labels),
                include_intervals,
            ),
            FractionSpec::Count(n_bins) => if n_bins == 0 {
                Err(SpecError::NoBins(BinForm::Ranks))
            } else {
                rank_binned(
                    s@,
                    rank_cuts(s@.non_null_len() as int, n_bins as int),
                    label_texts(labels),
                    include_intervals,
                )
            },
        },
        match spec {
            FractionSpec::Explicit(positions) => binned_at(
                outcome(binned),
                s@,
                positions@,
                label_texts(labels),
                include_intervals,
                None,
            ),
            FractionSpec::Count(n_bins) => if n_bins == 0 {
                outcome(binned) == Err::<SpecColumn, SpecError>(SpecError::NoBins(BinForm::Ranks))
            } else {
                binned_at(
                    outcome(binned),
                    s@,
                    rank_cuts(valid_count(s@.values) as int, n_bins as int),
                    label_texts(labels),
                    include_intervals,
                    None,
                )
            },
        },
{
    match spec {
        FractionSpec::Explicit(positions) => bin_at_positions(
            s,
            positions,
            positions.len() + 1,
            labels,
            include_intervals,
            None,
        ),
        FractionSpec::Count(n_bins) => {
            if n_bins == 0 {
                return Err(BinError::NoBins(BinForm::Ranks));
            }
            let non_null_len: usize = s.non_null_len();
            proof {
                use_type_invariant(s);
                lemma_valid_count_bounds(s@.values);
            }
            let positions: Vec<IdxSize> = rank_cut_positions_uniform(non_null_len, n_bins);
            proof {
                let (len, n) = (non_null_len as int, n_bins as int);
                assert forall|i: int, j: int| 0 <= i <= j < positions.len() implies (
                #[trigger] positions@[i]) <= (#[trigger] positions@[j]) by {
                    lemma_rank_cuts_ascend(len, n, i + 1, j + 1);
                }
                assert forall|i: int| 0 <= i < positions.len() implies (#[trigger] positions@[i])
                    == rank_cuts(len, n)[i] by {
                    lemma_rank_cuts(len, n, i + 1);
                }
                assert(positions@ =~= rank_cuts(len, n));
            }
            bin_at_positions(s, positions.as_slice(), n_bins, labels, include_intervals, None)
        },
    }
}

} // verus!
