//! What holds of binning as a whole.

use vstd::arithmetic::power::lemma_pow0;
use vstd::prelude::*;
use vstd::relations::injective_on;
use vstd::set_lib::{
    lemma_int_range, lemma_len_subset, lemma_map_size, lemma_subset_equality, set_int_range,
};

use crate::binning::{
    all_null, bin_of, binned_by_breaks, binned_by_uniform_breaks, bins, boundaries, boundary,
    interval_binned, position_binned, position_cells, positions_ascend, quantile_binned,
    rank_binned, rank_bins, ranks, search_side, IntervalSpec,
};
use crate::casting::cast_column;
use crate::dtype::{IntType, SpecDataType, LENGTH_LIMIT};
use crate::error::SpecError;
use crate::intervals::{
    greatest, least, lemma_extremes, lemma_threshold_in_range, lemma_thresholds_ascend, threshold,
    uniform_breaks, uniform_thresholds,
};
use crate::method::SpecMethod;
use crate::output::{bin_cells, bin_dtype, finished, left_bound, right_bound, Bounds, SpecColumn};
use crate::positions::{
    lemma_rank_cuts, lemma_rank_cuts_ascend, quantile_position, quantile_positions, rank_bin_size,
    rank_cut, rank_cuts,
};
use crate::search::{
    ascending, breaks_passed, lemma_breaks_passed_bound, lemma_passed_prefix, SearchSortedSide,
};
use crate::series::{
    equal_cells, lemma_valid_count_bounds, nulls, valid_count, IdxSize, Series, SpecSeries,
};
use crate::sorting::{
    is_sort_order, lemma_precedes_order, lemma_rank_follows_order, lemma_valid_ranks,
    lemma_valid_rows_len, precedes, rank, row_at, rows_before, valid_rows,
};
use crate::value::{is_nan, lemma_value_order, value_le, value_lt, SpecValue};

verus! {

/// Every row gets a bin in `0..=breaks.len()`, and a null exactly where it is null.
pub proof fn law_bins_in_range(
    values: Seq<Option<SpecValue>>,
    breaks: Seq<Option<SpecValue>>,
    right_closed: bool,
    row: int,
)
    requires
        breaks.len() < LENGTH_LIMIT,
        0 <= row < values.len(),
    ensures
        bins(values, breaks, right_closed).len() == values.len(),
        bins(values, breaks, right_closed)[row] is Some <==> values[row] is Some,
        bins(values, breaks, right_closed)[row] is Some ==> 0 <= bins(
            values,
            breaks,
            right_closed,
        )[row]->Some_0 <= breaks.len(),
{
    if values[row] is Some {
        lemma_breaks_passed_bound(breaks, values[row]->Some_0, search_side(right_closed));
    }
}

/// The value lies in the interval of its bin: bin `0` has no left bound, bin `i > 0` has left
/// bound `breaks[i - 1]`, and the last bin has no right bound. A left-closed bin holds its left
/// bound and not its right one, a right-closed bin the other way round.
pub proof fn law_bin_holds_value(
    x: SpecValue,
    breaks: Seq<Option<SpecValue>>,
    right_closed: bool,
)
    requires
        ascending(breaks),
        breaks.len() < LENGTH_LIMIT,
    ensures
        ({
            let b = bin_of(Some(x), breaks, right_closed)->Some_0 as int;
            &&& b > 0 && !right_closed ==> value_le(breaks[b - 1]->Some_0, x)
            &&& b > 0 && right_closed ==> value_lt(breaks[b - 1]->Some_0, x)
            &&& b < breaks.len() && !right_closed ==> value_lt(x, breaks[b]->Some_0)
            &&& b < breaks.len() && right_closed ==> value_le(x, breaks[b]->Some_0)
        }),
{
    let side = search_side(right_closed);
    let b = breaks_passed(breaks, x, side) as int;
    lemma_breaks_passed_bound(breaks, x, side);
    if b > 0 {
        lemma_passed_prefix(breaks, x, side, b - 1);
    }
    if b < breaks.len() {
        lemma_passed_prefix(breaks, x, side, b);
    }
}

/// No other bin holds the value: a bin whose bounds enclose it is its bin.
pub proof fn law_bin_is_the_only_one(
    x: SpecValue,
    breaks: Seq<Option<SpecValue>>,
    right_closed: bool,
    b: int,
)
    requires
        ascending(breaks),
        breaks.len() < LENGTH_LIMIT,
        0 <= b <= breaks.len(),
        b > 0 && !right_closed ==> value_le(breaks[b - 1]->Some_0, x),
        b > 0 && right_closed ==> value_lt(breaks[b - 1]->Some_0, x),
        b < breaks.len() && !right_closed ==> value_lt(x, breaks[b]->Some_0),
        b < breaks.len() && right_closed ==> value_le(x, breaks[b]->Some_0),
    ensures
        bin_of(Some(x), breaks, right_closed) == Some(b as IdxSize),
{
    let side = search_side(right_closed);
    lemma_breaks_passed_bound(breaks, x, side);
    if b > 0 {
        lemma_passed_prefix(breaks, x, side, b - 1);
    }
    if b < breaks.len() {
        lemma_passed_prefix(breaks, x, side, b);
    }
}

/// Bins follow the order of values: the bin of a value is not above that of a greater one.
pub proof fn law_bins_follow_values(
    x: SpecValue,
    y: SpecValue,
    breaks: Seq<Option<SpecValue>>,
    right_closed: bool,
)
    requires
        value_le(x, y),
        breaks.len() < LENGTH_LIMIT,
    ensures
        bin_of(Some(x), breaks, right_closed)->Some_0 <= bin_of(
            Some(y),
            breaks,
            right_closed,
        )->Some_0,
{
    let side = search_side(right_closed);
    lemma_more_passed(x, y, breaks, side);
    lemma_breaks_passed_bound(breaks, x, side);
    lemma_breaks_passed_bound(breaks, y, side);
}

/// As many breakpoints lie below a greater value, or more.
proof fn lemma_more_passed(
    x: SpecValue,
    y: SpecValue,
    breaks: Seq<Option<SpecValue>>,
    side: SearchSortedSide,
)
    requires
        value_le(x, y),
    ensures
        breaks_passed(breaks, x, side) <= breaks_passed(breaks, y, side),
    decreases breaks.len(),
{
    if breaks.len() > 0 {
        lemma_more_passed(x, y, breaks.drop_last(), side);
        if breaks.last() is Some {
            lemma_value_order(breaks.last()->Some_0, x, y);
        }
    }
}

/// Bins are consistent with sorting: along the sorted order of a column they never descend, and
/// the nulls among them come last.
pub proof fn law_bins_follow_sorted_order(
    values: Seq<Option<SpecValue>>,
    order: Seq<IdxSize>,
    breaks: Seq<Option<SpecValue>>,
    right_closed: bool,
    i: int,
    j: int,
)
    requires
        is_sort_order(values, order),
        breaks.len() < LENGTH_LIMIT,
        0 <= i < j < order.len(),
    ensures
        ({
            let first = bins(values, breaks, right_closed)[order[i] as int];
            let second = bins(values, breaks, right_closed)[order[j] as int];
            &&& first is None ==> second is None
            &&& second is Some ==> first->Some_0 <= second->Some_0
        }),
{
    let (a, b) = (order[i] as int, order[j] as int);
    assert(precedes(values, a, b));
    if let (Some(x), Some(y)) = (values[a], values[b]) {
        lemma_value_order(x, y, x);
        law_bins_follow_values(x, y, breaks, right_closed);
    }
}

/// Values that compare as equal share a bin, wherever they are binned by value. Both zeros do,
/// and so do all NaNs.
pub proof fn law_equal_values_share_a_bin(
    x: SpecValue,
    y: SpecValue,
    breaks: Seq<Option<SpecValue>>,
    right_closed: bool,
)
    requires
        value_le(x, y),
        value_le(y, x),
        breaks.len() < LENGTH_LIMIT,
    ensures
        bin_of(Some(x), breaks, right_closed) == bin_of(Some(y), breaks, right_closed),
{
    law_bins_follow_values(x, y, breaks, right_closed);
    law_bins_follow_values(y, x, breaks, right_closed);
}

/// Which side bins are closed on matters at breakpoints alone: the breakpoints between the
/// right-closed and the left-closed bin of a value are exactly those that equal it.
pub proof fn law_sides_differ_at_equal_breaks(
    x: SpecValue,
    breaks: Seq<Option<SpecValue>>,
    i: int,
)
    requires
        ascending(breaks),
        breaks.len() < LENGTH_LIMIT,
        0 <= i < breaks.len(),
    ensures
        bin_of(Some(x), breaks, true)->Some_0 <= bin_of(Some(x), breaks, false)->Some_0,
        bin_of(Some(x), breaks, true)->Some_0 <= i < bin_of(Some(x), breaks, false)->Some_0
            <==> value_le(breaks[i]->Some_0, x) && value_le(x, breaks[i]->Some_0),
{
    lemma_breaks_passed_bound(breaks, x, SearchSortedSide::Left);
    lemma_breaks_passed_bound(breaks, x, SearchSortedSide::Right);
    lemma_passed_prefix(breaks, x, SearchSortedSide::Left, i);
    lemma_passed_prefix(breaks, x, SearchSortedSide::Right, i);
    lemma_value_order(breaks[i]->Some_0, x, x);
    let below = breaks_passed(breaks, x, SearchSortedSide::Left) as int;
    if below > 0 {
        let last = breaks[below - 1]->Some_0;
        lemma_passed_prefix(breaks, x, SearchSortedSide::Left, below - 1);
        lemma_passed_prefix(breaks, x, SearchSortedSide::Right, below - 1);
        lemma_value_order(last, x, x);
    }
}

/// A NaN lands in the last bin, since it is above every other float. Only where bins are closed
/// on the right can a breakpoint stop it, and only one that is itself a NaN.
pub proof fn law_nan_is_in_the_last_bin(
    bits: u64,
    breaks: Seq<Option<SpecValue>>,
    right_closed: bool,
)
    requires
        is_nan(bits),
        breaks.len() < LENGTH_LIMIT,
        forall|i: int|
            0 <= i < breaks.len() ==> match #[trigger] breaks[i] {
                Some(SpecValue::Float(b)) => right_closed ==> !is_nan(b),
                _ => false,
            },
    ensures
        bin_of(Some(SpecValue::Float(bits)), breaks, right_closed) == Some(breaks.len() as IdxSize),
{
    lemma_nan_passes_all(bits, breaks, search_side(right_closed));
}

/// Every breakpoint lies below a NaN.
proof fn lemma_nan_passes_all(bits: u64, breaks: Seq<Option<SpecValue>>, side: SearchSortedSide)
    requires
        is_nan(bits),
        forall|i: int|
            0 <= i < breaks.len() ==> match #[trigger] breaks[i] {
                Some(SpecValue::Float(b)) => side == SearchSortedSide::Left ==> !is_nan(b),
                _ => false,
            },
    ensures
        breaks_passed(breaks, SpecValue::Float(bits), side) == breaks.len(),
    decreases breaks.len(),
{
    if breaks.len() > 0 {
        let init = breaks.drop_last();
        assert(forall|i: int| 0 <= i < init.len() ==> init[i] == breaks[i]);
        lemma_nan_passes_all(bits, init, side);
        assert(breaks.last() == breaks[breaks.len() - 1]);
    }
}

/// An integer threshold stands for the exact breakpoint at `min + i * (max - min) / n`, which
/// need not be an integer: an integer is above the one exactly where it is above the other, and
/// where bins are closed on the left the same holds of not being below.
pub proof fn law_threshold_stands_for_breakpoint(min: int, max: int, n: int, i: int, x: int)
    requires
        0 < n,
    ensures
        threshold(min, max, n, i, true) < x <==> i * (max - min) < n * (x - min),
        threshold(min, max, n, i, false) <= x <==> i * (max - min) <= n * (x - min),
{
    let (d, y) = (i * (max - min), x - min);
    assert(d / n < y <==> d < n * y) by (nonlinear_arith)
        requires
            0 < n,
    ;
    assert((d + n - 1) / n <= y <==> d <= n * y) by (nonlinear_arith)
        requires
            0 < n,
    ;
}

/// Equal-width bins are exact: with the range of the column cut into `n` parts of equal width,
/// a value of bin `b` lies in part `b`, without its upper end where bins are closed on the left
/// and without its lower end where they are closed on the right. The first and the last part
/// keep the ends of the range.
pub proof fn law_uniform_bins_are_exact(
    values: Seq<Option<SpecValue>>,
    n: int,
    right_closed: bool,
    row: int,
)
    requires
        1 <= n <= LENGTH_LIMIT,
        0 <= row < values.len(),
        values[row] is Some,
        forall|i: int|
            0 <= i < values.len() && (#[trigger] values[i]) is Some ==> values[i]->Some_0 is Int,
    ensures
        ({
            let (min, max) = (least(values)->Some_0->Int_0, greatest(values)->Some_0->Int_0);
            let (x, span) = (values[row]->Some_0->Int_0, max - min);
            let b = bin_of(
                values[row],
                uniform_thresholds(values, n, right_closed),
                right_closed,
            )->Some_0 as int;
            &&& 0 <= b < n
            &&& b * span <= n * (x - min) <= (b + 1) * span
            &&& !right_closed && b < n - 1 ==> n * (x - min) < (b + 1) * span
            &&& right_closed && b > 0 ==> b * span < n * (x - min)
        }),
{
    let breaks = uniform_thresholds(values, n, right_closed);
    let (min, max) = (least(values)->Some_0->Int_0, greatest(values)->Some_0->Int_0);
    let (x, span) = (values[row]->Some_0->Int_0, max - min);
    lemma_extremes(values);
    let lo = choose|k: int| 0 <= k < values.len() && values[k] == least(values);
    let hi = choose|k: int| 0 <= k < values.len() && values[k] == greatest(values);
    assert(values[lo] is Some && values[hi] is Some);
    assert(min <= x <= max);
    assert(ascending(breaks)) by {
        assert forall|i: int, j: int| 0 <= i <= j < breaks.len() implies value_le(
            (#[trigger] breaks[i])->Some_0,
            (#[trigger] breaks[j])->Some_0,
        ) by {
            lemma_thresholds_ascend(min, max, n, i + 1, j + 1, right_closed);
        }
    }
    let b = breaks_passed(breaks, SpecValue::Int(x), search_side(right_closed)) as int;
    lemma_breaks_passed_bound(breaks, SpecValue::Int(x), search_side(right_closed));
    law_bin_holds_value(SpecValue::Int(x), breaks, right_closed);
    law_threshold_stands_for_breakpoint(min, max, n, b, x);
    law_threshold_stands_for_breakpoint(min, max, n, b + 1, x);
    assert(0 <= n * (x - min) <= n * span && 0 * span == 0) by (nonlinear_arith)
        requires
            0 <= x - min <= span,
            0 < n,
    ;
}

/// The positions of equiprobable breakpoints are exact: `i * (len - 1) / n` rounded down.
pub proof fn law_quantile_positions_are_exact(len: int, n: int, i: int)
    requires
        0 < len,
        0 < n,
        0 <= i < n,
    ensures
        n * quantile_position(len, n, i) <= i * (len - 1) < n * (quantile_position(len, n, i) + 1),
{
    let d = i * (len - 1);
    assert(n * (d / n) <= d < n * (d / n + 1)) by (nonlinear_arith)
        requires
            0 < n,
    ;
}

/// The rows that a bin holds.
pub open spec fn rows_in_bin(bin_idx: Seq<Option<IdxSize>>, b: IdxSize) -> Set<int> {
    set_int_range(0, bin_idx.len() as int).filter(|row: int| bin_idx[row] == Some(b))
}

/// Where the rank of a row puts it among ascending cuts: behind the cuts in front of its bin,
/// and in front of the cuts behind it.
proof fn lemma_rank_bin(values: Seq<Option<SpecValue>>, positions: Seq<IdxSize>, row: int)
    requires
        positions_ascend(positions),
        positions.len() < LENGTH_LIMIT,
        values.len() < LENGTH_LIMIT,
        0 <= row < values.len(),
        values[row] is Some,
    ensures
        rank(values, row) < valid_count(values) <= values.len(),
        rank_bins(values, positions)[row] is Some,
        ({
            let b = rank_bins(values, positions)[row]->Some_0 as int;
            &&& 0 <= b <= positions.len()
            &&& b > 0 ==> positions[b - 1] <= rank(values, row)
            &&& b < positions.len() ==> rank(values, row) < positions[b]
        }),
{
    lemma_valid_count_bounds(values);
    lemma_valid_ranks(values);
    let cuts = position_cells(positions);
    let x = SpecValue::Int(rank(values, row) as int);
    assert(ascending(cuts));
    assert(bin_cells(ranks(values))[row] == Some(x));
    lemma_breaks_passed_bound(cuts, x, search_side(false));
    law_bin_holds_value(x, cuts, false);
}

/// Bins of near-equal size are of the sizes that they should be: of `n` bins over `len` values
/// each of the first `len % n` holds `len / n + 1` rows, and each of the others `len / n`.
pub proof fn law_rank_bins_have_their_sizes(values: Seq<Option<SpecValue>>, n: int, b: IdxSize)
    requires
        1 <= n <= LENGTH_LIMIT,
        values.len() < LENGTH_LIMIT,
        0 <= b < n,
    ensures
        ({
            let len = valid_count(values) as int;
            let rows = rows_in_bin(rank_bins(values, rank_cuts(len, n)), b);
            rows.finite() && rows.len() == rank_bin_size(len, n, b as int)
        }),
{
    let len = valid_count(values) as int;
    let cuts = rank_cuts(len, n);
    let bin_idx = rank_bins(values, cuts);
    let rows = rows_in_bin(bin_idx, b);
    let (lo, hi) = (rank_cut(len, n, b as int), rank_cut(len, n, b + 1));
    lemma_valid_count_bounds(values);
    lemma_valid_ranks(values);
    lemma_int_range(0, values.len() as int);
    lemma_rank_cuts(len, n, b as int);
    assert forall|i: int| 0 <= i < n - 1 implies #[trigger] cuts[i] == rank_cut(len, n, i + 1) by {
        lemma_rank_cuts(len, n, i + 1);
    }
    assert forall|i: int, j: int| 0 <= i <= j < cuts.len() implies (#[trigger] cuts[i]) <= (
    #[trigger] cuts[j]) by {
        lemma_rank_cuts_ascend(len, n, i + 1, j + 1);
    }
    let f = |row: int| rank(values, row) as int;
    // A row is in the bin exactly where its rank lies between the cuts on both sides of the bin.
    assert forall|row: int| 0 <= row < values.len() implies (bin_idx[row] == Some(b)
        <==> values[row] is Some && lo <= #[trigger] rank(values, row) < hi) by {
        if values[row] is Some {
            lemma_rank_bin(values, cuts, row);
            let p = bin_idx[row]->Some_0 as int;
            let r = rank(values, row) as int;
            lemma_rank_cuts(len, n, p);
            assert(rank_cut(len, n, p) <= r < rank_cut(len, n, p + 1)) by {
                if p > 0 {
                    assert(cuts[p - 1] == rank_cut(len, n, p));
                }
                if p < n - 1 {
                    assert(cuts[p] == rank_cut(len, n, p + 1));
                }
            }
            if p < b {
                lemma_rank_cuts_ascend(len, n, p + 1, b as int);
            } else if p > b {
                lemma_rank_cuts_ascend(len, n, b + 1, p);
            }
        }
    }
    assert(injective_on(f, rows)) by {
        assert forall|x1: int, x2: int|
            rows.contains(x1) && rows.contains(x2) && f(x1) == f(x2) implies x1 == x2 by {
            if x1 != x2 {
                lemma_precedes_order(values, x1, x2, x1);
                if precedes(values, x1, x2) {
                    lemma_rank_follows_order(values, x1, x2);
                } else {
                    lemma_rank_follows_order(values, x2, x1);
                }
            }
        }
    }
    lemma_int_range(lo, hi);
    assert(rows.map(f) =~= set_int_range(lo, hi)) by {
        assert forall|r: int| rows.map(f).contains(r) implies set_int_range(lo, hi).contains(r) by {
            let row = choose|row: int| rows.contains(row) && f(row) == r;
            assert(lo <= rank(values, row) < hi);
        }
        assert forall|r: int| set_int_range(lo, hi).contains(r) implies rows.map(f).contains(r) by {
            let row = row_at(values, r);
            assert(rank(values, row) == r);
            assert(rows.contains(row) && f(row) == r);
        }
    }
    lemma_map_size(rows, set_int_range(lo, hi), f);
}

/// Binning by rank follows sorted order: a row that comes before another one, be it as the
/// earlier of two rows of equal value, is not in a bin behind the other's.
pub proof fn law_rank_bins_follow_sorted_order(
    values: Seq<Option<SpecValue>>,
    positions: Seq<IdxSize>,
    a: int,
    b: int,
)
    requires
        positions_ascend(positions),
        positions.len() < LENGTH_LIMIT,
        values.len() < LENGTH_LIMIT,
        0 <= a < values.len(),
        0 <= b < values.len(),
        values[a] is Some,
        values[b] is Some,
        value_lt(values[a]->Some_0, values[b]->Some_0) || value_le(
            values[a]->Some_0,
            values[b]->Some_0,
        ) && a < b,
    ensures
        rank_bins(values, positions)[a]->Some_0 <= rank_bins(values, positions)[b]->Some_0,
{
    lemma_value_order(values[a]->Some_0, values[b]->Some_0, values[a]->Some_0);
    assert(precedes(values, a, b));
    lemma_rank_follows_order(values, a, b);
    lemma_rank_bin(values, positions, a);
    lemma_rank_bin(values, positions, b);
    let (p, q) = (
        rank_bins(values, positions)[a]->Some_0,
        rank_bins(values, positions)[b]->Some_0,
    );
    if p > q {
        assert(positions[p - 1] >= positions[q as int]);
    }
}

/// The boundary values that binning by rank reports enclose the values of a bin: none is below
/// the value at the cut in front of the bin, and none above the value at the cut behind it.
pub proof fn law_rank_bounds_enclose_values(
    values: Seq<Option<SpecValue>>,
    positions: Seq<IdxSize>,
    row: int,
)
    requires
        positions_ascend(positions),
        positions.len() < LENGTH_LIMIT,
        values.len() < LENGTH_LIMIT,
        0 <= row < values.len(),
        values[row] is Some,
    ensures
        ({
            let b = rank_bins(values, positions)[row];
            let breaks = boundaries(values, positions);
            let x = values[row]->Some_0;
            &&& b->Some_0 > 0 ==> left_bound(b, breaks) is Some && value_le(
                left_bound(b, breaks)->Some_0,
                x,
            )
            &&& right_bound(b, breaks) is Some ==> value_le(x, right_bound(b, breaks)->Some_0)
            &&& right_bound(b, breaks) is None <==> b->Some_0 == positions.len()
                || positions[b->Some_0 as int] >= valid_count(values)
        }),
{
    let b = rank_bins(values, positions)[row]->Some_0 as int;
    let x = values[row]->Some_0;
    lemma_rank_bin(values, positions, row);
    lemma_valid_ranks(values);
    if b > 0 {
        let other = row_at(values, positions[b - 1] as int);
        lemma_lower_rank_is_not_greater(values, other, row);
    }
    if b < positions.len() && positions[b] < valid_count(values) {
        let other = row_at(values, positions[b] as int);
        lemma_lower_rank_is_not_greater(values, row, other);
    }
}

/// Of two rows that are not null the one of lower rank does not hold the greater value.
proof fn lemma_lower_rank_is_not_greater(values: Seq<Option<SpecValue>>, a: int, b: int)
    requires
        0 <= a < values.len(),
        0 <= b < values.len(),
        values[a] is Some,
        values[b] is Some,
        rank(values, a) <= rank(values, b),
    ensures
        value_le(values[a]->Some_0, values[b]->Some_0),
{
    if precedes(values, b, a) {
        lemma_rank_follows_order(values, b, a);
    } else {
        lemma_precedes_order(values, a, b, a);
        lemma_value_order(values[a]->Some_0, values[b]->Some_0, values[a]->Some_0);
    }
}

/// The bounds that binning by value reports enclose the value: the left bound is missing for the
/// first bin alone and the right bound for the last alone, and of the two the one on the closed
/// side may equal the value.
pub proof fn law_bounds_enclose_values(
    x: SpecValue,
    breaks: Seq<Option<SpecValue>>,
    right_closed: bool,
)
    requires
        ascending(breaks),
        breaks.len() < LENGTH_LIMIT,
    ensures
        ({
            let b = bin_of(Some(x), breaks, right_closed);
            let (left, right) = (left_bound(b, breaks), right_bound(b, breaks));
            &&& left is None <==> b->Some_0 == 0
            &&& right is None <==> b->Some_0 == breaks.len()
            &&& left is Some ==> value_le(left->Some_0, x) && (right_closed ==> value_lt(
                left->Some_0,
                x,
            ))
            &&& right is Some ==> value_le(x, right->Some_0) && (!right_closed ==> value_lt(
                x,
                right->Some_0,
            ))
        }),
{
    let side = search_side(right_closed);
    let b = breaks_passed(breaks, x, side) as int;
    lemma_breaks_passed_bound(breaks, x, side);
    law_bin_holds_value(x, breaks, right_closed);
    if b > 0 {
        lemma_value_order(breaks[b - 1]->Some_0, x, x);
    }
    if b < breaks.len() {
        lemma_value_order(x, breaks[b]->Some_0, x);
    }
}

/// The values at ascending positions in sorted order are ascending breakpoints, so that what
/// holds of bins between ascending breakpoints holds of quantile binning.
pub proof fn law_quantile_breaks_ascend(values: Seq<Option<SpecValue>>, positions: Seq<IdxSize>)
    requires
        positions_ascend(positions),
        forall|i: int| 0 <= i < positions.len() ==> (#[trigger] positions[i]) < valid_count(values),
    ensures
        ascending(boundaries(values, positions)),
{
    let breaks = boundaries(values, positions);
    lemma_valid_ranks(values);
    assert forall|i: int| 0 <= i < breaks.len() implies (#[trigger] breaks[i]) is Some by {
        assert(values[row_at(values, positions[i] as int)] is Some);
    }
    assert forall|i: int, j: int| 0 <= i <= j < breaks.len() implies value_le(
        (#[trigger] breaks[i])->Some_0,
        (#[trigger] breaks[j])->Some_0,
    ) by {
        assert(positions[i] <= positions[j]);
        lemma_lower_rank_is_not_greater(
            values,
            row_at(values, positions[i] as int),
            row_at(values, positions[j] as int),
        );
    }
}

/// Whether labels can name `n` bins: there is one for each, and they all differ. Without labels
/// there is nothing to name.
pub open spec fn labels_name(labels: Option<Seq<Seq<char>>>, n: nat) -> bool {
    labels is Some ==> labels->Some_0.len() == n && labels->Some_0.no_duplicates()
}

/// Whether a column is what binning `len` rows gives: the bins alone, or a struct of them with
/// bounds of a data type.
pub open spec fn has_shape(
    column: SpecColumn,
    name: Seq<char>,
    len: nat,
    labels: Option<Seq<Seq<char>>>,
    bound_dtype: Option<SpecDataType>,
) -> bool {
    match column {
        SpecColumn::Series(bin) => {
            &&& bound_dtype is None
            &&& bin.name == name
            &&& bin.dtype == bin_dtype(labels)
            &&& bin.values.len() == len
        },
        SpecColumn::Struct { name: struct_name, bin, left, right } => {
            &&& bound_dtype is Some
            &&& struct_name == name
            &&& bin.name == "bin"@ && left.name == "left"@ && right.name == "right"@
            &&& bin.dtype == bin_dtype(labels)
            &&& left.dtype == bound_dtype->Some_0
            &&& right.dtype == bound_dtype->Some_0
            &&& bin.values.len() == len
            &&& left.values.len() == len
            &&& right.values.len() == len
        },
    }
}

/// The output is stable: whether binning succeeds, and the names, data types and lengths of what
/// it gives, rest on the labels, the number of bins and the data type, not on the values. An
/// empty column and one of nothing but nulls are no exception.
pub proof fn law_output_is_stable(
    s: SpecSeries,
    breaks: SpecSeries,
    positions: Seq<IdxSize>,
    labels: Option<Seq<Seq<char>>>,
    include_intervals: bool,
    right_closed: bool,
)
    requires
        s.dtype == breaks.dtype,
    ensures
        ({
            let bounds = if include_intervals {
                Some(s.dtype)
            } else {
                None
            };
            let by_breaks = binned_by_breaks(s, breaks, labels, include_intervals, right_closed);
            let by_width = binned_by_uniform_breaks(
                s,
                breaks,
                labels,
                include_intervals,
                right_closed,
            );
            let by_quantile = quantile_binned(
                s,
                positions,
                labels,
                include_intervals,
                right_closed,
            );
            let by_rank = rank_binned(s, positions, labels, include_intervals);
            let len = s.values.len();
            &&& by_breaks is Ok <==> labels_name(labels, breaks.values.len() + 1)
            &&& by_width is Ok <==> labels_name(labels, breaks.values.len() + 1)
            &&& by_quantile is Ok <==> labels_name(labels, positions.len() + 1)
            &&& by_rank is Ok <==> labels_name(labels, positions.len() + 1)
            &&& by_breaks is Ok ==> has_shape(by_breaks->Ok_0, s.name, len, labels, bounds)
            &&& by_width is Ok ==> has_shape(by_width->Ok_0, s.name, len, labels, bounds)
            &&& by_quantile is Ok ==> has_shape(by_quantile->Ok_0, s.name, len, labels, bounds)
            &&& by_rank is Ok ==> has_shape(by_rank->Ok_0, s.name, len, labels, bounds)
        }),
{
}

/// A column without values has no bins: whatever the form, every bin and every bound is null.
pub proof fn law_no_values_no_bins(
    s: SpecSeries,
    n: int,
    positions: Seq<IdxSize>,
    labels: Option<Seq<Seq<char>>>,
    include_intervals: bool,
    right_closed: bool,
)
    requires
        n > 1,
        positions.len() == n - 1,
        all_null(s.values),
    ensures
        ({
            let bounds = if include_intervals {
                Some(Bounds { dtype: s.dtype, values: nulls((n - 1) as nat) })
            } else {
                None
            };
            let nothing = finished(s.name, nulls(s.values.len()), n, bounds, labels);
            &&& binned_by_uniform_breaks(
                s,
                uniform_breaks(s, n, right_closed),
                labels,
                include_intervals,
                right_closed,
            ) == nothing
            &&& quantile_binned(s, positions, labels, include_intervals, right_closed) == nothing
            &&& rank_binned(s, positions, labels, include_intervals) == nothing
        }),
{
    let none = nulls::<IdxSize>(s.values.len());
    lemma_valid_count_bounds(s.values);
    lemma_extremes(s.values);
    assert(boundaries(s.values, positions) =~= nulls(positions.len()));
    assert(rank_bins(s.values, positions) =~= none);
    assert(bins(s.values, boundaries(s.values, positions), right_closed) =~= none);
    assert(all_null(uniform_breaks(s, n, right_closed).values));
}

/// A labelled bin is an enum whose code is the bin and whose variant is that bin's label.
pub proof fn law_labels_name_bins(
    s: SpecSeries,
    breaks: SpecSeries,
    labels: Seq<Seq<char>>,
    right_closed: bool,
    row: int,
)
    requires
        s.dtype == breaks.dtype,
        breaks.values.len() < LENGTH_LIMIT,
        labels_name(Some(labels), breaks.values.len() + 1),
        0 <= row < s.values.len(),
    ensures
        ({
            let binned = binned_by_breaks(s, breaks, Some(labels), false, right_closed);
            let bin = binned->Ok_0->Series_0;
            &&& binned is Ok && binned->Ok_0 is Series
            &&& bin.dtype == SpecDataType::Enum(labels)
            &&& match bin_of(s.values[row], breaks.values, right_closed) {
                Some(b) => b < labels.len() && bin.values[row] == Some(SpecValue::Int(b as int)),
                None => bin.values[row] is None,
            }
        }),
{
    law_bins_in_range(s.values, breaks.values, right_closed, row);
}

/// What a method makes of a column, where explicit fractions come to the given positions and
/// explicit breakpoints are of the column's data type.
pub open spec fn binned_by_method(
    method: SpecMethod,
    s: SpecSeries,
    positions: Seq<IdxSize>,
    labels: Option<Seq<Seq<char>>>,
    include_intervals: bool,
) -> Result<SpecColumn, SpecError> {
    let len = s.non_null_len() as int;
    match method {
        SpecMethod::Intervals { breaks, right_closed } => binned_by_breaks(
            s,
            breaks,
            labels,
            include_intervals,
            right_closed,
        ),
        SpecMethod::UniformIntervals { n_bins, right_closed } => binned_by_uniform_breaks(
            s,
            uniform_breaks(s, n_bins as int, right_closed),
            labels,
            include_intervals,
            right_closed,
        ),
        SpecMethod::Quantiles { right_closed, .. } => quantile_binned(
            s,
            positions,
            labels,
            include_intervals,
            right_closed,
        ),
        SpecMethod::UniformQuantiles { n_bins, right_closed } => quantile_binned(
            s,
            quantile_positions(len, n_bins as int),
            labels,
            include_intervals,
            right_closed,
        ),
        SpecMethod::Ranks { .. } => rank_binned(s, positions, labels, include_intervals),
        SpecMethod::UniformRanks { n_bins } => rank_binned(
            s,
            rank_cuts(len, n_bins as int),
            labels,
            include_intervals,
        ),
    }
}

/// A method tells beforehand what comes of it: its number of bins is the number of labels that
/// it takes, no more and no fewer, and its data type of bounds is that of the bounds reported.
pub proof fn law_method_tells_the_output(
    method: SpecMethod,
    s: SpecSeries,
    positions: Seq<IdxSize>,
    labels: Option<Seq<Seq<char>>>,
    include_intervals: bool,
)
    requires
        method.n_bins() >= 1,
        method is Intervals ==> method->breaks.dtype == s.dtype,
        method is Quantiles ==> positions.len() == method->probs.len(),
        method is Ranks ==> positions.len() == method->fractions.len(),
    ensures
        ({
            let binned = binned_by_method(method, s, positions, labels, include_intervals);
            let bounds = if include_intervals {
                Some(method.bound_dtype(s.dtype))
            } else {
                None
            };
            &&& binned is Ok <==> labels_name(labels, method.n_bins())
            &&& binned is Ok ==> has_shape(binned->Ok_0, s.name, s.values.len(), labels, bounds)
        }),
{
}

/// Meeting the breakpoints' data type changes no integer that the type holds: widening a column
/// of integers keeps it as it is, but for the data type.
pub proof fn law_widening_keeps_integers(s: SpecSeries, to: IntType)
    requires
        s.dtype is Integer,
        forall|i: int|
            0 <= i < s.values.len() && (#[trigger] s.values[i]) is Some ==> match s.values[i] {
                Some(SpecValue::Int(x)) => to.has(x),
                _ => false,
            },
    ensures
        cast_column(s, SpecDataType::Integer(to)).values == s.values,
{
    lemma_pow0(10);
    assert(cast_column(s, SpecDataType::Integer(to)).values =~= s.values);
}

/// Equal-width breakpoints rest on the range alone: two columns of one name and data type with
/// the same least and the same greatest value have the same ones, wherever the rows stand and
/// whatever else is in them. None of them is null, they never descend, and none lies outside of
/// the range.
pub proof fn law_uniform_breaks_rest_on_the_range(
    s: SpecSeries,
    t: SpecSeries,
    n: int,
    right_closed: bool,
)
    requires
        s.valid(),
        s.dtype.physical() is Some,
        s.name == t.name,
        s.dtype == t.dtype,
        n >= 1,
        least(s.values) is Some,
        least(t.values) == least(s.values),
        greatest(t.values) == greatest(s.values),
    ensures
        uniform_breaks(s, n, right_closed) == uniform_breaks(t, n, right_closed),
        ascending(uniform_breaks(s, n, right_closed).values),
        forall|i: int|
            0 <= i < n - 1 ==> {
                let break_ = #[trigger] uniform_breaks(s, n, right_closed).values[i];
                value_le(least(s.values)->Some_0, break_->Some_0) && value_le(
                    break_->Some_0,
                    greatest(s.values)->Some_0,
                )
            },
{
    let breaks = uniform_breaks(s, n, right_closed).values;
    lemma_extremes(s.values);
    let lo = choose|k: int| 0 <= k < s.values.len() && s.values[k] == least(s.values);
    let hi = choose|k: int| 0 <= k < s.values.len() && s.values[k] == greatest(s.values);
    assert(s.values[lo] is Some && s.values[hi] is Some);
    assert(s.dtype.admits(s.values[lo]->Some_0) && s.dtype.admits(s.values[hi]->Some_0));
    let (min, max) = (least(s.values)->Some_0->Int_0, greatest(s.values)->Some_0->Int_0);
    assert(min <= max);
    assert forall|i: int, j: int| 0 <= i <= j < breaks.len() implies value_le(
        (#[trigger] breaks[i])->Some_0,
        (#[trigger] breaks[j])->Some_0,
    ) by {
        lemma_thresholds_ascend(min, max, n, i + 1, j + 1, right_closed);
    }
    assert forall|i: int| 0 <= i < n - 1 implies {
        let break_ = #[trigger] uniform_breaks(s, n, right_closed).values[i];
        value_le(least(s.values)->Some_0, break_->Some_0) && value_le(
            break_->Some_0,
            greatest(s.values)->Some_0,
        )
    } by {
        lemma_threshold_in_range(min, max, n, i + 1, right_closed);
    }
}

/// Equal-width binning is binning by its breakpoints: for a column with a value, asking for a
/// number of bins gives what asking for the breakpoints derived for that number gives.
pub proof fn law_count_is_binning_by_its_breaks(
    s: SpecSeries,
    breaks: Series,
    n_bins: usize,
    labels: Option<Seq<Seq<char>>>,
    include_intervals: bool,
    right_closed: bool,
)
    requires
        s.valid(),
        s.dtype.physical() is Some,
        n_bins >= 1,
        least(s.values) is Some,
        breaks@ == uniform_breaks(s, n_bins as int, right_closed),
    ensures
        interval_binned(s, IntervalSpec::Count(n_bins), labels, include_intervals, right_closed)
            == interval_binned(
            s,
            IntervalSpec::Breaks(&breaks),
            labels,
            include_intervals,
            right_closed,
        ),
{
    law_uniform_breaks_rest_on_the_range(s, s, n_bins as int, right_closed);
    if n_bins > 1 {
        assert(breaks@.values[0] is Some);
    }
}

/// The bins of a binned column, whether they stand alone or in a struct.
pub open spec fn bin_part(column: SpecColumn) -> SpecSeries {
    match column {
        SpecColumn::Series(bin) => bin,
        SpecColumn::Struct { bin, .. } => bin,
    }
}

/// Whether an outcome without bounds and one with bounds agree: both fail alike, or the former is
/// no struct, the latter is one, and the bins are the same.
pub open spec fn same_bins(
    plain: Result<SpecColumn, SpecError>,
    reported: Result<SpecColumn, SpecError>,
) -> bool {
    match (plain, reported) {
        (Ok(p), Ok(r)) => {
            &&& p is Series
            &&& r is Struct
            &&& bin_part(p).dtype == bin_part(r).dtype
            &&& bin_part(p).values == bin_part(r).values
        },
        (Err(e), Err(f)) => e == f,
        (_, _) => false,
    }
}

/// Reporting intervals never changes the bins: with and without bounds an output succeeds
/// together, and then the bins are of the same data type and the same values.
pub proof fn law_reporting_keeps_the_output(
    name: Seq<char>,
    bin_idx: Seq<Option<IdxSize>>,
    n_bins: int,
    bounds: Bounds,
    labels: Option<Seq<Seq<char>>>,
)
    ensures
        same_bins(
            finished(name, bin_idx, n_bins, None, labels),
            finished(name, bin_idx, n_bins, Some(bounds), labels),
        ),
{
}

/// Reporting intervals never changes the bins, whatever the form of binning.
pub proof fn law_reporting_keeps_the_bins(
    s: SpecSeries,
    spec: IntervalSpec<'_>,
    positions: Seq<IdxSize>,
    labels: Option<Seq<Seq<char>>>,
    right_closed: bool,
)
    ensures
        same_bins(
            interval_binned(s, spec, labels, false, right_closed),
            interval_binned(s, spec, labels, true, right_closed),
        ),
        same_bins(
            quantile_binned(s, positions, labels, false, right_closed),
            quantile_binned(s, positions, labels, true, right_closed),
        ),
        same_bins(
            rank_binned(s, positions, labels, false),
            rank_binned(s, positions, labels, true),
        ),
        forall|closed: Option<bool>|
            same_bins(
                #[trigger] position_binned(s, positions, labels, false, closed),
                position_binned(s, positions, labels, true, closed),
            ),
{
}

/// Whether two columns are null in the same rows and order the others alike.
pub open spec fn ordered_alike(s: Seq<Option<SpecValue>>, t: Seq<Option<SpecValue>>) -> bool {
    &&& s.len() == t.len()
    &&& forall|i: int| 0 <= i < s.len() ==> ((#[trigger] s[i]) is Some <==> t[i] is Some)
    &&& forall|i: int, j: int|
        0 <= i < s.len() && 0 <= j < s.len() && (#[trigger] s[i]) is Some && (#[trigger] s[j])
            is Some ==> value_lt(s[i]->Some_0, s[j]->Some_0) == value_lt(t[i]->Some_0, t[j]->Some_0)
}

/// Binning by rank rests on the order of the values alone: columns that are ordered alike have
/// the same bins, for explicit cuts and for any number of bins of near-equal size.
pub proof fn law_rank_bins_rest_on_the_order(
    s: SpecSeries,
    t: SpecSeries,
    positions: Seq<IdxSize>,
    labels: Option<Seq<Seq<char>>>,
)
    requires
        ordered_alike(s.values, t.values),
        s.name == t.name,
    ensures
        valid_count(s.values) == valid_count(t.values),
        rank_bins(s.values, positions) == rank_bins(t.values, positions),
        rank_binned(s, positions, labels, false) == rank_binned(t, positions, labels, false),
{
    lemma_valid_rows_len(s.values);
    lemma_valid_rows_len(t.values);
    assert(valid_rows(s.values) =~= valid_rows(t.values));
    assert forall|row: int| 0 <= row < s.values.len() implies ranks(s.values)[row] == ranks(
        t.values,
    )[row] by {
        assert(s.values[row] is Some <==> t.values[row] is Some);
        assert forall|other: int| 0 <= other < s.values.len() implies precedes(
            s.values,
            other,
            row,
        ) == precedes(t.values, other, row) by {
            assert(s.values[other] is Some <==> t.values[other] is Some);
        }
        assert(rows_before(s.values, row) =~= rows_before(t.values, row));
    }
    assert(ranks(s.values) =~= ranks(t.values));
}

/// Whether a list of rows is a permutation of the rows of a column.
pub open spec fn is_permutation(p: Seq<int>, len: nat) -> bool {
    &&& p.len() == len
    &&& forall|i: int| 0 <= i < p.len() ==> 0 <= (#[trigger] p[i]) < len
    &&& forall|i: int, j: int| 0 <= i < j < p.len() ==> #[trigger] p[i] != #[trigger] p[j]
}

/// The rows of a column whose cells are picked.
spec fn picked(
    values: Seq<Option<SpecValue>>,
    pick: spec_fn(Option<SpecValue>) -> bool,
) -> Set<int> {
    set_int_range(0, values.len() as int).filter(|row: int| pick(values[row]))
}

/// Permuting the rows keeps the number of those that are picked.
proof fn lemma_permuting_keeps_counts(
    s: Seq<Option<SpecValue>>,
    t: Seq<Option<SpecValue>>,
    p: Seq<int>,
    pick: spec_fn(Option<SpecValue>) -> bool,
)
    requires
        is_permutation(p, s.len()),
        t.len() == s.len(),
        forall|i: int| 0 <= i < t.len() ==> (#[trigger] t[i]) == s[p[i]],
    ensures
        picked(s, pick).finite(),
        picked(t, pick).finite(),
        picked(s, pick).len() == picked(t, pick).len(),
{
    let f = |i: int| p[i];
    let all = set_int_range(0, s.len() as int);
    lemma_int_range(0, s.len() as int);
    assert(injective_on(f, all)) by {
        assert forall|x1: int, x2: int|
            all.contains(x1) && all.contains(x2) && f(x1) == f(x2) implies x1 == x2 by {
            if x1 < x2 {
                assert(p[x1] != p[x2]);
            } else if x2 < x1 {
                assert(p[x2] != p[x1]);
            }
        }
    }
    lemma_map_size(all, all.map(f), f);
    assert(all.map(f).subset_of(all));
    lemma_subset_equality(all.map(f), all);
    assert(injective_on(f, picked(t, pick))) by {
        assert forall|x1: int, x2: int|
            picked(t, pick).contains(x1) && picked(t, pick).contains(x2) && f(x1) == f(
                x2,
            ) implies x1 == x2 by {
            assert(all.contains(x1) && all.contains(x2));
        }
    }
    assert(picked(t, pick).map(f) =~= picked(s, pick)) by {
        assert forall|row: int| picked(t, pick).map(f).contains(row) implies picked(
            s,
            pick,
        ).contains(row) by {
            let i = choose|i: int| picked(t, pick).contains(i) && f(i) == row;
            assert(t[i] == s[p[i]]);
        }
        assert forall|row: int| picked(s, pick).contains(row) implies picked(t, pick).map(
            f,
        ).contains(row) by {
            assert(all.map(f).contains(row));
            let i = choose|i: int| all.contains(i) && f(i) == row;
            assert(t[i] == s[p[i]]);
            assert(picked(t, pick).contains(i) && f(i) == row);
        }
    }
    lemma_map_size(picked(t, pick), picked(s, pick), f);
}

/// Fewer values than its rank are below the value at a position, and more are not above it.
proof fn lemma_position_counts(values: Seq<Option<SpecValue>>, position: int)
    requires
        0 <= position < valid_count(values),
    ensures
        ({
            let x = values[row_at(values, position)]->Some_0;
            &&& values[row_at(values, position)] is Some
            &&& picked(values, |v: Option<SpecValue>| v is Some && value_lt(v->Some_0, x)).len()
                <= position
            &&& position < picked(
                values,
                |v: Option<SpecValue>| v is Some && value_le(v->Some_0, x),
            ).len()
        }),
{
    lemma_valid_ranks(values);
    lemma_int_range(0, values.len() as int);
    let row = row_at(values, position);
    let x = values[row]->Some_0;
    let below = picked(values, |v: Option<SpecValue>| v is Some && value_lt(v->Some_0, x));
    let up_to = picked(values, |v: Option<SpecValue>| v is Some && value_le(v->Some_0, x));
    let before = rows_before(values, row);
    assert(below.subset_of(before));
    lemma_len_subset(below, before);
    lemma_precedes_order(values, row, row, row);
    lemma_value_order(x, x, x);
    assert(before.insert(row).subset_of(up_to)) by {
        assert forall|other: int| before.insert(row).contains(other) implies up_to.contains(
            other,
        ) by {
            if other != row {
                assert(precedes(values, other, row));
                lemma_value_order(values[other]->Some_0, x, x);
            }
        }
    }
    lemma_len_subset(before.insert(row), up_to);
}

/// Permuting the rows leaves an equal value at every position in sorted order.
proof fn lemma_permuting_keeps_positions(
    s: Seq<Option<SpecValue>>,
    t: Seq<Option<SpecValue>>,
    p: Seq<int>,
    position: IdxSize,
)
    requires
        is_permutation(p, s.len()),
        t.len() == s.len(),
        forall|i: int| 0 <= i < t.len() ==> (#[trigger] t[i]) == s[p[i]],
    ensures
        valid_count(s) == valid_count(t),
        equal_cells(boundary(s, position), boundary(t, position)),
{
    let valid = |v: Option<SpecValue>| v is Some;
    lemma_permuting_keeps_counts(s, t, p, valid);
    lemma_valid_rows_len(s);
    lemma_valid_rows_len(t);
    assert(picked(s, valid) =~= valid_rows(s));
    assert(picked(t, valid) =~= valid_rows(t));
    if position < valid_count(s) {
        lemma_position_counts(s, position as int);
        lemma_position_counts(t, position as int);
        let x = s[row_at(s, position as int)]->Some_0;
        let y = t[row_at(t, position as int)]->Some_0;
        let below_x = |v: Option<SpecValue>| v is Some && value_lt(v->Some_0, x);
        let below_y = |v: Option<SpecValue>| v is Some && value_lt(v->Some_0, y);
        let up_to_x = |v: Option<SpecValue>| v is Some && value_le(v->Some_0, x);
        let up_to_y = |v: Option<SpecValue>| v is Some && value_le(v->Some_0, y);
        lemma_permuting_keeps_counts(s, t, p, below_x);
        lemma_permuting_keeps_counts(s, t, p, below_y);
        lemma_permuting_keeps_counts(s, t, p, up_to_x);
        lemma_permuting_keeps_counts(s, t, p, up_to_y);
        if value_lt(x, y) {
            assert(picked(t, up_to_x).subset_of(picked(t, below_y))) by {
                assert forall|row: int| picked(t, up_to_x).contains(row) implies picked(
                    t,
                    below_y,
                ).contains(row) by {
                    lemma_value_order(t[row]->Some_0, x, y);
                }
            }
            lemma_len_subset(picked(t, up_to_x), picked(t, below_y));
        }
        if value_lt(y, x) {
            assert(picked(s, up_to_y).subset_of(picked(s, below_x))) by {
                assert forall|row: int| picked(s, up_to_y).contains(row) implies picked(
                    s,
                    below_x,
                ).contains(row) by {
                    lemma_value_order(s[row]->Some_0, y, x);
                }
            }
            lemma_len_subset(picked(s, up_to_y), picked(s, below_x));
        }
    }
}

/// As many of two lists of equal breakpoints lie below a value.
proof fn lemma_equal_breaks_passed(
    a: Seq<Option<SpecValue>>,
    b: Seq<Option<SpecValue>>,
    x: SpecValue,
    side: SearchSortedSide,
)
    requires
        a.len() == b.len(),
        forall|i: int| 0 <= i < a.len() ==> equal_cells(#[trigger] a[i], b[i]),
    ensures
        breaks_passed(a, x, side) == breaks_passed(b, x, side),
    decreases a.len(),
{
    if a.len() > 0 {
        let (c, d) = (a.drop_last(), b.drop_last());
        assert forall|i: int| 0 <= i < c.len() implies equal_cells(#[trigger] c[i], d[i]) by {
            assert(equal_cells(a[i], b[i]));
        }
        lemma_equal_breaks_passed(c, d, x, side);
        assert(equal_cells(a[a.len() - 1], b[a.len() - 1]));
        if a.last() is Some {
            lemma_value_order(a.last()->Some_0, b.last()->Some_0, x);
            lemma_value_order(b.last()->Some_0, a.last()->Some_0, x);
        }
    }
}

/// Permuting the rows permutes quantile binning: a row keeps its bin wherever it stands, since
/// the bin depends on the value only. The number of values stays, and so do the breakpoints, but
/// for which of several equal values stands for them.
pub proof fn law_permuting_rows_permutes_quantile_bins(
    s: SpecSeries,
    t: SpecSeries,
    p: Seq<int>,
    positions: Seq<IdxSize>,
    labels: Option<Seq<Seq<char>>>,
    include_intervals: bool,
    right_closed: bool,
)
    requires
        is_permutation(p, s.values.len()),
        t.values.len() == s.values.len(),
        forall|i: int| 0 <= i < t.values.len() ==> (#[trigger] t.values[i]) == s.values[p[i]],
    ensures
        valid_count(t.values) == valid_count(s.values),
        forall|k: int|
            0 <= k < positions.len() ==> equal_cells(
                #[trigger] boundaries(s.values, positions)[k],
                boundaries(t.values, positions)[k],
            ),
        forall|i: int|
            0 <= i < t.values.len() ==> (#[trigger] bins(
                t.values,
                boundaries(t.values, positions),
                right_closed,
            )[i]) == bins(s.values, boundaries(s.values, positions), right_closed)[p[i]],
        ({
            let before = quantile_binned(s, positions, labels, include_intervals, right_closed);
            let after = quantile_binned(t, positions, labels, include_intervals, right_closed);
            &&& before is Ok <==> after is Ok
            &&& before is Ok ==> forall|i: int|
                0 <= i < t.values.len() ==> (#[trigger] bin_part(after->Ok_0).values[i])
                    == bin_part(before->Ok_0).values[p[i]]
        }),
{
    let (a, b) = (boundaries(s.values, positions), boundaries(t.values, positions));
    lemma_permuting_keeps_positions(s.values, t.values, p, 0);
    assert forall|k: int| 0 <= k < positions.len() implies equal_cells(#[trigger] a[k], b[k]) by {
        lemma_permuting_keeps_positions(s.values, t.values, p, positions[k]);
    }
    assert forall|i: int| 0 <= i < t.values.len() implies (#[trigger] bins(
        t.values,
        b,
        right_closed,
    )[i]) == bins(s.values, a, right_closed)[p[i]] by {
        assert(t.values[i] == s.values[p[i]]);
        if t.values[i] is Some {
            lemma_equal_breaks_passed(a, b, t.values[i]->Some_0, search_side(right_closed));
        }
    }
    let before = quantile_binned(s, positions, labels, include_intervals, right_closed);
    let after = quantile_binned(t, positions, labels, include_intervals, right_closed);
    if before is Ok {
        let (old, new) = (bins(s.values, a, right_closed), bins(t.values, b, right_closed));
        assert(bin_part(before->Ok_0).values == bin_cells(old));
        assert(bin_part(after->Ok_0).values == bin_cells(new));
        assert forall|i: int| 0 <= i < t.values.len() implies (#[trigger] bin_part(
            after->Ok_0,
        ).values[i]) == bin_part(before->Ok_0).values[p[i]] by {
            assert(new[i] == old[p[i]]);
            assert(0 <= p[i] < s.values.len());
        }
    }
}

} // verus!
