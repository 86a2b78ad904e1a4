//! What the operations mean: how the columns that they give relate to the columns that they take.

use vstd::arithmetic::power::{lemma_pow_adds, lemma_pow_positive, pow};
use vstd::prelude::*;
use vstd::set_lib::set_int_range;

use crate::binning::{
    all_null, bin_of, binned_by_breaks, binned_by_uniform_breaks, bins, boundaries,
    interval_binned, position_binned, position_cells, positions_ascend, quantile_binned, rank_bins,
    rank_binned, ranks, search_side, IntervalSpec,
};
use crate::casting::{cast_column, number_of, round_half_even};
use crate::dtype::{IntType, SpecDataType, LENGTH_LIMIT};
use crate::error::{BinError, BinForm, SpecError};
use crate::intervals::{
    greatest, least, lemma_extremes, lemma_thresholds_ascend, threshold, uniform_breaks,
};
use crate::laws::{
    law_quantile_breaks_ascend, law_quantile_positions_are_exact,
    law_threshold_stands_for_breakpoint,
};
use crate::output::{bin_cells, finished, label_texts, outcome, Bounds, Column, SpecColumn};
use crate::positions::{lemma_quantile_positions, lemma_rank_cuts, quantile_positions, rank_cuts};
use crate::search::{ascending, breaks_passed, lemma_breaks_passed_bound, lemma_passed_prefix};
use crate::series::{
    lemma_valid_count_bounds, nulls, valid_count, IdxSize, Series, SpecSeries,
};
use crate::sorting::{
    is_sort_order, lemma_precedes_order, lemma_rank_follows_order, lemma_valid_ranks,
    lemma_valid_rows_len, precedes, rank, row_at, rows_before, valid_rows,
};
use crate::value::{lemma_value_order, value_le, value_lt, SpecValue};

verus! {

/// Whether the cell of a bin is right for a value among breakpoints. A null has no bin. The bin of
/// any other value is a number, and the breakpoints in front of it, and no others, lie below the
/// value: where bins are closed on the right strictly so, else a breakpoint may equal the value.
pub open spec fn sits(
    cell: Option<SpecValue>,
    value: Option<SpecValue>,
    breaks: Seq<Option<SpecValue>>,
    right_closed: bool,
) -> bool {
    match (cell, value) {
        (None, None) => true,
        (Some(SpecValue::Int(b)), Some(x)) => {
            &&& 0 <= b <= breaks.len()
            &&& forall|k: int|
                0 <= k < breaks.len() ==> (k < b <==> {
                    &&& (#[trigger] breaks[k]) is Some
                    &&& right_closed ==> value_lt(breaks[k]->Some_0, x)
                    &&& !right_closed ==> !value_lt(x, breaks[k]->Some_0)
                })
        },
        (_, _) => false,
    }
}

/// Whether bounds are right for the cell of a bin. A null has none. The left bound is missing for
/// the first bin, and else is the breakpoint in front of the bin; the right bound is missing for
/// the last bin, and else is the breakpoint behind it.
pub open spec fn bounded(
    cell: Option<SpecValue>,
    left: Option<SpecValue>,
    right: Option<SpecValue>,
    breaks: Seq<Option<SpecValue>>,
) -> bool {
    match cell {
        None => left is None && right is None,
        Some(SpecValue::Int(b)) => {
            &&& 0 <= b <= breaks.len()
            &&& b == 0 ==> left is None
            &&& b > 0 ==> left == breaks[b - 1]
            &&& b == breaks.len() ==> right is None
            &&& b < breaks.len() ==> right == breaks[b]
        },
        _ => false,
    }
}

/// Whether an outcome answers a request for bins between breakpoints. It fails exactly where there
/// is not one label for every bin, or where two labels are the same. Else the bins are numbers, or
/// an enum over the labels, under the name of the column; or, where bounds of a data type are
/// asked for, they stand in a struct with the bounds of every row.
pub open spec fn answers(
    out: Result<SpecColumn, SpecError>,
    name: Seq<char>,
    len: nat,
    labels: Option<Seq<Seq<char>>>,
    bound_dtype: Option<SpecDataType>,
    breaks: Seq<Option<SpecValue>>,
) -> bool {
    let bin_dtype = match labels {
        Some(l) => SpecDataType::Enum(l),
        None => SpecDataType::Integer(IntType::UInt32),
    };
    match out {
        Err(SpecError::LabelCount { n_bins, labels: count }) => {
            &&& labels is Some
            &&& count == labels->Some_0.len()
            &&& n_bins == breaks.len() + 1
            &&& count != n_bins
        },
        Err(SpecError::Labels) => {
            &&& labels is Some
            &&& labels->Some_0.len() == breaks.len() + 1
            &&& exists|i: int, j: int|
                0 <= i < j < labels->Some_0.len() && #[trigger] labels->Some_0[i]
                    == #[trigger] labels->Some_0[j]
        },
        Err(_) => false,
        Ok(column) => {
            &&& labels is Some ==> {
                &&& labels->Some_0.len() == breaks.len() + 1
                &&& forall|i: int, j: int|
                    0 <= i < j < labels->Some_0.len() ==> #[trigger] labels->Some_0[i]
                        != #[trigger] labels->Some_0[j]
            }
            &&& match column {
                SpecColumn::Series(bin) => {
                    &&& bound_dtype is None
                    &&& bin.name == name
                    &&& bin.dtype == bin_dtype
                    &&& bin.values.len() == len
                },
                SpecColumn::Struct { name: struct_name, bin, left, right } => {
                    &&& bound_dtype is Some
                    &&& struct_name == name
                    &&& bin.name == "bin"@ && left.name == "left"@ && right.name == "right"@
                    &&& bin.dtype == bin_dtype
                    &&& left.dtype == bound_dtype->Some_0 && right.dtype == bound_dtype->Some_0
                    &&& bin.values.len() == len && left.values.len() == len && right.values.len()
                        == len
                    &&& forall|row: int|
                        0 <= row < len ==> bounded(
                            #[trigger] bin.values[row],
                            left.values[row],
                            right.values[row],
                            breaks,
                        )
                },
            }
        },
    }
}

/// The cells of the bins of an outcome that succeeded.
pub open spec fn bin_cells_of(out: Result<SpecColumn, SpecError>) -> Seq<Option<SpecValue>> {
    match out {
        Ok(SpecColumn::Series(bin)) => bin.values,
        Ok(SpecColumn::Struct { bin, .. }) => bin.values,
        Err(_) => Seq::empty(),
    }
}

/// Whether an outcome answers a request for bins by value, every row in its bin.
pub open spec fn binned_by_value(
    out: Result<SpecColumn, SpecError>,
    name: Seq<char>,
    values: Seq<Option<SpecValue>>,
    breaks: Seq<Option<SpecValue>>,
    labels: Option<Seq<Seq<char>>>,
    bound_dtype: Option<SpecDataType>,
    right_closed: bool,
) -> bool {
    &&& answers(out, name, values.len(), labels, bound_dtype, breaks)
    &&& out is Ok ==> forall|row: int|
        0 <= row < values.len() ==> sits(
            #[trigger] bin_cells_of(out)[row],
            values[row],
            breaks,
            right_closed,
        )
}

/// Whether an outcome answers a request for bins by rank, every row in its bin: a null has none,
/// and any other row is behind the cuts that are not above its rank, and no others.
pub open spec fn binned_by_rank(
    out: Result<SpecColumn, SpecError>,
    s: SpecSeries,
    positions: Seq<IdxSize>,
    labels: Option<Seq<Seq<char>>>,
    include_intervals: bool,
) -> bool {
    &&& answers(
        out,
        s.name,
        s.values.len(),
        labels,
        if include_intervals {
            Some(s.dtype)
        } else {
            None
        },
        boundaries(s.values, positions),
    )
    &&& out is Ok ==> forall|row: int|
        0 <= row < s.values.len() ==> match #[trigger] bin_cells_of(out)[row] {
            None => s.values[row] is None,
            Some(SpecValue::Int(b)) => {
                &&& s.values[row] is Some
                &&& 0 <= b <= positions.len()
                &&& forall|k: int|
                    0 <= k < positions.len() ==> (k < b <==> (#[trigger] positions[k]) <= rank(
                        s.values,
                        row,
                    ))
            },
            _ => false,
        }
}

/// Whether an outcome answers a request for bins at positions in sorted order: by value where a
/// side is closed, with no bins where there are no values, and else by rank.
pub open spec fn binned_at(
    out: Result<SpecColumn, SpecError>,
    s: SpecSeries,
    positions: Seq<IdxSize>,
    labels: Option<Seq<Seq<char>>>,
    include_intervals: bool,
    right_closed: Option<bool>,
) -> bool {
    let breaks = boundaries(s.values, positions);
    let bounds = asked(include_intervals, s.dtype);
    match right_closed {
        Some(closed) => if valid_count(s.values) > 0 {
            binned_by_value(out, s.name, s.values, breaks, labels, bounds, closed)
        } else {
            &&& answers(out, s.name, s.values.len(), labels, bounds, breaks)
            &&& out is Ok ==> forall|row: int|
                0 <= row < s.values.len() ==> (#[trigger] bin_cells_of(out)[row]) is None
        },
        None => binned_by_rank(out, s, positions, labels, include_intervals),
    }
}

/// Whether the values of a column are integers from `min` to `max`, both of which occur.
pub open spec fn ranges_over(values: Seq<Option<SpecValue>>, min: int, max: int) -> bool {
    &&& values.contains(Some(SpecValue::Int(min)))
    &&& values.contains(Some(SpecValue::Int(max)))
    &&& forall|row: int|
        0 <= row < values.len() ==> match #[trigger] values[row] {
            Some(SpecValue::Int(v)) => min <= v <= max,
            Some(_) => false,
            None => true,
        }
}

/// Whether every row is in the part that its value lies in, of `n` parts of equal width of the
/// range from `min` to `max`.
pub open spec fn in_equal_parts(
    out: Result<SpecColumn, SpecError>,
    values: Seq<Option<SpecValue>>,
    n: int,
    min: int,
    max: int,
    right_closed: bool,
) -> bool {
    out is Ok ==> forall|row: int|
        0 <= row < values.len() ==> match (values[row], #[trigger] bin_cells_of(out)[row]) {
            (None, None) => true,
            (Some(SpecValue::Int(x)), Some(SpecValue::Int(b))) => {
                &&& 0 <= b < n
                &&& b * (max - min) <= n * (x - min) <= (b + 1) * (max - min)
                &&& !right_closed && b < n - 1 ==> n * (x - min) < (b + 1) * (max - min)
                &&& right_closed && b > 0 ==> b * (max - min) < n * (x - min)
            },
            (_, _) => false,
        }
}

/// The data type of the bounds, where they are asked for.
pub open spec fn asked(include_intervals: bool, dtype: SpecDataType) -> Option<SpecDataType> {
    if include_intervals {
        Some(dtype)
    } else {
        None
    }
}

/// What is made of bins answers the request, and holds the bins as they are.
pub proof fn law_output_answers(
    name: Seq<char>,
    bin_idx: Seq<Option<IdxSize>>,
    breaks: Seq<Option<SpecValue>>,
    bounds: Option<Bounds>,
    labels: Option<Seq<Seq<char>>>,
)
    requires
        forall|row: int|
            0 <= row < bin_idx.len() && (#[trigger] bin_idx[row]) is Some ==> bin_idx[row]->Some_0
                <= breaks.len(),
        bounds is Some ==> bounds->Some_0.values == breaks,
    ensures
        ({
            let out = finished(name, bin_idx, (breaks.len() + 1) as int, bounds, labels);
            &&& answers(
                out,
                name,
                bin_idx.len(),
                labels,
                match bounds {
                    Some(b) => Some(b.dtype),
                    None => None,
                },
                breaks,
            )
            &&& out is Ok ==> bin_cells_of(out).len() == bin_idx.len() && forall|row: int|
                0 <= row < bin_idx.len() ==> (#[trigger] bin_cells_of(out)[row])
                    == match bin_idx[row] {
                    Some(b) => Some(SpecValue::Int(b as int)),
                    None => None,
                }
        }),
{
    let out = finished(name, bin_idx, (breaks.len() + 1) as int, bounds, labels);
    if labels is Some && !labels->Some_0.no_duplicates() {
        let l = labels->Some_0;
        let (i, j) = choose|i: int, j: int|
            0 <= i < l.len() && 0 <= j < l.len() && i != j && l[i] == l[j];
        if i < j {
            assert(l[i] == l[j]);
        } else {
            assert(l[j] == l[i]);
        }
    }
    if let Ok(SpecColumn::Struct { name: _, bin, left, right }) = out {
        assert forall|row: int| 0 <= row < bin_idx.len() implies bounded(
            #[trigger] bin.values[row],
            left.values[row],
            right.values[row],
            breaks,
        ) by {
            assert(bin_idx[row] is Some ==> bin_idx[row]->Some_0 <= breaks.len());
        }
    }
}

/// The bin of a value among ascending breakpoints sits right.
pub proof fn lemma_bin_sits(
    value: Option<SpecValue>,
    breaks: Seq<Option<SpecValue>>,
    right_closed: bool,
)
    requires
        ascending(breaks),
        breaks.len() < LENGTH_LIMIT,
    ensures
        bin_of(value, breaks, right_closed) is Some ==> bin_of(
            value,
            breaks,
            right_closed,
        )->Some_0 <= breaks.len(),
        sits(
            match bin_of(value, breaks, right_closed) {
                Some(b) => Some(SpecValue::Int(b as int)),
                None => None,
            },
            value,
            breaks,
            right_closed,
        ),
{
    if let Some(x) = value {
        let side = search_side(right_closed);
        lemma_breaks_passed_bound(breaks, x, side);
        assert forall|k: int| 0 <= k < breaks.len() implies (k < breaks_passed(breaks, x, side)
            <==> (#[trigger] breaks[k]) is Some && if right_closed {
            value_lt(breaks[k]->Some_0, x)
        } else {
            !value_lt(x, breaks[k]->Some_0)
        }) by {
            lemma_passed_prefix(breaks, x, side, k);
        }
    }
}

/// Binning by ascending breakpoints of the column's own data type puts every row in its bin,
/// whatever the labels and whether or not bounds are reported. Breakpoints of another data type
/// are refused.
pub proof fn law_breaks_place_rows(
    s: SpecSeries,
    breaks: SpecSeries,
    labels: Option<Seq<Seq<char>>>,
    include_intervals: bool,
    right_closed: bool,
)
    requires
        ascending(breaks.values),
        breaks.values.len() < LENGTH_LIMIT,
    ensures
        s.dtype == breaks.dtype ==> binned_by_value(
            binned_by_breaks(s, breaks, labels, include_intervals, right_closed),
            s.name,
            s.values,
            breaks.values,
            labels,
            asked(include_intervals, s.dtype),
            right_closed,
        ),
        s.dtype != breaks.dtype ==> binned_by_breaks(
            s,
            breaks,
            labels,
            include_intervals,
            right_closed,
        ) == Err::<SpecColumn, SpecError>(
            SpecError::DtypeMismatch { expected: s.dtype, got: breaks.dtype },
        ),
{
    if s.dtype == breaks.dtype {
        lemma_values_answered(
            s.name,
            s.values,
            breaks.values,
            s.dtype,
            labels,
            include_intervals,
            right_closed,
        );
    }
}

/// What is made of the bins of values among ascending breakpoints answers the request.
proof fn lemma_values_answered(
    name: Seq<char>,
    values: Seq<Option<SpecValue>>,
    breaks: Seq<Option<SpecValue>>,
    dtype: SpecDataType,
    labels: Option<Seq<Seq<char>>>,
    include_intervals: bool,
    right_closed: bool,
)
    requires
        ascending(breaks),
        breaks.len() < LENGTH_LIMIT,
    ensures
        binned_by_value(
            finished(
                name,
                bins(values, breaks, right_closed),
                (breaks.len() + 1) as int,
                if include_intervals {
                    Some(Bounds { dtype, values: breaks })
                } else {
                    None
                },
                labels,
            ),
            name,
            values,
            breaks,
            labels,
            asked(include_intervals, dtype),
            right_closed,
        ),
{
    let bin_idx = bins(values, breaks, right_closed);
    let bounds = if include_intervals {
        Some(Bounds { dtype, values: breaks })
    } else {
        None
    };
    assert forall|row: int| 0 <= row < bin_idx.len() && (#[trigger] bin_idx[row])
        is Some implies bin_idx[row]->Some_0 <= breaks.len() by {
        lemma_bin_sits(values[row], breaks, right_closed);
    }
    law_output_answers(name, bin_idx, breaks, bounds, labels);
    let out = finished(name, bin_idx, (breaks.len() + 1) as int, bounds, labels);
    if out is Ok {
        assert forall|row: int| 0 <= row < values.len() implies sits(
            #[trigger] bin_cells_of(out)[row],
            values[row],
            breaks,
            right_closed,
        ) by {
            lemma_bin_sits(values[row], breaks, right_closed);
            assert(bin_idx[row] == bin_of(values[row], breaks, right_closed));
        }
    }
}

/// The number of digits behind the point of the exact numbers of a data type.
pub open spec fn digits(dtype: SpecDataType) -> nat {
    match dtype {
        SpecDataType::Decimal { scale, .. } => scale as nat,
        _ => 0,
    }
}

/// Whether an integer with `c` digits behind the point is the nearest one to an integer with `a`
/// digits behind the point, and the even one of two that are equally near.
pub open spec fn nearest(x: int, a: nat, m: int, c: nat) -> bool {
    let gap = 2 * (x * pow(10, c) - m * pow(10, a));
    &&& -pow(10, a) <= gap <= pow(10, a)
    &&& gap == pow(10, a) || gap == -pow(10, a) ==> m % 2 == 0
}

/// Whether the numbers of an exact data type include an integer, or a decimal of that mantissa.
pub open spec fn includes(dtype: SpecDataType, m: int) -> bool {
    match dtype {
        SpecDataType::Integer(t) => t.lowest() <= m <= t.highest(),
        SpecDataType::Decimal { precision, .. } => -pow(10, precision as nat) < m < pow(
            10,
            precision as nat,
        ),
        _ => false,
    }
}

/// Whether a cell is another one cast to a data type. A null stays one. A value stays what it is
/// where the data type is its own, or has wider floats. Else the nearest number of the data type
/// takes its place, and a null where the data type does not include that number.
pub open spec fn is_cast(
    value: Option<SpecValue>,
    from: SpecDataType,
    cast: Option<SpecValue>,
    to: SpecDataType,
) -> bool {
    match value {
        None => cast is None,
        Some(v) => if from == to || (from is Float && to is Float) {
            cast == value
        } else {
            match (v, cast) {
                (SpecValue::Int(x), Some(SpecValue::Int(m))) => {
                    &&& nearest(x, digits(from), m, digits(to))
                    &&& includes(to, m)
                },
                (SpecValue::Int(x), None) => forall|m: int|
                    #[trigger] nearest(x, digits(from), m, digits(to)) ==> !includes(to, m),
                (_, _) => false,
            }
        },
    }
}

/// Whether a column is another one cast to a data type.
pub open spec fn is_cast_column(s: SpecSeries, cast: SpecSeries, to: SpecDataType) -> bool {
    &&& cast.name == s.name
    &&& cast.dtype == to
    &&& cast.values.len() == s.values.len()
    &&& forall|row: int|
        0 <= row < s.values.len() ==> is_cast(
            s.values[row],
            s.dtype,
            #[trigger] cast.values[row],
            to,
        )
}

/// Whether a column can be brought to a data type to meet breakpoints of it: the data type is its
/// own, or both are exact numbers, or it has wider floats.
pub open spec fn meets(s: SpecDataType, to: SpecDataType) -> bool {
    ||| s == to
    ||| (s is Integer || s is Decimal) && (to is Integer || to is Decimal)
    ||| s.is_narrower_float(to)
}

/// There is one nearest integer, and it is the one that rounding half to even gives.
proof fn lemma_nearest(x: int, a: nat, m: int, c: nat)
    ensures
        nearest(x, a, m, c) <==> m == if c >= a {
            x * pow(10, (c - a) as nat)
        } else {
            round_half_even(x, pow(10, (a - c) as nat))
        },
{
    lemma_pow_positive(10, a);
    lemma_pow_positive(10, c);
    let (p, q) = (pow(10, a), pow(10, c));
    if c >= a {
        let k = pow(10, (c - a) as nat);
        lemma_pow_adds(10, (c - a) as nat, a);
        assert(q == k * p);
        let y = x * k;
        assert(x * q == y * p) by (nonlinear_arith)
            requires
                q == k * p,
                y == x * k,
        ;
        let gap = 2 * (x * q - m * p);
        assert(gap == 2 * ((y - m) * p)) by (nonlinear_arith)
            requires
                gap == 2 * (x * q - m * p),
                x * q == y * p,
        ;
        assert(m == y ==> gap == 0) by (nonlinear_arith)
            requires
                gap == 2 * ((y - m) * p),
        ;
        assert(m != y ==> gap < -p || gap > p) by (nonlinear_arith)
            requires
                gap == 2 * ((y - m) * p),
                p > 0,
        ;
    } else {
        let e = pow(10, (a - c) as nat);
        lemma_pow_adds(10, (a - c) as nat, c);
        lemma_pow_positive(10, (a - c) as nat);
        assert(p == e * q);
        let gap = 2 * (x * q - m * p);
        let small = 2 * (x - m * e);
        assert(gap == small * q) by (nonlinear_arith)
            requires
                gap == 2 * (x * q - m * p),
                small == 2 * (x - m * e),
                p == e * q,
        ;
        assert(-p <= gap <= p <==> -e <= small <= e) by (nonlinear_arith)
            requires
                gap == small * q,
                p == e * q,
                q > 0,
        ;
        assert((gap == p <==> small == e) && (gap == -p <==> small == -e)) by (nonlinear_arith)
            requires
                gap == small * q,
                p == e * q,
                q > 0,
        ;
        let (d, r) = (x / e, x % e);
        assert(x == e * d + r && 0 <= r < e) by (nonlinear_arith)
            requires
                e > 0,
                d == x / e,
                r == x % e,
        ;
        let diff = d - m;
        assert(small == 2 * (diff * e) + 2 * r) by (nonlinear_arith)
            requires
                small == 2 * (x - m * e),
                x == e * d + r,
                diff == d - m,
        ;
        assert(diff <= -2 ==> diff * e <= -2 * e) by (nonlinear_arith)
            requires
                e > 0,
        ;
        assert(diff >= 1 ==> diff * e >= e) by (nonlinear_arith)
            requires
                e > 0,
        ;
        assert(diff == 0 ==> diff * e == 0) by (nonlinear_arith);
        assert(diff == -1 ==> diff * e == -e) by (nonlinear_arith);
        if diff <= -2 {
            assert(small < -e);
        }
        if diff >= 1 {
            if r > 0 {
                assert(small > e);
            } else {
                assert(small > e);
            }
        }
        if diff == 0 {
            assert(small == 2 * r);
        }
        if diff == -1 {
            assert(small == 2 * r - 2 * e);
        }
    }
}

/// Casting a column gives the column cast, and there is only one: what is cast to meet breakpoints
/// is determined value by value.
pub proof fn law_casting_is_exact(s: SpecSeries, cast: SpecSeries, to: SpecDataType)
    requires
        s.valid(),
        meets(s.dtype, to),
    ensures
        is_cast_column(s, cast, to) <==> cast == cast_column(s, to),
{
    let right = cast_column(s, to);
    assert forall|row: int, c: Option<SpecValue>| 0 <= row < s.values.len() implies (
    #[trigger] is_cast(s.values[row], s.dtype, c, to) <==> c == right.values[row]) by {
        let value = s.values[row];
        if value is Some {
            assert(s.dtype.admits(value->Some_0));
            if s.dtype != to && !(s.dtype is Float && to is Float) {
                let x = value->Some_0->Int_0;
                let (a, k) = (digits(s.dtype), digits(to));
                let y = if k >= a {
                    x * pow(10, (k - a) as nat)
                } else {
                    round_half_even(x, pow(10, (a - k) as nat))
                };
                lemma_nearest(x, a, y, k);
                assert(includes(to, y) <==> number_of(to).holds(y));
                if let Some(SpecValue::Int(m)) = c {
                    lemma_nearest(x, a, m, k);
                }
                assert forall|m: int| #[trigger] nearest(x, a, m, k) implies m == y by {
                    lemma_nearest(x, a, m, k);
                }
                assert(nearest(x, a, y, k));
            }
        }
    }
    if is_cast_column(s, cast, to) {
        assert forall|row: int| 0 <= row < s.values.len() implies cast.values[row]
            == right.values[row] by {
            assert(is_cast(s.values[row], s.dtype, cast.values[row], to));
        }
        assert(cast.values =~= right.values);
    }
    if cast == right {
        assert forall|row: int| 0 <= row < s.values.len() implies is_cast(
            s.values[row],
            s.dtype,
            #[trigger] cast.values[row],
            to,
        ) by {
            assert(is_cast(s.values[row], s.dtype, right.values[row], to) <==> right.values[row]
                == right.values[row]);
        }
    }
}

/// Binning by explicit breakpoints puts every value, cast to the breakpoints' data type, in its
/// bin, with the side closed that was asked for; so it gives what binning the column that has
/// already been cast gives.
pub proof fn law_explicit_breaks_place_cast_rows(
    s: SpecSeries,
    cast: SpecSeries,
    breaks: Series,
    labels: Option<Seq<Seq<char>>>,
    include_intervals: bool,
    right_closed: bool,
)
    requires
        s.valid(),
        meets(s.dtype, breaks@.dtype),
        is_cast_column(s, cast, breaks@.dtype),
        ascending(breaks@.values),
        breaks@.values.len() < LENGTH_LIMIT,
    ensures
        binned_by_value(
            interval_binned(
                s,
                IntervalSpec::Breaks(&breaks),
                labels,
                include_intervals,
                right_closed,
            ),
            s.name,
            cast.values,
            breaks@.values,
            labels,
            asked(include_intervals, breaks@.dtype),
            right_closed,
        ),
        interval_binned(s, IntervalSpec::Breaks(&breaks), labels, include_intervals, right_closed)
            == interval_binned(
            cast,
            IntervalSpec::Breaks(&breaks),
            labels,
            include_intervals,
            right_closed,
        ),
{
    law_casting_is_exact(s, cast, breaks@.dtype);
    law_breaks_place_rows(cast, breaks@, labels, include_intervals, right_closed);
}

/// Binning by equal-width breakpoints that have been derived for a column of any data type, floats
/// among them, puts every row in its bin. Where none could be derived, no row has a bin.
pub proof fn law_derived_breaks_place_rows(
    s: SpecSeries,
    breaks: SpecSeries,
    labels: Option<Seq<Seq<char>>>,
    include_intervals: bool,
    right_closed: bool,
)
    requires
        breaks.values.len() < LENGTH_LIMIT,
    ensures
        s.dtype == breaks.dtype && ascending(breaks.values) ==> binned_by_value(
            binned_by_uniform_breaks(s, breaks, labels, include_intervals, right_closed),
            s.name,
            s.values,
            breaks.values,
            labels,
            asked(include_intervals, s.dtype),
            right_closed,
        ),
        breaks.values.len() > 0 && (forall|k: int|
            0 <= k < breaks.values.len() ==> (#[trigger] breaks.values[k]) is None) ==> {
            let out = binned_by_uniform_breaks(s, breaks, labels, include_intervals, right_closed);
            &&& answers(
                out,
                s.name,
                s.values.len(),
                labels,
                asked(include_intervals, s.dtype),
                breaks.values,
            )
            &&& out is Ok ==> forall|row: int|
                0 <= row < s.values.len() ==> (#[trigger] bin_cells_of(out)[row]) is None
        },
{
    if s.dtype == breaks.dtype && ascending(breaks.values) {
        if breaks.values.len() > 0 {
            assert(breaks.values[0] is Some);
        }
        law_breaks_place_rows(s, breaks, labels, include_intervals, right_closed);
    }
    if breaks.values.len() > 0 && all_null(breaks.values) {
        assert(nulls(breaks.values.len()) =~= breaks.values);
        let bounds = if include_intervals {
            Some(Bounds { dtype: s.dtype, values: nulls(breaks.values.len()) })
        } else {
            None
        };
        law_output_answers(s.name, nulls(s.values.len()), breaks.values, bounds, labels);
    }
}

/// Breakpoints of another data type than the column's are refused, whatever the labels; derived
/// ones too, but where they are all null.
pub proof fn law_other_data_types_are_refused(
    s: SpecSeries,
    breaks: SpecSeries,
    labels: Option<Seq<Seq<char>>>,
    include_intervals: bool,
    right_closed: bool,
)
    requires
        s.dtype != breaks.dtype,
    ensures
        ({
            let refused = Err::<SpecColumn, SpecError>(
                SpecError::DtypeMismatch { expected: s.dtype, got: breaks.dtype },
            );
            &&& binned_by_breaks(s, breaks, labels, include_intervals, right_closed) == refused
            &&& breaks.values.len() == 0 || (exists|k: int|
                0 <= k < breaks.values.len() && (#[trigger] breaks.values[k]) is Some)
                ==> binned_by_uniform_breaks(s, breaks, labels, include_intervals, right_closed)
                == refused
        }),
{
}

/// Binning at ascending positions by value puts every row in its bin among the values at these
/// positions in sorted order, whatever the labels. A column without values has no bins.
pub proof fn law_quantiles_place_rows(
    s: SpecSeries,
    positions: Seq<IdxSize>,
    labels: Option<Seq<Seq<char>>>,
    include_intervals: bool,
    right_closed: bool,
)
    requires
        positions_ascend(positions),
        positions.len() < LENGTH_LIMIT,
        valid_count(s.values) > 0 ==> forall|i: int|
            0 <= i < positions.len() ==> (#[trigger] positions[i]) < valid_count(s.values),
    ensures
        ({
            let out = quantile_binned(s, positions, labels, include_intervals, right_closed);
            let breaks = boundaries(s.values, positions);
            &&& valid_count(s.values) > 0 ==> binned_by_value(
                out,
                s.name,
                s.values,
                breaks,
                labels,
                asked(include_intervals, s.dtype),
                right_closed,
            )
            &&& valid_count(s.values) == 0 ==> answers(
                out,
                s.name,
                s.values.len(),
                labels,
                asked(include_intervals, s.dtype),
                breaks,
            ) && (out is Ok ==> forall|row: int|
                0 <= row < s.values.len() ==> (#[trigger] bin_cells_of(out)[row]) is None)
        }),
        position_binned(s, positions, labels, include_intervals, Some(right_closed))
            == quantile_binned(s, positions, labels, include_intervals, right_closed),
{
    let breaks = boundaries(s.values, positions);
    if valid_count(s.values) > 0 {
        law_quantile_breaks_ascend(s.values, positions);
        lemma_values_answered(
            s.name,
            s.values,
            breaks,
            s.dtype,
            labels,
            include_intervals,
            right_closed,
        );
    } else {
        lemma_valid_rows_len(s.values);
        let bin_idx = bins(s.values, breaks, right_closed);
        assert forall|row: int| 0 <= row < s.values.len() implies (#[trigger] bin_idx[row])
            is None by {
            if s.values[row] is Some {
                lemma_valid_ranks(s.values);
                assert(rank(s.values, row) < valid_count(s.values));
            }
        }
        let bounds = if include_intervals {
            Some(Bounds { dtype: s.dtype, values: breaks })
        } else {
            None
        };
        law_output_answers(s.name, bin_idx, breaks, bounds, labels);
    }
}

/// Binning at ascending positions by rank puts every row in its bin, whatever the labels: a row is
/// null exactly where the column is, and else behind the cuts that are not above its rank.
pub proof fn law_ranks_place_rows(
    s: SpecSeries,
    positions: Seq<IdxSize>,
    labels: Option<Seq<Seq<char>>>,
    include_intervals: bool,
)
    requires
        positions_ascend(positions),
        positions.len() < LENGTH_LIMIT,
        s.values.len() < LENGTH_LIMIT,
    ensures
        binned_by_rank(
            rank_binned(s, positions, labels, include_intervals),
            s,
            positions,
            labels,
            include_intervals,
        ),
        position_binned(s, positions, labels, include_intervals, None) == rank_binned(
            s,
            positions,
            labels,
            include_intervals,
        ),
{
    let breaks = boundaries(s.values, positions);
    let cuts = position_cells(positions);
    let bin_idx = rank_bins(s.values, positions);
    assert(ascending(cuts));
    lemma_valid_ranks(s.values);
    lemma_valid_count_bounds(s.values);
    assert forall|row: int| 0 <= row < s.values.len() implies match #[trigger] bin_idx[row] {
        None => s.values[row] is None,
        Some(b) => {
            &&& s.values[row] is Some
            &&& 0 <= b <= positions.len()
            &&& forall|k: int|
                0 <= k < positions.len() ==> (k < b <==> (#[trigger] positions[k]) <= rank(
                    s.values,
                    row,
                ))
        },
    } by {
        if s.values[row] is Some {
            let x = SpecValue::Int(rank(s.values, row) as int);
            assert(bin_cells(ranks(s.values))[row] == Some(x));
            lemma_bin_sits(Some(x), cuts, false);
            let b = bin_idx[row]->Some_0;
            assert forall|k: int| 0 <= k < positions.len() implies (k < b <==> (
            #[trigger] positions[k]) <= rank(s.values, row)) by {
                assert(cuts[k] == Some(SpecValue::Int(positions[k] as int)));
            }
        }
    }
    let bounds = if include_intervals {
        Some(Bounds { dtype: s.dtype, values: breaks })
    } else {
        None
    };
    law_output_answers(s.name, bin_idx, breaks, bounds, labels);
    let out = rank_binned(s, positions, labels, include_intervals);
    if out is Ok {
        assert forall|row: int| 0 <= row < s.values.len() implies match #[trigger] bin_cells_of(
            out,
        )[row] {
            None => s.values[row] is None,
            Some(SpecValue::Int(b)) => {
                &&& s.values[row] is Some
                &&& 0 <= b <= positions.len()
                &&& forall|k: int|
                    0 <= k < positions.len() ==> (k < b <==> (#[trigger] positions[k]) <= rank(
                        s.values,
                        row,
                    ))
            },
            _ => false,
        } by {
            assert(match bin_idx[row] {
                None => s.values[row] is None,
                Some(b) => true,
            });
        }
    }
}

/// Breakpoints ascend exactly where none is null and none comes before an earlier one.
pub proof fn law_ascending_means_no_step_down(breaks: Seq<Option<SpecValue>>)
    ensures
        ascending(breaks) <==> (forall|i: int|
            0 <= i < breaks.len() ==> (#[trigger] breaks[i]) is Some) && (forall|i: int, j: int|
            0 <= i < j < breaks.len() ==> !value_lt(
                (#[trigger] breaks[j])->Some_0,
                (#[trigger] breaks[i])->Some_0,
            )),
{
    if (forall|i: int| 0 <= i < breaks.len() ==> (#[trigger] breaks[i]) is Some) && (forall|
        i: int,
        j: int,
    |
        0 <= i < j < breaks.len() ==> !value_lt(
            (#[trigger] breaks[j])->Some_0,
            (#[trigger] breaks[i])->Some_0,
        )) {
        assert forall|i: int, j: int| 0 <= i <= j < breaks.len() implies value_le(
            (#[trigger] breaks[i])->Some_0,
            (#[trigger] breaks[j])->Some_0,
        ) by {
            lemma_value_order(breaks[i]->Some_0, breaks[i]->Some_0, breaks[i]->Some_0);
        }
    }
}

/// The number of values that are not null is the number of rows that hold one.
pub proof fn law_valid_count_counts_rows(values: Seq<Option<SpecValue>>)
    ensures
        valid_count(values) == set_int_range(0, values.len() as int).filter(
            |row: int| values[row] is Some,
        ).len(),
{
    lemma_valid_rows_len(values);
    assert(valid_rows(values) =~= set_int_range(0, values.len() as int).filter(
        |row: int| values[row] is Some,
    ));
}

/// The rank of a value is the number of values that come before it: those that are less, and those
/// that are neither less nor greater and stand further up.
pub proof fn law_rank_counts_what_comes_before(values: Seq<Option<SpecValue>>, row: int)
    requires
        0 <= row < values.len(),
        values[row] is Some,
    ensures
        rank(values, row) == set_int_range(0, values.len() as int).filter(
            |other: int|
                values[other] is Some && (value_lt(values[other]->Some_0, values[row]->Some_0) || (
                !value_lt(values[row]->Some_0, values[other]->Some_0) && other < row)),
        ).len(),
        rank(values, row) < set_int_range(0, values.len() as int).filter(
            |other: int| values[other] is Some,
        ).len(),
{
    lemma_valid_ranks(values);
    law_valid_count_counts_rows(values);
    assert(rows_before(values, row) =~= set_int_range(0, values.len() as int).filter(
        |other: int|
            values[other] is Some && (value_lt(values[other]->Some_0, values[row]->Some_0) || (
            !value_lt(values[row]->Some_0, values[other]->Some_0) && other < row)),
    ));
}

/// The value at a position in sorted order is the one of that rank. Past the last value there is
/// none.
pub proof fn law_boundary_is_the_value_of_its_rank(
    values: Seq<Option<SpecValue>>,
    positions: Seq<IdxSize>,
    k: int,
    row: int,
)
    requires
        0 <= k < positions.len(),
        0 <= row < values.len(),
        values[row] is Some,
    ensures
        boundaries(values, positions).len() == positions.len(),
        rank(values, row) == positions[k] ==> boundaries(values, positions)[k] == values[row],
        boundaries(values, positions)[k] is None <==> set_int_range(0, values.len() as int).filter(
            |other: int| values[other] is Some,
        ).len() <= positions[k],
{
    lemma_valid_ranks(values);
    law_valid_count_counts_rows(values);
    let found = row_at(values, positions[k] as int);
    if positions[k] < valid_count(values) {
        assert(values[found] is Some);
        if rank(values, row) == positions[k] && found != row {
            lemma_precedes_order(values, found, row, found);
            if precedes(values, found, row) {
                lemma_rank_follows_order(values, found, row);
            } else {
                lemma_rank_follows_order(values, row, found);
            }
        }
    }
}

/// A column without values has none at any position.
pub proof fn law_no_values_no_boundaries(values: Seq<Option<SpecValue>>, positions: Seq<IdxSize>)
    requires
        forall|row: int| 0 <= row < values.len() ==> (#[trigger] values[row]) is None,
    ensures
        boundaries(values, positions).len() == positions.len(),
        forall|k: int|
            0 <= k < positions.len() ==> (#[trigger] boundaries(values, positions)[k]) is None,
{
    lemma_valid_count_bounds(values);
}

/// A sort order lists rows so that nulls come last, a value never comes behind a greater one, and
/// rows that hold equal values, or nulls, stay in their order.
pub proof fn law_sort_order_is_stable_and_ascending(
    values: Seq<Option<SpecValue>>,
    order: Seq<IdxSize>,
    i: int,
    j: int,
)
    requires
        is_sort_order(values, order),
        0 <= i < j < order.len(),
    ensures
        order.len() == values.len(),
        order[i] < values.len() && order[j] < values.len() && order[i] != order[j],
        match (values[order[i] as int], values[order[j] as int]) {
            (Some(x), Some(y)) => !value_lt(y, x) && (!value_lt(x, y) ==> order[i] < order[j]),
            (Some(_), None) => true,
            (None, Some(_)) => false,
            (None, None) => order[i] < order[j],
        },
{
    let (a, b) = (order[i] as int, order[j] as int);
    assert(precedes(values, a, b));
    lemma_precedes_order(values, a, b, a);
    if let (Some(x), Some(y)) = (values[a], values[b]) {
        lemma_value_order(x, y, x);
    }
}

/// Integers are ordered as integers.
pub proof fn law_integers_are_ordered_as_such(x: int, y: int)
    ensures
        value_lt(SpecValue::Int(x), SpecValue::Int(y)) <==> x < y,
{
}

/// Byte strings are ordered by the first byte in which they differ, and a string comes before one
/// that it starts.
pub proof fn law_bytes_are_ordered_by_the_first_difference(x: Seq<u8>, y: Seq<u8>, i: int)
    requires
        0 <= i <= x.len(),
        i <= y.len(),
        forall|k: int| 0 <= k < i ==> x[k] == y[k],
        i < x.len() && i < y.len() ==> x[i] != y[i],
        i == x.len() || i == y.len() || x[i] != y[i],
    ensures
        value_lt(SpecValue::Bytes(x), SpecValue::Bytes(y)) <==> if i < x.len() && i < y.len() {
            x[i] < y[i]
        } else {
            x.len() < y.len()
        },
    decreases i,
{
    if i > 0 {
        let (u, v) = (x.drop_first(), y.drop_first());
        assert(x[0] == y[0]);
        assert forall|k: int| 0 <= k < i - 1 implies u[k] == v[k] by {
            assert(x[k + 1] == y[k + 1]);
        }
        assert(i < x.len() ==> u[i - 1] == x[i]);
        assert(i < y.len() ==> v[i - 1] == y[i]);
        law_bytes_are_ordered_by_the_first_difference(u, v, i - 1);
    }
}

/// Floats are ordered by their bits: those without the sign bit ascend with them, those with it
/// descend, and come before the former, but for the two zeros, which are equal. A NaN comes behind
/// every number, and no NaN behind another.
pub proof fn law_floats_are_ordered_by_their_bits(a: u64, b: u64)
    ensures
        ({
            let sign: int = 0x8000_0000_0000_0000;
            let infinity: int = 0x7ff0_0000_0000_0000;
            let a_nan = infinity < a < sign || a > sign + infinity;
            let b_nan = infinity < b < sign || b > sign + infinity;
            let less = value_lt(SpecValue::Float(a), SpecValue::Float(b));
            &&& a_nan ==> !less
            &&& b_nan && !a_nan ==> less
            &&& !a_nan && !b_nan && a < sign && b < sign ==> (less <==> a < b)
            &&& !a_nan && !b_nan && a >= sign && b >= sign ==> (less <==> b < a)
            &&& !a_nan && !b_nan && a >= sign && b < sign ==> (less <==> a != sign || b != 0)
            &&& !a_nan && !b_nan && a < sign && b >= sign ==> !less
        }),
{
}

/// The breakpoints of equal-width bins are of the column's name and data type. There is one less
/// than there are bins, and the one at `k` parts the integers as the exact breakpoint
/// `min + (k + 1) * (max - min) / n` does. Without values all of them are null.
pub proof fn law_uniform_breaks_part_the_integers(
    s: SpecSeries,
    n: int,
    right_closed: bool,
    min: int,
    max: int,
    k: int,
    x: int,
)
    requires
        1 <= n,
        0 <= k < n - 1,
        s.values.contains(Some(SpecValue::Int(min))),
        s.values.contains(Some(SpecValue::Int(max))),
        forall|row: int|
            0 <= row < s.values.len() ==> match #[trigger] s.values[row] {
                Some(SpecValue::Int(v)) => min <= v <= max,
                Some(_) => false,
                None => true,
            },
    ensures
        ({
            let breaks = uniform_breaks(s, n, right_closed);
            &&& breaks.name == s.name
            &&& breaks.dtype == s.dtype
            &&& breaks.values.len() == n - 1
            &&& match breaks.values[k] {
                Some(SpecValue::Int(t)) => if right_closed {
                    t < x <==> (k + 1) * (max - min) < n * (x - min)
                } else {
                    t <= x <==> (k + 1) * (max - min) <= n * (x - min)
                },
                _ => false,
            }
        }),
{
    lemma_range_is(s.values, min, max);
    law_threshold_stands_for_breakpoint(min, max, n, k + 1, x);
}

/// The least and the greatest value of a column are those that no other value is below or above.
proof fn lemma_range_is(values: Seq<Option<SpecValue>>, min: int, max: int)
    requires
        values.contains(Some(SpecValue::Int(min))),
        values.contains(Some(SpecValue::Int(max))),
        forall|row: int|
            0 <= row < values.len() ==> match #[trigger] values[row] {
                Some(SpecValue::Int(v)) => min <= v <= max,
                Some(_) => false,
                None => true,
            },
    ensures
        least(values) == Some(SpecValue::Int(min)),
        greatest(values) == Some(SpecValue::Int(max)),
{
    lemma_extremes(values);
    let lo = choose|i: int| 0 <= i < values.len() && values[i] == Some(SpecValue::Int(min));
    let hi = choose|i: int| 0 <= i < values.len() && values[i] == Some(SpecValue::Int(max));
    assert(values[lo] is Some && values[hi] is Some);
    let a = choose|i: int| 0 <= i < values.len() && values[i] == least(values);
    let b = choose|i: int| 0 <= i < values.len() && values[i] == greatest(values);
    assert(values[a] is Some && values[b] is Some);
}

/// Equal-width binning is exact: with the range of a column of integers cut into `n` parts of
/// equal width, the bin of a row is the part that its value lies in, whatever the labels. The part
/// on the closed side keeps a value on a border. A row is null exactly where the column is.
pub proof fn law_equal_width_places_rows(
    s: SpecSeries,
    n_bins: usize,
    labels: Option<Seq<Seq<char>>>,
    include_intervals: bool,
    right_closed: bool,
    min: int,
    max: int,
)
    requires
        1 <= n_bins <= LENGTH_LIMIT,
        s.values.contains(Some(SpecValue::Int(min))),
        s.values.contains(Some(SpecValue::Int(max))),
        forall|row: int|
            0 <= row < s.values.len() ==> match #[trigger] s.values[row] {
                Some(SpecValue::Int(v)) => min <= v <= max,
                Some(_) => false,
                None => true,
            },
    ensures
        ({
            let n = n_bins as int;
            let out = interval_binned(
                s,
                IntervalSpec::Count(n_bins),
                labels,
                include_intervals,
                right_closed,
            );
            &&& binned_by_value(
                out,
                s.name,
                s.values,
                uniform_breaks(s, n, right_closed).values,
                labels,
                asked(include_intervals, s.dtype),
                right_closed,
            )
            &&& out is Ok ==> forall|row: int|
                0 <= row < s.values.len() ==> match (
                    s.values[row],
                    #[trigger] bin_cells_of(out)[row],
                ) {
                    (None, None) => true,
                    (Some(SpecValue::Int(x)), Some(SpecValue::Int(b))) => {
                        &&& 0 <= b < n
                        &&& b * (max - min) <= n * (x - min) <= (b + 1) * (max - min)
                        &&& !right_closed && b < n - 1 ==> n * (x - min) < (b + 1) * (max - min)
                        &&& right_closed && b > 0 ==> b * (max - min) < n * (x - min)
                    },
                    (_, _) => false,
                }
        }),
{
    let n = n_bins as int;
    let breaks = uniform_breaks(s, n, right_closed);
    lemma_range_is(s.values, min, max);
    let lo = choose|i: int| 0 <= i < s.values.len() && s.values[i] == Some(SpecValue::Int(min));
    assert(s.values[lo] == Some(SpecValue::Int(min)));
    assert(min <= max);
    assert(ascending(breaks.values)) by {
        assert forall|i: int, j: int| 0 <= i <= j < breaks.values.len() implies value_le(
            (#[trigger] breaks.values[i])->Some_0,
            (#[trigger] breaks.values[j])->Some_0,
        ) by {
            lemma_thresholds_ascend(min, max, n, i + 1, j + 1, right_closed);
        }
    }
    law_derived_breaks_place_rows(s, breaks, labels, include_intervals, right_closed);
    let out = interval_binned(
        s,
        IntervalSpec::Count(n_bins),
        labels,
        include_intervals,
        right_closed,
    );
    if out is Ok {
        assert forall|row: int| 0 <= row < s.values.len() implies match (
            s.values[row],
            #[trigger] bin_cells_of(out)[row],
        ) {
            (None, None) => true,
            (Some(SpecValue::Int(x)), Some(SpecValue::Int(b))) => {
                &&& 0 <= b < n
                &&& b * (max - min) <= n * (x - min) <= (b + 1) * (max - min)
                &&& !right_closed && b < n - 1 ==> n * (x - min) < (b + 1) * (max - min)
                &&& right_closed && b > 0 ==> b * (max - min) < n * (x - min)
            },
            (_, _) => false,
        } by {
            let cell = bin_cells_of(out)[row];
            assert(sits(cell, s.values[row], breaks.values, right_closed));
            if let (Some(SpecValue::Int(x)), Some(SpecValue::Int(b))) = (s.values[row], cell) {
                let span = max - min;
                law_threshold_stands_for_breakpoint(min, max, n, b, x);
                law_threshold_stands_for_breakpoint(min, max, n, b + 1, x);
                if b > 0 {
                    assert(breaks.values[b - 1] == Some(
                        SpecValue::Int(threshold(min, max, n, b, right_closed)),
                    ));
                }
                if b < n - 1 {
                    assert(breaks.values[b] == Some(
                        SpecValue::Int(threshold(min, max, n, b + 1, right_closed)),
                    ));
                }
                assert(0 <= n * (x - min) <= n * span && 0 * span == 0) by (nonlinear_arith)
                    requires
                        0 <= x - min <= span,
                        0 < n,
                ;
            }
        }
    }
}

/// No bins cannot be asked for, and a column of nothing but nulls has no bins of equal width,
/// unless there is only one, which no row is in.
pub proof fn law_equal_width_without_values(
    s: SpecSeries,
    n_bins: usize,
    labels: Option<Seq<Seq<char>>>,
    include_intervals: bool,
    right_closed: bool,
)
    requires
        n_bins <= LENGTH_LIMIT,
        forall|row: int| 0 <= row < s.values.len() ==> (#[trigger] s.values[row]) is None,
    ensures
        ({
            let out = interval_binned(
                s,
                IntervalSpec::Count(n_bins),
                labels,
                include_intervals,
                right_closed,
            );
            let breaks = uniform_breaks(s, n_bins as int, right_closed);
            &&& n_bins > 0 ==> {
                &&& breaks.name == s.name && breaks.dtype == s.dtype
                &&& breaks.values.len() == n_bins - 1
                &&& forall|k: int| 0 <= k < n_bins - 1 ==> (#[trigger] breaks.values[k]) is None
                &&& answers(
                    out,
                    s.name,
                    s.values.len(),
                    labels,
                    asked(include_intervals, s.dtype),
                    breaks.values,
                )
                &&& out is Ok ==> forall|row: int|
                    0 <= row < s.values.len() ==> (#[trigger] bin_cells_of(out)[row]) is None
            }
        }),
{
    if n_bins > 0 {
        let breaks = uniform_breaks(s, n_bins as int, right_closed);
        lemma_extremes(s.values);
        assert(least(s.values) is None && greatest(s.values) is None);
        law_derived_breaks_place_rows(s, breaks, labels, include_intervals, right_closed);
        if n_bins == 1 {
            let out = interval_binned(
                s,
                IntervalSpec::Count(n_bins),
                labels,
                include_intervals,
                right_closed,
            );
            assert(ascending(breaks.values));
            if out is Ok {
                assert forall|row: int| 0 <= row < s.values.len() implies (#[trigger] bin_cells_of(
                    out,
                )[row]) is None by {
                    assert(sits(
                        bin_cells_of(out)[row],
                        s.values[row],
                        breaks.values,
                        right_closed,
                    ));
                }
            }
        }
    }
}

/// Asking for no bins of equal width is refused, whatever the column.
pub proof fn law_no_bins_are_refused(
    s: SpecSeries,
    labels: Option<Seq<Seq<char>>>,
    include_intervals: bool,
    right_closed: bool,
)
    ensures
        interval_binned(s, IntervalSpec::Count(0), labels, include_intervals, right_closed)
            == Err::<SpecColumn, SpecError>(SpecError::NoBins(BinForm::Intervals)),
{
}

/// The positions of equiprobable breakpoints: there is one less than there are bins, and the one at
/// `k` is `(k + 1) * (len - 1) / n` rounded down, or zero without values.
pub proof fn law_quantile_positions_round_down(len: int, n: int, k: int)
    requires
        0 <= len < LENGTH_LIMIT,
        0 <= k < n - 1,
    ensures
        quantile_positions(len, n).len() == n - 1,
        len == 0 ==> quantile_positions(len, n)[k] == 0,
        len > 0 ==> n * quantile_positions(len, n)[k] <= (k + 1) * (len - 1) < n * (
        quantile_positions(len, n)[k] + 1),
{
    lemma_quantile_positions(len, n, k + 1, k + 1);
    if len > 0 {
        law_quantile_positions_are_exact(len, n, k + 1);
    }
}

/// The cuts of bins of near-equal size: there is one less than there are bins, the first bin ends
/// at the first cut, the last one starts at the last cut, and every bin holds `len / n` rows, the
/// first `len % n` of them one more.
pub proof fn law_rank_cuts_part_evenly(len: int, n: int, k: int)
    requires
        0 <= len < LENGTH_LIMIT,
        0 <= k < n - 1,
    ensures
        ({
            let cuts = rank_cuts(len, n);
            let size = |b: int|
                if b < len % n {
                    len / n + 1
                } else {
                    len / n
                };
            &&& cuts.len() == n - 1
            &&& cuts[0] == size(0)
            &&& k > 0 ==> cuts[k] - cuts[k - 1] == size(k)
            &&& len - cuts[n - 2] == size(n - 1)
        }),
{
    lemma_rank_cuts(len, n, 0);
    lemma_rank_cuts(len, n, k);
    lemma_rank_cuts(len, n, n - 1);
    lemma_rank_cuts(len, n, n - 2);
    lemma_rank_cuts(len, n, 1);
    if k > 0 {
        lemma_rank_cuts(len, n, k - 1);
        lemma_rank_cuts(len, n, k + 1);
    }
    if n > 2 {
        lemma_rank_cuts(len, n, 2);
    }
}

/// The outcome of an operation stands for what it holds.
pub proof fn law_outcome_shows_its_parts(binned: Result<Column, BinError>)
    ensures
        match (binned, outcome(binned)) {
            (Ok(Column::Series(s)), Ok(SpecColumn::Series(v))) => v == s@,
            (
                Ok(Column::Struct { name, bin, left, right }),
                Ok(SpecColumn::Struct { name: n, bin: b, left: l, right: r }),
            ) => n == name@ && b == bin@ && l == left@ && r == right@,
            (Err(BinError::DtypeMismatch { expected, got }), Err(e)) => e
                == (SpecError::DtypeMismatch { expected: expected@, got: got@ }),
            (Err(BinError::NoBins(form)), Err(e)) => e == SpecError::NoBins(form),
            (Err(BinError::LabelCount { n_bins, labels }), Err(e)) => e == (SpecError::LabelCount {
                n_bins: n_bins as int,
                labels: labels as int,
            }),
            (Err(BinError::Labels(_)), Err(e)) => e == SpecError::Labels,
            (Err(BinError::Cast(_)), Err(e)) => e == SpecError::Cast,
            (_, _) => false,
        },
{
}

/// Labels stand for their texts, one by one.
pub proof fn law_labels_are_their_texts(labels: Option<&[String]>, i: int)
    ensures
        labels is Some <==> label_texts(labels) is Some,
        labels is Some ==> label_texts(labels)->Some_0.len() == labels->Some_0@.len(),
        labels is Some && 0 <= i < labels->Some_0@.len() ==> label_texts(labels)->Some_0[i]
            == labels->Some_0@[i]@,
{
}

/// The integer types have the values that their width and signedness give.
pub proof fn law_integer_types_have_their_ranges(v: int)
    ensures
        IntType::Int8.has(v) <==> -0x80 <= v <= 0x7f,
        IntType::Int16.has(v) <==> -0x8000 <= v <= 0x7fff,
        IntType::Int32.has(v) <==> -0x8000_0000 <= v <= 0x7fff_ffff,
        IntType::Int64.has(v) <==> -0x8000_0000_0000_0000 <= v <= 0x7fff_ffff_ffff_ffff,
        IntType::Int128.has(v) <==> -0x8000_0000_0000_0000_0000_0000_0000_0000 <= v
            <= 0x7fff_ffff_ffff_ffff_ffff_ffff_ffff_ffff,
        IntType::UInt8.has(v) <==> 0 <= v <= 0xff,
        IntType::UInt16.has(v) <==> 0 <= v <= 0xffff,
        IntType::UInt32.has(v) <==> 0 <= v <= 0xffff_ffff,
        IntType::UInt64.has(v) <==> 0 <= v <= 0xffff_ffff_ffff_ffff,
        IntType::UInt128.has(v) <==> 0 <= v <= 0xffff_ffff_ffff_ffff_ffff_ffff_ffff_ffff,
        forall|t: IntType| #[trigger] t.has(v) <==> t.lowest() <= v <= t.highest(),
{
}

} // verus!
