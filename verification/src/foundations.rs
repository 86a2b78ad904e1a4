//! What the operations rest on: values, data types, columns, and how methods are told apart.

use vstd::arithmetic::power::pow;
use vstd::prelude::*;
use vstd::set_lib::set_int_range;
use vstd::utf8::encode_utf8;

use crate::binning::{gathered_at, positions_ascend};
use crate::dtype::{DataType, FloatType, IntType, SpecDataType, LENGTH_LIMIT, MAX_PRECISION};
use crate::meaning::law_valid_count_counts_rows;
use crate::method::{
    cell_item, equal_floats, items, kind_of, label_items, BinMethod, BinOptions, HashItem,
    SpecHashItem, SpecMethod, SpecOptions, CHEAP_SERIES_HASH_LIMIT,
};
use crate::ordered_bits::OrderedBits;
use crate::output::labels_fit;
use crate::search::{
    ascending, breaks_passed, lemma_breaks_passed_bound, lemma_passed_prefix, SearchSortedSide,
};
use crate::series::{cells, equal_numbers, gathered, nulls, IdxSize, SpecSeries};
use crate::value::{float_rank, is_nan, value_lt, SpecValue, Value};

verus! {

/// Columns and byte strings are shorter than the largest 32-bit number, and decimals have at most
/// 38 digits.
pub proof fn law_limits()
    ensures
        LENGTH_LIMIT == 4_294_967_295,
        MAX_PRECISION == 38,
        CHEAP_SERIES_HASH_LIMIT == 1000,
{
}

/// A value stands for what it holds.
pub proof fn law_values_are_what_they_hold(v: Value)
    ensures
        match (v, v@) {
            (Value::Int(x), SpecValue::Int(y)) => x == y,
            (Value::UInt(x), SpecValue::Int(y)) => x == y,
            (Value::Float(x), SpecValue::Float(y)) => x == y,
            (Value::Bytes(x), SpecValue::Bytes(y)) => x@ == y,
            (_, _) => false,
        },
{
}

/// The place of a float in the total order is the number of its bits without the sign bit, and
/// the negative of that with it. Every NaN has the place behind that of infinity.
pub proof fn law_places_of_floats(bits: u64)
    ensures
        ({
            let sign: int = 0x8000_0000_0000_0000;
            let infinity: int = 0x7ff0_0000_0000_0000;
            &&& bits <= infinity ==> float_rank(bits) == bits
            &&& sign <= bits <= sign + infinity ==> float_rank(bits) == sign - bits
            &&& infinity < bits < sign || bits > sign + infinity ==> float_rank(bits) == infinity
                + 1
        }),
{
}

/// Native integers stand for themselves, the least of every type and how many it has being what
/// their width and signedness give.
pub proof fn law_native_integers_are_themselves(
    a: i8,
    b: u8,
    c: i16,
    d: u16,
    e: i32,
    f: u32,
    g: i64,
    h: u64,
    i: i128,
    j: u128,
)
    ensures
        a.value() == a && b.value() == b && c.value() == c && d.value() == d && e.value() == e,
        f.value() == f && g.value() == g && h.value() == h && i.value() == i && j.value() == j,
        i8::lowest() == i8::MIN && i8::lowest() + i8::cardinality() == i8::MAX + 1,
        u8::lowest() == u8::MIN && u8::lowest() + u8::cardinality() == u8::MAX + 1,
        i16::lowest() == i16::MIN && i16::lowest() + i16::cardinality() == i16::MAX + 1,
        u16::lowest() == u16::MIN && u16::lowest() + u16::cardinality() == u16::MAX + 1,
        i32::lowest() == i32::MIN && i32::lowest() + i32::cardinality() == i32::MAX + 1,
        u32::lowest() == u32::MIN && u32::lowest() + u32::cardinality() == u32::MAX + 1,
        i64::lowest() == i64::MIN && i64::lowest() + i64::cardinality() == i64::MAX + 1,
        u64::lowest() == u64::MIN && u64::lowest() + u64::cardinality() == u64::MAX + 1,
        i128::lowest() == i128::MIN && i128::lowest() + i128::cardinality() == i128::MAX + 1,
        u128::lowest() == u128::MIN && u128::lowest() + u128::cardinality() == u128::MAX + 1,
{
}

/// A data type stands for what it names.
pub proof fn law_data_types_are_what_they_name(t: DataType)
    ensures
        match (t, t@) {
            (DataType::Null, SpecDataType::Null) => true,
            (DataType::Boolean, SpecDataType::Boolean) => true,
            (DataType::Integer(a), SpecDataType::Integer(b)) => a == b,
            (DataType::Float(a), SpecDataType::Float(b)) => a == b,
            (
                DataType::Decimal { precision: p, scale: s },
                SpecDataType::Decimal { precision: q, scale: t },
            ) => p == q && s == t,
            (DataType::String, SpecDataType::String) => true,
            (DataType::Binary, SpecDataType::Binary) => true,
            (DataType::Date, SpecDataType::Date) => true,
            (DataType::Time, SpecDataType::Time) => true,
            (
                DataType::Datetime { unit: u, zone: y },
                SpecDataType::Datetime { unit: v, zone: z },
            ) => u == v && match (y, z) {
                (Some(a), Some(b)) => a@ == b,
                (None, None) => true,
                (_, _) => false,
            },
            (DataType::Duration(a), SpecDataType::Duration(b)) => a == b,
            (
                DataType::Categorical { name: n, namespace: s, physical: p },
                SpecDataType::Categorical { name: m, namespace: t, physical: q },
            ) => n@ == m && s@ == t && p == q,
            (DataType::Enum(a), SpecDataType::Enum(b)) => a@.len() == b.len() && forall|i: int|
                0 <= i < b.len() ==> (#[trigger] b[i]) == a@[i]@,
            (
                DataType::Nested { form: f, name: n },
                SpecDataType::Nested { form: g, name: m },
            ) => f == g && n@ == m,
            (_, _) => false,
        },
{
}

/// The parameters of a data type are in order where a decimal has from 1 to 38 digits, at most all
/// of them behind the point, and where the variants of an enum can be counted in 32 bits. Other
/// data types are always in order.
pub proof fn law_data_types_are_in_order(t: SpecDataType)
    ensures
        match t {
            SpecDataType::Decimal { precision, scale } => t.valid() <==> 1 <= precision <= 38
                && scale <= precision,
            SpecDataType::Enum(variants) => t.valid() <==> variants.len() <= 0xffff_ffff,
            _ => t.valid(),
        },
{
}

/// What values a data type admits.
pub proof fn law_data_types_admit_their_values(t: SpecDataType, v: SpecValue)
    ensures
        match t {
            SpecDataType::Null => !t.admits(v),
            SpecDataType::Boolean => t.admits(v) <==> v == SpecValue::Int(0) || v == SpecValue::Int(
                1,
            ),
            SpecDataType::Integer(i) => t.admits(v) <==> v is Int && i.lowest() <= v->Int_0
                <= i.highest(),
            SpecDataType::Float(_) => t.admits(v) <==> v is Float,
            SpecDataType::Decimal { precision, .. } => t.admits(v) <==> v is Int && -pow(
                10,
                precision as nat,
            ) < v->Int_0 < pow(10, precision as nat) && -0x8000_0000_0000_0000_0000_0000_0000_0000
                <= v->Int_0 <= 0x7fff_ffff_ffff_ffff_ffff_ffff_ffff_ffff,
            SpecDataType::Date => t.admits(v) <==> v is Int && -0x8000_0000 <= v->Int_0
                <= 0x7fff_ffff,
            SpecDataType::Enum(variants) => t.admits(v) <==> v is Int && 0 <= v->Int_0
                < variants.len(),
            SpecDataType::Time | SpecDataType::Datetime { .. } | SpecDataType::Duration(_) =>
                t.admits(v) <==> v is Int && -0x8000_0000_0000_0000 <= v->Int_0
                <= 0x7fff_ffff_ffff_ffff,
            SpecDataType::String
            | SpecDataType::Binary
            | SpecDataType::Categorical { .. }
            | SpecDataType::Nested { .. } => t.admits(v) <==> v is Bytes && v->Bytes_0.len()
                < 0xffff_ffff,
        },
{
}

/// The integer types in which values are stored. Those of an enum are the narrowest unsigned ones
/// that have one value more than there are variants.
pub proof fn law_data_types_are_stored(t: SpecDataType)
    ensures
        t.physical() == match t {
            SpecDataType::Integer(i) => Some(i),
            SpecDataType::Decimal { .. } => Some(IntType::Int128),
            SpecDataType::Date => Some(IntType::Int32),
            SpecDataType::Time | SpecDataType::Datetime { .. } | SpecDataType::Duration(_) => Some(
                IntType::Int64,
            ),
            SpecDataType::Enum(variants) => Some(
                if variants.len() < 0x100 {
                    IntType::UInt8
                } else if variants.len() < 0x1_0000 {
                    IntType::UInt16
                } else {
                    IntType::UInt32
                },
            ),
            _ => None,
        },
{
}

/// The width of a float in bits.
pub open spec fn width(t: FloatType) -> int {
    match t {
        FloatType::Float16 => 16,
        FloatType::Float32 => 32,
        FloatType::Float64 => 64,
    }
}

/// Which data types are of exact numbers, of byte strings, of narrower floats than others, and how
/// many digits their numbers have behind the point.
pub proof fn law_data_types_are_told_apart(a: SpecDataType, b: SpecDataType)
    ensures
        a.is_exact_number() <==> a is Integer || a is Decimal,
        a.is_bytes() <==> a is String || a is Binary || a is Categorical || a is Nested,
        a.is_narrower_float(b) <==> a is Float && b is Float && width(a->Float_0) < width(
            b->Float_0,
        ),
        a.scale() == match a {
            SpecDataType::Decimal { scale, .. } => scale as nat,
            _ => 0,
        },
{
}

/// Values of two data types can be compared as they are where the data types are the same, or both
/// of floats, or both of exact numbers; but not unsigned numbers of 64 bits with signed ones of at
/// most 64 bits. That goes both ways.
pub proof fn law_what_can_be_compared(a: SpecDataType, b: SpecDataType)
    ensures
        a.comparable(a),
        a.comparable(b) <==> b.comparable(a),
        a is Float && b is Float ==> a.comparable(b),
        a is Decimal && (b is Integer || b is Decimal) ==> a.comparable(b),
        a is Integer && b is Integer ==> {
            let wide = |t: SpecDataType| t->Integer_0 == IntType::UInt64;
            let signed = |t: SpecDataType|
                t->Integer_0.lowest() < 0 && t->Integer_0.highest() <= 0x7fff_ffff_ffff_ffff;
            a.comparable(b) <==> !(wide(a) && signed(b)) && !(wide(b) && signed(a))
        },
        a != b && !((a is Float && b is Float) || ((a is Integer || a is Decimal) && (b is Integer
            || b is Decimal))) ==> !a.comparable(b),
{
}

/// A column can be made of what its data type admits, as long as it is short enough.
pub proof fn law_columns_hold_admitted_values(s: SpecSeries)
    ensures
        s.valid() <==> s.dtype.valid() && s.values.len() < 0xffff_ffff && (forall|i: int|
            0 <= i < s.values.len() ==> match #[trigger] s.values[i] {
                Some(v) => s.dtype.admits(v),
                None => true,
            }),
{
    if s.valid() {
        assert forall|i: int| 0 <= i < s.values.len() implies match #[trigger] s.values[i] {
            Some(v) => s.dtype.admits(v),
            None => true,
        } by {
            assert(s.values[i] is Some ==> s.dtype.admits(s.values[i]->Some_0));
        }
    }
}

/// Gathering gives the value at every position, and a null where no position is given; a column of
/// nulls is that; the cells of a column are those of its values; another name changes the name
/// alone.
pub proof fn law_columns_are_made_cell_by_cell(
    values: Seq<Option<SpecValue>>,
    positions: Seq<Option<IdxSize>>,
    held: Seq<Option<Value>>,
    s: SpecSeries,
    name: Seq<char>,
    len: nat,
    i: int,
)
    ensures
        gathered(values, positions).len() == positions.len(),
        0 <= i < positions.len() ==> gathered(values, positions)[i] == match positions[i] {
            Some(p) => values[p as int],
            None => None,
        },
        nulls::<SpecValue>(len).len() == len,
        0 <= i < len ==> nulls::<SpecValue>(len)[i] is None,
        cells(held).len() == held.len(),
        0 <= i < held.len() ==> match (held[i], cells(held)[i]) {
            (Some(v), Some(w)) => v@ == w,
            (None, None) => true,
            (_, _) => false,
        },
        s.renamed(name).name == name,
        s.renamed(name).dtype == s.dtype,
        s.renamed(name).values == s.values,
{
}

/// Values at places of a list of rows are those of the rows, and null past its end.
pub proof fn law_gathering_follows_the_list(
    values: Seq<Option<SpecValue>>,
    order: Seq<IdxSize>,
    positions: Seq<IdxSize>,
    k: int,
)
    requires
        0 <= k < positions.len(),
    ensures
        gathered_at(values, order, positions).len() == positions.len(),
        positions[k] < order.len() ==> gathered_at(values, order, positions)[k]
            == values[order[positions[k] as int] as int],
        positions[k] >= order.len() ==> gathered_at(values, order, positions)[k] is None,
{
}

/// What is counted of a column is the rows that hold a value.
pub proof fn law_columns_count_their_values(s: SpecSeries)
    ensures
        s.non_null_len() == set_int_range(0, s.values.len() as int).filter(
            |row: int| s.values[row] is Some,
        ).len(),
{
    law_valid_count_counts_rows(s.values);
}

/// Positions ascend where none is less than an earlier one, and labels are short enough where the
/// bytes of each can be counted in 32 bits with one number to spare.
pub proof fn law_what_is_asked_of_positions_and_labels(
    positions: Seq<IdxSize>,
    labels: Option<Seq<Seq<char>>>,
)
    ensures
        positions_ascend(positions) <==> forall|i: int, j: int|
            0 <= i < j < positions.len() ==> (#[trigger] positions[i]) <= (
            #[trigger] positions[j]),
        labels is None ==> labels_fit(labels),
        labels is Some ==> (labels_fit(labels) <==> forall|i: int|
            0 <= i < labels->Some_0.len() ==> encode_utf8(#[trigger] labels->Some_0[i]).len()
                < 0xffff_ffff),
{
}

/// Integers come before floats, and floats before byte strings.
pub proof fn law_kinds_of_values_are_ordered(x: int, y: u64, z: Seq<u8>)
    ensures
        value_lt(SpecValue::Int(x), SpecValue::Float(y)),
        value_lt(SpecValue::Float(y), SpecValue::Bytes(z)),
        value_lt(SpecValue::Int(x), SpecValue::Bytes(z)),
        !value_lt(SpecValue::Float(y), SpecValue::Int(x)),
        !value_lt(SpecValue::Bytes(z), SpecValue::Float(y)),
        !value_lt(SpecValue::Bytes(z), SpecValue::Int(x)),
{
}

/// Searched from the left, the breakpoints in front of the place of a value are those that are
/// less; searched from the right, those that are not greater.
pub proof fn law_sides_of_searching(breaks: Seq<Option<SpecValue>>, x: SpecValue, k: int)
    requires
        ascending(breaks),
        0 <= k < breaks.len(),
    ensures
        breaks_passed(breaks, x, SearchSortedSide::Left) <= breaks.len(),
        breaks_passed(breaks, x, SearchSortedSide::Right) <= breaks.len(),
        k < breaks_passed(breaks, x, SearchSortedSide::Left) <==> value_lt(breaks[k]->Some_0, x),
        k < breaks_passed(breaks, x, SearchSortedSide::Right) <==> !value_lt(x, breaks[k]->Some_0),
{
    lemma_breaks_passed_bound(breaks, x, SearchSortedSide::Left);
    lemma_breaks_passed_bound(breaks, x, SearchSortedSide::Right);
    lemma_passed_prefix(breaks, x, SearchSortedSide::Left, k);
    lemma_passed_prefix(breaks, x, SearchSortedSide::Right, k);
}

/// Columns are equal where they are as long and, row by row, both are null, or hold the same
/// number, or values neither of which is less; their names do not matter.
pub proof fn law_columns_are_equal_row_by_row(a: SpecSeries, b: SpecSeries)
    ensures
        a.equals_missing(b) <==> a.values.len() == b.values.len() && (forall|i: int|
            0 <= i < a.values.len() ==> match (#[trigger] a.values[i], b.values[i]) {
                (None, None) => true,
                (Some(SpecValue::Int(x)), Some(SpecValue::Int(y))) => x * pow(10, b.dtype.scale())
                    == y * pow(10, a.dtype.scale()),
                (Some(x), Some(y)) => !value_lt(x, y) && !value_lt(y, x),
                (_, _) => false,
            }),
{
    if a.equals_missing(b) {
        assert forall|i: int| 0 <= i < a.values.len() implies match (
            #[trigger] a.values[i],
            b.values[i],
        ) {
            (None, None) => true,
            (Some(SpecValue::Int(x)), Some(SpecValue::Int(y))) => x * pow(10, b.dtype.scale())
                == y * pow(10, a.dtype.scale()),
            (Some(x), Some(y)) => !value_lt(x, y) && !value_lt(y, x),
            (_, _) => false,
        } by {
            assert(equal_numbers(
                a.values[i],
                a.dtype.scale(),
                b.values[i],
                b.dtype.scale(),
            ));
        }
    }
}

/// The bits of floats are equal as numbers: neither is a NaN and neither is less.
pub open spec fn same_numbers(a: Seq<u64>, b: Seq<u64>) -> bool {
    &&& a.len() == b.len()
    &&& forall|i: int|
        0 <= i < a.len() ==> {
            &&& !value_lt(
                SpecValue::Float(0x7ff0_0000_0000_0000),
                SpecValue::Float(#[trigger] a[i]),
            )
            &&& !value_lt(SpecValue::Float(a[i]), SpecValue::Float(b[i]))
            &&& !value_lt(SpecValue::Float(b[i]), SpecValue::Float(a[i]))
        }
}

/// Methods are equal where they are of one form, close the same side, and have equal breakpoints,
/// equal fractions or as many bins. Binnings are equal where their methods are, with the same
/// labels and the same report.
pub proof fn law_methods_are_equal_part_by_part(
    a: SpecMethod,
    b: SpecMethod,
    x: SpecOptions,
    y: SpecOptions,
)
    ensures
        a.equals(b) <==> match (a, b) {
            (
                SpecMethod::Intervals { breaks: s, right_closed: p },
                SpecMethod::Intervals { breaks: t, right_closed: q },
            ) => s.equals_missing(t) && p == q,
            (
                SpecMethod::UniformIntervals { n_bins: m, right_closed: p },
                SpecMethod::UniformIntervals { n_bins: n, right_closed: q },
            ) => m == n && p == q,
            (
                SpecMethod::Quantiles { probs: s, right_closed: p },
                SpecMethod::Quantiles { probs: t, right_closed: q },
            ) => same_numbers(s, t) && p == q,
            (
                SpecMethod::UniformQuantiles { n_bins: m, right_closed: p },
                SpecMethod::UniformQuantiles { n_bins: n, right_closed: q },
            ) => m == n && p == q,
            (SpecMethod::Ranks { fractions: s }, SpecMethod::Ranks { fractions: t }) =>
                same_numbers(s, t),
            (SpecMethod::UniformRanks { n_bins: m }, SpecMethod::UniformRanks { n_bins: n }) => m
                == n,
            (_, _) => false,
        },
        x.equals(y) <==> x.method.equals(y.method) && x.labels == y.labels && x.include_intervals
            == y.include_intervals,
        a.comparable(b) <==> (a is Intervals && b is Intervals ==> a->breaks.dtype.comparable(
            b->breaks.dtype,
        )),
{
    assert forall|s: Seq<u64>, t: Seq<u64>| #[trigger] equal_floats(s, t)
        == same_numbers(s, t) by {
        if equal_floats(s, t) {
            assert forall|i: int| 0 <= i < s.len() implies {
                &&& !value_lt(
                    SpecValue::Float(0x7ff0_0000_0000_0000),
                    SpecValue::Float(#[trigger] s[i]),
                )
                &&& !value_lt(SpecValue::Float(s[i]), SpecValue::Float(t[i]))
                &&& !value_lt(SpecValue::Float(t[i]), SpecValue::Float(s[i]))
            } by {
                assert(!is_nan(s[i]) && float_rank(s[i]) == float_rank(t[i]));
            }
        }
        if same_numbers(s, t) {
            assert forall|i: int| 0 <= i < s.len() implies !is_nan(#[trigger] s[i]) && float_rank(
                s[i],
            ) == float_rank(t[i]) by {
                assert(!value_lt(SpecValue::Float(0x7ff0_0000_0000_0000), SpecValue::Float(s[i])));
            }
        }
    }
}

/// A method has one bin more than breakpoints or fractions, or as many as it says, and reports
/// bounds in the data type of its breakpoints, or else of the input.
pub proof fn law_methods_count_their_bins(m: BinMethod, input: SpecDataType)
    ensures
        m@.n_bins() == match m {
            BinMethod::Intervals { breaks, .. } => breaks@.values.len() + 1,
            BinMethod::Quantiles { probs, .. } => probs@.len() + 1,
            BinMethod::Ranks { fractions } => fractions@.len() + 1,
            BinMethod::UniformIntervals { n_bins, .. } => n_bins as nat,
            BinMethod::UniformQuantiles { n_bins, .. } => n_bins as nat,
            BinMethod::UniformRanks { n_bins } => n_bins as nat,
        },
        m@.bound_dtype(input) == match m {
            BinMethod::Intervals { breaks, .. } => breaks@.dtype,
            _ => input,
        },
{
}

/// A method stands for what it is made of.
pub proof fn law_methods_are_what_they_are_made_of(m: BinMethod)
    ensures
        match (m, m@) {
            (
                BinMethod::Intervals { breaks: s, right_closed: p },
                SpecMethod::Intervals { breaks: t, right_closed: q },
            ) => s@ == t && p == q,
            (
                BinMethod::UniformIntervals { n_bins: m, right_closed: p },
                SpecMethod::UniformIntervals { n_bins: n, right_closed: q },
            ) => m == n && p == q,
            (
                BinMethod::Quantiles { probs: s, right_closed: p },
                SpecMethod::Quantiles { probs: t, right_closed: q },
            ) => s@ == t && p == q,
            (
                BinMethod::UniformQuantiles { n_bins: m, right_closed: p },
                SpecMethod::UniformQuantiles { n_bins: n, right_closed: q },
            ) => m == n && p == q,
            (BinMethod::Ranks { fractions: s }, SpecMethod::Ranks { fractions: t }) => s@ == t,
            (BinMethod::UniformRanks { n_bins: m }, SpecMethod::UniformRanks { n_bins: n }) => m
                == n,
            (_, _) => false,
        },
{
}

/// A binning stands for its method, the texts of its labels and whether bounds are reported.
pub proof fn law_options_are_what_they_are_made_of(o: BinOptions, i: int)
    ensures
        o@.method == o.method@,
        o@.include_intervals == o.include_intervals,
        o@.labels is Some <==> o.labels is Some,
        o.labels is Some ==> o@.labels->Some_0.len() == o.labels->Some_0@.len(),
        o.labels is Some && 0 <= i < o.labels->Some_0@.len() ==> o@.labels->Some_0[i]
            == o.labels->Some_0@[i]@,
{
}

/// Items stand for what they hold, one by one.
pub proof fn law_items_are_what_they_hold(list: Seq<HashItem>, i: int)
    requires
        0 <= i < list.len(),
    ensures
        items(list).len() == list.len(),
        match (list[i], items(list)[i]) {
            (HashItem::Form(x), SpecHashItem::Form(y)) => x == y,
            (HashItem::Kind(x), SpecHashItem::Kind(y)) => x == y,
            (HashItem::Count(x), SpecHashItem::Count(y)) => x == y,
            (HashItem::Null, SpecHashItem::Null) => true,
            (HashItem::Integer { negative, magnitude }, SpecHashItem::Integer(n, m)) => negative
                == n && magnitude == m,
            (
                HashItem::Decimal { negative, magnitude, precision, scale },
                SpecHashItem::Decimal(n, m, p, s),
            ) => negative == n && magnitude == m && precision == p && scale == s,
            (
                HashItem::Datetime { negative, magnitude, unit, zone },
                SpecHashItem::Datetime(n, m, u, z),
            ) => negative == n && magnitude == m && unit == u && match (zone, z) {
                (Some(a), Some(b)) => a@ == b,
                (None, None) => true,
                (_, _) => false,
            },
            (
                HashItem::Duration { negative, magnitude, unit },
                SpecHashItem::Duration(n, m, u),
            ) => negative == n && magnitude == m && unit == u,
            (HashItem::Float(x), SpecHashItem::Float(y)) => x == y,
            (HashItem::Bytes(x), SpecHashItem::Bytes(y)) => x@ == y,
            (HashItem::Bits(x), SpecHashItem::Bits(y)) => x == y,
            (HashItem::Text(x), SpecHashItem::Text(y)) => x@ == y,
            (HashItem::Flag(x), SpecHashItem::Flag(y)) => x == y,
            (_, _) => false,
        },
{
}

/// Kinds of data types are told apart by their numbers: the same number means the same kind, the
/// same integers, the same floats, the same form of nesting.
pub proof fn law_kinds_are_told_apart(a: SpecDataType, b: SpecDataType)
    requires
        kind_of(a) == kind_of(b),
    ensures
        match (a, b) {
            (SpecDataType::Null, SpecDataType::Null) => true,
            (SpecDataType::Boolean, SpecDataType::Boolean) => true,
            (SpecDataType::Integer(x), SpecDataType::Integer(y)) => x == y,
            (SpecDataType::Float(x), SpecDataType::Float(y)) => x == y,
            (SpecDataType::Decimal { .. }, SpecDataType::Decimal { .. }) => true,
            (SpecDataType::String, SpecDataType::String) => true,
            (SpecDataType::Binary, SpecDataType::Binary) => true,
            (SpecDataType::Date, SpecDataType::Date) => true,
            (SpecDataType::Time, SpecDataType::Time) => true,
            (SpecDataType::Datetime { .. }, SpecDataType::Datetime { .. }) => true,
            (SpecDataType::Duration(_), SpecDataType::Duration(_)) => true,
            (SpecDataType::Categorical { .. }, SpecDataType::Categorical { .. }) => true,
            (SpecDataType::Enum(_), SpecDataType::Enum(_)) => true,
            (SpecDataType::Nested { form: f, .. }, SpecDataType::Nested { form: g, .. }) => f == g,
            (_, _) => false,
        },
{
}

/// Cells that are hashed by the same item hold the same: both are null, or the same integer, or
/// floats neither of which is less, or the same bytes; and where decimals, points or spans of time
/// are hashed, they are of the same precision and scale, unit and zone, or unit.
pub proof fn law_items_tell_cells_apart(
    a: Option<SpecValue>,
    s: SpecDataType,
    b: Option<SpecValue>,
    t: SpecDataType,
)
    requires
        cell_item(a, s) == cell_item(b, t),
    ensures
        match (a, b) {
            (None, None) => true,
            (Some(SpecValue::Int(x)), Some(SpecValue::Int(y))) => {
                &&& x == y
                &&& s is Decimal || s is Datetime || s is Duration || t is Decimal || t is Datetime
                    || t is Duration ==> s == t
            },
            (Some(SpecValue::Float(x)), Some(SpecValue::Float(y))) => !value_lt(
                SpecValue::Float(x),
                SpecValue::Float(y),
            ) && !value_lt(SpecValue::Float(y), SpecValue::Float(x)),
            (Some(SpecValue::Bytes(x)), Some(SpecValue::Bytes(y))) => x == y,
            (_, _) => false,
        },
{
}

/// Methods are hashed by enough to tell them apart: the same items mean the same form, the same
/// closed side, as many bins, the same bits of fractions, and breakpoints of the same kind that are
/// as many and that hold the same among the leading ones.
pub proof fn law_items_tell_methods_apart(a: SpecMethod, b: SpecMethod)
    requires
        a.hash_items() == b.hash_items(),
        a.n_bins() <= usize::MAX,
        b.n_bins() <= usize::MAX,
    ensures
        match (a, b) {
            (
                SpecMethod::Intervals { breaks: s, right_closed: p },
                SpecMethod::Intervals { breaks: t, right_closed: q },
            ) => {
                &&& p == q
                &&& s.values.len() == t.values.len()
                &&& kind_of(s.dtype) == kind_of(t.dtype)
                &&& forall|i: int|
                    0 <= i < s.values.len() && i < 1000 ==> cell_item(
                        #[trigger] s.values[i],
                        s.dtype,
                    ) == cell_item(t.values[i], t.dtype)
            },
            (
                SpecMethod::UniformIntervals { n_bins: m, right_closed: p },
                SpecMethod::UniformIntervals { n_bins: n, right_closed: q },
            ) => m == n && p == q,
            (
                SpecMethod::Quantiles { probs: s, right_closed: p },
                SpecMethod::Quantiles { probs: t, right_closed: q },
            ) => s == t && p == q,
            (
                SpecMethod::UniformQuantiles { n_bins: m, right_closed: p },
                SpecMethod::UniformQuantiles { n_bins: n, right_closed: q },
            ) => m == n && p == q,
            (SpecMethod::Ranks { fractions: s }, SpecMethod::Ranks { fractions: t }) => s == t,
            (SpecMethod::UniformRanks { n_bins: m }, SpecMethod::UniformRanks { n_bins: n }) => m
                == n,
            (_, _) => false,
        },
{
    let (u, v) = (a.hash_items(), b.hash_items());
    assert(u[0] == v[0]);
    match (a, b) {
        (
            SpecMethod::Intervals { breaks: s, right_closed: p },
            SpecMethod::Intervals { breaks: t, right_closed: q },
        ) => {
            assert(u[1] == v[1]);
            assert(u[2] == v[2]);
            assert(u[u.len() - 1] == SpecHashItem::Flag(p));
            assert(v[v.len() - 1] == SpecHashItem::Flag(q));
            assert forall|i: int| 0 <= i < s.values.len() && i < 1000 implies cell_item(
                #[trigger] s.values[i],
                s.dtype,
            ) == cell_item(t.values[i], t.dtype) by {
                assert(u[i + 3] == cell_item(s.values[i], s.dtype));
                assert(v[i + 3] == cell_item(t.values[i], t.dtype));
            }
        },
        (
            SpecMethod::Quantiles { probs: s, right_closed: p },
            SpecMethod::Quantiles { probs: t, right_closed: q },
        ) => {
            assert(u[1] == v[1]);
            assert(u[u.len() - 1] == SpecHashItem::Flag(p));
            assert(v[v.len() - 1] == SpecHashItem::Flag(q));
            assert forall|i: int| 0 <= i < s.len() implies s[i] == t[i] by {
                assert(u[i + 2] == SpecHashItem::Bits(s[i]));
                assert(v[i + 2] == SpecHashItem::Bits(t[i]));
            }
            assert(s =~= t);
        },
        (SpecMethod::Ranks { fractions: s }, SpecMethod::Ranks { fractions: t }) => {
            assert(u[1] == v[1]);
            assert forall|i: int| 0 <= i < s.len() implies s[i] == t[i] by {
                assert(u[i + 2] == SpecHashItem::Bits(s[i]));
                assert(v[i + 2] == SpecHashItem::Bits(t[i]));
            }
            assert(s =~= t);
        },
        (_, _) => {
            if u.len() > 1 && v.len() > 1 {
                assert(u[1] == v[1]);
            }
            if u.len() > 2 && v.len() > 2 {
                assert(u[2] == v[2]);
            }
        },
    }
}

/// Binnings by one method are hashed by enough to tell them apart: the same items mean the same
/// labels and the same report.
pub proof fn law_items_tell_options_apart(a: SpecOptions, b: SpecOptions)
    requires
        a.hash_items() == b.hash_items(),
        a.method.hash_items() == b.method.hash_items(),
        a.labels is Some ==> a.labels->Some_0.len() <= usize::MAX,
        b.labels is Some ==> b.labels->Some_0.len() <= usize::MAX,
    ensures
        a.labels == b.labels,
        a.include_intervals == b.include_intervals,
{
    let (u, v) = (a.hash_items(), b.hash_items());
    let n = a.method.hash_items().len() as int;
    assert(u[u.len() - 1] == SpecHashItem::Flag(a.include_intervals));
    assert(v[v.len() - 1] == SpecHashItem::Flag(b.include_intervals));
    assert(u[n] == label_items(a.labels)[0]);
    assert(v[n] == label_items(b.labels)[0]);
    if let (Some(s), Some(t)) = (a.labels, b.labels) {
        assert(u[n + 1] == label_items(a.labels)[1]);
        assert(v[n + 1] == label_items(b.labels)[1]);
        assert forall|i: int| 0 <= i < s.len() implies s[i] == t[i] by {
            assert(u[n + 2 + i] == label_items(a.labels)[i + 2]);
            assert(v[n + 2 + i] == label_items(b.labels)[i + 2]);
            assert(label_items(a.labels)[i + 2] == SpecHashItem::Text(s[i]));
            assert(label_items(b.labels)[i + 2] == SpecHashItem::Text(t[i]));
        }
        assert(s =~= t);
    }
}

} // verus!
