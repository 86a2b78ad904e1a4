//! What describes a binning, and what it is hashed by.

use vstd::prelude::*;

use crate::dtype::{
    copy_texts, same_texts, texts, DataType, FloatType, IntType, NestedForm, SpecDataType, TimeUnit,
};
use crate::series::{
    equal_cells, equal_numbers, lemma_equal_numbers_of_one_scale, Series, SpecSeries,
};
use crate::value::{
    float_key, float_rank, is_nan, lemma_bytes_trichotomy, magnitude, SpecValue, Value,
    INFINITY_BITS, SIGN_BIT,
};

verus! {

/// The number of leading breakpoints that are hashed.
pub const CHEAP_SERIES_HASH_LIMIT: usize = 1000;

/// How the bins of a binning operation are delimited.
#[derive(Debug)]
pub enum BinMethod {
    /// Explicit breakpoints. Their data type is the one that both sides are compared in, which is
    /// also the data type of the reported boundaries.
    Intervals { breaks: Series, right_closed: bool },
    /// `n_bins` equal-width bins spanning `[min, max]`. The breakpoints are derived from the
    /// column, in its data type.
    UniformIntervals { n_bins: usize, right_closed: bool },
    /// Quantile probabilities in `[0, 1]`, strictly ascending, by the bits of their binary64
    /// representation.
    Quantiles { probs: Vec<u64>, right_closed: bool },
    /// `n_bins` equiprobable bins. Kept distinct from [`BinMethod::Quantiles`] because
    /// `(i + 1) / n_bins` is generally not representable as a float, so expanding it would shift
    /// breakpoints by one element.
    UniformQuantiles { n_bins: usize, right_closed: bool },
    /// Cumulative fractions in `[0, 1]`, strictly ascending, by the bits of their binary64
    /// representation. There is no `right_closed`: bins are delimited by position in sorted
    /// order, so there is no value boundary to close on.
    Ranks { fractions: Vec<u64> },
    /// `n_bins` bins of near-equal size, the first `len % n_bins` of them one larger. Kept
    /// distinct from [`BinMethod::Ranks`] because that distribution is not expressible as uniform
    /// fractions.
    UniformRanks { n_bins: usize },
}

/// What a [`BinMethod`] stands for.
pub enum SpecMethod {
    Intervals { breaks: SpecSeries, right_closed: bool },
    UniformIntervals { n_bins: usize, right_closed: bool },
    Quantiles { probs: Seq<u64>, right_closed: bool },
    UniformQuantiles { n_bins: usize, right_closed: bool },
    Ranks { fractions: Seq<u64> },
    UniformRanks { n_bins: usize },
}

impl View for BinMethod {
    type V = SpecMethod;

    open spec fn view(&self) -> SpecMethod {
        match self {
            BinMethod::Intervals { breaks, right_closed } => SpecMethod::Intervals {
                breaks: breaks@,
                right_closed: *right_closed,
            },
            BinMethod::UniformIntervals { n_bins, right_closed } => SpecMethod::UniformIntervals {
                n_bins: *n_bins,
                right_closed: *right_closed,
            },
            BinMethod::Quantiles { probs, right_closed } => SpecMethod::Quantiles {
                probs: probs@,
                right_closed: *right_closed,
            },
            BinMethod::UniformQuantiles { n_bins, right_closed } => SpecMethod::UniformQuantiles {
                n_bins: *n_bins,
                right_closed: *right_closed,
            },
            BinMethod::Ranks { fractions } => SpecMethod::Ranks { fractions: fractions@ },
            BinMethod::UniformRanks { n_bins } => SpecMethod::UniformRanks { n_bins: *n_bins },
        }
    }
}

/// Whether two lists of floats are equal number by number. A NaN equals nothing.
pub open spec fn equal_floats(a: Seq<u64>, b: Seq<u64>) -> bool {
    &&& a.len() == b.len()
    &&& forall|i: int|
        0 <= i < a.len() ==> !is_nan(#[trigger] a[i]) && float_rank(a[i]) == float_rank(b[i])
}

impl SpecMethod {
    /// The number of bins.
    pub open spec fn n_bins(self) -> nat {
        match self {
            SpecMethod::Intervals { breaks, .. } => breaks.values.len() + 1,
            SpecMethod::Quantiles { probs, .. } => probs.len() + 1,
            SpecMethod::Ranks { fractions } => fractions.len() + 1,
            SpecMethod::UniformIntervals { n_bins, .. } => n_bins as nat,
            SpecMethod::UniformQuantiles { n_bins, .. } => n_bins as nat,
            SpecMethod::UniformRanks { n_bins } => n_bins as nat,
        }
    }

    /// The data type of the reported boundaries.
    pub open spec fn bound_dtype(self, input: SpecDataType) -> SpecDataType {
        match self {
            SpecMethod::Intervals { breaks, .. } => breaks.dtype,
            _ => input,
        }
    }

    /// Whether two methods can be compared: explicit breakpoints are of data types whose values
    /// can be.
    pub open spec fn comparable(self, other: SpecMethod) -> bool {
        match (self, other) {
            (SpecMethod::Intervals { breaks: a, .. }, SpecMethod::Intervals { breaks: b, .. }) =>
                a.dtype.comparable(b.dtype),
            (_, _) => true,
        }
    }

    /// Whether explicit breakpoints are of one data type.
    pub open spec fn same_dtype(self, other: SpecMethod) -> bool {
        match (self, other) {
            (SpecMethod::Intervals { breaks: a, .. }, SpecMethod::Intervals { breaks: b, .. }) =>
                a.dtype == b.dtype,
            (_, _) => true,
        }
    }

    /// Whether two methods are equal.
    pub open spec fn equals(self, other: SpecMethod) -> bool
        recommends
            self.comparable(other),
    {
        match (self, other) {
            (
                SpecMethod::Intervals { breaks: a, right_closed: p },
                SpecMethod::Intervals { breaks: b, right_closed: q },
            ) => a.equals_missing(b) && p == q,
            (
                SpecMethod::Quantiles { probs: a, right_closed: p },
                SpecMethod::Quantiles { probs: b, right_closed: q },
            ) => equal_floats(a, b) && p == q,
            (SpecMethod::Ranks { fractions: a }, SpecMethod::Ranks { fractions: b }) =>
                equal_floats(a, b),
            (SpecMethod::UniformIntervals { .. }, SpecMethod::UniformIntervals { .. }) => self
                == other,
            (SpecMethod::UniformQuantiles { .. }, SpecMethod::UniformQuantiles { .. }) => self
                == other,
            (SpecMethod::UniformRanks { .. }, SpecMethod::UniformRanks { .. }) => self == other,
            (_, _) => false,
        }
    }
}

/// Whether two lists of floats are equal number by number.
fn same_floats(a: &Vec<u64>, b: &Vec<u64>) -> (same: bool)
    ensures
        same == equal_floats(a@, b@),
{
    if a.len() != b.len() {
        return false;
    }
    let mut i: usize = 0;
    while i < a.len()
        invariant
            i <= a.len(),
            a.len() == b.len(),
            forall|j: int|
                0 <= j < i ==> !is_nan(#[trigger] a@[j]) && float_rank(a@[j]) == float_rank(b@[j]),
        decreases a.len() - i,
    {
        if float_key(a[i]) > float_key(INFINITY_BITS) || float_key(a[i]) != float_key(b[i]) {
            assert(is_nan(a@[i as int]) || float_rank(a@[i as int]) != float_rank(b@[i as int]));
            return false;
        }
        i += 1;
    }
    true
}

impl BinMethod {
    /// The explicit breakpoints, if this is [`BinMethod::Intervals`].
    pub fn breaks(&self) -> (breaks: Option<&Series>)
        ensures
            match breaks {
                Some(b) => self@ is Intervals && b@ == self@->breaks,
                None => self@ !is Intervals,
            },
    {
        match self {
            BinMethod::Intervals { breaks, .. } => Some(breaks),
            _ => None,
        }
    }

    /// The number of bins, and therefore the number of labels required.
    pub fn n_bins(&self) -> (n_bins: usize)
        requires
            self@.n_bins() <= usize::MAX,
        ensures
            n_bins == self@.n_bins(),
    {
        match self {
            BinMethod::Intervals { breaks, .. } => breaks.len() + 1,
            BinMethod::Quantiles { probs, .. } => probs.len() + 1,
            BinMethod::Ranks { fractions } => fractions.len() + 1,
            BinMethod::UniformIntervals { n_bins, .. } => *n_bins,
            BinMethod::UniformQuantiles { n_bins, .. } => *n_bins,
            BinMethod::UniformRanks { n_bins } => *n_bins,
        }
    }

    /// The name of the operation.
    pub fn name(&self) -> (name: &'static str)
        ensures
            name@ == match self@ {
                SpecMethod::Intervals { .. } => "bin_intervals"@,
                SpecMethod::UniformIntervals { .. } => "bin_intervals"@,
                SpecMethod::Quantiles { .. } => "bin_quantiles"@,
                SpecMethod::UniformQuantiles { .. } => "bin_quantiles"@,
                SpecMethod::Ranks { .. } => "bin_ranks"@,
                SpecMethod::UniformRanks { .. } => "bin_ranks"@,
            },
    {
        match self {
            BinMethod::Intervals { .. } | BinMethod::UniformIntervals { .. } => "bin_intervals",
            BinMethod::Quantiles { .. } | BinMethod::UniformQuantiles { .. } => "bin_quantiles",
            BinMethod::Ranks { .. } | BinMethod::UniformRanks { .. } => "bin_ranks",
        }
    }

    /// Whether this form needs a numeric input.
    ///
    /// Equal-width bins do arithmetic on the values. The quantile forms only gather values, but
    /// are restricted to numbers anyway. Interval and rank binning accept anything with an order.
    pub fn requires_numeric_input(&self) -> (required: bool)
        ensures
            required == (self@ is UniformIntervals || self@ is Quantiles
                || self@ is UniformQuantiles),
    {
        match self {
            BinMethod::UniformIntervals { .. } => true,
            BinMethod::Quantiles { .. } => true,
            BinMethod::UniformQuantiles { .. } => true,
            _ => false,
        }
    }

    /// The data type of the `left` and `right` interval boundaries.
    pub fn bound_dtype(&self, input: &DataType) -> (dtype: DataType)
        ensures
            dtype@ == self@.bound_dtype(input@),
    {
        match self {
            BinMethod::Intervals { breaks, .. } => breaks.dtype().clone(),
            // Every other form reports boundaries in the data type of the input: equal-width
            // breakpoints are computed in it, and the rest gather values out of the column.
            _ => input.clone(),
        }
    }

    /// Whether two methods can be compared. Breakpoints of two data types that meet in floats, or
    /// of which one is no number, have to be brought to a common one first.
    pub fn is_comparable(&self, other: &BinMethod) -> (comparable: bool)
        ensures
            comparable == self@.comparable(other@),
    {
        match (self, other) {
            (BinMethod::Intervals { breaks: a, .. }, BinMethod::Intervals { breaks: b, .. }) =>
                a.dtype().is_comparable(b.dtype()),
            (_, _) => true,
        }
    }

    /// Whether two methods are equal: of one form, with breakpoints that are equal whatever their
    /// names, and with equal numbers.
    pub fn equals(&self, other: &BinMethod) -> (equal: bool)
        requires
            self@.comparable(other@),
        ensures
            equal == self@.equals(other@),
    {
        match (self, other) {
            (
                BinMethod::Intervals { breaks: a, right_closed: p },
                BinMethod::Intervals { breaks: b, right_closed: q },
            ) => a.equals_missing(b) && *p == *q,
            (
                BinMethod::Quantiles { probs: a, right_closed: p },
                BinMethod::Quantiles { probs: b, right_closed: q },
            ) => same_floats(a, b) && *p == *q,
            (BinMethod::Ranks { fractions: a }, BinMethod::Ranks { fractions: b }) => same_floats(
                a,
                b,
            ),
            (
                BinMethod::UniformIntervals { n_bins: m, right_closed: p },
                BinMethod::UniformIntervals { n_bins: n, right_closed: q },
            ) => *m == *n && *p == *q,
            (
                BinMethod::UniformQuantiles { n_bins: m, right_closed: p },
                BinMethod::UniformQuantiles { n_bins: n, right_closed: q },
            ) => *m == *n && *p == *q,
            (BinMethod::UniformRanks { n_bins: m }, BinMethod::UniformRanks { n_bins: n }) => *m
                == *n,
            (_, _) => false,
        }
    }
}

impl Clone for BinMethod {
    fn clone(&self) -> (copy: BinMethod)
        ensures
            copy@ == self@,
    {
        match self {
            BinMethod::Intervals { breaks, right_closed } => BinMethod::Intervals {
                breaks: breaks.clone(),
                right_closed: *right_closed,
            },
            BinMethod::UniformIntervals { n_bins, right_closed } => BinMethod::UniformIntervals {
                n_bins: *n_bins,
                right_closed: *right_closed,
            },
            BinMethod::Quantiles { probs, right_closed } => {
                let copy: Vec<u64> = probs.clone();
                assert(copy@ =~= probs@);
                BinMethod::Quantiles { probs: copy, right_closed: *right_closed }
            },
            BinMethod::UniformQuantiles { n_bins, right_closed } => BinMethod::UniformQuantiles {
                n_bins: *n_bins,
                right_closed: *right_closed,
            },
            BinMethod::Ranks { fractions } => {
                let copy: Vec<u64> = fractions.clone();
                assert(copy@ =~= fractions@);
                BinMethod::Ranks { fractions: copy }
            },
            BinMethod::UniformRanks { n_bins } => BinMethod::UniformRanks { n_bins: *n_bins },
        }
    }
}

/// One of the things that a method is hashed by, in turn. Values that are equal are the same item.
#[derive(Debug, PartialEq, Eq, Hash)]
pub enum HashItem {
    /// Which form of a method.
    Form(u8),
    /// Which data type, by its kind alone.
    Kind(u8),
    /// The length of what follows, or the number of bins.
    Count(usize),
    /// A null.
    Null,
    /// An integer, by its sign and its magnitude.
    Integer { negative: bool, magnitude: u128 },
    /// A decimal, by the sign and the magnitude of its mantissa, its precision and its scale.
    Decimal { negative: bool, magnitude: u128, precision: usize, scale: usize },
    /// A point in time, by the sign and the magnitude of its ticks, their unit and the time zone.
    Datetime { negative: bool, magnitude: u128, unit: TimeUnit, zone: Option<String> },
    /// A span of time, by the sign and the magnitude of its ticks, and their unit.
    Duration { negative: bool, magnitude: u128, unit: TimeUnit },
    /// A float, by its place in the total order.
    Float(i128),
    /// A byte string.
    Bytes(Vec<u8>),
    /// A float, by its bits.
    Bits(u64),
    /// A string.
    Text(String),
    /// A choice.
    Flag(bool),
}

/// What a [`HashItem`] stands for.
pub enum SpecHashItem {
    Form(u8),
    Kind(u8),
    Count(usize),
    Null,
    Integer(bool, int),
    Decimal(bool, int, usize, usize),
    Datetime(bool, int, TimeUnit, Option<Seq<char>>),
    Duration(bool, int, TimeUnit),
    Float(int),
    Bytes(Seq<u8>),
    Bits(u64),
    Text(Seq<char>),
    Flag(bool),
}

impl View for HashItem {
    type V = SpecHashItem;

    open spec fn view(&self) -> SpecHashItem {
        match self {
            HashItem::Form(form) => SpecHashItem::Form(*form),
            HashItem::Kind(kind) => SpecHashItem::Kind(*kind),
            HashItem::Count(count) => SpecHashItem::Count(*count),
            HashItem::Null => SpecHashItem::Null,
            HashItem::Integer { negative, magnitude } => SpecHashItem::Integer(
                *negative,
                *magnitude as int,
            ),
            HashItem::Decimal { negative, magnitude, precision, scale } => SpecHashItem::Decimal(
                *negative,
                *magnitude as int,
                *precision,
                *scale,
            ),
            HashItem::Datetime { negative, magnitude, unit, zone } => SpecHashItem::Datetime(
                *negative,
                *magnitude as int,
                *unit,
                match zone {
                    Some(z) => Some(z@),
                    None => None,
                },
            ),
            HashItem::Duration { negative, magnitude, unit } => SpecHashItem::Duration(
                *negative,
                *magnitude as int,
                *unit,
            ),
            HashItem::Float(place) => SpecHashItem::Float(*place as int),
            HashItem::Bytes(bytes) => SpecHashItem::Bytes(bytes@),
            HashItem::Bits(bits) => SpecHashItem::Bits(*bits),
            HashItem::Text(text) => SpecHashItem::Text(text@),
            HashItem::Flag(flag) => SpecHashItem::Flag(*flag),
        }
    }
}

/// What a list of items stands for.
pub open spec fn items(list: Seq<HashItem>) -> Seq<SpecHashItem> {
    list.map_values(|item: HashItem| item@)
}

/// The number of the kind of a data type. What a decimal, an enum and the like carry besides does
/// not count; where it belongs to a value, it is hashed with each value.
pub open spec fn kind_of(dtype: SpecDataType) -> u8 {
    match dtype {
        SpecDataType::Boolean => 0,
        SpecDataType::Integer(IntType::UInt8) => 1,
        SpecDataType::Integer(IntType::UInt16) => 2,
        SpecDataType::Integer(IntType::UInt32) => 3,
        SpecDataType::Integer(IntType::UInt64) => 4,
        SpecDataType::Integer(IntType::UInt128) => 5,
        SpecDataType::Integer(IntType::Int8) => 6,
        SpecDataType::Integer(IntType::Int16) => 7,
        SpecDataType::Integer(IntType::Int32) => 8,
        SpecDataType::Integer(IntType::Int64) => 9,
        SpecDataType::Integer(IntType::Int128) => 10,
        SpecDataType::Float(FloatType::Float16) => 11,
        SpecDataType::Float(FloatType::Float32) => 12,
        SpecDataType::Float(FloatType::Float64) => 13,
        SpecDataType::Decimal { .. } => 14,
        SpecDataType::String => 15,
        SpecDataType::Binary => 16,
        SpecDataType::Date => 17,
        SpecDataType::Datetime { .. } => 18,
        SpecDataType::Duration(_) => 19,
        SpecDataType::Time => 20,
        SpecDataType::Categorical { .. } => 21,
        SpecDataType::Enum(_) => 22,
        SpecDataType::Null => 23,
        SpecDataType::Nested { form: NestedForm::List, .. } => 24,
        SpecDataType::Nested { form: NestedForm::Array, .. } => 25,
        SpecDataType::Nested { form: NestedForm::Struct, .. } => 26,
    }
}

/// The item of an integer in a column: with it go the precision and the scale of a decimal, the
/// unit and the zone of a point in time, and the unit of a span of time.
pub open spec fn integer_item(x: int, dtype: SpecDataType) -> SpecHashItem {
    let size = if x < 0 {
        -x
    } else {
        x
    };
    match dtype {
        SpecDataType::Decimal { precision, scale } => SpecHashItem::Decimal(
            x < 0,
            size,
            precision,
            scale,
        ),
        SpecDataType::Datetime { unit, zone } => SpecHashItem::Datetime(x < 0, size, unit, zone),
        SpecDataType::Duration(unit) => SpecHashItem::Duration(x < 0, size, unit),
        _ => SpecHashItem::Integer(x < 0, size),
    }
}

/// The item of a cell of a column.
pub open spec fn cell_item(value: Option<SpecValue>, dtype: SpecDataType) -> SpecHashItem {
    match value {
        Some(SpecValue::Int(x)) => integer_item(x, dtype),
        Some(SpecValue::Float(bits)) => SpecHashItem::Float(float_rank(bits)),
        Some(SpecValue::Bytes(bytes)) => SpecHashItem::Bytes(bytes),
        None => SpecHashItem::Null,
    }
}

/// The leading values of breakpoints that are hashed.
pub open spec fn leading(values: Seq<Option<SpecValue>>) -> Seq<Option<SpecValue>> {
    if values.len() <= CHEAP_SERIES_HASH_LIMIT {
        values
    } else {
        values.take(CHEAP_SERIES_HASH_LIMIT as int)
    }
}

/// The items of a list of floats, behind their number.
pub open spec fn bits_items(floats: Seq<u64>) -> Seq<SpecHashItem> {
    seq![SpecHashItem::Count(floats.len() as usize)] + floats.map_values(
        |bits: u64| SpecHashItem::Bits(bits),
    )
}

impl SpecMethod {
    /// What the method is hashed by: its form, then what it is made of. Of breakpoints these are
    /// the kind of their data type, their number and the leading ones.
    pub open spec fn hash_items(self) -> Seq<SpecHashItem> {
        match self {
            SpecMethod::Intervals { breaks, right_closed } => seq![
                SpecHashItem::Form(0),
                SpecHashItem::Kind(kind_of(breaks.dtype)),
                SpecHashItem::Count(breaks.values.len() as usize),
            ] + leading(breaks.values).map_values(
                |value: Option<SpecValue>| cell_item(value, breaks.dtype),
            ) + seq![SpecHashItem::Flag(right_closed)],
            SpecMethod::UniformIntervals { n_bins, right_closed } => seq![
                SpecHashItem::Form(1),
                SpecHashItem::Count(n_bins),
                SpecHashItem::Flag(right_closed),
            ],
            SpecMethod::Quantiles { probs, right_closed } => seq![SpecHashItem::Form(2)]
                + bits_items(probs) + seq![SpecHashItem::Flag(right_closed)],
            SpecMethod::UniformQuantiles { n_bins, right_closed } => seq![
                SpecHashItem::Form(3),
                SpecHashItem::Count(n_bins),
                SpecHashItem::Flag(right_closed),
            ],
            SpecMethod::Ranks { fractions } => seq![SpecHashItem::Form(4)] + bits_items(fractions),
            SpecMethod::UniformRanks { n_bins } => seq![
                SpecHashItem::Form(5),
                SpecHashItem::Count(n_bins),
            ],
        }
    }
}

/// The number of the kind of a data type.
fn kind(dtype: &DataType) -> (kind: u8)
    ensures
        kind == kind_of(dtype@),
{
    match dtype {
        DataType::Boolean => 0,
        DataType::Integer(IntType::UInt8) => 1,
        DataType::Integer(IntType::UInt16) => 2,
        DataType::Integer(IntType::UInt32) => 3,
        DataType::Integer(IntType::UInt64) => 4,
        DataType::Integer(IntType::UInt128) => 5,
        DataType::Integer(IntType::Int8) => 6,
        DataType::Integer(IntType::Int16) => 7,
        DataType::Integer(IntType::Int32) => 8,
        DataType::Integer(IntType::Int64) => 9,
        DataType::Integer(IntType::Int128) => 10,
        DataType::Float(FloatType::Float16) => 11,
        DataType::Float(FloatType::Float32) => 12,
        DataType::Float(FloatType::Float64) => 13,
        DataType::Decimal { .. } => 14,
        DataType::String => 15,
        DataType::Binary => 16,
        DataType::Date => 17,
        DataType::Datetime { .. } => 18,
        DataType::Duration(_) => 19,
        DataType::Time => 20,
        DataType::Categorical { .. } => 21,
        DataType::Enum(_) => 22,
        DataType::Null => 23,
        DataType::Nested { form: NestedForm::List, .. } => 24,
        DataType::Nested { form: NestedForm::Array, .. } => 25,
        DataType::Nested { form: NestedForm::Struct, .. } => 26,
    }
}

/// The item of an integer in a column, by its sign and its magnitude.
fn hash_integer(negative: bool, magnitude: u128, dtype: &DataType) -> (item: HashItem)
    requires
        negative ==> magnitude > 0,
    ensures
        item@ == integer_item(
            if negative {
                -magnitude
            } else {
                magnitude as int
            },
            dtype@,
        ),
{
    match dtype {
        DataType::Decimal { precision, scale } => HashItem::Decimal {
            negative,
            magnitude,
            precision: *precision,
            scale: *scale,
        },
        DataType::Datetime { unit, zone } => HashItem::Datetime {
            negative,
            magnitude,
            unit: *unit,
            zone: match zone {
                Some(z) => Some(z.clone()),
                None => None,
            },
        },
        DataType::Duration(unit) => HashItem::Duration { negative, magnitude, unit: *unit },
        _ => HashItem::Integer { negative, magnitude },
    }
}

/// The item of a cell of a column.
fn hash_cell(value: Option<&Value>, dtype: &DataType) -> (item: HashItem)
    ensures
        item@ == cell_item(
            match value {
                Some(v) => Some(v@),
                None => None,
            },
            dtype@,
        ),
{
    match value {
        None => HashItem::Null,
        Some(Value::Int(x)) => hash_integer(*x < 0, magnitude(*x), dtype),
        Some(Value::UInt(x)) => hash_integer(false, *x, dtype),
        Some(Value::Float(bits)) => HashItem::Float(float_key(*bits)),
        Some(Value::Bytes(bytes)) => {
            let copy: Vec<u8> = bytes.clone();
            assert(copy@ =~= bytes@);
            HashItem::Bytes(copy)
        },
    }
}

/// Adds an item to a list.
fn feed(list: &mut Vec<HashItem>, item: HashItem)
    ensures
        items(final(list)@) == items(old(list)@).push(item@),
{
    let ghost before = list@;
    list.push(item);
    assert(items(list@) =~= items(before).push(item@));
}

/// Adds the items of a list of floats to a list.
fn feed_bits(list: &mut Vec<HashItem>, floats: &Vec<u64>)
    ensures
        items(final(list)@) == items(old(list)@) + bits_items(floats@),
{
    let ghost before = items(list@);
    feed(list, HashItem::Count(floats.len()));
    let mut i: usize = 0;
    while i < floats.len()
        invariant
            i <= floats.len(),
            items(list@) == before + bits_items(floats@).take(i + 1),
        decreases floats.len() - i,
    {
        feed(list, HashItem::Bits(floats[i]));
        assert(bits_items(floats@).take(i + 2) =~= bits_items(floats@).take(i + 1).push(
            SpecHashItem::Bits(floats@[i as int]),
        ));
        i += 1;
    }
    assert(bits_items(floats@).take(i + 1) =~= bits_items(floats@));
}

impl BinMethod {
    /// What the method is hashed by.
    ///
    /// Taking the leading breakpoints alone keeps this bounded for a pathologically long list of
    /// them, while equal breakpoints still hash equally.
    pub fn hash_items(&self) -> (list: Vec<HashItem>)
        ensures
            items(list@) == self@.hash_items(),
    {
        let mut list: Vec<HashItem> = Vec::new();
        match self {
            BinMethod::Intervals { breaks, right_closed } => {
                let len: usize = breaks.len();
                let hashed: usize = if len <= CHEAP_SERIES_HASH_LIMIT {
                    len
                } else {
                    CHEAP_SERIES_HASH_LIMIT
                };
                feed(&mut list, HashItem::Form(0));
                feed(&mut list, HashItem::Kind(kind(breaks.dtype())));
                feed(&mut list, HashItem::Count(len));
                let ghost head = items(list@);
                let ghost body = leading(breaks@.values).map_values(
                    |value: Option<SpecValue>| cell_item(value, breaks@.dtype),
                );
                let mut i: usize = 0;
                while i < hashed
                    invariant
                        i <= hashed,
                        hashed == body.len(),
                        hashed <= breaks@.values.len(),
                        body == leading(breaks@.values).map_values(
                            |value: Option<SpecValue>| cell_item(value, breaks@.dtype),
                        ),
                        items(list@) == head + body.take(i as int),
                    decreases hashed - i,
                {
                    feed(&mut list, hash_cell(breaks.get(i), breaks.dtype()));
                    assert(body.take(i + 1) =~= body.take(i as int).push(body[i as int]));
                    i += 1;
                }
                feed(&mut list, HashItem::Flag(*right_closed));
                assert(items(list@) =~= self@.hash_items());
            },
            BinMethod::UniformIntervals { n_bins, right_closed } => {
                feed(&mut list, HashItem::Form(1));
                feed(&mut list, HashItem::Count(*n_bins));
                feed(&mut list, HashItem::Flag(*right_closed));
            },
            BinMethod::Quantiles { probs, right_closed } => {
                feed(&mut list, HashItem::Form(2));
                feed_bits(&mut list, probs);
                feed(&mut list, HashItem::Flag(*right_closed));
            },
            BinMethod::UniformQuantiles { n_bins, right_closed } => {
                feed(&mut list, HashItem::Form(3));
                feed(&mut list, HashItem::Count(*n_bins));
                feed(&mut list, HashItem::Flag(*right_closed));
            },
            BinMethod::Ranks { fractions } => {
                feed(&mut list, HashItem::Form(4));
                feed_bits(&mut list, fractions);
            },
            BinMethod::UniformRanks { n_bins } => {
                feed(&mut list, HashItem::Form(5));
                feed(&mut list, HashItem::Count(*n_bins));
            },
        }
        assert(items(list@) =~= self@.hash_items());
        list
    }
}

/// A binning: how the bins are delimited, named and reported.
#[derive(Debug)]
pub struct BinOptions {
    pub method: BinMethod,
    /// `None` asks for the integer bin index.
    pub labels: Option<Vec<String>>,
    pub include_intervals: bool,
}

/// What [`BinOptions`] stand for.
pub struct SpecOptions {
    pub method: SpecMethod,
    pub labels: Option<Seq<Seq<char>>>,
    pub include_intervals: bool,
}

impl View for BinOptions {
    type V = SpecOptions;

    open spec fn view(&self) -> SpecOptions {
        SpecOptions {
            method: self.method@,
            labels: match self.labels {
                Some(labels) => Some(texts(labels@)),
                None => None,
            },
            include_intervals: self.include_intervals,
        }
    }
}

/// The items of labels: whether there are any, and then their number and each of them.
pub open spec fn label_items(labels: Option<Seq<Seq<char>>>) -> Seq<SpecHashItem> {
    match labels {
        Some(l) => seq![SpecHashItem::Flag(true), SpecHashItem::Count(l.len() as usize)]
            + l.map_values(|text: Seq<char>| SpecHashItem::Text(text)),
        None => seq![SpecHashItem::Flag(false)],
    }
}

impl SpecOptions {
    /// Whether two binnings are equal.
    pub open spec fn equals(self, other: SpecOptions) -> bool
        recommends
            self.method.comparable(other.method),
    {
        self.method.equals(other.method) && self.labels == other.labels && self.include_intervals
            == other.include_intervals
    }

    /// What a binning is hashed by.
    pub open spec fn hash_items(self) -> Seq<SpecHashItem> {
        self.method.hash_items() + label_items(self.labels) + seq![
            SpecHashItem::Flag(self.include_intervals),
        ]
    }
}

/// Adds the items of labels to a list.
fn feed_labels(list: &mut Vec<HashItem>, labels: &Option<Vec<String>>)
    ensures
        items(final(list)@) == items(old(list)@) + label_items(
            match labels {
                Some(l) => Some(texts(l@)),
                None => None,
            },
        ),
{
    match labels {
        None => feed(list, HashItem::Flag(false)),
        Some(l) => {
            let ghost before = items(list@);
            let ghost all = label_items(Some(texts(l@)));
            feed(list, HashItem::Flag(true));
            feed(list, HashItem::Count(l.len()));
            assert(all.take(2) =~= seq![
                SpecHashItem::Flag(true),
                SpecHashItem::Count(l.len()),
            ]);
            let mut i: usize = 0;
            while i < l.len()
                invariant
                    i <= l.len(),
                    all == label_items(Some(texts(l@))),
                    items(list@) == before + all.take(i + 2),
                decreases l.len() - i,
            {
                feed(list, HashItem::Text(l[i].clone()));
                assert(all.take(i + 3) =~= all.take(i + 2).push(all[i + 2]));
                i += 1;
            }
            assert(all.take(i + 2) =~= all);
        },
    }
}

impl BinOptions {
    /// Whether two binnings are equal: by equal methods, with the same labels, reported alike.
    pub fn equals(&self, other: &BinOptions) -> (equal: bool)
        requires
            self@.method.comparable(other@.method),
        ensures
            equal == self@.equals(other@),
    {
        let same_labels: bool = match (&self.labels, &other.labels) {
            (Some(a), Some(b)) => same_texts(a, b),
            (None, None) => true,
            (_, _) => false,
        };
        self.method.equals(&other.method) && same_labels && self.include_intervals
            == other.include_intervals
    }

    /// What a binning is hashed by.
    pub fn hash_items(&self) -> (list: Vec<HashItem>)
        ensures
            items(list@) == self@.hash_items(),
    {
        let mut list: Vec<HashItem> = self.method.hash_items();
        feed_labels(&mut list, &self.labels);
        feed(&mut list, HashItem::Flag(self.include_intervals));
        assert(items(list@) =~= self@.hash_items());
        list
    }
}

impl Clone for BinOptions {
    fn clone(&self) -> (copy: BinOptions)
        ensures
            copy@ == self@,
    {
        let labels: Option<Vec<String>> = match &self.labels {
            Some(labels) => Some(copy_texts(labels.as_slice())),
            None => None,
        };
        BinOptions {
            method: self.method.clone(),
            labels,
            include_intervals: self.include_intervals,
        }
    }
}

/// Whether none of a list of floats is the negative zero.
pub open spec fn no_negative_zero(floats: Seq<u64>) -> bool {
    forall|i: int| 0 <= i < floats.len() ==> (#[trigger] floats[i]) != SIGN_BIT
}

impl SpecMethod {
    /// Whether none of the fractions is the negative zero, which equals the positive one but has
    /// other bits.
    pub open spec fn no_negative_zero(self) -> bool {
        match self {
            SpecMethod::Quantiles { probs, .. } => no_negative_zero(probs),
            SpecMethod::Ranks { fractions } => no_negative_zero(fractions),
            _ => true,
        }
    }
}

/// Equal cells are hashed by the same item.
proof fn lemma_equal_cells_hash_equally(
    a: Option<SpecValue>,
    b: Option<SpecValue>,
    dtype: SpecDataType,
)
    requires
        equal_cells(a, b),
    ensures
        cell_item(a, dtype) == cell_item(b, dtype),
{
    if let (Some(SpecValue::Bytes(x)), Some(SpecValue::Bytes(y))) = (a, b) {
        lemma_bytes_trichotomy(x, y);
    }
}

/// Equal floats other than zeros have the same bits.
proof fn lemma_equal_floats_same_bits(a: Seq<u64>, b: Seq<u64>)
    requires
        equal_floats(a, b),
        no_negative_zero(a),
        no_negative_zero(b),
    ensures
        a == b,
{
    assert forall|i: int| 0 <= i < a.len() implies a[i] == b[i] by {
        assert(a[i] != SIGN_BIT && b[i] != SIGN_BIT);
        assert(!is_nan(a[i]) && float_rank(a[i]) == float_rank(b[i]));
    }
    assert(a =~= b);
}

/// Equal methods hash equally: equal breakpoints of one data type in particular, whatever their
/// names.
pub proof fn law_equal_methods_hash_equally(a: SpecMethod, b: SpecMethod)
    requires
        a.same_dtype(b),
        a.equals(b),
        a.no_negative_zero(),
        b.no_negative_zero(),
    ensures
        a.hash_items() == b.hash_items(),
{
    match (a, b) {
        (SpecMethod::Intervals { breaks: x, .. }, SpecMethod::Intervals { breaks: y, .. }) => {
            let f = |value: Option<SpecValue>| cell_item(value, x.dtype);
            assert forall|i: int| 0 <= i < leading(x.values).len() implies f(
                #[trigger] leading(x.values)[i],
            ) == f(leading(y.values)[i]) by {
                assert(equal_numbers(
                    x.values[i],
                    x.dtype.scale(),
                    y.values[i],
                    y.dtype.scale(),
                ));
                lemma_equal_numbers_of_one_scale(x.values[i], y.values[i], x.dtype.scale());
                lemma_equal_cells_hash_equally(x.values[i], y.values[i], x.dtype);
            }
            assert(leading(x.values).map_values(f) =~= leading(y.values).map_values(f));
        },
        (SpecMethod::Quantiles { probs: x, .. }, SpecMethod::Quantiles { probs: y, .. }) => {
            lemma_equal_floats_same_bits(x, y);
        },
        (SpecMethod::Ranks { fractions: x }, SpecMethod::Ranks { fractions: y }) => {
            lemma_equal_floats_same_bits(x, y);
        },
        (_, _) => {},
    }
}

/// Equal binnings hash equally.
pub proof fn law_equal_options_hash_equally(a: SpecOptions, b: SpecOptions)
    requires
        a.method.same_dtype(b.method),
        a.equals(b),
        a.method.no_negative_zero(),
        b.method.no_negative_zero(),
    ensures
        a.hash_items() == b.hash_items(),
{
    law_equal_methods_hash_equally(a.method, b.method);
}

/// Hashing explicit breakpoints is bounded, however many there are: only the leading ones and
/// four items more are hashed.
pub proof fn law_hashing_breaks_is_bounded(breaks: SpecSeries, right_closed: bool)
    ensures
        (SpecMethod::Intervals { breaks, right_closed }).hash_items().len()
            <= CHEAP_SERIES_HASH_LIMIT + 4,
{
}

} // verus!
