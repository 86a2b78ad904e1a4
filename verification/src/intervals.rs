//! Equal-width breakpoints over the range of an integer column.

use vstd::arithmetic::div_mod::{
    lemma_div_is_ordered, lemma_fundamental_div_mod, lemma_fundamental_div_mod_converse,
};
use vstd::arithmetic::mul::lemma_mul_inequality;
use vstd::prelude::*;

use crate::dtype::{IntType, LENGTH_LIMIT};
use crate::ordered_bits::OrderedBits;
use crate::series::{cell, cells, nulls, Series, SpecSeries};
use crate::value::{lemma_value_order, value_le, value_lt, SpecValue, Value};

verus! {

/// The integer threshold that stands for breakpoint `i` of `n` equal-width bins over
/// `[min, max]`, whose exact place is `min + i * (max - min) / n`: the next integer below it
/// where bins are closed on the right, the next one above it where they are closed on the left.
pub open spec fn threshold(min: int, max: int, n: int, i: int, right_closed: bool) -> int {
    if right_closed {
        min + (i * (max - min)) / n
    } else {
        min + (i * (max - min) + n - 1) / n
    }
}

/// The least value of a column, `None` where all are null.
pub open spec fn least(values: Seq<Option<SpecValue>>) -> Option<SpecValue>
    decreases values.len(),
{
    if values.len() == 0 {
        None
    } else {
        match (least(values.drop_last()), values.last()) {
            (Some(m), Some(v)) => if value_lt(v, m) {
                Some(v)
            } else {
                Some(m)
            },
            (Some(m), None) => Some(m),
            (None, last) => last,
        }
    }
}

/// The greatest value of a column, `None` where all are null.
pub open spec fn greatest(values: Seq<Option<SpecValue>>) -> Option<SpecValue>
    decreases values.len(),
{
    if values.len() == 0 {
        None
    } else {
        match (greatest(values.drop_last()), values.last()) {
            (Some(m), Some(v)) => if value_lt(m, v) {
                Some(v)
            } else {
                Some(m)
            },
            (Some(m), None) => Some(m),
            (None, last) => last,
        }
    }
}

/// The values of `n_bins - 1` equal-width breakpoints over the range of a column.
pub open spec fn uniform_thresholds(
    values: Seq<Option<SpecValue>>,
    n_bins: int,
    right_closed: bool,
) -> Seq<Option<SpecValue>> {
    match (least(values), greatest(values)) {
        (Some(SpecValue::Int(min)), Some(SpecValue::Int(max))) => Seq::new(
            (n_bins - 1) as nat,
            |i: int| Some(SpecValue::Int(threshold(min, max, n_bins, i + 1, right_closed))),
        ),
        (_, _) => nulls((n_bins - 1) as nat),
    }
}

/// The breakpoints of `n_bins` equal-width bins over the range of a column, of its data type.
pub open spec fn uniform_breaks(s: SpecSeries, n_bins: int, right_closed: bool) -> SpecSeries {
    SpecSeries {
        name: s.name,
        dtype: s.dtype,
        values: uniform_thresholds(s.values, n_bins, right_closed),
    }
}

/// The least and the greatest value are values of the column, no value lies outside of them,
/// and both are missing exactly where all are null.
pub proof fn lemma_extremes(values: Seq<Option<SpecValue>>)
    ensures
        least(values) is Some <==> greatest(values) is Some,
        least(values) is None <==> forall|i: int|
            0 <= i < values.len() ==> (#[trigger] values[i]) is None,
        least(values) is Some ==> values.contains(least(values)),
        greatest(values) is Some ==> values.contains(greatest(values)),
        forall|i: int|
            0 <= i < values.len() && (#[trigger] values[i]) is Some ==> value_le(
                least(values)->Some_0,
                values[i]->Some_0,
            ) && value_le(values[i]->Some_0, greatest(values)->Some_0),
    decreases values.len(),
{
    if values.len() > 0 {
        let init = values.drop_last();
        let last = values.len() - 1;
        lemma_extremes(init);
        assert(forall|i: int| 0 <= i < init.len() ==> init[i] == values[i]);
        assert(values.last() == values[last]);
        if least(init) is Some {
            let i = choose|i: int| 0 <= i < init.len() && init[i] == least(init);
            assert(values[i] == least(init));
            let j = choose|j: int| 0 <= j < init.len() && init[j] == greatest(init);
            assert(values[j] == greatest(init));
        }
        assert forall|i: int|
            0 <= i < values.len() && (#[trigger] values[i]) is Some implies value_le(
            least(values)->Some_0,
            values[i]->Some_0,
        ) && value_le(values[i]->Some_0, greatest(values)->Some_0) by {
            let v = values[i]->Some_0;
            if i < last {
                assert(init[i] is Some);
                lemma_value_order(least(values)->Some_0, least(init)->Some_0, v);
                lemma_value_order(v, greatest(init)->Some_0, greatest(values)->Some_0);
                if values[last] is Some {
                    let w = values[last]->Some_0;
                    lemma_value_order(w, least(init)->Some_0, w);
                    lemma_value_order(greatest(init)->Some_0, w, w);
                    lemma_value_order(least(init)->Some_0, w, w);
                }
            } else {
                lemma_value_order(v, v, v);
                if least(init) is Some {
                    lemma_value_order(v, least(init)->Some_0, v);
                    lemma_value_order(greatest(init)->Some_0, v, v);
                }
            }
        }
        if least(values) is None {
            assert forall|i: int| 0 <= i < values.len() implies (#[trigger] values[i]) is None by {
                if i < last {
                    assert(init[i] is None);
                }
            }
        }
        if forall|i: int| 0 <= i < values.len() ==> (#[trigger] values[i]) is None {
            assert forall|i: int| 0 <= i < init.len() implies (#[trigger] init[i]) is None by {
                assert(values[i] is None);
            }
            assert(values[last] is None);
        }
    }
}

/// Thresholds never descend.
pub proof fn lemma_thresholds_ascend(
    min: int,
    max: int,
    n: int,
    i: int,
    j: int,
    right_closed: bool,
)
    requires
        min <= max,
        0 < n,
        i <= j,
    ensures
        threshold(min, max, n, i, right_closed) <= threshold(min, max, n, j, right_closed),
{
    lemma_mul_inequality(i, j, max - min);
    lemma_div_is_ordered(i * (max - min), j * (max - min), n);
    lemma_div_is_ordered(i * (max - min) + n - 1, j * (max - min) + n - 1, n);
}

/// Every threshold of bins over `[min, max]` lies in `[min, max]`.
pub proof fn lemma_threshold_in_range(min: int, max: int, n: int, i: int, right_closed: bool)
    requires
        min <= max,
        0 <= i <= n,
        0 < n,
    ensures
        min <= threshold(min, max, n, i, right_closed) <= max,
{
    let d = i * (max - min);
    assert(0 <= d <= n * (max - min)) by (nonlinear_arith)
        requires
            0 <= i <= n,
            min <= max,
            d == i * (max - min),
    ;
    assert(0 <= d / n <= max - min && 0 <= (d + n - 1) / n <= max - min) by (nonlinear_arith)
        requires
            0 <= d <= n * (max - min),
            0 < n,
    ;
}

/// One step of quotient and remainder accumulation: from the quotient and the remainder of
/// `i * span` by `n` to those of `(i + 1) * span`.
proof fn lemma_accumulate(span: int, n: int, i: int)
    requires
        0 <= span,
        0 < n,
        0 <= i,
    ensures
        (i + 1) * span == i * span + span,
        ((i * span) % n + span % n >= n) ==> {
            &&& ((i + 1) * span) / n == (i * span) / n + span / n + 1
            &&& ((i + 1) * span) % n == (i * span) % n + span % n - n
        },
        ((i * span) % n + span % n < n) ==> {
            &&& ((i + 1) * span) / n == (i * span) / n + span / n
            &&& ((i + 1) * span) % n == (i * span) % n + span % n
        },
        0 <= (i * span) / n,
{
    let a = i * span;
    let b = (i + 1) * span;
    let (q, r) = (a / n, a % n);
    let (p, s) = (span / n, span % n);
    assert(b == a + span && 0 <= a) by (nonlinear_arith)
        requires
            a == i * span,
            b == (i + 1) * span,
            0 <= i,
            0 <= span,
    ;
    lemma_fundamental_div_mod(a, n);
    lemma_fundamental_div_mod(span, n);
    assert(0 <= q) by (nonlinear_arith)
        requires
            q == a / n,
            0 <= a,
            0 < n,
    ;
    if r + s >= n {
        assert(b == (q + p + 1) * n + (r + s - n)) by (nonlinear_arith)
            requires
                b == a + span,
                a == n * q + r,
                span == n * p + s,
        ;
        lemma_fundamental_div_mod_converse(b, n, q + p + 1, r + s - n);
    } else {
        assert(b == (q + p) * n + (r + s)) by (nonlinear_arith)
            requires
                b == a + span,
                a == n * q + r,
                span == n * p + s,
        ;
        lemma_fundamental_div_mod_converse(b, n, q + p, r + s);
    }
}

/// The ceiling of a quotient from its floor and the remainder.
proof fn lemma_ceiling(d: int, n: int)
    requires
        0 <= d,
        0 < n,
    ensures
        (d + n - 1) / n == d / n + if d % n != 0 {
            1int
        } else {
            0int
        },
{
    let (q, r) = (d / n, d % n);
    lemma_fundamental_div_mod(d, n);
    if r != 0 {
        assert(d + n - 1 == (q + 1) * n + (r - 1)) by (nonlinear_arith)
            requires
                d == n * q + r,
        ;
        lemma_fundamental_div_mod_converse(d + n - 1, n, q + 1, r - 1);
    } else {
        assert(d + n - 1 == q * n + (n - 1)) by (nonlinear_arith)
            requires
                d == n * q + r,
                r == 0,
        ;
        lemma_fundamental_div_mod_converse(d + n - 1, n, q, n - 1);
    }
}

/// Representable thresholds for equal-width bins over `[min, max]`.
///
/// The exact breakpoints need not be integers. For left-closed bins the equivalent threshold is
/// their ceiling; for right-closed bins it is their floor. Quotient and remainder are
/// accumulated, which neither overflows nor rounds.
pub fn uniform_integer_thresholds<N: OrderedBits>(
    min: N,
    max: N,
    n_bins: usize,
    right_closed: bool,
) -> (thresholds: Vec<N>)
    requires
        min.value() <= max.value(),
        n_bins >= 1,
    ensures
        thresholds.len() == n_bins - 1,
        forall|i: int|
            0 <= i < thresholds.len() ==> (#[trigger] thresholds@[i]).value() == threshold(
                min.value(),
                max.value(),
                n_bins as int,
                i + 1,
                right_closed,
            ),
{
    let n: u128 = n_bins as u128;
    let lowest: u128 = min.to_ordered();
    proof {
        min.lemma_in_range();
        max.lemma_in_range();
        N::lemma_type_range();
    }
    let span: u128 = max.to_ordered() - lowest;
    let step: u128 = span / n;
    let remainder: u128 = span % n;
    let mut offset: u128 = 0;
    let mut error: u128 = 0;
    let mut thresholds: Vec<N> = Vec::new();
    let mut i: usize = 1;
    proof {
        assert((0 * span as int) == 0 && 0int / (n as int) == 0 && 0int % (n as int) == 0)
            by (nonlinear_arith)
            requires
                n > 0,
        ;
    }
    while i < n_bins
        invariant
            1 <= i <= n_bins,
            n == n_bins,
            n <= u64::MAX,
            lowest == min.value() - N::lowest(),
            span == max.value() - min.value(),
            step == span as int / n as int,
            remainder == span as int % n as int,
            max.value() < N::lowest() + N::cardinality(),
            N::lowest() <= min.value(),
            N::cardinality() <= 0x1_0000_0000_0000_0000_0000_0000_0000_0000int,
            thresholds.len() == i - 1,
            offset == ((i - 1) * (span as int)) / (n as int),
            error == ((i - 1) * (span as int)) % (n as int),
            error < n,
            forall|j: int|
                0 <= j < thresholds.len() ==> (#[trigger] thresholds@[j]).value() == threshold(
                    min.value(),
                    max.value(),
                    n_bins as int,
                    j + 1,
                    right_closed,
                ),
        decreases n_bins - i,
    {
        proof {
            lemma_accumulate(span as int, n as int, i - 1);
            lemma_threshold_in_range(0, span as int, n as int, i as int, true);
            lemma_threshold_in_range(0, span as int, n as int, i as int, false);
            lemma_ceiling(i * (span as int), n as int);
            assert(0 <= i * (span as int)) by (nonlinear_arith)
                requires
                    i >= 0,
                    span >= 0,
            ;
            assert(0 <= (i * (span as int)) % (n as int) < n) by (nonlinear_arith)
                requires
                    n > 0,
            ;
            assert(0 <= remainder < n) by (nonlinear_arith)
                requires
                    n > 0,
                    remainder == span as int % n as int,
            ;
        }
        offset = offset + step;
        error = error + remainder;
        if error >= n {
            offset = offset + 1;
            error = error - n;
        }
        let round_up: bool = !right_closed && error != 0;
        let place: u128 = lowest + offset + if round_up {
            1
        } else {
            0
        };
        proof {
            assert(place as int % N::cardinality() == place) by (nonlinear_arith)
                requires
                    0 <= place < N::cardinality(),
            ;
        }
        thresholds.push(N::from_ordered(place));
        i += 1;
    }
    thresholds
}

/// An integer type whose values stand in columns.
pub trait Native: OrderedBits {
    /// The integer that a value holds.
    fn read(value: &Value) -> (v: Self)
        requires
            value@ is Int,
            Self::lowest() <= value@->Int_0 < Self::lowest() + Self::cardinality(),
        ensures
            v.value() == value@->Int_0,
    ;

    /// The value that holds the integer.
    fn write(self) -> (value: Value)
        ensures
            value@ == SpecValue::Int(self.value()),
    ;
}

impl Native for i8 {
    fn read(value: &Value) -> (v: Self) {
        match value {
            Value::Int(v) => *v as i8,
            Value::UInt(v) => *v as i8,
            _ => 0,
        }
    }

    fn write(self) -> (value: Value) {
        Value::Int(self as i128)
    }
}

impl Native for u8 {
    fn read(value: &Value) -> (v: Self) {
        match value {
            Value::Int(v) => *v as u8,
            Value::UInt(v) => *v as u8,
            _ => 0,
        }
    }

    fn write(self) -> (value: Value) {
        Value::UInt(self as u128)
    }
}

impl Native for i16 {
    fn read(value: &Value) -> (v: Self) {
        match value {
            Value::Int(v) => *v as i16,
            Value::UInt(v) => *v as i16,
            _ => 0,
        }
    }

    fn write(self) -> (value: Value) {
        Value::Int(self as i128)
    }
}

impl Native for u16 {
    fn read(value: &Value) -> (v: Self) {
        match value {
            Value::Int(v) => *v as u16,
            Value::UInt(v) => *v as u16,
            _ => 0,
        }
    }

    fn write(self) -> (value: Value) {
        Value::UInt(self as u128)
    }
}

impl Native for i32 {
    fn read(value: &Value) -> (v: Self) {
        match value {
            Value::Int(v) => *v as i32,
            Value::UInt(v) => *v as i32,
            _ => 0,
        }
    }

    fn write(self) -> (value: Value) {
        Value::Int(self as i128)
    }
}

impl Native for u32 {
    fn read(value: &Value) -> (v: Self) {
        match value {
            Value::Int(v) => *v as u32,
            Value::UInt(v) => *v as u32,
            _ => 0,
        }
    }

    fn write(self) -> (value: Value) {
        Value::UInt(self as u128)
    }
}

impl Native for i64 {
    fn read(value: &Value) -> (v: Self) {
        match value {
            Value::Int(v) => *v as i64,
            Value::UInt(v) => *v as i64,
            _ => 0,
        }
    }

    fn write(self) -> (value: Value) {
        Value::Int(self as i128)
    }
}

impl Native for u64 {
    fn read(value: &Value) -> (v: Self) {
        match value {
            Value::Int(v) => *v as u64,
            Value::UInt(v) => *v as u64,
            _ => 0,
        }
    }

    fn write(self) -> (value: Value) {
        Value::UInt(self as u128)
    }
}

impl Native for i128 {
    fn read(value: &Value) -> (v: Self) {
        match value {
            Value::Int(v) => *v,
            Value::UInt(v) => *v as i128,
            _ => 0,
        }
    }

    fn write(self) -> (value: Value) {
        Value::Int(self)
    }
}

impl Native for u128 {
    fn read(value: &Value) -> (v: Self) {
        match value {
            Value::Int(v) => *v as u128,
            Value::UInt(v) => *v,
            _ => 0,
        }
    }

    fn write(self) -> (value: Value) {
        Value::UInt(self)
    }
}

/// The cells of the breakpoints of equal-width bins between two values of an integer type.
fn native_breaks<N: Native>(min: &Value, max: &Value, n_bins: usize, right_closed: bool) -> (values:
    Vec<Option<Value>>)
    requires
        min@ is Int,
        max@ is Int,
        N::lowest() <= min@->Int_0 <= max@->Int_0 < N::lowest() + N::cardinality(),
        n_bins >= 1,
    ensures
        cells(values@) =~= Seq::new(
            (n_bins - 1) as nat,
            |i: int|
                Some(
                    SpecValue::Int(
                        threshold(min@->Int_0, max@->Int_0, n_bins as int, i + 1, right_closed),
                    ),
                ),
        ),
{
    let thresholds: Vec<N> = uniform_integer_thresholds(
        N::read(min),
        N::read(max),
        n_bins,
        right_closed,
    );
    let mut values: Vec<Option<Value>> = Vec::new();
    let mut i: usize = 0;
    while i < thresholds.len()
        invariant
            i <= thresholds.len(),
            values.len() == i,
            forall|j: int|
                0 <= j < i ==> cell(#[trigger] values@[j]) == Some(
                    SpecValue::Int(thresholds@[j].value()),
                ),
        decreases thresholds.len() - i,
    {
        values.push(Some(thresholds[i].write()));
        i += 1;
    }
    values
}

/// The least and the greatest value of a column, `None` where all are null.
fn extremes(s: &Series) -> (range: Option<(Value, Value)>)
    ensures
        match range {
            Some((min, max)) => least(s@.values) == Some(min@) && greatest(s@.values) == Some(max@),
            None => least(s@.values) is None && greatest(s@.values) is None,
        },
{
    let len: usize = s.len();
    let mut range: Option<(&Value, &Value)> = None;
    let mut i: usize = 0;
    while i < len
        invariant
            i <= len,
            len == s@.values.len(),
            match range {
                Some((min, max)) => least(s@.values.take(i as int)) == Some(min@) && greatest(
                    s@.values.take(i as int),
                ) == Some(max@),
                None => least(s@.values.take(i as int)) is None && greatest(
                    s@.values.take(i as int),
                ) is None,
            },
        decreases len - i,
    {
        assert(s@.values.take(i + 1).drop_last() =~= s@.values.take(i as int));
        assert(s@.values.take(i + 1).last() == s@.values[i as int]);
        if let Some(v) = s.get(i) {
            range = match range {
                Some((min, max)) => Some(
                    (
                        if v.lt(min) {
                            v
                        } else {
                            min
                        },
                        if max.lt(v) {
                            v
                        } else {
                            max
                        },
                    ),
                ),
                None => Some((v, v)),
            };
        }
        i += 1;
    }
    assert(s@.values.take(len as int) =~= s@.values);
    match range {
        Some((min, max)) => Some((min.clone(), max.clone())),
        None => None,
    }
}

/// Breakpoints at `min + (i + 1) / n_bins * (max - min)` for `0 <= i < n_bins - 1`, in the
/// input's data type, rounded as [`uniform_integer_thresholds`] does; all null where the column
/// has no least and greatest value.
pub fn uniform_interval_breaks(s: &Series, n_bins: usize, right_closed: bool) -> (breaks: Series)
    requires
        s@.dtype.physical() is Some,
        1 <= n_bins <= LENGTH_LIMIT,
    ensures
        breaks@ == uniform_breaks(s@, n_bins as int, right_closed),
{
    proof {
        use_type_invariant(s);
        lemma_extremes(s@.values);
    }
    let (min, max) = match extremes(s) {
        Some((min, max)) => (min, max),
        None => return Series::full_null(s.name().clone(), n_bins - 1, s.dtype().clone()),
    };
    proof {
        let i = choose|i: int| 0 <= i < s@.values.len() && s@.values[i] == least(s@.values);
        let j = choose|j: int| 0 <= j < s@.values.len() && s@.values[j] == greatest(s@.values);
        assert(s@.values[i] is Some && s@.values[j] is Some);
        assert(value_le(min@, max@)) by {
            assert(value_le(least(s@.values)->Some_0, s@.values[j]->Some_0));
        }
    }
    let physical: IntType = match s.dtype().physical() {
        Some(t) => t,
        None => IntType::Int128,
    };
    let values: Vec<Option<Value>> = match physical {
        IntType::Int8 => native_breaks::<i8>(&min, &max, n_bins, right_closed),
        IntType::Int16 => native_breaks::<i16>(&min, &max, n_bins, right_closed),
        IntType::Int32 => native_breaks::<i32>(&min, &max, n_bins, right_closed),
        IntType::Int64 => native_breaks::<i64>(&min, &max, n_bins, right_closed),
        IntType::Int128 => native_breaks::<i128>(&min, &max, n_bins, right_closed),
        IntType::UInt8 => native_breaks::<u8>(&min, &max, n_bins, right_closed),
        IntType::UInt16 => native_breaks::<u16>(&min, &max, n_bins, right_closed),
        IntType::UInt32 => native_breaks::<u32>(&min, &max, n_bins, right_closed),
        IntType::UInt64 => native_breaks::<u64>(&min, &max, n_bins, right_closed),
        IntType::UInt128 => native_breaks::<u128>(&min, &max, n_bins, right_closed),
    };
    proof {
        let (lo, hi) = (min@->Int_0, max@->Int_0);
        assert forall|i: int| 0 <= i < n_bins - 1 implies s@.dtype.admits(
            #[trigger] cells(values@)[i]->Some_0,
        ) by {
            lemma_threshold_in_range(lo, hi, n_bins as int, i + 1, right_closed);
        }
        assert(cells(values@) =~= uniform_thresholds(s@.values, n_bins as int, right_closed));
    }
    Series::from_values(s.name().clone(), s.dtype().clone(), values)
}

} // verus!
