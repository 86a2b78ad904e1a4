//! Casts between exact numbers.

use polars_core::prelude::DataType::{
    Int128, Int16, Int32, Int64, Int8, UInt128, UInt16, UInt32, UInt64, UInt8,
};
use polars_core::prelude::{Int128Chunked, IntoSeries, NewChunkedArray, PlSmallStr, PolarsError};
use vstd::arithmetic::power::{lemma_pow0, lemma_pow_increases, lemma_pow_positive, pow};
use vstd::prelude::*;

use crate::dtype::{
    fits_precision, lemma_largest_power, DataType, IntType, SpecDataType, LENGTH_LIMIT,
    MAX_PRECISION,
};
use crate::error::BinError;
use crate::series::{cell, cells, Series, SpecSeries};
use crate::value::{SpecValue, Value};

verus! {

/// The type of an exact number.
#[derive(Clone, Copy, Debug, PartialEq, Eq, Structural)]
pub enum Number {
    Int8,
    Int16,
    Int32,
    Int64,
    Int128,
    UInt8,
    UInt16,
    UInt32,
    UInt64,
    UInt128,
    Decimal(usize, usize),
}

impl Number {
    /// The integer type, for all but decimals.
    pub open spec fn integer(self) -> Option<IntType> {
        match self {
            Number::Int8 => Some(IntType::Int8),
            Number::Int16 => Some(IntType::Int16),
            Number::Int32 => Some(IntType::Int32),
            Number::Int64 => Some(IntType::Int64),
            Number::Int128 => Some(IntType::Int128),
            Number::UInt8 => Some(IntType::UInt8),
            Number::UInt16 => Some(IntType::UInt16),
            Number::UInt32 => Some(IntType::UInt32),
            Number::UInt64 => Some(IntType::UInt64),
            Number::UInt128 => Some(IntType::UInt128),
            Number::Decimal(_, _) => None,
        }
    }

    /// Whether an integer is a value of the type, or the mantissa of one.
    pub open spec fn holds(self, x: int) -> bool {
        match self {
            Number::Decimal(precision, _) => fits_precision(x, precision as nat),
            _ => self.integer()->Some_0.has(x),
        }
    }

    /// Whether the precision and the scale of a decimal are in their ranges.
    pub open spec fn valid(self) -> bool {
        match self {
            Number::Decimal(precision, scale) => 1 <= precision <= MAX_PRECISION && scale
                <= precision,
            _ => true,
        }
    }
}

/// The type of the exact numbers of a data type.
pub open spec fn number_of(dtype: SpecDataType) -> Number {
    match dtype {
        SpecDataType::Integer(IntType::Int8) => Number::Int8,
        SpecDataType::Integer(IntType::Int16) => Number::Int16,
        SpecDataType::Integer(IntType::Int32) => Number::Int32,
        SpecDataType::Integer(IntType::Int64) => Number::Int64,
        SpecDataType::Integer(IntType::Int128) => Number::Int128,
        SpecDataType::Integer(IntType::UInt8) => Number::UInt8,
        SpecDataType::Integer(IntType::UInt16) => Number::UInt16,
        SpecDataType::Integer(IntType::UInt32) => Number::UInt32,
        SpecDataType::Integer(IntType::UInt64) => Number::UInt64,
        SpecDataType::Integer(IntType::UInt128) => Number::UInt128,
        SpecDataType::Decimal { precision, scale } => Number::Decimal(precision, scale),
        _ => Number::Int128,
    }
}

/// The integer nearest to a quotient, the even one where two are equally near.
pub open spec fn round_half_even(x: int, d: int) -> int {
    let (q, r) = (x / d, x % d);
    if 2 * r < d || (2 * r == d && q % 2 == 0) {
        q
    } else {
        q + 1
    }
}

/// An exact number cast to another type, integers by their value and decimals by their mantissa.
/// The fraction of a decimal is rounded where the type has fewer digits behind the point, and
/// what the type cannot hold is lost.
pub open spec fn recast(x: int, from: Number, to: Number) -> Option<int> {
    let old_scale = match from {
        Number::Decimal(_, scale) => scale as int,
        _ => 0,
    };
    let new_scale = match to {
        Number::Decimal(_, scale) => scale as int,
        _ => 0,
    };
    let y = if new_scale >= old_scale {
        x * pow(10, (new_scale - old_scale) as nat)
    } else {
        round_half_even(x, pow(10, (old_scale - new_scale) as nat))
    };
    if to.holds(y) {
        Some(y)
    } else {
        None
    }
}

/// `Series::cast` of `polars_core`, on a column of exact numbers. Trusted: between valid exact
/// types a cast succeeds and casts every value by itself. An integer keeps its value, a decimal
/// is multiplied or divided by a power of ten to meet the new scale, in a division rounding half
/// to even, and what the type does not hold becomes null.
#[verifier::external_body]
fn cast_numbers(values: &Vec<Option<i128>>, from: Number, to: Number) -> (cast: Result<
    Vec<Option<i128>>,
    PolarsError,
>)
    requires
        values.len() < LENGTH_LIMIT,
        from.valid(),
        to.valid(),
        forall|i: int|
            0 <= i < values.len() && (#[trigger] values@[i]) is Some ==> from.holds(
                values@[i]->Some_0 as int,
            ),
    ensures
        cast is Ok,
        stored_cells(cast->Ok_0@) == values@.map_values(
            |value: Option<i128>|
                match value {
                    Some(x) => match recast(x as int, from, to) {
                        Some(y) => Some(SpecValue::Int(y)),
                        None => None,
                    },
                    None => None,
                },
        ),
{
    let stored = Int128Chunked::from_slice_options(PlSmallStr::EMPTY, values);
    let column = match from {
        Number::Decimal(p, s) => stored.into_decimal_unchecked(p, s).into_series(),
        _ => stored.into_series(),
    };
    let dtype = match to {
        Number::Int8 => Int8, Number::Int16 => Int16, Number::Int32 => Int32,
        Number::Int64 => Int64, Number::Int128 => Int128, Number::UInt8 => UInt8,
        Number::UInt16 => UInt16, Number::UInt32 => UInt32, Number::UInt64 => UInt64,
        Number::UInt128 => UInt128,
        Number::Decimal(p, s) => polars_core::prelude::DataType::Decimal(p, s),
    };
    let cast = column.cast(&dtype)?.to_physical_repr().cast(&Int128)?;
    Ok(cast.i128()?.iter().collect())
}

/// The type of the exact numbers of a data type.
fn number(dtype: &DataType) -> (number: Number)
    ensures
        number == number_of(dtype@),
{
    match dtype {
        DataType::Integer(IntType::Int8) => Number::Int8,
        DataType::Integer(IntType::Int16) => Number::Int16,
        DataType::Integer(IntType::Int32) => Number::Int32,
        DataType::Integer(IntType::Int64) => Number::Int64,
        DataType::Integer(IntType::Int128) => Number::Int128,
        DataType::Integer(IntType::UInt8) => Number::UInt8,
        DataType::Integer(IntType::UInt16) => Number::UInt16,
        DataType::Integer(IntType::UInt32) => Number::UInt32,
        DataType::Integer(IntType::UInt64) => Number::UInt64,
        DataType::Integer(IntType::UInt128) => Number::UInt128,
        DataType::Decimal { precision, scale } => Number::Decimal(*precision, *scale),
        _ => Number::Int128,
    }
}

/// The stored integer of a cell. What is above the range of `i128` is the same as a null: no
/// other exact type can hold it.
pub open spec fn stored(value: Option<SpecValue>) -> Option<i128> {
    match value {
        Some(SpecValue::Int(x)) => if i128::MIN <= x <= i128::MAX {
            Some(x as i128)
        } else {
            None
        },
        _ => None,
    }
}

/// The cells of stored integers.
pub open spec fn stored_cells(values: Seq<Option<i128>>) -> Seq<Option<SpecValue>> {
    values.map_values(
        |value: Option<i128>|
            match value {
                Some(x) => Some(SpecValue::Int(x as int)),
                None => None,
            },
    )
}

/// A cell of exact numbers cast to another exact type.
pub open spec fn recast_cell(
    value: Option<SpecValue>,
    from: SpecDataType,
    to: SpecDataType,
) -> Option<SpecValue> {
    match value {
        Some(SpecValue::Int(x)) => match recast(x, number_of(from), number_of(to)) {
            Some(y) => Some(SpecValue::Int(y)),
            None => None,
        },
        _ => None,
    }
}

/// A column of numbers cast to a data type: unchanged where it is its own, with the same values
/// where floats are widened, else cast cell by cell.
pub open spec fn cast_column(s: SpecSeries, to: SpecDataType) -> SpecSeries {
    if s.dtype == to {
        s
    } else if s.dtype.is_narrower_float(to) {
        SpecSeries { name: s.name, dtype: to, values: s.values }
    } else {
        SpecSeries {
            name: s.name,
            dtype: to,
            values: s.values.map_values(|value: Option<SpecValue>| recast_cell(value, s.dtype, to)),
        }
    }
}

/// An integer that no `i128` can hold is lost in every cast to another exact type but `UInt128`.
proof fn lemma_large_integers_are_lost(x: int, from: Number, to: Number)
    requires
        x > i128::MAX,
        from.integer() is Some,
        to.valid(),
        to != Number::UInt128,
    ensures
        recast(x, from, to) is None,
{
    if let Number::Decimal(precision, scale) = to {
        let m = pow(10, scale as nat);
        lemma_largest_power();
        lemma_pow_increases(10, precision as nat, MAX_PRECISION as nat);
        lemma_pow_positive(10, scale as nat);
        assert(x <= x * m) by (nonlinear_arith)
            requires
                m >= 1,
                x >= 0,
        ;
    } else {
        lemma_pow0(10);
    }
}

/// The stored integer of a value.
fn stored_integer(value: &Value) -> (x: Option<i128>)
    ensures
        x == stored(Some(value@)),
{
    match value {
        Value::Int(x) => Some(*x),
        Value::UInt(x) => if *x <= i128::MAX as u128 {
            Some(*x as i128)
        } else {
            None
        },
        _ => None,
    }
}

/// Casts a column of exact numbers to another exact type. What the type cannot hold becomes null.
pub fn cast_exact(s: &Series, to: &DataType) -> (cast: Result<Series, BinError>)
    requires
        s@.dtype.is_exact_number(),
        to@.is_exact_number(),
        to@.valid(),
    ensures
        cast is Ok,
        cast->Ok_0@ == cast_column(s@, to@),
{
    proof {
        use_type_invariant(s);
    }
    if s.dtype().same(to) {
        return Ok(s.clone());
    }
    let len: usize = s.len();
    let mut integers: Vec<Option<i128>> = Vec::new();
    let mut i: usize = 0;
    while i < len
        invariant
            i <= len,
            len == s@.values.len(),
            integers.len() == i,
            forall|j: int| 0 <= j < i ==> (#[trigger] integers@[j]) == stored(s@.values[j]),
        decreases len - i,
    {
        let x: Option<i128> = match s.get(i) {
            Some(value) => stored_integer(value),
            None => None,
        };
        integers.push(x);
        i += 1;
    }
    let (old, new): (Number, Number) = (number(s.dtype()), number(to));
    assert forall|j: int|
        0 <= j < integers.len() && (#[trigger] integers@[j]) is Some implies old.holds(
        integers@[j]->Some_0 as int,
    ) by {
        assert(integers@[j] == stored(s@.values[j]));
        assert(s@.dtype.admits(s@.values[j]->Some_0));
    }
    let cast: Vec<Option<i128>> = match cast_numbers(&integers, old, new) {
        Ok(cast) => cast,
        Err(e) => return Err(BinError::Cast(e)),
    };
    let mut values: Vec<Option<Value>> = Vec::new();
    let mut k: usize = 0;
    while k < cast.len()
        invariant
            k <= cast.len(),
            values.len() == k,
            forall|j: int|
                0 <= j < k ==> cell(#[trigger] values@[j]) == stored_cells(cast@)[j],
        decreases cast.len() - k,
    {
        let value: Option<Value> = match cast[k] {
            Some(x) => Some(Value::Int(x)),
            None => None,
        };
        values.push(value);
        k += 1;
    }
    proof {
        assert(cells(values@) =~= stored_cells(cast@));
        assert(stored_cells(cast@).len() == integers@.len());
        assert forall|j: int| 0 <= j < cells(values@).len() implies {
            &&& (#[trigger] cells(values@)[j]) == recast_cell(s@.values[j], s@.dtype, to@)
            &&& cells(values@)[j] is Some ==> to@.admits(cells(values@)[j]->Some_0)
        } by {
            assert(cells(values@)[j] == stored_cells(cast@)[j]);
            assert(integers@[j] == stored(s@.values[j]));
            if s@.values[j] is Some {
                assert(s@.dtype.admits(s@.values[j]->Some_0));
                let x = s@.values[j]->Some_0->Int_0;
                if x > i128::MAX {
                    lemma_large_integers_are_lost(x, old, new);
                }
            }
            if cells(values@)[j] is Some {
                assert(cast@[j] is Some);
            }
        }
        assert(cells(values@) =~= cast_column(s@, to@).values);
    }
    Ok(Series::from_values(s.name().clone(), to.clone(), values))
}

} // verus!
