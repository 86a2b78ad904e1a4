//! The data types of columns.

use vstd::arithmetic::power::{lemma_pow0, lemma_pow_increases, lemma_pow_positive, pow};
use vstd::prelude::*;

use crate::value::{SpecValue, Value};

verus! {

/// Every column, and every byte string in one, is shorter than this.
pub const LENGTH_LIMIT: usize = 0xffff_ffff;

/// The largest number of digits of a decimal.
pub const MAX_PRECISION: usize = 38;

/// The fixed-width integer types.
#[derive(Clone, Copy, Debug, PartialEq, Eq, Hash, Structural)]
pub enum IntType {
    Int8,
    Int16,
    Int32,
    Int64,
    Int128,
    UInt8,
    UInt16,
    UInt32,
    UInt64,
    UInt128,
}

impl IntType {
    /// The smallest value of the type.
    pub open spec fn lowest(self) -> int {
        match self {
            IntType::Int8 => i8::MIN as int,
            IntType::Int16 => i16::MIN as int,
            IntType::Int32 => i32::MIN as int,
            IntType::Int64 => i64::MIN as int,
            IntType::Int128 => i128::MIN as int,
            _ => 0,
        }
    }

    /// The largest value of the type.
    pub open spec fn highest(self) -> int {
        match self {
            IntType::Int8 => i8::MAX as int,
            IntType::Int16 => i16::MAX as int,
            IntType::Int32 => i32::MAX as int,
            IntType::Int64 => i64::MAX as int,
            IntType::Int128 => i128::MAX as int,
            IntType::UInt8 => u8::MAX as int,
            IntType::UInt16 => u16::MAX as int,
            IntType::UInt32 => u32::MAX as int,
            IntType::UInt64 => u64::MAX as int,
            IntType::UInt128 => u128::MAX as int,
        }
    }

    /// Whether an integer is a value of the type.
    pub open spec fn has(self, v: int) -> bool {
        self.lowest() <= v <= self.highest()
    }

    /// Whether a signed integer is a value of the type.
    pub fn holds_signed(self, v: i128) -> (held: bool)
        ensures
            held == self.has(v as int),
    {
        match self {
            IntType::Int8 => i8::MIN as i128 <= v && v <= i8::MAX as i128,
            IntType::Int16 => i16::MIN as i128 <= v && v <= i16::MAX as i128,
            IntType::Int32 => i32::MIN as i128 <= v && v <= i32::MAX as i128,
            IntType::Int64 => i64::MIN as i128 <= v && v <= i64::MAX as i128,
            IntType::Int128 => true,
            IntType::UInt8 => 0 <= v && v <= u8::MAX as i128,
            IntType::UInt16 => 0 <= v && v <= u16::MAX as i128,
            IntType::UInt32 => 0 <= v && v <= u32::MAX as i128,
            IntType::UInt64 => 0 <= v && v <= u64::MAX as i128,
            IntType::UInt128 => 0 <= v,
        }
    }

    /// Whether an unsigned integer is a value of the type.
    pub fn holds_unsigned(self, v: u128) -> (held: bool)
        ensures
            held == self.has(v as int),
    {
        match self {
            IntType::UInt128 => true,
            _ => v <= i128::MAX as u128 && self.holds_signed(v as i128),
        }
    }
}

/// The floating-point types.
#[derive(Clone, Copy, Debug, PartialEq, Eq, Hash, Structural)]
pub enum FloatType {
    Float16,
    Float32,
    Float64,
}

/// The resolution of a clock.
#[derive(Clone, Copy, Debug, PartialEq, Eq, Hash, Structural)]
pub enum TimeUnit {
    Nanoseconds,
    Microseconds,
    Milliseconds,
}

/// The integer type that the codes of a categorical are stored in.
#[derive(Clone, Copy, Debug, PartialEq, Eq, Hash, Structural)]
pub enum CategoricalPhysical {
    U8,
    U16,
    U32,
}

/// What values that hold other values are made of.
#[derive(Clone, Copy, Debug, PartialEq, Eq, Hash, Structural)]
pub enum NestedForm {
    List,
    Array,
    Struct,
}

/// The data type of a column whose values have an order.
#[derive(Debug, PartialEq, Eq, Hash)]
pub enum DataType {
    /// Nothing but nulls.
    Null,
    Boolean,
    Integer(IntType),
    Float(FloatType),
    /// A fixed-point number: its mantissa divided by ten to the power of `scale`.
    Decimal { precision: usize, scale: usize },
    String,
    Binary,
    /// Days since the epoch.
    Date,
    /// Nanoseconds since midnight.
    Time,
    Datetime { unit: TimeUnit, zone: Option<String> },
    Duration(TimeUnit),
    /// Strings out of an open set of categories. They are ordered as strings.
    Categorical { name: String, namespace: String, physical: CategoricalPhysical },
    /// Strings out of a fixed list of variants. They are ordered as the list is.
    Enum(Vec<String>),
    /// Values that hold other values, by the form and the full name of their type. They are held
    /// as byte strings that are ordered as they are.
    Nested { form: NestedForm, name: String },
}

/// What a [`DataType`] stands for.
pub enum SpecDataType {
    Null,
    Boolean,
    Integer(IntType),
    Float(FloatType),
    Decimal { precision: usize, scale: usize },
    String,
    Binary,
    Date,
    Time,
    Datetime { unit: TimeUnit, zone: Option<Seq<char>> },
    Duration(TimeUnit),
    Categorical { name: Seq<char>, namespace: Seq<char>, physical: CategoricalPhysical },
    Enum(Seq<Seq<char>>),
    Nested { form: NestedForm, name: Seq<char> },
}

/// The texts of a list of strings.
pub open spec fn texts(strings: Seq<String>) -> Seq<Seq<char>> {
    strings.map_values(|s: String| s@)
}

/// The integer type in which the codes of an enum of `n` variants are stored: the narrowest one
/// whose largest value is not needed as a code.
pub open spec fn enum_int_type(n: int) -> IntType {
    if n <= u8::MAX {
        IntType::UInt8
    } else if n <= u16::MAX {
        IntType::UInt16
    } else {
        IntType::UInt32
    }
}

/// Whether an integer has no more digits than a precision.
pub open spec fn fits_precision(mantissa: int, precision: nat) -> bool {
    -pow(10, precision) < mantissa < pow(10, precision)
}

/// Ten to the power of the largest precision is in the range of `i128`.
pub proof fn lemma_largest_power()
    ensures
        pow(10, MAX_PRECISION as nat) == 100_000_000_000_000_000_000_000_000_000_000_000_000,
{
    reveal_with_fuel(pow, 39);
}

/// Ten to the power of a precision.
pub(crate) fn power_of_ten(precision: usize) -> (power: i128)
    requires
        precision <= MAX_PRECISION,
    ensures
        power == pow(10, precision as nat),
{
    let mut power: i128 = 1;
    let mut i: usize = 0;
    proof {
        lemma_pow0(10);
    }
    while i < precision
        invariant
            i <= precision <= MAX_PRECISION,
            power == pow(10, i as nat),
        decreases precision - i,
    {
        proof {
            reveal(pow);
            lemma_largest_power();
            lemma_pow_positive(10, i as nat);
            lemma_pow_increases(10, (i + 1) as nat, MAX_PRECISION as nat);
        }
        power = 10 * power;
        i += 1;
    }
    power
}

/// Whether an integer has no more digits than a precision.
fn has_digits(mantissa: i128, precision: usize) -> (fits: bool)
    ensures
        fits == fits_precision(mantissa as int, precision as nat),
{
    if precision > MAX_PRECISION {
        proof {
            reveal(pow);
            lemma_largest_power();
            lemma_pow_increases(10, (MAX_PRECISION + 1) as nat, precision as nat);
        }
        return true;
    }
    let power: i128 = power_of_ten(precision);
    proof {
        lemma_pow_positive(10, precision as nat);
    }
    -power < mantissa && mantissa < power
}

impl View for DataType {
    type V = SpecDataType;

    open spec fn view(&self) -> SpecDataType {
        match self {
            DataType::Null => SpecDataType::Null,
            DataType::Boolean => SpecDataType::Boolean,
            DataType::Integer(t) => SpecDataType::Integer(*t),
            DataType::Float(t) => SpecDataType::Float(*t),
            DataType::Decimal { precision, scale } => SpecDataType::Decimal {
                precision: *precision,
                scale: *scale,
            },
            DataType::String => SpecDataType::String,
            DataType::Binary => SpecDataType::Binary,
            DataType::Date => SpecDataType::Date,
            DataType::Time => SpecDataType::Time,
            DataType::Datetime { unit, zone } => SpecDataType::Datetime {
                unit: *unit,
                zone: match zone {
                    Some(z) => Some(z@),
                    None => None,
                },
            },
            DataType::Duration(unit) => SpecDataType::Duration(*unit),
            DataType::Categorical { name, namespace, physical } => SpecDataType::Categorical {
                name: name@,
                namespace: namespace@,
                physical: *physical,
            },
            DataType::Enum(variants) => SpecDataType::Enum(texts(variants@)),
            DataType::Nested { form, name } => SpecDataType::Nested { form: *form, name: name@ },
        }
    }
}

/// Whether the common type of two integer types is one of floats: no integer type that holds both
/// is taken for 64 unsigned bits and at most 64 signed ones.
pub open spec fn meet_in_floats(a: SpecDataType, b: SpecDataType) -> bool {
    a == SpecDataType::Integer(IntType::UInt64) && match b {
        SpecDataType::Integer(IntType::Int8) => true,
        SpecDataType::Integer(IntType::Int16) => true,
        SpecDataType::Integer(IntType::Int32) => true,
        SpecDataType::Integer(IntType::Int64) => true,
        _ => false,
    }
}

impl SpecDataType {
    /// Whether the parameters of the type are in their ranges: a decimal has at most 38 digits,
    /// and no more of them behind the point than there are; the codes of an enum have 32 bits.
    pub open spec fn valid(self) -> bool {
        match self {
            SpecDataType::Decimal { precision, scale } => 1 <= precision <= MAX_PRECISION && scale
                <= precision,
            SpecDataType::Enum(variants) => variants.len() <= u32::MAX,
            _ => true,
        }
    }

    /// Whether a value can stand in a column of the type.
    pub open spec fn admits(self, v: SpecValue) -> bool {
        match self {
            SpecDataType::Null => false,
            SpecDataType::Boolean => v is Int && 0 <= v->Int_0 <= 1,
            SpecDataType::Integer(t) => v is Int && t.has(v->Int_0),
            SpecDataType::Float(_) => v is Float,
            SpecDataType::Decimal { precision, .. } => v is Int && IntType::Int128.has(v->Int_0)
                && fits_precision(v->Int_0, precision as nat),
            SpecDataType::Date => v is Int && IntType::Int32.has(v->Int_0),
            SpecDataType::Time => v is Int && IntType::Int64.has(v->Int_0),
            SpecDataType::Datetime { .. } => v is Int && IntType::Int64.has(v->Int_0),
            SpecDataType::Duration(_) => v is Int && IntType::Int64.has(v->Int_0),
            SpecDataType::Enum(variants) => v is Int && 0 <= v->Int_0 < variants.len(),
            SpecDataType::String => v is Bytes && v->Bytes_0.len() < LENGTH_LIMIT,
            SpecDataType::Binary => v is Bytes && v->Bytes_0.len() < LENGTH_LIMIT,
            SpecDataType::Categorical { .. } => v is Bytes && v->Bytes_0.len() < LENGTH_LIMIT,
            SpecDataType::Nested { .. } => v is Bytes && v->Bytes_0.len() < LENGTH_LIMIT,
        }
    }

    /// The integer type in which the values are stored, for the types whose stored integers are
    /// what they are ordered by.
    pub open spec fn physical(self) -> Option<IntType> {
        match self {
            SpecDataType::Integer(t) => Some(t),
            SpecDataType::Decimal { .. } => Some(IntType::Int128),
            SpecDataType::Date => Some(IntType::Int32),
            SpecDataType::Time => Some(IntType::Int64),
            SpecDataType::Datetime { .. } => Some(IntType::Int64),
            SpecDataType::Duration(_) => Some(IntType::Int64),
            SpecDataType::Enum(variants) => Some(enum_int_type(variants.len() as int)),
            _ => None,
        }
    }

    /// Whether values are held as byte strings.
    pub open spec fn is_bytes(self) -> bool {
        self is String || self is Binary || self is Categorical || self is Nested
    }

    /// The number of digits behind the point of exact numbers.
    pub open spec fn scale(self) -> nat {
        match self {
            SpecDataType::Decimal { scale, .. } => scale as nat,
            _ => 0,
        }
    }

    /// Whether values of two types can be compared as they are: the types are the same, or both
    /// of floats, or both of exact numbers that do not meet in floats.
    pub open spec fn comparable(self, other: SpecDataType) -> bool {
        ||| self == other
        ||| self is Float && other is Float
        ||| self.is_exact_number() && other.is_exact_number() && !meet_in_floats(self, other)
            && !meet_in_floats(other, self)
    }

    /// Whether values are exact numbers: integers or decimals.
    pub open spec fn is_exact_number(self) -> bool {
        self is Integer || self is Decimal
    }

    /// Whether values are floats, and another type has floats that are wider.
    pub open spec fn is_narrower_float(self, other: SpecDataType) -> bool {
        match (self, other) {
            (SpecDataType::Float(FloatType::Float16), SpecDataType::Float(FloatType::Float32)) =>
                true,
            (SpecDataType::Float(FloatType::Float16), SpecDataType::Float(FloatType::Float64)) =>
                true,
            (SpecDataType::Float(FloatType::Float32), SpecDataType::Float(FloatType::Float64)) =>
                true,
            (_, _) => false,
        }
    }
}

/// Whether integer types are 64 unsigned bits and at most 64 signed ones.
fn is_wide_pair(a: IntType, b: IntType) -> (wide: bool)
    ensures
        wide == meet_in_floats(SpecDataType::Integer(a), SpecDataType::Integer(b)),
{
    match (a, b) {
        (IntType::UInt64, IntType::Int8) => true,
        (IntType::UInt64, IntType::Int16) => true,
        (IntType::UInt64, IntType::Int32) => true,
        (IntType::UInt64, IntType::Int64) => true,
        (_, _) => false,
    }
}

/// Whether two lists of strings hold the same texts.
pub(crate) fn same_texts(a: &Vec<String>, b: &Vec<String>) -> (same: bool)
    ensures
        same == (texts(a@) == texts(b@)),
{
    if a.len() != b.len() {
        assert(texts(a@).len() != texts(b@).len());
        return false;
    }
    let mut i: usize = 0;
    while i < a.len()
        invariant
            i <= a.len(),
            a.len() == b.len(),
            forall|j: int| 0 <= j < i ==> texts(a@)[j] == texts(b@)[j],
        decreases a.len() - i,
    {
        if !(a[i] == b[i]) {
            assert(texts(a@)[i as int] != texts(b@)[i as int]);
            return false;
        }
        i += 1;
    }
    assert(texts(a@) =~= texts(b@));
    true
}

/// A copy of a list of strings.
pub(crate) fn copy_texts(strings: &[String]) -> (copy: Vec<String>)
    ensures
        texts(copy@) == texts(strings@),
        copy.len() == strings.len(),
{
    let mut copy: Vec<String> = Vec::new();
    let mut i: usize = 0;
    while i < strings.len()
        invariant
            i <= strings.len(),
            copy.len() == i,
            forall|j: int| 0 <= j < i ==> copy@[j]@ == strings@[j]@,
        decreases strings.len() - i,
    {
        copy.push(strings[i].clone());
        i += 1;
    }
    assert(texts(copy@) =~= texts(strings@));
    copy
}

impl DataType {
    /// Whether two data types are the same.
    pub fn same(&self, other: &DataType) -> (same: bool)
        ensures
            same == (self@ == other@),
    {
        match (self, other) {
            (DataType::Null, DataType::Null) => true,
            (DataType::Boolean, DataType::Boolean) => true,
            (DataType::Integer(a), DataType::Integer(b)) => *a == *b,
            (DataType::Float(a), DataType::Float(b)) => *a == *b,
            (
                DataType::Decimal { precision: p, scale: s },
                DataType::Decimal { precision: q, scale: t },
            ) => *p == *q && *s == *t,
            (DataType::String, DataType::String) => true,
            (DataType::Binary, DataType::Binary) => true,
            (DataType::Date, DataType::Date) => true,
            (DataType::Time, DataType::Time) => true,
            (
                DataType::Datetime { unit: u, zone: y },
                DataType::Datetime { unit: v, zone: z },
            ) => *u == *v && match (y, z) {
                (Some(a), Some(b)) => *a == *b,
                (None, None) => true,
                (_, _) => false,
            },
            (DataType::Duration(a), DataType::Duration(b)) => *a == *b,
            (
                DataType::Categorical { name: n, namespace: s, physical: p },
                DataType::Categorical { name: m, namespace: t, physical: q },
            ) => *n == *m && *s == *t && *p == *q,
            (DataType::Enum(a), DataType::Enum(b)) => same_texts(a, b),
            (
                DataType::Nested { form: f, name: n },
                DataType::Nested { form: g, name: m },
            ) => *f == *g && *n == *m,
            (_, _) => false,
        }
    }

    /// Whether the parameters of the type are in their ranges.
    pub fn is_valid(&self) -> (valid: bool)
        ensures
            valid == self@.valid(),
    {
        match self {
            DataType::Decimal { precision, scale } => 1 <= *precision && *precision <= MAX_PRECISION
                && *scale <= *precision,
            DataType::Enum(variants) => variants.len() as u64 <= u32::MAX as u64,
            _ => true,
        }
    }

    /// Whether values are held as byte strings.
    pub fn is_bytes(&self) -> (bytes: bool)
        ensures
            bytes == self@.is_bytes(),
    {
        match self {
            DataType::String => true,
            DataType::Binary => true,
            DataType::Categorical { .. } => true,
            DataType::Nested { .. } => true,
            _ => false,
        }
    }

    /// The number of digits behind the point of exact numbers.
    pub fn scale(&self) -> (scale: usize)
        ensures
            scale == self@.scale(),
    {
        match self {
            DataType::Decimal { scale, .. } => *scale,
            _ => 0,
        }
    }

    /// Whether values of two types can be compared as they are.
    pub fn is_comparable(&self, other: &DataType) -> (comparable: bool)
        ensures
            comparable == self@.comparable(other@),
    {
        if self.same(other) {
            return true;
        }
        match (self, other) {
            (DataType::Float(_), DataType::Float(_)) => true,
            (DataType::Integer(a), DataType::Integer(b)) => !is_wide_pair(*a, *b) && !is_wide_pair(
                *b,
                *a,
            ),
            (DataType::Integer(_), DataType::Decimal { .. }) => true,
            (DataType::Decimal { .. }, DataType::Integer(_)) => true,
            (DataType::Decimal { .. }, DataType::Decimal { .. }) => true,
            (_, _) => false,
        }
    }

    /// Whether values are exact numbers: integers or decimals.
    pub fn is_exact_number(&self) -> (exact: bool)
        ensures
            exact == self@.is_exact_number(),
    {
        match self {
            DataType::Integer(_) => true,
            DataType::Decimal { .. } => true,
            _ => false,
        }
    }

    /// Whether values are floats, and another type has floats that are wider.
    pub fn is_narrower_float(&self, other: &DataType) -> (narrower: bool)
        ensures
            narrower == self@.is_narrower_float(other@),
    {
        match (self, other) {
            (DataType::Float(FloatType::Float16), DataType::Float(FloatType::Float32)) => true,
            (DataType::Float(FloatType::Float16), DataType::Float(FloatType::Float64)) => true,
            (DataType::Float(FloatType::Float32), DataType::Float(FloatType::Float64)) => true,
            (_, _) => false,
        }
    }

    /// The integer type in which the values are stored, for the types whose stored integers are
    /// what they are ordered by.
    pub fn physical(&self) -> (physical: Option<IntType>)
        ensures
            physical == self@.physical(),
    {
        match self {
            DataType::Integer(t) => Some(*t),
            DataType::Decimal { .. } => Some(IntType::Int128),
            DataType::Date => Some(IntType::Int32),
            DataType::Time => Some(IntType::Int64),
            DataType::Datetime { .. } => Some(IntType::Int64),
            DataType::Duration(_) => Some(IntType::Int64),
            DataType::Enum(variants) => {
                let n: usize = variants.len();
                if n <= u8::MAX as usize {
                    Some(IntType::UInt8)
                } else if n <= u16::MAX as usize {
                    Some(IntType::UInt16)
                } else {
                    Some(IntType::UInt32)
                }
            },
            _ => None,
        }
    }

    /// Whether a value can stand in a column of the type.
    pub fn holds(&self, value: &Value) -> (held: bool)
        ensures
            held == self@.admits(value@),
    {
        let range: IntType = match self {
            DataType::Null => return false,
            DataType::Boolean => return match value {
                Value::Int(v) => 0 <= *v && *v <= 1,
                Value::UInt(v) => *v <= 1,
                _ => false,
            },
            DataType::Enum(variants) => return match value {
                Value::Int(v) => 0 <= *v && (*v as u128) < variants.len() as u128,
                Value::UInt(v) => *v < variants.len() as u128,
                _ => false,
            },
            DataType::Float(_) => return match value {
                Value::Float(_) => true,
                _ => false,
            },
            DataType::Integer(t) => *t,
            DataType::Decimal { precision, .. } => return match value {
                Value::Int(v) => has_digits(*v, *precision),
                Value::UInt(v) => *v <= i128::MAX as u128 && has_digits(*v as i128, *precision),
                _ => false,
            },
            DataType::Date => IntType::Int32,
            DataType::Time => IntType::Int64,
            DataType::Datetime { .. } => IntType::Int64,
            DataType::Duration(_) => IntType::Int64,
            _ => return match value {
                Value::Bytes(bytes) => bytes.len() < LENGTH_LIMIT,
                _ => false,
            },
        };
        match value {
            Value::Int(v) => range.holds_signed(*v),
            Value::UInt(v) => range.holds_unsigned(*v),
            _ => false,
        }
    }
}

impl Clone for DataType {
    fn clone(&self) -> (copy: DataType)
        ensures
            copy@ == self@,
    {
        match self {
            DataType::Null => DataType::Null,
            DataType::Boolean => DataType::Boolean,
            DataType::Integer(t) => DataType::Integer(*t),
            DataType::Float(t) => DataType::Float(*t),
            DataType::Decimal { precision, scale } => DataType::Decimal {
                precision: *precision,
                scale: *scale,
            },
            DataType::String => DataType::String,
            DataType::Binary => DataType::Binary,
            DataType::Date => DataType::Date,
            DataType::Time => DataType::Time,
            DataType::Datetime { unit, zone } => DataType::Datetime {
                unit: *unit,
                zone: match zone {
                    Some(z) => Some(z.clone()),
                    None => None,
                },
            },
            DataType::Duration(unit) => DataType::Duration(*unit),
            DataType::Categorical { name, namespace, physical } => DataType::Categorical {
                name: name.clone(),
                namespace: namespace.clone(),
                physical: *physical,
            },
            DataType::Enum(variants) => DataType::Enum(copy_texts(variants.as_slice())),
            DataType::Nested { form, name } => DataType::Nested { form: *form, name: name.clone() },
        }
    }
}

} // verus!
