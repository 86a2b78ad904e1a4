//! Columns of optional values.

use vstd::arithmetic::power::{lemma_pow_adds, lemma_pow_positive, pow};
use vstd::prelude::*;

use crate::dtype::{power_of_ten, DataType, SpecDataType, LENGTH_LIMIT, MAX_PRECISION};
use crate::value::{magnitude, value_lt, SpecValue, Value};

verus! {

/// A position in a column.
pub type IdxSize = u32;

/// A named column of one data type. A null is a missing value.
#[derive(Debug)]
pub struct Series {
    name: String,
    dtype: DataType,
    values: Vec<Option<Value>>,
}

/// What a [`Series`] stands for.
#[verifier::ext_equal]
pub struct SpecSeries {
    pub name: Seq<char>,
    pub dtype: SpecDataType,
    pub values: Seq<Option<SpecValue>>,
}

/// A named column of positions.
#[derive(Debug, PartialEq, Eq)]
pub struct IdxCa {
    pub name: String,
    pub values: Vec<Option<IdxSize>>,
}

/// What a cell of a column stands for.
pub open spec fn cell(value: Option<Value>) -> Option<SpecValue> {
    match value {
        Some(v) => Some(v@),
        None => None,
    }
}

/// What the cells of a column stand for.
pub open spec fn cells(values: Seq<Option<Value>>) -> Seq<Option<SpecValue>> {
    values.map_values(|value: Option<Value>| cell(value))
}

/// The number of cells that are not null.
pub open spec fn valid_count<T>(values: Seq<Option<T>>) -> nat
    decreases values.len(),
{
    if values.len() == 0 {
        0
    } else {
        valid_count(values.drop_last()) + if values.last() is Some {
            1nat
        } else {
            0nat
        }
    }
}

/// A column of nothing but nulls.
pub open spec fn nulls<T>(len: nat) -> Seq<Option<T>> {
    Seq::new(len, |i: int| None)
}

/// The values at the given positions, null where no position is given.
pub open spec fn gathered<T>(values: Seq<Option<T>>, positions: Seq<Option<IdxSize>>) -> Seq<
    Option<T>,
> {
    Seq::new(
        positions.len(),
        |i: int|
            match positions[i] {
                Some(p) => values[p as int],
                None => None,
            },
    )
}

/// Whether two cells are equal: both null, or values neither of which comes before the other.
pub open spec fn equal_cells(a: Option<SpecValue>, b: Option<SpecValue>) -> bool {
    match (a, b) {
        (Some(x), Some(y)) => !value_lt(x, y) && !value_lt(y, x),
        (None, None) => true,
        (_, _) => false,
    }
}

/// Whether two cells are equal, where integers stand for numbers with as many digits behind the
/// point as the scales say.
pub open spec fn equal_numbers(
    a: Option<SpecValue>,
    a_scale: nat,
    b: Option<SpecValue>,
    b_scale: nat,
) -> bool {
    match (a, b) {
        (Some(SpecValue::Int(x)), Some(SpecValue::Int(y))) => x * pow(10, b_scale) == y * pow(
            10,
            a_scale,
        ),
        (_, _) => equal_cells(a, b),
    }
}

/// With as many digits behind the point, numbers are equal as the integers are.
pub proof fn lemma_equal_numbers_of_one_scale(
    a: Option<SpecValue>,
    b: Option<SpecValue>,
    scale: nat,
)
    ensures
        equal_numbers(a, scale, b, scale) == equal_cells(a, b),
{
    lemma_pow_positive(10, scale);
    if let (Some(SpecValue::Int(x)), Some(SpecValue::Int(y))) = (a, b) {
        let m = pow(10, scale);
        assert(x * m == y * m <==> x == y) by (nonlinear_arith)
            requires
                m > 0,
        ;
    }
}

/// With fewer digits behind the point, a number equals another one exactly where multiplying it
/// makes up for the difference.
proof fn lemma_equal_numbers_of_two_scales(x: int, a: nat, y: int, b: nat)
    requires
        a <= b,
    ensures
        x * pow(10, b) == y * pow(10, a) <==> x * pow(10, (b - a) as nat) == y,
{
    let (m, k) = (pow(10, a), pow(10, (b - a) as nat));
    lemma_pow_positive(10, a);
    lemma_pow_adds(10, (b - a) as nat, a);
    assert(x * (k * m) == y * m <==> x * k == y) by (nonlinear_arith)
        requires
            m > 0,
    ;
}

impl SpecSeries {
    /// Whether two columns are equal cell by cell, whatever their names.
    pub open spec fn equals_missing(self, other: SpecSeries) -> bool
        recommends
            self.dtype.comparable(other.dtype),
    {
        &&& self.values.len() == other.values.len()
        &&& forall|i: int|
            0 <= i < self.values.len() ==> equal_numbers(
                #[trigger] self.values[i],
                self.dtype.scale(),
                other.values[i],
                other.dtype.scale(),
            )
    }

    /// Whether the data type is in order, the column is short enough and every value fits its
    /// data type.
    pub open spec fn valid(self) -> bool {
        &&& self.dtype.valid()
        &&& self.values.len() < LENGTH_LIMIT
        &&& forall|i: int|
            0 <= i < self.values.len() && (#[trigger] self.values[i]) is Some
                ==> self.dtype.admits(self.values[i]->Some_0)
    }

    /// The number of values that are not null.
    pub open spec fn non_null_len(self) -> nat {
        valid_count(self.values)
    }

    /// The same column under another name.
    pub open spec fn renamed(self, name: Seq<char>) -> SpecSeries {
        SpecSeries { name, dtype: self.dtype, values: self.values }
    }
}

impl View for Series {
    type V = SpecSeries;

    closed spec fn view(&self) -> SpecSeries {
        SpecSeries { name: self.name@, dtype: self.dtype@, values: cells(self.values@) }
    }
}

/// No more cells are valid than there are.
pub proof fn lemma_valid_count_bounds<T>(values: Seq<Option<T>>)
    ensures
        valid_count(values) <= values.len(),
        valid_count(values) == 0 <==> forall|i: int|
            0 <= i < values.len() ==> (#[trigger] values[i]) is None,
    decreases values.len(),
{
    if values.len() > 0 {
        let init = values.drop_last();
        lemma_valid_count_bounds(init);
        assert(forall|i: int| 0 <= i < init.len() ==> init[i] == values[i]);
        if valid_count(values) == 0 {
            assert forall|i: int| 0 <= i < values.len() implies (#[trigger] values[i]) is None by {
                if i < init.len() {
                    assert(init[i] is None);
                }
            }
        }
        if forall|i: int| 0 <= i < values.len() ==> (#[trigger] values[i]) is None {
            assert forall|i: int| 0 <= i < init.len() implies (#[trigger] init[i]) is None by {
                assert(values[i] is None);
            }
            assert(values[values.len() - 1] is None);
        }
    }
}

/// Counting valid cells from the front adds one cell at a time.
pub proof fn lemma_valid_count_step<T>(values: Seq<Option<T>>, i: int)
    requires
        0 <= i < values.len(),
    ensures
        valid_count(values.take(i + 1)) == valid_count(values.take(i)) + if values[i] is Some {
            1nat
        } else {
            0nat
        },
{
    assert(values.take(i + 1).drop_last() =~= values.take(i));
}

impl Series {
    #[verifier::type_invariant]
    pub open spec fn wf(self) -> bool {
        self@.valid()
    }

    /// A column of the given values, or `None` where it would be too long, the data type is out
    /// of order or a value does not fit it.
    pub fn new(name: String, dtype: DataType, values: Vec<Option<Value>>) -> (column: Option<
        Series,
    >)
        ensures
            match column {
                Some(s) => s@ == (SpecSeries {
                    name: name@,
                    dtype: dtype@,
                    values: cells(values@),
                }) && s@.valid(),
                None => !(SpecSeries {
                    name: name@,
                    dtype: dtype@,
                    values: cells(values@),
                }).valid(),
            },
    {
        let ghost view = SpecSeries { name: name@, dtype: dtype@, values: cells(values@) };
        if values.len() >= LENGTH_LIMIT || !dtype.is_valid() {
            return None;
        }
        let mut i: usize = 0;
        while i < values.len()
            invariant
                i <= values.len(),
                values.len() < LENGTH_LIMIT,
                dtype@.valid(),
                view == (SpecSeries { name: name@, dtype: dtype@, values: cells(values@) }),
                forall|j: int|
                    0 <= j < i && (#[trigger] view.values[j]) is Some ==> view.dtype.admits(
                        view.values[j]->Some_0,
                    ),
            decreases values.len() - i,
        {
            assert(view.values[i as int] == cell(values@[i as int]));
            if let Some(value) = &values[i] {
                if !dtype.holds(value) {
                    assert(!view.valid());
                    return None;
                }
            }
            i += 1;
        }
        Some(Series { name, dtype, values })
    }

    /// A column of the given values, which fit the data type.
    pub(crate) fn from_values(name: String, dtype: DataType, values: Vec<Option<Value>>) -> (column:
        Series)
        requires
            (SpecSeries { name: name@, dtype: dtype@, values: cells(values@) }).valid(),
        ensures
            column@ == (SpecSeries { name: name@, dtype: dtype@, values: cells(values@) }),
    {
        Series { name, dtype, values }
    }

    /// The name.
    pub fn name(&self) -> (name: &String)
        ensures
            name@ == self@.name,
    {
        &self.name
    }

    /// The data type.
    pub fn dtype(&self) -> (dtype: &DataType)
        ensures
            dtype@ == self@.dtype,
    {
        &self.dtype
    }

    /// The number of cells.
    pub fn len(&self) -> (len: usize)
        ensures
            len == self@.values.len(),
            len < LENGTH_LIMIT,
    {
        proof {
            use_type_invariant(&*self);
        }
        self.values.len()
    }

    /// The value at a position, `None` where it is null.
    pub fn get(&self, i: usize) -> (value: Option<&Value>)
        requires
            i < self@.values.len(),
        ensures
            match value {
                Some(v) => self@.values[i as int] == Some(v@),
                None => self@.values[i as int] is None,
            },
    {
        assert(self@.values[i as int] == cell(self.values@[i as int]));
        match &self.values[i] {
            Some(v) => Some(v),
            None => None,
        }
    }

    /// The number of values that are not null.
    pub fn non_null_len(&self) -> (n: usize)
        ensures
            n == self@.non_null_len(),
            n <= self@.values.len(),
    {
        let mut n: usize = 0;
        let mut i: usize = 0;
        while i < self.values.len()
            invariant
                n <= i <= self.values.len(),
                self@.values.len() == self.values.len(),
                n == valid_count(self@.values.take(i as int)),
            decreases self.values.len() - i,
        {
            proof {
                lemma_valid_count_step(self@.values, i as int);
            }
            if self.get(i).is_some() {
                n += 1;
            }
            i += 1;
        }
        assert(self@.values.take(i as int) =~= self@.values);
        n
    }

    /// A column of nothing but nulls.
    pub fn full_null(name: String, len: usize, dtype: DataType) -> (column: Series)
        requires
            len < LENGTH_LIMIT,
            dtype@.valid(),
        ensures
            column@ == (SpecSeries { name: name@, dtype: dtype@, values: nulls(len as nat) }),
    {
        let mut values: Vec<Option<Value>> = Vec::new();
        let mut i: usize = 0;
        while i < len
            invariant
                i <= len,
                values.len() == i,
                forall|j: int| 0 <= j < i ==> (#[trigger] values@[j]) is None,
            decreases len - i,
        {
            values.push(None);
            i += 1;
        }
        assert(cells(values@) =~= nulls(len as nat));
        Series { name, dtype, values }
    }

    /// The same column under another name.
    pub fn with_name(self, name: String) -> (column: Series)
        ensures
            column@ == self@.renamed(name@),
    {
        proof {
            use_type_invariant(&self);
        }
        Series { name, dtype: self.dtype, values: self.values }
    }

    /// The same floats in a column of wider ones. They have been held by their widest
    /// representation all along.
    pub fn widen_floats(&self, dtype: &DataType) -> (column: Series)
        requires
            self@.dtype.is_narrower_float(dtype@),
        ensures
            column@ == (SpecSeries {
                name: self@.name,
                dtype: dtype@,
                values: self@.values,
            }),
    {
        proof {
            use_type_invariant(&*self);
        }
        let copy: Series = self.clone();
        proof {
            use_type_invariant(&copy);
        }
        Series { name: copy.name, dtype: dtype.clone(), values: copy.values }
    }

    /// The column of the values at the given positions, null where no position is given.
    pub fn take(&self, positions: &Vec<Option<IdxSize>>) -> (column: Series)
        requires
            positions.len() < LENGTH_LIMIT,
            forall|i: int|
                0 <= i < positions.len() && (#[trigger] positions@[i]) is Some
                    ==> positions@[i]->Some_0 < self@.values.len(),
        ensures
            column@ == (SpecSeries {
                name: self@.name,
                dtype: self@.dtype,
                values: gathered(self@.values, positions@),
            }),
    {
        proof {
            use_type_invariant(&*self);
        }
        let mut values: Vec<Option<Value>> = Vec::new();
        let mut i: usize = 0;
        while i < positions.len()
            invariant
                i <= positions.len(),
                positions.len() < LENGTH_LIMIT,
                values.len() == i,
                forall|j: int|
                    0 <= j < positions.len() && (#[trigger] positions@[j]) is Some
                        ==> positions@[j]->Some_0 < self@.values.len(),
                forall|j: int|
                    0 <= j < i ==> cell(#[trigger] values@[j]) == gathered(
                        self@.values,
                        positions@,
                    )[j],
            decreases positions.len() - i,
        {
            let value: Option<Value> = match positions[i] {
                Some(p) => match self.get(p as usize) {
                    Some(v) => Some(v.clone()),
                    None => None,
                },
                None => None,
            };
            values.push(value);
            i += 1;
        }
        assert(cells(values@) =~= gathered(self@.values, positions@));
        Series { name: self.name.clone(), dtype: self.dtype.clone(), values }
    }
}

impl Clone for Series {
    fn clone(&self) -> (copy: Series)
        ensures
            copy@ == self@,
    {
        proof {
            use_type_invariant(&*self);
        }
        let mut values: Vec<Option<Value>> = Vec::new();
        let mut i: usize = 0;
        while i < self.values.len()
            invariant
                i <= self.values.len(),
                values.len() == i,
                self@.values == cells(self.values@),
                forall|j: int| 0 <= j < i ==> cell(#[trigger] values@[j]) == self@.values[j],
            decreases self.values.len() - i,
        {
            let value: Option<Value> = match &self.values[i] {
                Some(v) => Some(v.clone()),
                None => None,
            };
            values.push(value);
            i += 1;
        }
        assert(cells(values@) =~= self@.values);
        Series { name: self.name.clone(), dtype: self.dtype.clone(), values }
    }
}

/// The sign and the magnitude of an integer. A zero is not negative.
fn sign_and_magnitude(value: &Value) -> (parts: (bool, u128))
    requires
        value@ is Int,
    ensures
        parts.0 == (value@->Int_0 < 0),
        parts.1 == if value@->Int_0 < 0 {
            -value@->Int_0
        } else {
            value@->Int_0
        },
{
    match value {
        Value::Int(x) => (*x < 0, magnitude(*x)),
        Value::UInt(x) => (false, *x),
        _ => (false, 0),
    }
}

/// Whether one integer is another one times a power of ten.
fn is_multiple(x: &Value, digits: usize, y: &Value) -> (multiple: bool)
    requires
        x@ is Int,
        y@ is Int,
        digits <= MAX_PRECISION,
    ensures
        multiple == (x@->Int_0 * pow(10, digits as nat) == y@->Int_0),
{
    let power: u128 = power_of_ten(digits) as u128;
    let (x_negative, x_size): (bool, u128) = sign_and_magnitude(x);
    let (y_negative, y_size): (bool, u128) = sign_and_magnitude(y);
    proof {
        lemma_pow_positive(10, digits as nat);
        let (p, a, b) = (power as int, x_size as int, y_size as int);
        let (v, w) = (x@->Int_0, y@->Int_0);
        assert(b % p == 0 && b / p == a <==> a * p == b) by (nonlinear_arith)
            requires
                p > 0,
        ;
        assert(v * p == w <==> (v < 0) == (w < 0) && a * p == b) by (nonlinear_arith)
            requires
                p > 0,
                a == if v < 0 {
                    -v
                } else {
                    v
                },
                b == if w < 0 {
                    -w
                } else {
                    w
                },
        ;
    }
    x_negative == y_negative && y_size % power == 0 && y_size / power == x_size
}

/// Whether two values are equal, where integers stand for numbers with as many digits behind the
/// point as the scales say.
fn same_number(x: &Value, x_scale: usize, y: &Value, y_scale: usize) -> (same: bool)
    requires
        x_scale <= MAX_PRECISION,
        y_scale <= MAX_PRECISION,
    ensures
        same == equal_numbers(Some(x@), x_scale as nat, Some(y@), y_scale as nat),
{
    proof {
        lemma_equal_numbers_of_one_scale(Some(x@), Some(y@), x_scale as nat);
        if x@ is Int && y@ is Int && x_scale <= y_scale {
            lemma_equal_numbers_of_two_scales(
                x@->Int_0,
                x_scale as nat,
                y@->Int_0,
                y_scale as nat,
            );
        }
        if x@ is Int && y@ is Int && y_scale <= x_scale {
            lemma_equal_numbers_of_two_scales(
                y@->Int_0,
                y_scale as nat,
                x@->Int_0,
                x_scale as nat,
            );
        }
    }
    let integers: bool = match (x, y) {
        (Value::Int(_) | Value::UInt(_), Value::Int(_) | Value::UInt(_)) => true,
        (_, _) => false,
    };
    if !integers || x_scale == y_scale {
        !x.lt(y) && !y.lt(x)
    } else if x_scale < y_scale {
        is_multiple(x, y_scale - x_scale, y)
    } else {
        is_multiple(y, x_scale - y_scale, x)
    }
}

impl Series {
    /// Whether two columns are equal cell by cell, whatever their names. A null equals a null, and
    /// the two zeros of a float equal each other, as all its NaNs do. Exact numbers of different
    /// types are equal where they are the same number, and so are floats of different widths.
    pub fn equals_missing(&self, other: &Series) -> (equal: bool)
        requires
            self@.dtype.comparable(other@.dtype),
        ensures
            equal == self@.equals_missing(other@),
    {
        proof {
            use_type_invariant(&*self);
            use_type_invariant(&*other);
        }
        let (scale, other_scale): (usize, usize) = (self.dtype.scale(), other.dtype.scale());
        if self.len() != other.len() {
            return false;
        }
        let mut i: usize = 0;
        while i < self.values.len()
            invariant
                i <= self.values.len(),
                self@.values.len() == self.values.len(),
                other@.values.len() == self.values.len(),
                scale == self@.dtype.scale() && scale <= MAX_PRECISION,
                other_scale == other@.dtype.scale() && other_scale <= MAX_PRECISION,
                forall|j: int|
                    0 <= j < i ==> equal_numbers(
                        #[trigger] self@.values[j],
                        scale as nat,
                        other@.values[j],
                        other_scale as nat,
                    ),
            decreases self.values.len() - i,
        {
            let equal: bool = match (self.get(i), other.get(i)) {
                (Some(x), Some(y)) => same_number(x, scale, y, other_scale),
                (None, None) => true,
                (_, _) => false,
            };
            if !equal {
                assert(!equal_numbers(
                    self@.values[i as int],
                    scale as nat,
                    other@.values[i as int],
                    other_scale as nat,
                ));
                return false;
            }
            i += 1;
        }
        true
    }
}

} // verus!
