//! The values of a column and their total order.

use vstd::prelude::*;

verus! {

/// A value of a column, in its physical representation.
#[derive(Debug, PartialEq, Eq, Hash)]
pub enum Value {
    /// A signed integer, or what is stored as one: a decimal's mantissa, days, ticks of a clock.
    Int(i128),
    /// An unsigned integer, or what is stored as one: a boolean, the code of an enum's variant.
    UInt(u128),
    /// A floating-point number, by the bits of its IEEE 754 binary64 representation. Narrower
    /// numbers are widened to it, which is exact.
    Float(u64),
    /// A string, by its UTF-8 bytes, or a byte string.
    Bytes(Vec<u8>),
}

/// What a [`Value`] stands for: an integer is the same one, whatever its signedness.
pub enum SpecValue {
    Int(int),
    Float(u64),
    Bytes(Seq<u8>),
}

impl View for Value {
    type V = SpecValue;

    open spec fn view(&self) -> SpecValue {
        match self {
            Value::Int(v) => SpecValue::Int(*v as int),
            Value::UInt(v) => SpecValue::Int(*v as int),
            Value::Float(bits) => SpecValue::Float(*bits),
            Value::Bytes(bytes) => SpecValue::Bytes(bytes@),
        }
    }
}

/// The bits of positive infinity; a larger magnitude is a NaN.
pub const INFINITY_BITS: u64 = 0x7ff0_0000_0000_0000;

/// The sign bit of a binary64 number.
pub const SIGN_BIT: u64 = 0x8000_0000_0000_0000;

/// The magnitude of a binary64 number, as an integer that grows with it.
pub open spec fn float_magnitude(bits: u64) -> int {
    if bits >= SIGN_BIT {
        bits - SIGN_BIT
    } else {
        bits as int
    }
}

/// Whether the bits are those of a NaN.
pub open spec fn is_nan(bits: u64) -> bool {
    float_magnitude(bits) > INFINITY_BITS
}

/// The place of a binary64 number in the total order of floats: both zeros share one, and every
/// NaN shares one above all numbers.
pub open spec fn float_rank(bits: u64) -> int {
    if is_nan(bits) {
        INFINITY_BITS + 1
    } else if bits >= SIGN_BIT {
        -float_magnitude(bits)
    } else {
        float_magnitude(bits)
    }
}

/// The lexicographic order of byte strings.
pub open spec fn bytes_lt(a: Seq<u8>, b: Seq<u8>) -> bool
    decreases a.len(),
{
    if b.len() == 0 {
        false
    } else if a.len() == 0 {
        true
    } else if a[0] != b[0] {
        a[0] < b[0]
    } else {
        bytes_lt(a.drop_first(), b.drop_first())
    }
}

/// The order of the values of a column. Values of different kinds never meet in one column; to
/// make the order total, integers come before floats and floats before byte strings.
pub open spec fn value_lt(a: SpecValue, b: SpecValue) -> bool {
    match (a, b) {
        (SpecValue::Int(x), SpecValue::Int(y)) => x < y,
        (SpecValue::Float(x), SpecValue::Float(y)) => float_rank(x) < float_rank(y),
        (SpecValue::Bytes(x), SpecValue::Bytes(y)) => bytes_lt(x, y),
        (SpecValue::Int(_), _) => true,
        (SpecValue::Float(_), SpecValue::Bytes(_)) => true,
        (_, _) => false,
    }
}

/// The reflexive order of the values of a column.
pub open spec fn value_le(a: SpecValue, b: SpecValue) -> bool {
    !value_lt(b, a)
}

/// Lexicographic order is irreflexive.
pub proof fn lemma_bytes_irreflexive(a: Seq<u8>)
    ensures
        !bytes_lt(a, a),
    decreases a.len(),
{
    if a.len() > 0 {
        lemma_bytes_irreflexive(a.drop_first());
    }
}

/// Of two different byte strings exactly one comes first.
pub proof fn lemma_bytes_trichotomy(a: Seq<u8>, b: Seq<u8>)
    ensures
        bytes_lt(a, b) ==> !bytes_lt(b, a),
        !bytes_lt(a, b) && !bytes_lt(b, a) ==> a == b,
    decreases a.len(),
{
    if a.len() > 0 && b.len() > 0 {
        lemma_bytes_trichotomy(a.drop_first(), b.drop_first());
        if a[0] == b[0] && a.drop_first() == b.drop_first() {
            assert(a =~= seq![a[0]] + a.drop_first());
            assert(b =~= seq![b[0]] + b.drop_first());
        }
    } else if a.len() == 0 && b.len() == 0 {
        assert(a =~= b);
    }
}

/// Lexicographic order is transitive.
pub proof fn lemma_bytes_transitive(a: Seq<u8>, b: Seq<u8>, c: Seq<u8>)
    requires
        bytes_lt(a, b),
        bytes_lt(b, c),
    ensures
        bytes_lt(a, c),
    decreases a.len(),
{
    if a.len() > 0 && a[0] == b[0] && b[0] == c[0] {
        lemma_bytes_transitive(a.drop_first(), b.drop_first(), c.drop_first());
    }
}

/// The order of values is a strict weak order: it is irreflexive and transitive, a value that
/// is not below another and the other not below a third is not below the third either, and the
/// reflexive order is total.
pub proof fn lemma_value_order(a: SpecValue, b: SpecValue, c: SpecValue)
    ensures
        !value_lt(a, a),
        value_lt(a, b) ==> value_le(a, b),
        value_le(a, b) || value_le(b, a),
        value_lt(a, b) && value_lt(b, c) ==> value_lt(a, c),
        value_le(a, b) && value_le(b, c) ==> value_le(a, c),
        value_lt(a, b) && value_le(b, c) ==> value_lt(a, c),
        value_le(a, b) && value_lt(b, c) ==> value_lt(a, c),
{
    if let SpecValue::Bytes(x) = a {
        lemma_bytes_irreflexive(x);
        if let SpecValue::Bytes(y) = b {
            lemma_bytes_trichotomy(x, y);
            if let SpecValue::Bytes(z) = c {
                lemma_bytes_trichotomy(y, z);
                lemma_bytes_trichotomy(x, z);
                if bytes_lt(x, y) && bytes_lt(y, z) {
                    lemma_bytes_transitive(x, y, z);
                }
                if bytes_lt(z, y) && bytes_lt(y, x) {
                    lemma_bytes_transitive(z, y, x);
                }
            }
        }
    }
}

/// The place of a binary64 number in the total order of floats.
pub fn float_key(bits: u64) -> (key: i128)
    ensures
        key == float_rank(bits),
{
    let magnitude: u64 = if bits >= SIGN_BIT {
        bits - SIGN_BIT
    } else {
        bits
    };
    if magnitude > INFINITY_BITS {
        INFINITY_BITS as i128 + 1
    } else if bits >= SIGN_BIT {
        -(magnitude as i128)
    } else {
        magnitude as i128
    }
}

/// Whether one byte string comes before another in lexicographic order.
fn bytes_less(a: &Vec<u8>, b: &Vec<u8>) -> (less: bool)
    ensures
        less == bytes_lt(a@, b@),
{
    let mut i: usize = 0;
    assert(a@.skip(0) =~= a@);
    assert(b@.skip(0) =~= b@);
    while i < a.len() && i < b.len()
        invariant
            i <= a.len(),
            i <= b.len(),
            bytes_lt(a@, b@) == bytes_lt(a@.skip(i as int), b@.skip(i as int)),
        decreases a.len() - i,
    {
        if a[i] != b[i] {
            return a[i] < b[i];
        }
        assert(a@.skip(i as int).drop_first() =~= a@.skip(i + 1));
        assert(b@.skip(i as int).drop_first() =~= b@.skip(i + 1));
        i += 1;
    }
    i < b.len()
}

/// The magnitude of an integer.
pub(crate) fn magnitude(x: i128) -> (magnitude: u128)
    ensures
        magnitude == if x < 0 {
            -x
        } else {
            x as int
        },
{
    if x >= 0 {
        x as u128
    } else if x == i128::MIN {
        0x8000_0000_0000_0000_0000_0000_0000_0000
    } else {
        (-x) as u128
    }
}

impl Value {
    /// Whether the value comes before another one.
    pub fn lt(&self, other: &Value) -> (less: bool)
        ensures
            less == value_lt(self@, other@),
    {
        match (self, other) {
            (Value::Int(x), Value::Int(y)) => *x < *y,
            (Value::UInt(x), Value::UInt(y)) => *x < *y,
            (Value::Int(x), Value::UInt(y)) => *x < 0 || (*x as u128) < *y,
            (Value::UInt(x), Value::Int(y)) => *y > 0 && *x < (*y as u128),
            (Value::Float(x), Value::Float(y)) => float_key(*x) < float_key(*y),
            (Value::Bytes(x), Value::Bytes(y)) => bytes_less(x, y),
            (Value::Int(_), _) => true,
            (Value::UInt(_), _) => true,
            (Value::Float(_), Value::Bytes(_)) => true,
            (_, _) => false,
        }
    }
}

impl Clone for Value {
    fn clone(&self) -> (copy: Value)
        ensures
            copy@ == self@,
    {
        match self {
            Value::Int(v) => Value::Int(*v),
            Value::UInt(v) => Value::UInt(*v),
            Value::Float(bits) => Value::Float(*bits),
            Value::Bytes(bytes) => {
                let copy: Vec<u8> = bytes.clone();
                assert(copy@ =~= bytes@);
                Value::Bytes(copy)
            },
        }
    }
}

} // verus!
