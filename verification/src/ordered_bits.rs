//! Order-preserving maps between the fixed-width integers and `u128`.

use vstd::prelude::*;

verus! {

/// An integer type together with its order-preserving map to and from `u128`.
///
/// Equal-width breakpoints are computed in the `u128` domain, so that one accumulator width
/// covers every integer type, and so that `max - min` cannot overflow the input's own width
/// (`i64::MIN` to `i64::MAX` would).
pub trait OrderedBits: Copy {
    /// The mathematical value.
    spec fn value(self) -> int;

    /// The smallest value of the type.
    spec fn lowest() -> int;

    /// The number of values of the type, `2` to the power of its width.
    spec fn cardinality() -> int;

    proof fn lemma_in_range(self)
        ensures
            Self::lowest() <= self.value() < Self::lowest() + Self::cardinality(),
    ;

    proof fn lemma_type_range()
        ensures
            -0x8000_0000_0000_0000_0000_0000_0000_0000 <= Self::lowest() <= 0,
            0 < Self::cardinality() <= 0x1_0000_0000_0000_0000_0000_0000_0000_0000int,
            Self::lowest() + Self::cardinality() <= 0x1_0000_0000_0000_0000_0000_0000_0000_0000int,
    ;

    proof fn lemma_value_determines(self, other: Self)
        requires
            self.value() == other.value(),
        ensures
            self == other,
    ;

    /// The distance of the value from the smallest one of its type.
    fn to_ordered(self) -> (bits: u128)
        ensures
            bits == self.value() - Self::lowest(),
    ;

    /// The value at a distance from the smallest one of its type, counted modulo the number of
    /// values of the type.
    fn from_ordered(bits: u128) -> (v: Self)
        ensures
            v.value() == bits as int % Self::cardinality() + Self::lowest(),
    ;
}

impl OrderedBits for i8 {
    open spec fn value(self) -> int {
        self as int
    }

    open spec fn lowest() -> int {
        -0x80
    }

    open spec fn cardinality() -> int {
        0x100
    }

    proof fn lemma_in_range(self) {
    }

    proof fn lemma_type_range() {
    }

    proof fn lemma_value_determines(self, other: Self) {
    }

    // Flipping the sign bit maps the signed range onto the unsigned one and keeps the order.
    fn to_ordered(self) -> (bits: u128) {
        assert((((self as u8) ^ 0x80u8) as int) == self + 0x80) by (bit_vector);
        ((self as u8) ^ 0x80u8) as u128
    }

    fn from_ordered(bits: u128) -> (v: Self) {
        assert(((((bits as u8) ^ 0x80u8) as i8) + 0x80) == bits % 0x100) by (bit_vector);
        ((bits as u8) ^ 0x80u8) as i8
    }
}

impl OrderedBits for u8 {
    open spec fn value(self) -> int {
        self as int
    }

    open spec fn lowest() -> int {
        0
    }

    open spec fn cardinality() -> int {
        0x100
    }

    proof fn lemma_in_range(self) {
    }

    proof fn lemma_type_range() {
    }

    proof fn lemma_value_determines(self, other: Self) {
    }

    fn to_ordered(self) -> (bits: u128) {
        self as u128
    }

    fn from_ordered(bits: u128) -> (v: Self) {
        assert((bits as u8) == bits % 0x100) by (bit_vector);
        bits as u8
    }
}

impl OrderedBits for i16 {
    open spec fn value(self) -> int {
        self as int
    }

    open spec fn lowest() -> int {
        -0x8000
    }

    open spec fn cardinality() -> int {
        0x1_0000
    }

    proof fn lemma_in_range(self) {
    }

    proof fn lemma_type_range() {
    }

    proof fn lemma_value_determines(self, other: Self) {
    }

    // Flipping the sign bit maps the signed range onto the unsigned one and keeps the order.
    fn to_ordered(self) -> (bits: u128) {
        assert((((self as u16) ^ 0x8000u16) as int) == self + 0x8000) by (bit_vector);
        ((self as u16) ^ 0x8000u16) as u128
    }

    fn from_ordered(bits: u128) -> (v: Self) {
        assert(((((bits as u16) ^ 0x8000u16) as i16) + 0x8000) == bits % 0x1_0000) by (bit_vector);
        ((bits as u16) ^ 0x8000u16) as i16
    }
}

impl OrderedBits for u16 {
    open spec fn value(self) -> int {
        self as int
    }

    open spec fn lowest() -> int {
        0
    }

    open spec fn cardinality() -> int {
        0x1_0000
    }

    proof fn lemma_in_range(self) {
    }

    proof fn lemma_type_range() {
    }

    proof fn lemma_value_determines(self, other: Self) {
    }

    fn to_ordered(self) -> (bits: u128) {
        self as u128
    }

    fn from_ordered(bits: u128) -> (v: Self) {
        assert((bits as u16) == bits % 0x1_0000) by (bit_vector);
        bits as u16
    }
}

impl OrderedBits for i32 {
    open spec fn value(self) -> int {
        self as int
    }

    open spec fn lowest() -> int {
        -0x8000_0000
    }

    open spec fn cardinality() -> int {
        0x1_0000_0000
    }

    proof fn lemma_in_range(self) {
    }

    proof fn lemma_type_range() {
    }

    proof fn lemma_value_determines(self, other: Self) {
    }

    // Flipping the sign bit maps the signed range onto the unsigned one and keeps the order.
    fn to_ordered(self) -> (bits: u128) {
        assert((((self as u32) ^ 0x8000_0000u32) as int) == self + 0x8000_0000) by (bit_vector);
        ((self as u32) ^ 0x8000_0000u32) as u128
    }

    fn from_ordered(bits: u128) -> (v: Self) {
        assert(((((bits as u32) ^ 0x8000_0000u32) as i32) + 0x8000_0000)
            == bits % 0x1_0000_0000) by (bit_vector);
        ((bits as u32) ^ 0x8000_0000u32) as i32
    }
}

impl OrderedBits for u32 {
    open spec fn value(self) -> int {
        self as int
    }

    open spec fn lowest() -> int {
        0
    }

    open spec fn cardinality() -> int {
        0x1_0000_0000
    }

    proof fn lemma_in_range(self) {
    }

    proof fn lemma_type_range() {
    }

    proof fn lemma_value_determines(self, other: Self) {
    }

    fn to_ordered(self) -> (bits: u128) {
        self as u128
    }

    fn from_ordered(bits: u128) -> (v: Self) {
        assert((bits as u32) == bits % 0x1_0000_0000) by (bit_vector);
        bits as u32
    }
}

impl OrderedBits for i64 {
    open spec fn value(self) -> int {
        self as int
    }

    open spec fn lowest() -> int {
        -0x8000_0000_0000_0000
    }

    open spec fn cardinality() -> int {
        0x1_0000_0000_0000_0000
    }

    proof fn lemma_in_range(self) {
    }

    proof fn lemma_type_range() {
    }

    proof fn lemma_value_determines(self, other: Self) {
    }

    // Flipping the sign bit maps the signed range onto the unsigned one and keeps the order.
    fn to_ordered(self) -> (bits: u128) {
        assert((((self as u64) ^ 0x8000_0000_0000_0000u64) as int)
            == self + 0x8000_0000_0000_0000) by (bit_vector);
        ((self as u64) ^ 0x8000_0000_0000_0000u64) as u128
    }

    fn from_ordered(bits: u128) -> (v: Self) {
        assert(((((bits as u64) ^ 0x8000_0000_0000_0000u64) as i64) + 0x8000_0000_0000_0000)
            == bits % 0x1_0000_0000_0000_0000) by (bit_vector);
        ((bits as u64) ^ 0x8000_0000_0000_0000u64) as i64
    }
}

impl OrderedBits for u64 {
    open spec fn value(self) -> int {
        self as int
    }

    open spec fn lowest() -> int {
        0
    }

    open spec fn cardinality() -> int {
        0x1_0000_0000_0000_0000
    }

    proof fn lemma_in_range(self) {
    }

    proof fn lemma_type_range() {
    }

    proof fn lemma_value_determines(self, other: Self) {
    }

    fn to_ordered(self) -> (bits: u128) {
        self as u128
    }

    fn from_ordered(bits: u128) -> (v: Self) {
        assert((bits as u64) == bits % 0x1_0000_0000_0000_0000) by (bit_vector);
        bits as u64
    }
}

impl OrderedBits for i128 {
    open spec fn value(self) -> int {
        self as int
    }

    open spec fn lowest() -> int {
        -0x8000_0000_0000_0000_0000_0000_0000_0000
    }

    open spec fn cardinality() -> int {
        0x1_0000_0000_0000_0000_0000_0000_0000_0000int
    }

    proof fn lemma_in_range(self) {
    }

    proof fn lemma_type_range() {
    }

    proof fn lemma_value_determines(self, other: Self) {
    }

    // Flipping the sign bit maps the signed range onto the unsigned one and keeps the order.
    fn to_ordered(self) -> (bits: u128) {
        assert((((self as u128) ^ 0x8000_0000_0000_0000_0000_0000_0000_0000u128) as int)
            == self + 0x8000_0000_0000_0000_0000_0000_0000_0000) by (bit_vector);
        ((self as u128) ^ 0x8000_0000_0000_0000_0000_0000_0000_0000u128)
    }

    fn from_ordered(bits: u128) -> (v: Self) {
        assert((((bits ^ 0x8000_0000_0000_0000_0000_0000_0000_0000u128) as i128)
            + 0x8000_0000_0000_0000_0000_0000_0000_0000) == bits) by (bit_vector);
        (bits ^ 0x8000_0000_0000_0000_0000_0000_0000_0000u128) as i128
    }
}

impl OrderedBits for u128 {
    open spec fn value(self) -> int {
        self as int
    }

    open spec fn lowest() -> int {
        0
    }

    open spec fn cardinality() -> int {
        0x1_0000_0000_0000_0000_0000_0000_0000_0000int
    }

    proof fn lemma_in_range(self) {
    }

    proof fn lemma_type_range() {
    }

    proof fn lemma_value_determines(self, other: Self) {
    }

    fn to_ordered(self) -> (bits: u128) {
        self
    }

    fn from_ordered(bits: u128) -> (v: Self) {
        bits
    }
}

/// The map keeps the order and loses nothing: what it makes of two values compares as they do,
/// and mapping back gives the value again.
pub proof fn law_ordered_bits_keep_order_and_value<N: OrderedBits>(a: N, b: N, back: N)
    requires
        back.value() == (a.value() - N::lowest()) % N::cardinality() + N::lowest(),
    ensures
        a.value() < b.value() <==> a.value() - N::lowest() < b.value() - N::lowest(),
        0 <= a.value() - N::lowest() <= u128::MAX,
        back == a,
{
    a.lemma_in_range();
    N::lemma_type_range();
    let distance = a.value() - N::lowest();
    assert(distance % N::cardinality() == distance) by (nonlinear_arith)
        requires
            0 <= distance < N::cardinality(),
    ;
    back.lemma_value_determines(a);
}

} // verus!
