//! The sorted order of a column.

use polars_core::prelude::{
    BinaryChunked, ChunkSort, ChunkedArray, NewChunkedArray, PlSmallStr, UInt128Type,
};
use vstd::prelude::*;
use vstd::relations::injective_on;
use vstd::set_lib::{
    lemma_int_range, lemma_len_subset, lemma_map_size, lemma_subset_equality, set_int_range,
};

use crate::dtype::{DataType, IntType, SpecDataType, LENGTH_LIMIT};
use crate::ordered_bits::OrderedBits;
use crate::series::{valid_count, IdxSize, Series};
use crate::value::{float_key, float_rank, lemma_value_order, value_lt, SpecValue, Value};

verus! {

/// How a column is sorted.
#[derive(Clone, Copy, Debug, PartialEq, Eq, Structural)]
pub struct SortOptions {
    pub descending: bool,
    pub nulls_last: bool,
    pub maintain_order: bool,
}

/// Sort options shared by every form that works from sorted order.
///
/// That the order of equal values is maintained matters: binning by rank splits ties across
/// adjacent bins by position, so without a stable sort `[5, 5]` over two bins could come back as
/// `[1, 0]`.
pub fn sort_options() -> (options: SortOptions)
    ensures
        options == (SortOptions { descending: false, nulls_last: true, maintain_order: true }),
{
    SortOptions { descending: false, nulls_last: true, maintain_order: true }
}

/// Whether row `a` comes before row `b` in ascending order with nulls last, rows of equal value
/// staying in place.
pub open spec fn precedes(values: Seq<Option<SpecValue>>, a: int, b: int) -> bool {
    match (values[a], values[b]) {
        (Some(x), Some(y)) => value_lt(x, y) || (!value_lt(y, x) && a < b),
        (Some(_), None) => true,
        (None, Some(_)) => false,
        (None, None) => a < b,
    }
}

/// Whether a list of rows is the column's stable ascending order with nulls last.
pub open spec fn is_sort_order(values: Seq<Option<SpecValue>>, order: Seq<IdxSize>) -> bool {
    &&& order.len() == values.len()
    &&& forall|i: int| 0 <= i < order.len() ==> (#[trigger] order[i]) < values.len()
    &&& forall|i: int, j: int|
        0 <= i < j < order.len() ==> precedes(
            values,
            (#[trigger] order[i]) as int,
            (#[trigger] order[j]) as int,
        )
}

/// Cells of integers.
pub open spec fn integer_cells(keys: Seq<Option<u128>>) -> Seq<Option<SpecValue>> {
    keys.map_values(
        |key: Option<u128>|
            match key {
                Some(k) => Some(SpecValue::Int(k as int)),
                None => None,
            },
    )
}

/// Cells of byte strings.
pub open spec fn byte_cells(values: Seq<Option<Vec<u8>>>) -> Seq<Option<SpecValue>> {
    values.map_values(
        |value: Option<Vec<u8>>|
            match value {
                Some(bytes) => Some(SpecValue::Bytes(bytes@)),
                None => None,
            },
    )
}

/// `ChunkSort::arg_sort` of `polars_core` on a column of `u128`. Trusted: with these options it
/// lists every row once, in ascending order, rows of equal value in their own order, and the
/// rows of nulls last, in their own order too.
#[verifier::external_body]
fn arg_sort_integers(keys: &Vec<Option<u128>>, options: SortOptions) -> (order: Vec<IdxSize>)
    requires
        keys.len() < LENGTH_LIMIT,
        !options.descending,
        options.nulls_last,
        options.maintain_order,
    ensures
        is_sort_order(integer_cells(keys@), order@),
{
    let options = polars_core::prelude::SortOptions {
        descending: options.descending,
        nulls_last: options.nulls_last,
        maintain_order: options.maintain_order,
        ..Default::default()
    };
    let column = ChunkedArray::<UInt128Type>::from_slice_options(PlSmallStr::EMPTY, keys);
    column.arg_sort(options).into_no_null_iter().collect()
}

/// `ChunkSort::arg_sort` of `polars_core` on a column of byte strings. Trusted: with these
/// options it lists every row once, in ascending lexicographic order, rows of equal value in
/// their own order, and the rows of nulls last, in their own order too.
#[verifier::external_body]
fn arg_sort_bytes(values: &Vec<Option<Vec<u8>>>, options: SortOptions) -> (order: Vec<IdxSize>)
    requires
        values.len() < LENGTH_LIMIT,
        forall|i: int|
            0 <= i < values.len() && (#[trigger] values@[i]) is Some ==> values@[i]->Some_0@.len()
                < LENGTH_LIMIT,
        !options.descending,
        options.nulls_last,
        options.maintain_order,
    ensures
        is_sort_order(byte_cells(values@), order@),
{
    let options = polars_core::prelude::SortOptions {
        descending: options.descending,
        nulls_last: options.nulls_last,
        maintain_order: options.maintain_order,
        ..Default::default()
    };
    let column = BinaryChunked::from_slice_options(PlSmallStr::EMPTY, values);
    column.arg_sort(options).into_no_null_iter().collect()
}

/// A list of rows that is the sort order of one column is that of every other column in which
/// the same cells are null and the others compare alike.
proof fn lemma_same_order(
    a: Seq<Option<SpecValue>>,
    b: Seq<Option<SpecValue>>,
    order: Seq<IdxSize>,
)
    requires
        is_sort_order(a, order),
        a.len() == b.len(),
        forall|i: int| 0 <= i < a.len() ==> ((#[trigger] a[i]) is Some <==> b[i] is Some),
        forall|i: int, j: int|
            0 <= i < a.len() && 0 <= j < a.len() && (#[trigger] a[i]) is Some && (
            #[trigger] a[j]) is Some ==> value_lt(a[i]->Some_0, a[j]->Some_0) == value_lt(
                b[i]->Some_0,
                b[j]->Some_0,
            ),
    ensures
        is_sort_order(b, order),
{
    assert forall|i: int, j: int| 0 <= i < j < order.len() implies precedes(
        b,
        (#[trigger] order[i]) as int,
        (#[trigger] order[j]) as int,
    ) by {
        let (p, q) = (order[i] as int, order[j] as int);
        assert(precedes(a, p, q));
        assert(a[p] is Some <==> b[p] is Some);
        assert(a[q] is Some <==> b[q] is Some);
    }
}

/// The integer by which a value is sorted, before it is moved into the range of `u128`.
spec fn sort_key(v: SpecValue) -> int {
    match v {
        SpecValue::Int(x) => x,
        SpecValue::Float(bits) => float_rank(bits),
        SpecValue::Bytes(_) => 0,
    }
}

/// The integer by which a value of a column is sorted, in the range of `u128`. The values of
/// every type but `UInt128` are moved up by the distance of zero from the smallest `i128`.
fn ordered_key(value: &Value, wide: bool) -> (key: u128)
    requires
        value@ !is Bytes,
        wide ==> 0 <= sort_key(value@),
        !wide ==> i128::MIN <= sort_key(value@) <= i128::MAX,
    ensures
        key == sort_key(value@) + if wide {
            0int
        } else {
            0x8000_0000_0000_0000_0000_0000_0000_0000
        },
{
    match value {
        Value::Int(v) => if wide {
            *v as u128
        } else {
            v.to_ordered()
        },
        Value::UInt(v) => if wide {
            *v
        } else {
            (*v as i128).to_ordered()
        },
        Value::Float(bits) => if wide {
            float_key(*bits) as u128
        } else {
            float_key(*bits).to_ordered()
        },
        Value::Bytes(_) => 0,
    }
}

/// The sort order of a column of integers or floats.
fn arg_sort_fixed(s: &Series) -> (order: Vec<IdxSize>)
    requires
        !s@.dtype.is_bytes(),
    ensures
        is_sort_order(s@.values, order@),
{
    proof {
        use_type_invariant(s);
    }
    let wide: bool = s.dtype().same(&DataType::Integer(IntType::UInt128));
    let len: usize = s.len();
    let ghost shift: int = if wide {
        0
    } else {
        0x8000_0000_0000_0000_0000_0000_0000_0000
    };
    let mut keys: Vec<Option<u128>> = Vec::new();
    let mut i: usize = 0;
    while i < len
        invariant
            i <= len,
            len == s@.values.len(),
            len < LENGTH_LIMIT,
            keys.len() == i,
            s@.valid(),
            !s@.dtype.is_bytes(),
            wide == (s@.dtype == SpecDataType::Integer(IntType::UInt128)),
            shift == if wide {
                0int
            } else {
                0x8000_0000_0000_0000_0000_0000_0000_0000
            },
            forall|j: int|
                0 <= j < i ==> match s@.values[j] {
                    Some(v) => (#[trigger] keys@[j]) is Some && keys@[j]->Some_0 == sort_key(v)
                        + shift,
                    None => keys@[j] is None,
                },
        decreases len - i,
    {
        let key: Option<u128> = match s.get(i) {
            Some(value) => {
                assert(s@.values[i as int] is Some && s@.dtype.admits(value@));
                Some(ordered_key(value, wide))
            },
            None => None,
        };
        keys.push(key);
        i += 1;
    }
    let order: Vec<IdxSize> = arg_sort_integers(&keys, sort_options());
    proof {
        let a = integer_cells(keys@);
        let b = s@.values;
        assert forall|j: int| 0 <= j < a.len() implies ((#[trigger] a[j]) is Some <==> b[j]
            is Some) by {
            assert(match s@.values[j] {
                Some(v) => keys@[j] is Some && keys@[j]->Some_0 == sort_key(v) + shift,
                None => keys@[j] is None,
            });
        }
        assert forall|j: int, k: int|
            0 <= j < a.len() && 0 <= k < a.len() && (#[trigger] a[j]) is Some && (#[trigger] a[k])
                is Some implies value_lt(a[j]->Some_0, a[k]->Some_0) == value_lt(
            b[j]->Some_0,
            b[k]->Some_0,
        ) by {
            assert(keys@[j] is Some && keys@[k] is Some);
            assert(b[j] is Some && b[k] is Some);
            assert(s@.dtype.admits(b[j]->Some_0) && s@.dtype.admits(b[k]->Some_0));
        }
        lemma_same_order(a, b, order@);
    }
    order
}

/// The sort order of a column of strings or byte strings.
fn arg_sort_variable(s: &Series) -> (order: Vec<IdxSize>)
    requires
        s@.dtype.is_bytes(),
    ensures
        is_sort_order(s@.values, order@),
{
    proof {
        use_type_invariant(s);
    }
    let len: usize = s.len();
    let mut values: Vec<Option<Vec<u8>>> = Vec::new();
    let mut i: usize = 0;
    while i < len
        invariant
            i <= len,
            len == s@.values.len(),
            len < LENGTH_LIMIT,
            values.len() == i,
            s@.valid(),
            s@.dtype.is_bytes(),
            forall|j: int| 0 <= j < i ==> #[trigger] byte_cells(values@)[j] == s@.values[j],
        decreases len - i,
    {
        let ghost before = values@;
        let value: Option<Vec<u8>> = match s.get(i) {
            Some(value) => {
                assert(s@.values[i as int] is Some && s@.dtype.admits(value@));
                match value {
                    Value::Bytes(bytes) => {
                        let copy: Vec<u8> = bytes.clone();
                        assert(copy@ =~= bytes@);
                        Some(copy)
                    },
                    _ => None,
                }
            },
            None => None,
        };
        values.push(value);
        assert forall|j: int| 0 <= j < i + 1 implies #[trigger] byte_cells(values@)[j]
            == s@.values[j] by {
            if j < i {
                assert(byte_cells(before)[j] == s@.values[j]);
            }
        }
        i += 1;
    }
    assert(byte_cells(values@) =~= s@.values);
    assert forall|j: int| 0 <= j < values.len() && (#[trigger] values@[j]) is Some implies values@[
        j
    ]->Some_0@.len() < LENGTH_LIMIT by {
        assert(byte_cells(values@)[j] == s@.values[j]);
        assert(s@.dtype.admits(s@.values[j]->Some_0));
    }
    arg_sort_bytes(&values, sort_options())
}

/// The rows of a column in ascending order, nulls last, rows of equal value staying in place.
pub fn arg_sort(s: &Series) -> (order: Vec<IdxSize>)
    ensures
        is_sort_order(s@.values, order@),
{
    if s.dtype().is_bytes() {
        arg_sort_variable(s)
    } else {
        arg_sort_fixed(s)
    }
}

/// Whether a list of rows holds a row.
pub open spec fn lists(order: Seq<IdxSize>, row: int) -> bool {
    exists|i: int| 0 <= i < order.len() && #[trigger] order[i] == row
}

/// A sort order lists every row exactly once.
pub proof fn lemma_sort_order_permutes(values: Seq<Option<SpecValue>>, order: Seq<IdxSize>)
    requires
        is_sort_order(values, order),
    ensures
        forall|i: int, j: int|
            0 <= i < order.len() && 0 <= j < order.len() && i != j ==> order[i] != order[j],
        forall|row: int| 0 <= row < values.len() ==> #[trigger] lists(order, row),
{
    assert forall|i: int, j: int|
        0 <= i < order.len() && 0 <= j < order.len() && i != j implies order[i] != order[j] by {
        if order[i] == order[j] {
            let (lo, hi) = if i < j {
                (i, j)
            } else {
                (j, i)
            };
            assert(precedes(values, order[lo] as int, order[hi] as int));
            if values[order[lo] as int] is Some {
                let v = values[order[lo] as int]->Some_0;
                lemma_value_order(v, v, v);
            }
        }
    }
    let positions = set_int_range(0, order.len() as int);
    let rows = positions.map(|i: int| order[i] as int);
    lemma_int_range(0, order.len() as int);
    assert(injective_on(|i: int| order[i] as int, positions)) by {
        assert forall|x1: int, x2: int|
            positions.contains(x1) && positions.contains(x2) && order[x1] as int == order[x2] as int
                implies x1 == x2 by {}
    }
    lemma_map_size(positions, rows, |i: int| order[i] as int);
    assert(rows.subset_of(positions)) by {
        assert forall|row: int| rows.contains(row) implies positions.contains(row) by {
            let i = choose|i: int| positions.contains(i) && order[i] as int == row;
            assert(order[i] < values.len());
        }
    }
    lemma_subset_equality(rows, positions);
    assert forall|row: int| 0 <= row < values.len() implies #[trigger] lists(order, row) by {
        assert(positions.contains(row));
        assert(rows.contains(row));
        let i = choose|i: int| positions.contains(i) && order[i] as int == row;
        assert(order[i] == row);
    }
}

/// The rows of a column that are not null.
pub open spec fn valid_rows<T>(values: Seq<Option<T>>) -> Set<int> {
    set_int_range(0, values.len() as int).filter(|row: int| values[row] is Some)
}

/// There are as many rows that are not null as the column counts.
pub proof fn lemma_valid_rows_len<T>(values: Seq<Option<T>>)
    ensures
        valid_rows(values).finite(),
        valid_rows(values).len() == valid_count(values),
    decreases values.len(),
{
    lemma_int_range(0, values.len() as int);
    if values.len() == 0 {
        assert(valid_rows(values) =~= Set::<int>::empty());
    } else {
        let init = values.drop_last();
        let last = values.len() - 1;
        lemma_valid_rows_len(init);
        if values[last] is Some {
            assert(valid_rows(values) =~= valid_rows(init).insert(last));
        } else {
            assert(valid_rows(values) =~= valid_rows(init));
        }
    }
}

/// A sort order lists the rows that are not null first, in ascending order of their values.
pub proof fn lemma_sort_order_valid_first(values: Seq<Option<SpecValue>>, order: Seq<IdxSize>)
    requires
        is_sort_order(values, order),
    ensures
        forall|i: int|
            0 <= i < order.len() ==> (values[(#[trigger] order[i]) as int] is Some <==> i
                < valid_count(values)),
{
    let cells = Seq::new(order.len(), |i: int| values[order[i] as int]);
    lemma_sort_order_permutes(values, order);
    lemma_valid_rows_len(values);
    lemma_valid_rows_len(cells);
    // The order maps the positions that hold valid cells one to one onto the valid rows.
    let f = |i: int| order[i] as int;
    assert(injective_on(f, valid_rows(cells))) by {
        assert forall|x1: int, x2: int|
            valid_rows(cells).contains(x1) && valid_rows(cells).contains(x2) && f(x1) == f(
                x2,
            ) implies x1 == x2 by {}
    }
    assert(valid_rows(cells).map(f) =~= valid_rows(values)) by {
        assert forall|row: int| valid_rows(values).contains(row) implies valid_rows(cells).map(
            f,
        ).contains(row) by {
            assert(lists(order, row));
            let i = choose|i: int| 0 <= i < order.len() && #[trigger] order[i] == row;
            assert(valid_rows(cells).contains(i) && f(i) == row);
        }
    }
    lemma_map_size(valid_rows(cells), valid_rows(values), f);
    lemma_valid_prefix(cells);
    assert forall|i: int| 0 <= i < order.len() implies (values[(#[trigger] order[i]) as int]
        is Some <==> i < valid_count(values)) by {
        assert(cells[i] == values[order[i] as int]);
    }
}

/// Where no valid cell comes behind a null, the valid cells are a prefix as long as their number.
proof fn lemma_valid_prefix(cells: Seq<Option<SpecValue>>)
    requires
        forall|i: int, j: int|
            0 <= i < j < cells.len() && (#[trigger] cells[i]) is None ==> (#[trigger] cells[j])
                is None,
    ensures
        valid_count(cells) <= cells.len(),
        forall|i: int|
            0 <= i < cells.len() ==> ((#[trigger] cells[i]) is Some <==> i < valid_count(cells)),
    decreases cells.len(),
{
    if cells.len() > 0 {
        let init = cells.drop_last();
        assert(forall|i: int| 0 <= i < init.len() ==> init[i] == cells[i]);
        lemma_valid_prefix(init);
        let last = cells.len() - 1;
        if cells[last] is Some && init.len() > 0 {
            assert(init[last - 1] is Some) by {
                assert(cells[last - 1] is None ==> cells[last] is None);
            }
        }
    }
}

/// The rows that come before a row in sorted order.
pub open spec fn rows_before(values: Seq<Option<SpecValue>>, row: int) -> Set<int> {
    set_int_range(0, values.len() as int).filter(|other: int| precedes(values, other, row))
}

/// The position of a row in sorted order: the number of rows that come before it.
pub open spec fn rank(values: Seq<Option<SpecValue>>, row: int) -> nat {
    rows_before(values, row).len()
}

/// The row at a position in sorted order.
pub open spec fn row_at(values: Seq<Option<SpecValue>>, position: int) -> int {
    choose|row: int| 0 <= row < values.len() && #[trigger] rank(values, row) == position
}

/// Of two different rows exactly one comes before the other, and the order is transitive.
pub proof fn lemma_precedes_order(values: Seq<Option<SpecValue>>, a: int, b: int, c: int)
    ensures
        !precedes(values, a, a),
        precedes(values, a, b) ==> !precedes(values, b, a),
        a != b ==> precedes(values, a, b) || precedes(values, b, a),
        precedes(values, a, b) && precedes(values, b, c) ==> precedes(values, a, c),
{
    if values[a] is Some && values[b] is Some {
        let (x, y) = (values[a]->Some_0, values[b]->Some_0);
        lemma_value_order(x, y, x);
        lemma_value_order(y, x, y);
        if values[c] is Some {
            lemma_value_order(x, y, values[c]->Some_0);
        }
    }
    if values[a] is Some {
        let x = values[a]->Some_0;
        lemma_value_order(x, x, x);
    }
}

/// Every row of a sort order has its place in it as its rank.
pub proof fn lemma_sort_order_ranks(values: Seq<Option<SpecValue>>, order: Seq<IdxSize>)
    requires
        is_sort_order(values, order),
    ensures
        forall|i: int| 0 <= i < order.len() ==> rank(values, (#[trigger] order[i]) as int) == i,
        forall|i: int| 0 <= i < order.len() ==> row_at(values, i) == (#[trigger] order[i]),
{
    lemma_sort_order_permutes(values, order);
    assert forall|i: int| 0 <= i < order.len() implies rank(values, (#[trigger] order[i]) as int)
        == i by {
        let front = set_int_range(0, i);
        let f = |j: int| order[j] as int;
        let row = order[i] as int;
        lemma_int_range(0, i);
        assert(injective_on(f, front)) by {
            assert forall|x1: int, x2: int|
                front.contains(x1) && front.contains(x2) && f(x1) == f(x2) implies x1 == x2 by {}
        }
        assert(front.map(f) =~= rows_before(values, row)) by {
            assert forall|other: int| front.map(f).contains(other) implies rows_before(
                values,
                row,
            ).contains(other) by {
                let j = choose|j: int| front.contains(j) && f(j) == other;
                assert(precedes(values, order[j] as int, order[i] as int));
            }
            assert forall|other: int| rows_before(values, row).contains(other) implies front.map(
                f,
            ).contains(other) by {
                assert(lists(order, other));
                let j = choose|j: int| 0 <= j < order.len() && #[trigger] order[j] == other;
                lemma_precedes_order(values, other, row, other);
                if j > i {
                    assert(precedes(values, order[i] as int, order[j] as int));
                }
                assert(front.contains(j) && f(j) == other);
            }
        }
        lemma_map_size(front, rows_before(values, row), f);
    }
    assert forall|i: int| 0 <= i < order.len() implies row_at(values, i)
        == (#[trigger] order[i]) by {
        let row = order[i] as int;
        assert(rank(values, row) == i);
        let found = row_at(values, i);
        assert(0 <= found < values.len() && rank(values, found) == i);
        assert(lists(order, found));
        let j = choose|j: int| 0 <= j < order.len() && #[trigger] order[j] == found;
        assert(rank(values, order[j] as int) == j);
    }
}

/// A row that comes before another one has the lower rank.
pub proof fn lemma_rank_follows_order(values: Seq<Option<SpecValue>>, a: int, b: int)
    requires
        0 <= a < values.len(),
        0 <= b < values.len(),
        precedes(values, a, b),
    ensures
        rank(values, a) < rank(values, b),
{
    lemma_int_range(0, values.len() as int);
    let (front, back) = (rows_before(values, a), rows_before(values, b));
    lemma_precedes_order(values, a, a, a);
    assert(front.insert(a).subset_of(back)) by {
        assert forall|row: int| front.insert(a).contains(row) implies back.contains(row) by {
            if row != a {
                lemma_precedes_order(values, row, a, b);
            }
        }
    }
    lemma_len_subset(front.insert(a), back);
}

/// The ranks of the rows that are not null are less than their number, and each of these is the
/// rank of one of them.
pub proof fn lemma_valid_ranks(values: Seq<Option<SpecValue>>)
    ensures
        forall|row: int|
            0 <= row < values.len() && values[row] is Some ==> #[trigger] rank(values, row)
                < valid_count(values),
        forall|position: int|
            0 <= position < valid_count(values) ==> {
                let row = #[trigger] row_at(values, position);
                0 <= row < values.len() && values[row] is Some && rank(values, row) == position
            },
{
    let rows = valid_rows(values);
    let f = |row: int| rank(values, row) as int;
    let count = valid_count(values) as int;
    lemma_valid_rows_len(values);
    lemma_int_range(0, values.len() as int);
    lemma_int_range(0, count);
    assert forall|row: int| 0 <= row < values.len() && values[row] is Some implies #[trigger] rank(
        values,
        row,
    ) < count by {
        lemma_precedes_order(values, row, row, row);
        assert(rows.contains(row));
        assert(rows_before(values, row).subset_of(rows.remove(row)));
        lemma_len_subset(rows_before(values, row), rows.remove(row));
    }
    assert(injective_on(f, rows)) by {
        assert forall|x1: int, x2: int|
            rows.contains(x1) && rows.contains(x2) && f(x1) == f(x2) implies x1 == x2 by {
            if x1 != x2 {
                lemma_precedes_order(values, x1, x2, x1);
                if precedes(values, x1, x2) {
                    lemma_rank_follows_order(values, x1, x2);
                } else {
                    lemma_rank_follows_order(values, x2, x1);
                }
            }
        }
    }
    lemma_map_size(rows, rows.map(f), f);
    lemma_subset_equality(rows.map(f), set_int_range(0, count));
    assert forall|position: int| 0 <= position < count implies {
        let row = #[trigger] row_at(values, position);
        0 <= row < values.len() && values[row] is Some && rank(values, row) == position
    } by {
        assert(set_int_range(0, count).contains(position));
        assert(rows.map(f).contains(position));
        let row = choose|row: int| rows.contains(row) && f(row) == position;
        assert(rank(values, row) == position);
        let found = row_at(values, position);
        assert(0 <= found < values.len() && rank(values, found) == position);
        if found != row {
            lemma_precedes_order(values, found, row, found);
            if precedes(values, found, row) {
                lemma_rank_follows_order(values, found, row);
            } else {
                lemma_rank_follows_order(values, row, found);
            }
        }
    }
}

} // verus!
