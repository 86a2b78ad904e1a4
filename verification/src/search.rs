//! Searching ascending breakpoints.

use vstd::prelude::*;

use crate::dtype::LENGTH_LIMIT;
use crate::series::{IdxSize, Series};
use crate::value::{lemma_value_order, value_le, value_lt, SpecValue, Value};

verus! {

/// Where a value goes among the breakpoints that equal it: before them or behind them.
#[derive(Clone, Copy, Debug, PartialEq, Eq, Structural)]
pub enum SearchSortedSide {
    Left,
    Right,
}

/// Whether a breakpoint lies below a value: not above it when seen from the right, strictly
/// below it when seen from the left.
pub open spec fn passed(break_: SpecValue, x: SpecValue, side: SearchSortedSide) -> bool {
    match side {
        SearchSortedSide::Left => value_lt(break_, x),
        SearchSortedSide::Right => value_le(break_, x),
    }
}

/// The number of breakpoints that lie below a value.
pub open spec fn breaks_passed(
    breaks: Seq<Option<SpecValue>>,
    x: SpecValue,
    side: SearchSortedSide,
) -> nat
    decreases breaks.len(),
{
    if breaks.len() == 0 {
        0
    } else {
        breaks_passed(breaks.drop_last(), x, side) + if breaks.last() is Some && passed(
            breaks.last()->Some_0,
            x,
            side,
        ) {
            1nat
        } else {
            0nat
        }
    }
}

/// Whether breakpoints are free of nulls and never descend.
pub open spec fn ascending(breaks: Seq<Option<SpecValue>>) -> bool {
    &&& forall|i: int| 0 <= i < breaks.len() ==> (#[trigger] breaks[i]) is Some
    &&& forall|i: int, j: int|
        0 <= i <= j < breaks.len() ==> value_le(
            (#[trigger] breaks[i])->Some_0,
            (#[trigger] breaks[j])->Some_0,
        )
}

/// The number of breakpoints below a value is at most their number.
pub proof fn lemma_breaks_passed_bound(
    breaks: Seq<Option<SpecValue>>,
    x: SpecValue,
    side: SearchSortedSide,
)
    ensures
        breaks_passed(breaks, x, side) <= breaks.len(),
    decreases breaks.len(),
{
    if breaks.len() > 0 {
        lemma_breaks_passed_bound(breaks.drop_last(), x, side);
    }
}

/// Where a prefix of the breakpoints lies below a value and the rest does not, the prefix is as
/// long as the number of breakpoints below the value.
pub proof fn lemma_partition_point(
    breaks: Seq<Option<SpecValue>>,
    x: SpecValue,
    side: SearchSortedSide,
    p: int,
)
    requires
        0 <= p <= breaks.len(),
        forall|i: int|
            0 <= i < breaks.len() ==> ((#[trigger] breaks[i]) is Some && passed(
                breaks[i]->Some_0,
                x,
                side,
            ) <==> i < p),
    ensures
        breaks_passed(breaks, x, side) == p,
    decreases breaks.len(),
{
    if breaks.len() > 0 {
        let init = breaks.drop_last();
        assert(forall|i: int| 0 <= i < init.len() ==> init[i] == breaks[i]);
        assert(breaks.last() == breaks[breaks.len() - 1]);
        if p == breaks.len() {
            lemma_partition_point(init, x, side, p - 1);
        } else {
            lemma_partition_point(init, x, side, p);
        }
    }
}

/// Among ascending breakpoints those below a value come first: breakpoint `i` lies below it
/// exactly where `i` is less than their number.
pub proof fn lemma_passed_prefix(
    breaks: Seq<Option<SpecValue>>,
    x: SpecValue,
    side: SearchSortedSide,
    i: int,
)
    requires
        ascending(breaks),
        0 <= i < breaks.len(),
    ensures
        passed(breaks[i]->Some_0, x, side) <==> i < breaks_passed(breaks, x, side),
    decreases breaks.len(),
{
    let init = breaks.drop_last();
    let last = breaks.len() - 1;
    assert(ascending(init)) by {
        assert(forall|k: int| 0 <= k < init.len() ==> init[k] == breaks[k]);
    }
    lemma_breaks_passed_bound(init, x, side);
    assert(value_le(breaks[i]->Some_0, breaks[last]->Some_0));
    lemma_value_order(breaks[i]->Some_0, breaks[last]->Some_0, x);
    if i < last {
        lemma_passed_prefix(init, x, side, i);
        assert(init[i] == breaks[i]);
    }
    if passed(breaks[last]->Some_0, x, side) {
        if init.len() > 0 {
            lemma_passed_prefix(init, x, side, last - 1);
            assert(init[last - 1] == breaks[last - 1]);
            assert(value_le(breaks[last - 1]->Some_0, breaks[last]->Some_0));
            lemma_value_order(breaks[last - 1]->Some_0, breaks[last]->Some_0, x);
        }
    }
}

/// Whether a breakpoint lies below a value.
fn is_passed(break_: &Value, x: &Value, side: SearchSortedSide) -> (is: bool)
    ensures
        is == passed(break_@, x@, side),
{
    match side {
        SearchSortedSide::Left => break_.lt(x),
        SearchSortedSide::Right => !x.lt(break_),
    }
}

/// The number of breakpoints that lie below a value, by bisection.
fn partition_point(breaks: &Series, x: &Value, side: SearchSortedSide) -> (p: usize)
    requires
        ascending(breaks@.values),
    ensures
        p == breaks_passed(breaks@.values, x@, side),
        p <= breaks@.values.len(),
{
    let mut lo: usize = 0;
    let mut hi: usize = breaks.len();
    while lo < hi
        invariant
            lo <= hi <= breaks@.values.len(),
            breaks@.values.len() < LENGTH_LIMIT,
            ascending(breaks@.values),
            forall|i: int|
                0 <= i < lo ==> passed((#[trigger] breaks@.values[i])->Some_0, x@, side),
            forall|i: int|
                hi <= i < breaks@.values.len() ==> !passed(
                    (#[trigger] breaks@.values[i])->Some_0,
                    x@,
                    side,
                ),
        decreases hi - lo,
    {
        let mid: usize = lo + (hi - lo) / 2;
        let below: bool = match breaks.get(mid) {
            Some(value) => is_passed(value, x, side),
            None => false,
        };
        let ghost m = breaks@.values[mid as int]->Some_0;
        if below {
            assert forall|i: int| 0 <= i < mid + 1 implies passed(
                (#[trigger] breaks@.values[i])->Some_0,
                x@,
                side,
            ) by {
                assert(value_le(breaks@.values[i]->Some_0, breaks@.values[mid as int]->Some_0));
                lemma_value_order(breaks@.values[i]->Some_0, m, x@);
            }
            lo = mid + 1;
        } else {
            assert forall|i: int| mid <= i < breaks@.values.len() implies !passed(
                (#[trigger] breaks@.values[i])->Some_0,
                x@,
                side,
            ) by {
                assert(value_le(breaks@.values[mid as int]->Some_0, breaks@.values[i]->Some_0));
                lemma_value_order(m, breaks@.values[i]->Some_0, x@);
            }
            hi = mid;
        }
    }
    proof {
        lemma_partition_point(breaks@.values, x@, side, lo as int);
    }
    lo
}

/// For every needle the number of breakpoints that lie below it, and zero for a null needle.
pub fn search_sorted(breaks: &Series, needles: &Series, side: SearchSortedSide) -> (found: Vec<
    IdxSize,
>)
    requires
        ascending(breaks@.values),
    ensures
        found.len() == needles@.values.len(),
        forall|i: int|
            0 <= i < found.len() ==> (#[trigger] found@[i]) == match needles@.values[i] {
                Some(x) => breaks_passed(breaks@.values, x, side),
                None => 0,
            },
{
    let len: usize = needles.len();
    let n_breaks: usize = breaks.len();
    let mut found: Vec<IdxSize> = Vec::new();
    let mut i: usize = 0;
    while i < len
        invariant
            i <= len,
            len == needles@.values.len(),
            n_breaks == breaks@.values.len(),
            n_breaks < LENGTH_LIMIT,
            found.len() == i,
            ascending(breaks@.values),
            forall|j: int|
                0 <= j < i ==> (#[trigger] found@[j]) == match needles@.values[j] {
                    Some(x) => breaks_passed(breaks@.values, x, side),
                    None => 0,
                },
        decreases len - i,
    {
        let position: usize = match needles.get(i) {
            Some(x) => partition_point(breaks, x, side),
            None => 0,
        };
        found.push(position as IdxSize);
        i += 1;
    }
    found
}

/// Whether the values of a column can serve as breakpoints: they are free of nulls and never
/// descend.
pub fn is_ascending(breaks: &Series) -> (ascends: bool)
    ensures
        ascends == ascending(breaks@.values),
{
    let len: usize = breaks.len();
    let mut i: usize = 0;
    while i < len
        invariant
            i <= len,
            len == breaks@.values.len(),
            ascending(breaks@.values.take(i as int)),
        decreases len - i,
    {
        let ghost front = breaks@.values.take(i as int);
        let ghost next = breaks@.values.take(i + 1);
        assert(forall|k: int| 0 <= k < i ==> front[k] == breaks@.values[k]);
        assert(forall|k: int| 0 <= k <= i ==> next[k] == breaks@.values[k]);
        let value: &Value = match breaks.get(i) {
            Some(value) => value,
            None => {
                assert(breaks@.values[i as int] is None);
                return false;
            },
        };
        if i > 0 {
            if let Some(last) = breaks.get(i - 1) {
                if value.lt(last) {
                    assert(!value_le(
                        breaks@.values[i - 1]->Some_0,
                        breaks@.values[i as int]->Some_0,
                    ));
                    return false;
                }
            }
        }
        proof {
            assert forall|j: int, k: int| 0 <= j <= k < next.len() implies value_le(
                (#[trigger] next[j])->Some_0,
                (#[trigger] next[k])->Some_0,
            ) by {
                let (x, z) = (next[j]->Some_0, next[k]->Some_0);
                lemma_value_order(x, x, x);
                if j < k && k < i {
                    assert(value_le(front[j]->Some_0, front[k]->Some_0));
                } else if j < k {
                    assert(value_le(front[j]->Some_0, front[i - 1]->Some_0));
                    lemma_value_order(x, breaks@.values[i - 1]->Some_0, z);
                }
            }
            assert forall|k: int| 0 <= k < next.len() implies (#[trigger] next[k]) is Some by {
                if k < i {
                    assert(front[k] is Some);
                }
            }
        }
        i += 1;
    }
    assert(breaks@.values.take(len as int) =~= breaks@.values);
    true
}

} // verus!
