//! Where bins of equal probability or equal size are cut, as positions in sorted order.

use vstd::arithmetic::div_mod::lemma_fundamental_div_mod;
use vstd::prelude::*;

use crate::dtype::LENGTH_LIMIT;
use crate::series::IdxSize;

verus! {

/// The position of breakpoint `i` of `n` equiprobable bins over `len` values in sorted order.
pub open spec fn quantile_position(len: int, n: int, i: int) -> int {
    if len == 0 {
        0
    } else {
        (i * (len - 1)) / n
    }
}

/// The position of cut `i` of `n` bins of near-equal size over `len` values in sorted order: in
/// front of it lie `i` bins, of which the first `len % n` are one larger.
pub open spec fn rank_cut(len: int, n: int, i: int) -> int {
    i * (len / n) + if i < len % n {
        i
    } else {
        len % n
    }
}

/// The number of values in bin `i` of `n` bins of near-equal size over `len` values.
pub open spec fn rank_bin_size(len: int, n: int, i: int) -> int {
    if i < len % n {
        len / n + 1
    } else {
        len / n
    }
}

/// The positions of the breakpoints of `n` equiprobable bins over `len` values.
pub open spec fn quantile_positions(len: int, n: int) -> Seq<IdxSize> {
    Seq::new((n - 1) as nat, |i: int| quantile_position(len, n, i + 1) as IdxSize)
}

/// The positions of the cuts of `n` bins of near-equal size over `len` values.
pub open spec fn rank_cuts(len: int, n: int) -> Seq<IdxSize> {
    Seq::new((n - 1) as nat, |i: int| rank_cut(len, n, i + 1) as IdxSize)
}

/// The cuts of bins of equal probability lie among the values, and never descend.
pub proof fn lemma_quantile_positions(len: int, n: int, i: int, j: int)
    requires
        0 <= len,
        0 < n,
        0 <= i <= j < n,
    ensures
        0 <= quantile_position(len, n, i) <= quantile_position(len, n, j),
        len > 0 ==> quantile_position(len, n, j) < len,
{
    if len > 0 {
        let (a, b) = (i * (len - 1), j * (len - 1));
        assert(0 <= a <= b <= n * (len - 1)) by (nonlinear_arith)
            requires
                a == i * (len - 1),
                b == j * (len - 1),
                0 <= i <= j < n,
                len > 0,
        ;
        assert(0 <= a / n <= b / n <= len - 1) by (nonlinear_arith)
            requires
                0 <= a <= b <= n * (len - 1),
                0 < n,
        ;
    }
}

/// The cuts of bins of near-equal size start at zero, end at the number of values, and are as
/// far apart as the bins between them are large.
pub proof fn lemma_rank_cuts(len: int, n: int, i: int)
    requires
        0 <= len,
        0 < n,
        0 <= i < n,
    ensures
        rank_cut(len, n, 0) == 0,
        rank_cut(len, n, n) == len,
        rank_cut(len, n, i + 1) == rank_cut(len, n, i) + rank_bin_size(len, n, i),
        0 <= rank_bin_size(len, n, i),
        0 <= rank_cut(len, n, i) <= rank_cut(len, n, i + 1) <= len,
{
    let (k, r) = (len / n, len % n);
    lemma_fundamental_div_mod(len, n);
    assert(0 <= k && 0 <= r < n) by (nonlinear_arith)
        requires
            0 <= len,
            0 < n,
            k == len / n,
            r == len % n,
    ;
    assert(0 * k == 0 && n * k + r == len && (i + 1) * k == i * k + k && 0 <= i * k && (i + 1) * k
        <= n * k) by (nonlinear_arith)
        requires
            len == n * k + r,
            0 <= i < n,
            0 <= k,
    ;
}

/// The cuts of bins of near-equal size never descend.
pub proof fn lemma_rank_cuts_ascend(len: int, n: int, i: int, j: int)
    requires
        0 <= len,
        0 < n,
        0 <= i <= j <= n,
    ensures
        rank_cut(len, n, i) <= rank_cut(len, n, j),
    decreases j - i,
{
    if i < j {
        lemma_rank_cuts(len, n, j - 1);
        lemma_rank_cuts_ascend(len, n, i, j - 1);
    }
}

/// Positions of the breakpoints of `n_bins` equiprobable bins, in integer arithmetic:
/// `(i + 1) * (len - 1) / n_bins` rounded down.
///
/// Fractions `(i + 1) / n_bins` would not do: they are generally not representable as a float,
/// so the product could land one position low.
pub fn quantile_break_positions_uniform(non_null_len: usize, n_bins: usize) -> (positions: Vec<
    IdxSize,
>)
    requires
        non_null_len < LENGTH_LIMIT,
    ensures
        positions.len() == if n_bins == 0 {
            0
        } else {
            n_bins - 1
        },
        forall|i: int|
            0 <= i < positions.len() ==> (#[trigger] positions@[i]) == quantile_position(
                non_null_len as int,
                n_bins as int,
                i + 1,
            ),
{
    let mut positions: Vec<IdxSize> = Vec::new();
    let mut i: usize = 1;
    while i < n_bins
        invariant
            1 <= i,
            i <= n_bins || n_bins == 0 && i == 1,
            positions.len() == i - 1,
            non_null_len < LENGTH_LIMIT,
            forall|j: int|
                0 <= j < positions.len() ==> (#[trigger] positions@[j]) == quantile_position(
                    non_null_len as int,
                    n_bins as int,
                    j + 1,
                ),
        decreases n_bins - i,
    {
        proof {
            lemma_quantile_positions(non_null_len as int, n_bins as int, i as int, i as int);
        }
        if non_null_len == 0 {
            positions.push(0);
        } else {
            let span: u128 = (non_null_len - 1) as u128;
            proof {
                assert(0 <= i * (span as int) <= 0xffff_ffff_ffff_ffff * 0xffff_ffff)
                    by (nonlinear_arith)
                    requires
                        0 <= i <= 0xffff_ffff_ffff_ffff,
                        0 <= span <= 0xffff_ffff,
                ;
            }
            let position: u128 = (i as u128) * span / (n_bins as u128);
            positions.push(position as IdxSize);
        }
        i += 1;
    }
    positions
}

/// Cut positions for `n_bins` bins of near-equal size.
///
/// Bin `i` receives `k + 1` elements while `i < len % n_bins` and `k` afterwards, so the earlier
/// bins are the larger ones: 14 elements over 4 bins gives 4 + 4 + 3 + 3.
pub fn rank_cut_positions_uniform(non_null_len: usize, n_bins: usize) -> (positions: Vec<IdxSize>)
    requires
        non_null_len < LENGTH_LIMIT,
        n_bins >= 1,
    ensures
        positions.len() == n_bins - 1,
        forall|i: int|
            0 <= i < positions.len() ==> (#[trigger] positions@[i]) == rank_cut(
                non_null_len as int,
                n_bins as int,
                i + 1,
            ),
{
    let k: usize = non_null_len / n_bins;
    let r: usize = non_null_len % n_bins;
    let mut positions: Vec<IdxSize> = Vec::new();
    let mut i: usize = 1;
    while i < n_bins
        invariant
            1 <= i <= n_bins,
            positions.len() == i - 1,
            non_null_len < LENGTH_LIMIT,
            k == non_null_len as int / n_bins as int,
            r == non_null_len as int % n_bins as int,
            forall|j: int|
                0 <= j < positions.len() ==> (#[trigger] positions@[j]) == rank_cut(
                    non_null_len as int,
                    n_bins as int,
                    j + 1,
                ),
        decreases n_bins - i,
    {
        proof {
            lemma_rank_cuts(non_null_len as int, n_bins as int, i as int);
            assert(0 <= i * (k as int)) by (nonlinear_arith)
                requires
                    0 <= i,
                    0 <= k,
            ;
        }
        let extra: usize = if i < r {
            i
        } else {
            r
        };
        positions.push((i * k + extra) as IdxSize);
        i += 1;
    }
    positions
}

} // verus!
