//! The dimension abstraction: a shape as an ordered sequence of per-axis
//! extents, with rank held as a runtime value, together with the spec-level
//! stride/offset algebra that the whole crate is specified against.
//!
//! Conventions: extents are `usize`, strides are `isize` (they turn negative
//! under reversing slices), and all spec sums/products run from an axis `k`
//! to the right-hand end, which matches row-major ("rightmost fastest")
//! iteration.

use vstd::prelude::*;

verus! {

/// Product of the extents from axis `k` rightwards; 1 for the empty range.
/// `suffix_prod(d, 0)` is the total element count; `suffix_prod(d, k + 1)`
/// is the default (row-major) stride of axis `k`.
pub open spec fn suffix_prod(d: Seq<usize>, k: int) -> int
    decreases d.len() - k when k <= d.len()
{
    if k < 0 || k >= d.len() {
        1
    } else {
        d[k] * suffix_prod(d, k + 1)
    }
}

/// Total element count of a shape (empty product = 1, so a rank-0 shape
/// describes a scalar with one element).
pub open spec fn dim_size(d: Seq<usize>) -> int {
    suffix_prod(d, 0)
}

/// Some axis has extent zero, i.e. the shape holds no elements.
pub open spec fn has_zero(d: Seq<usize>) -> bool {
    exists|k: int| 0 <= k < d.len() && d[k] == 0
}

/// Every suffix product fits an `isize`, so default strides and the element
/// count are representable on the machine.
pub open spec fn strides_fit(d: Seq<usize>) -> bool {
    forall|k: int| 0 <= k <= d.len() ==> suffix_prod(d, k) <= isize::MAX as int
}

/// `idx` is a multi-index inside shape `d`.
pub open spec fn valid_index(d: Seq<usize>, idx: Seq<usize>) -> bool {
    idx.len() == d.len() && forall|k: int| 0 <= k < d.len() ==> idx[k] < d[k]
}

/// `s` holds exactly the default (row-major) strides of `d`.
pub open spec fn is_default_strides(d: Seq<usize>, s: Seq<isize>) -> bool {
    s.len() == d.len() && forall|k: int| 0 <= k < d.len() ==> s[k] == suffix_prod(d, k + 1)
}

/// Linear offset contribution of axes `k` rightwards: sum of idx[j]*s[j].
pub open spec fn offset_from(idx: Seq<usize>, s: Seq<isize>, k: int) -> int
    decreases s.len() - k when k <= s.len()
{
    if k < 0 || k >= s.len() {
        0
    } else {
        idx[k] * s[k] + offset_from(idx, s, k + 1)
    }
}

/// Linear offset of a multi-index against a stride vector.
pub open spec fn offset_of(idx: Seq<usize>, s: Seq<isize>) -> int {
    offset_from(idx, s, 0)
}

/// Least offset contribution a single axis can make (0 when the stride is
/// non-negative, else the full negative sweep). Meaningful for extents >= 1.
pub open spec fn axis_lo(dk: usize, sk: isize) -> int {
    if sk >= 0 {
        0
    } else {
        (dk - 1) * sk
    }
}

/// Greatest offset contribution a single axis can make.
pub open spec fn axis_hi(dk: usize, sk: isize) -> int {
    if sk >= 0 {
        (dk - 1) * sk
    } else {
        0
    }
}

/// Sum of the per-axis least contributions from axis `k` rightwards.
pub open spec fn lo_from(d: Seq<usize>, s: Seq<isize>, k: int) -> int
    decreases d.len() - k when k <= d.len()
{
    if k < 0 || k >= d.len() {
        0
    } else {
        axis_lo(d[k], s[k]) + lo_from(d, s, k + 1)
    }
}

/// Sum of the per-axis greatest contributions from axis `k` rightwards.
pub open spec fn hi_from(d: Seq<usize>, s: Seq<isize>, k: int) -> int
    decreases d.len() - k when k <= d.len()
{
    if k < 0 || k >= d.len() {
        0
    } else {
        axis_hi(d[k], s[k]) + hi_from(d, s, k + 1)
    }
}

/// The data-model invariant of a strided view over a buffer of length `len`:
/// strides align with extents, the machine can represent the stride algebra,
/// and (unless the view is empty) every reachable offset, bracketed by the
/// extreme offsets, lands inside the buffer.
pub open spec fn view_ok(len: int, off: int, d: Seq<usize>, s: Seq<isize>) -> bool {
    &&& s.len() == d.len()
    &&& len <= isize::MAX as int
    &&& strides_fit(d)
    &&& (has_zero(d) || (0 <= off + lo_from(d, s, 0) && off + hi_from(d, s, 0) < len))
}

/// Row-major position of a multi-index: how many indices precede it in
/// rightmost-fastest order. Defined as the offset the index would have
/// under default strides.
pub open spec fn rank_from(d: Seq<usize>, idx: Seq<usize>, k: int) -> int
    decreases d.len() - k when k <= d.len()
{
    if k < 0 || k >= d.len() {
        0
    } else {
        idx[k] * suffix_prod(d, k + 1) + rank_from(d, idx, k + 1)
    }
}

/// Row-major position of a full multi-index.
pub open spec fn rm_rank(d: Seq<usize>, idx: Seq<usize>) -> int {
    rank_from(d, idx, 0)
}

/// The multi-index at row-major position `p` of shape `d` (mixed-radix
/// digits of `p`, rightmost digit fastest).
pub open spec fn rm_unrank(d: Seq<usize>, p: int) -> Seq<usize>
    decreases d.len()
{
    if d.len() == 0 {
        Seq::empty()
    } else {
        rm_unrank(d.drop_last(), p / (d.last() as int)).push((p % (d.last() as int)) as usize)
    }
}

/// A shape holds no elements exactly when some extent is zero.
pub proof fn lemma_size_zero(d: Seq<usize>, k: int)
    requires
        0 <= k <= d.len(),
    ensures
        suffix_prod(d, k) >= 0,
        suffix_prod(d, k) == 0 <==> exists|j: int| k <= j < d.len() && d[j] == 0,
    decreases d.len() - k,
{
    if k < d.len() {
        lemma_size_zero(d, k + 1);
        assert(d[k] * suffix_prod(d, k + 1) >= 0) by (nonlinear_arith)
            requires d[k] >= 0 && suffix_prod(d, k + 1) >= 0;
        assert(d[k] * suffix_prod(d, k + 1) == 0 <==> (d[k] == 0 || suffix_prod(d, k + 1) == 0))
            by (nonlinear_arith);
    }
}

/// A single axis contribution lies between its extreme contributions.
pub proof fn lemma_axis_range(dk: usize, sk: isize, ik: usize)
    requires
        ik < dk,
    ensures
        axis_lo(dk, sk) <= ik * sk,
        ik * sk <= axis_hi(dk, sk),
{
    if sk >= 0 {
        assert(0 <= ik * sk && ik * sk <= (dk - 1) * sk) by (nonlinear_arith)
            requires 0 <= ik && ik <= dk - 1 && sk >= 0;
    } else {
        assert((dk - 1) * sk <= ik * sk && ik * sk <= 0) by (nonlinear_arith)
            requires 0 <= ik && ik <= dk - 1 && sk < 0;
    }
}

/// The offset of a valid index, summed from axis `k`, lies between the
/// summed extreme contributions.
pub proof fn lemma_offset_range_from(d: Seq<usize>, s: Seq<isize>, idx: Seq<usize>, k: int)
    requires
        s.len() == d.len(),
        valid_index(d, idx),
        0 <= k <= d.len(),
    ensures
        lo_from(d, s, k) <= offset_from(idx, s, k),
        offset_from(idx, s, k) <= hi_from(d, s, k),
    decreases d.len() - k,
{
    if k < d.len() {
        lemma_offset_range_from(d, s, idx, k + 1);
        lemma_axis_range(d[k], s[k], idx[k]);
    }
}

/// Under the view invariant, every valid index addresses a live element.
pub proof fn lemma_offset_in_bounds(len: int, off: int, d: Seq<usize>, s: Seq<isize>, idx: Seq<usize>)
    requires
        view_ok(len, off, d, s),
        valid_index(d, idx),
    ensures
        0 <= off + offset_of(idx, s) < len,
{
    assert(!has_zero(d));
    lemma_offset_range_from(d, s, idx, 0);
}

/// Zeroing every axis from `k` rightwards keeps an index valid and leaves
/// exactly the left part's offset contribution.
pub proof fn lemma_zero_tail(d: Seq<usize>, s: Seq<isize>, idx: Seq<usize>, k: int, j: int)
    requires
        s.len() == d.len(),
        valid_index(d, idx),
        0 <= k <= d.len(),
        0 <= j <= d.len(),
    ensures
        valid_index(d, zero_from(idx, k)),
        offset_from(zero_from(idx, k), s, j) == if j <= k {
            offset_from(idx, s, j) - offset_from(idx, s, k)
        } else {
            0
        },
    decreases d.len() - j,
{
    if j < d.len() {
        lemma_zero_tail(d, s, idx, k, j + 1);
    }
}

/// `idx` with every axis from `k` rightwards replaced by zero.
pub open spec fn zero_from(idx: Seq<usize>, k: int) -> Seq<usize> {
    Seq::new(idx.len(), |j: int| if j < k { idx[j] } else { 0 })
}

/// Every partial (left-to-right) offset accumulation stays inside the
/// buffer: it is the offset of a valid index with its tail zeroed.
pub proof fn lemma_partial_offset_in_bounds(
    len: int,
    off: int,
    d: Seq<usize>,
    s: Seq<isize>,
    idx: Seq<usize>,
    k: int,
)
    requires
        view_ok(len, off, d, s),
        valid_index(d, idx),
        0 <= k <= d.len(),
    ensures
        0 <= off + offset_of(idx, s) - offset_from(idx, s, k) < len,
{
    lemma_zero_tail(d, s, idx, k, 0);
    lemma_offset_in_bounds(len, off, d, s, zero_from(idx, k));
}

/// On a non-empty view, an axis with at least two positions has a stride
/// smaller in magnitude than the buffer.
pub proof fn lemma_stride_bound(len: int, off: int, d: Seq<usize>, s: Seq<isize>, k: int)
    requires
        view_ok(len, off, d, s),
        !has_zero(d),
        0 <= k < d.len(),
        d[k] >= 2,
    ensures
        -len < s[k] && s[k] < len,
{
    let zero = Seq::new(d.len(), |j: int| 0usize);
    let unit = Seq::new(d.len(), |j: int| if j == k { 1usize } else { 0usize });
    assert(valid_index(d, zero));
    assert(valid_index(d, unit));
    lemma_offset_in_bounds(len, off, d, s, zero);
    lemma_offset_in_bounds(len, off, d, s, unit);
    lemma_unit_offset(d, s, unit, k, 0);
    lemma_unit_offset(d, s, zero, d.len() as int, 0);
}

/// The offset of an index that is zero everywhere except possibly axis `u`,
/// where it is one, is that axis's stride (or zero with no such axis).
proof fn lemma_unit_offset(d: Seq<usize>, s: Seq<isize>, idx: Seq<usize>, u: int, j: int)
    requires
        s.len() == d.len(),
        idx.len() == d.len(),
        forall|i: int| 0 <= i < d.len() ==> idx[i] == (if i == u { 1usize } else { 0usize }),
        0 <= j <= d.len(),
    ensures
        offset_from(idx, s, j) == if j <= u && u < d.len() {
            s[u] as int
        } else {
            0
        },
    decreases d.len() - j,
{
    if j < d.len() {
        lemma_unit_offset(d, s, idx, u, j + 1);
        if j == u {
            assert(idx[j] == 1);
            assert(idx[j] * s[j] == s[u]);
        } else {
            assert(idx[j] == 0);
            assert(idx[j] * s[j] == 0) by (nonlinear_arith)
                requires idx[j] == 0;
        }
    }
}

/// With default strides, offset and row-major position coincide.
pub proof fn lemma_default_offset_is_rank(d: Seq<usize>, s: Seq<isize>, idx: Seq<usize>, k: int)
    requires
        is_default_strides(d, s),
        idx.len() == d.len(),
        0 <= k <= d.len(),
    ensures
        offset_from(idx, s, k) == rank_from(d, idx, k),
    decreases d.len() - k,
{
    if k < d.len() {
        lemma_default_offset_is_rank(d, s, idx, k + 1);
    }
}

/// Row-major positions of valid indices are bounded by the element count of
/// the remaining axes.
pub proof fn lemma_rank_range(d: Seq<usize>, idx: Seq<usize>, k: int)
    requires
        valid_index(d, idx),
        0 <= k <= d.len(),
    ensures
        0 <= rank_from(d, idx, k),
        rank_from(d, idx, k) <= suffix_prod(d, k) - 1,
    decreases d.len() - k,
{
    if k < d.len() {
        lemma_rank_range(d, idx, k + 1);
        lemma_size_zero(d, k + 1);
        let sp = suffix_prod(d, k + 1);
        assert(0 <= idx[k] * sp && idx[k] * sp <= (d[k] - 1) * sp) by (nonlinear_arith)
            requires 0 <= idx[k] && idx[k] <= d[k] - 1 && sp >= 0;
        assert((d[k] - 1) * sp + sp == d[k] * sp) by (nonlinear_arith);
    }
}

/// A fully maxed-out tail sits at the last row-major position of its range.
pub proof fn lemma_maxed_tail_rank(d: Seq<usize>, idx: Seq<usize>, k: int)
    requires
        valid_index(d, idx),
        0 <= k <= d.len(),
        forall|j: int| k <= j < d.len() ==> idx[j] == d[j] - 1,
    ensures
        rank_from(d, idx, k) == suffix_prod(d, k) - 1,
    decreases d.len() - k,
{
    if k < d.len() {
        lemma_maxed_tail_rank(d, idx, k + 1);
        assert((d[k] - 1) * suffix_prod(d, k + 1) + suffix_prod(d, k + 1) == d[k] * suffix_prod(d, k + 1))
            by (nonlinear_arith);
    }
}

/// Row-major position only reads the axes from `k` rightwards.
pub proof fn lemma_rank_congruence(d: Seq<usize>, a: Seq<usize>, b: Seq<usize>, k: int)
    requires
        a.len() == d.len(),
        b.len() == d.len(),
        0 <= k <= d.len(),
        forall|j: int| k <= j < d.len() ==> a[j] == b[j],
    ensures
        rank_from(d, a, k) == rank_from(d, b, k),
    decreases d.len() - k,
{
    if k < d.len() {
        lemma_rank_congruence(d, a, b, k + 1);
    }
}

/// The odometer step: increment axis `k` and zero everything to its right;
/// the row-major position advances by exactly one.
pub proof fn lemma_odometer_step(d: Seq<usize>, idx: Seq<usize>, next: Seq<usize>, k: int)
    requires
        valid_index(d, idx),
        0 <= k < d.len(),
        idx[k] + 1 < d[k],
        forall|j: int| k < j < d.len() ==> idx[j] == d[j] - 1,
        next.len() == d.len(),
        forall|j: int| 0 <= j < k ==> next[j] == idx[j],
        next[k] == idx[k] + 1,
        forall|j: int| k < j < d.len() ==> next[j] == 0,
    ensures
        valid_index(d, next),
        rm_rank(d, next) == rm_rank(d, idx) + 1,
{
    lemma_rank_prefix_split(d, idx, k);
    lemma_rank_prefix_split(d, next, k);
    lemma_rank_congruence(d, idx, next, d.len() as int);
    assert(rank_from_to(d, idx, 0, k) == rank_from_to(d, next, 0, k)) by {
        lemma_rank_to_congruence(d, idx, next, 0, k);
    }
    lemma_maxed_tail_rank(d, idx, k + 1);
    lemma_zero_tail_rank(d, next, k + 1);
    assert((idx[k] + 1) * suffix_prod(d, k + 1) == idx[k] * suffix_prod(d, k + 1) + suffix_prod(d, k + 1))
        by (nonlinear_arith);
}

/// Row-major contribution of the axes in `[k, m)`.
pub open spec fn rank_from_to(d: Seq<usize>, idx: Seq<usize>, k: int, m: int) -> int
    decreases m - k when k <= m
{
    if k < 0 || k >= m || m > d.len() {
        0
    } else {
        idx[k] * suffix_prod(d, k + 1) + rank_from_to(d, idx, k + 1, m)
    }
}

proof fn lemma_rank_prefix_split(d: Seq<usize>, idx: Seq<usize>, m: int)
    requires
        idx.len() == d.len(),
        0 <= m <= d.len(),
    ensures
        rm_rank(d, idx) == rank_from_to(d, idx, 0, m) + rank_from(d, idx, m),
{
    lemma_rank_split_from(d, idx, 0, m);
}

proof fn lemma_rank_split_from(d: Seq<usize>, idx: Seq<usize>, k: int, m: int)
    requires
        idx.len() == d.len(),
        0 <= k <= m <= d.len(),
    ensures
        rank_from(d, idx, k) == rank_from_to(d, idx, k, m) + rank_from(d, idx, m),
    decreases m - k,
{
    if k < m {
        lemma_rank_split_from(d, idx, k + 1, m);
    }
}

proof fn lemma_rank_to_congruence(d: Seq<usize>, a: Seq<usize>, b: Seq<usize>, k: int, m: int)
    requires
        a.len() == d.len(),
        b.len() == d.len(),
        0 <= k <= m <= d.len(),
        forall|j: int| k <= j < m ==> a[j] == b[j],
    ensures
        rank_from_to(d, a, k, m) == rank_from_to(d, b, k, m),
    decreases m - k,
{
    if k < m {
        lemma_rank_to_congruence(d, a, b, k + 1, m);
    }
}

/// A tail of zeros contributes nothing to the row-major position.
pub proof fn lemma_zero_tail_rank(d: Seq<usize>, idx: Seq<usize>, k: int)
    requires
        idx.len() == d.len(),
        0 <= k <= d.len(),
        forall|j: int| k <= j < d.len() ==> idx[j] == 0,
    ensures
        rank_from(d, idx, k) == 0,
    decreases d.len() - k,
{
    if k < d.len() {
        lemma_zero_tail_rank(d, idx, k + 1);
    }
}

/// No two distinct valid indices share a linear offset: the view does not
/// alias itself.
pub open spec fn injective_offsets(d: Seq<usize>, s: Seq<isize>) -> bool {
    forall|a: Seq<usize>, b: Seq<usize>|
        valid_index(d, a) && valid_index(d, b) && offset_of(a, s) == offset_of(b, s) ==> a == b
}

/// Row-major position determines a valid index completely.
pub proof fn lemma_rank_injective(d: Seq<usize>, a: Seq<usize>, b: Seq<usize>, k: int)
    requires
        valid_index(d, a),
        valid_index(d, b),
        0 <= k <= d.len(),
        rank_from(d, a, k) == rank_from(d, b, k),
    ensures
        forall|j: int| k <= j < d.len() ==> a[j] == b[j],
    decreases d.len() - k,
{
    if k < d.len() {
        lemma_rank_range(d, a, k + 1);
        lemma_rank_range(d, b, k + 1);
        lemma_size_zero(d, k + 1);
        let sp = suffix_prod(d, k + 1);
        assert(sp >= 1) by {
            assert(forall|j: int| 0 <= j < d.len() ==> d[j] > 0);
        }
        assert(a[k] == b[k]) by (nonlinear_arith)
            requires
                a[k] * sp + rank_from(d, a, k + 1) == b[k] * sp + rank_from(d, b, k + 1),
                0 <= rank_from(d, a, k + 1) < sp,
                0 <= rank_from(d, b, k + 1) < sp,
                0 <= a[k],
                0 <= b[k];
        lemma_rank_injective(d, a, b, k + 1);
    }
}

/// Under default strides a view never aliases itself.
pub proof fn lemma_default_injective(d: Seq<usize>, s: Seq<isize>)
    requires
        is_default_strides(d, s),
    ensures
        injective_offsets(d, s),
{
    assert forall|a: Seq<usize>, b: Seq<usize>|
        valid_index(d, a) && valid_index(d, b) && offset_of(a, s) == offset_of(b, s) implies a
        == b by {
        lemma_default_offset_is_rank(d, s, a, 0);
        lemma_default_offset_is_rank(d, s, b, 0);
        lemma_rank_injective(d, a, b, 0);
        assert(a =~= b);
    }
}

/// Dropping the last axis divides every remaining suffix product by the
/// last extent.
pub proof fn lemma_sp_drop_last(d: Seq<usize>, k: int)
    requires
        d.len() >= 1,
        0 <= k <= d.len() - 1,
    ensures
        suffix_prod(d, k) == suffix_prod(d.drop_last(), k) * d.last(),
    decreases d.len() - k,
{
    if k == d.len() - 1 {
        assert(suffix_prod(d, k + 1) == 1);
        assert(suffix_prod(d.drop_last(), k) == 1);
        assert(suffix_prod(d, k) == d[k] * 1);
        assert(d[k] * 1 == 1 * d.last()) by (nonlinear_arith)
            requires d[k] == d.last();
    } else {
        lemma_sp_drop_last(d, k + 1);
        assert(d[k] * (suffix_prod(d.drop_last(), k + 1) * d.last()) == (d[k] * suffix_prod(
            d.drop_last(),
            k + 1,
        )) * d.last()) by (nonlinear_arith);
    }
}

/// Row-major position decomposes over the last axis: the position within
/// the leading axes scaled by the last extent, plus the last digit.
pub proof fn lemma_rank_drop_last(d: Seq<usize>, idx: Seq<usize>, k: int)
    requires
        d.len() >= 1,
        idx.len() == d.len(),
        0 <= k <= d.len() - 1,
    ensures
        rank_from(d, idx, k) == rank_from(d.drop_last(), idx.drop_last(), k) * (d.last() as int)
            + idx.last(),
    decreases d.len() - k,
{
    if k == d.len() - 1 {
        assert(rank_from(d.drop_last(), idx.drop_last(), k) == 0);
        assert(suffix_prod(d, k + 1) == 1);
        assert(rank_from(d, idx, k + 1) == 0);
        assert(rank_from(d, idx, k) == idx[k] * 1);
        assert(0 * (d.last() as int) == 0) by (nonlinear_arith);
    } else {
        lemma_rank_drop_last(d, idx, k + 1);
        lemma_sp_drop_last(d, k + 1);
        assert(idx[k] * (suffix_prod(d.drop_last(), k + 1) * (d.last() as int)) == (idx[k]
            * suffix_prod(d.drop_last(), k + 1)) * (d.last() as int)) by (nonlinear_arith);
        assert((idx[k] * suffix_prod(d.drop_last(), k + 1) + rank_from(
            d.drop_last(),
            idx.drop_last(),
            k + 1,
        )) * (d.last() as int) == idx[k] * suffix_prod(d.drop_last(), k + 1) * (d.last() as int)
            + rank_from(d.drop_last(), idx.drop_last(), k + 1) * (d.last() as int))
            by (nonlinear_arith);
    }
}

/// Each row-major position below the element count names a valid index,
/// and that index has exactly this position.
pub proof fn lemma_unrank_ok(d: Seq<usize>, p: int)
    requires
        !has_zero(d),
        0 <= p < dim_size(d),
    ensures
        valid_index(d, rm_unrank(d, p)),
        rm_rank(d, rm_unrank(d, p)) == p,
    decreases d.len(),
{
    lemma_size_zero(d, 0);
    if d.len() == 0 {
        assert(rm_unrank(d, p) =~= Seq::<usize>::empty());
    } else {
        let dl = d.last() as int;
        let d2 = d.drop_last();
        assert(!has_zero(d2)) by {
            assert(forall|j: int| 0 <= j < d2.len() ==> d2[j] == d[j]);
        }
        assert(dl >= 1);
        vstd::arithmetic::div_mod::lemma_fundamental_div_mod(p, dl);
        vstd::arithmetic::div_mod::lemma_mod_division_less_than_divisor(p, dl);
        assert(dim_size(d) == dim_size(d2) * dl) by {
            lemma_sp_drop_last(d, 0);
        }
        assert(p / dl >= 0) by (nonlinear_arith)
            requires p >= 0, dl >= 1, p == dl * (p / dl) + p % dl, 0 <= p % dl < dl;
        assert(p / dl < dim_size(d2)) by (nonlinear_arith)
            requires
                p < dim_size(d2) * dl,
                dl >= 1,
                p == dl * (p / dl) + p % dl,
                0 <= p % dl < dl;
        lemma_unrank_ok(d2, p / dl);
        let u2 = rm_unrank(d2, p / dl);
        let u = rm_unrank(d, p);
        assert(u == u2.push((p % dl) as usize));
        assert(valid_index(d, u)) by {
            assert(forall|j: int| 0 <= j < d2.len() ==> u[j] == u2[j] && d[j] == d2[j]);
            assert(u[d.len() - 1] == (p % dl) as usize);
        }
        assert(u.drop_last() =~= u2);
        lemma_rank_drop_last(d, u, 0);
    }
}

/// A valid index is recovered from its row-major position.
pub proof fn lemma_unrank_of_rank(d: Seq<usize>, idx: Seq<usize>)
    requires
        valid_index(d, idx),
    ensures
        rm_unrank(d, rm_rank(d, idx)) == idx,
{
    assert(!has_zero(d));
    lemma_rank_range(d, idx, 0);
    lemma_size_zero(d, 0);
    lemma_unrank_ok(d, rm_rank(d, idx));
    lemma_rank_injective(d, rm_unrank(d, rm_rank(d, idx)), idx, 0);
    assert(rm_unrank(d, rm_rank(d, idx)) =~= idx);
}

/// The index taking each axis to its extreme-contribution position
/// realises the summed least offset.
pub proof fn lemma_lo_achieved(d: Seq<usize>, s: Seq<isize>, idx: Seq<usize>, k: int)
    requires
        s.len() == d.len(),
        idx.len() == d.len(),
        forall|j: int| 0 <= j < d.len() ==> idx[j] == (if s[j] < 0 {
            (d[j] - 1) as usize
        } else {
            0usize
        }),
        !has_zero(d),
        0 <= k <= d.len(),
    ensures
        valid_index(d, idx),
        offset_from(idx, s, k) == lo_from(d, s, k),
    decreases d.len() - k,
{
    assert(forall|j: int| 0 <= j < d.len() ==> d[j] >= 1);
    if k < d.len() {
        lemma_lo_achieved(d, s, idx, k + 1);
        if s[k] < 0 {
            assert(idx[k] * s[k] == (d[k] - 1) * s[k]);
        } else {
            assert(idx[k] * s[k] == 0) by (nonlinear_arith)
                requires idx[k] == 0;
        }
    }
}

/// The index taking each axis to its other extreme realises the summed
/// greatest offset.
pub proof fn lemma_hi_achieved(d: Seq<usize>, s: Seq<isize>, idx: Seq<usize>, k: int)
    requires
        s.len() == d.len(),
        idx.len() == d.len(),
        forall|j: int| 0 <= j < d.len() ==> idx[j] == (if s[j] >= 0 {
            (d[j] - 1) as usize
        } else {
            0usize
        }),
        !has_zero(d),
        0 <= k <= d.len(),
    ensures
        valid_index(d, idx),
        offset_from(idx, s, k) == hi_from(d, s, k),
    decreases d.len() - k,
{
    assert(forall|j: int| 0 <= j < d.len() ==> d[j] >= 1);
    if k < d.len() {
        lemma_hi_achieved(d, s, idx, k + 1);
        if s[k] >= 0 {
            assert(idx[k] * s[k] == (d[k] - 1) * s[k]);
        } else {
            assert(idx[k] * s[k] == 0) by (nonlinear_arith)
                requires idx[k] == 0;
        }
    }
}

/// Shrinking extents pointwise can only shrink suffix products.
pub proof fn lemma_sp_monotone(a: Seq<usize>, b: Seq<usize>, k: int)
    requires
        a.len() == b.len(),
        forall|j: int| 0 <= j < a.len() ==> a[j] <= b[j],
        0 <= k <= a.len(),
    ensures
        suffix_prod(a, k) <= suffix_prod(b, k),
    decreases a.len() - k,
{
    if k < a.len() {
        lemma_sp_monotone(a, b, k + 1);
        lemma_size_zero(a, k + 1);
        lemma_size_zero(b, k + 1);
        assert(a[k] * suffix_prod(a, k + 1) <= b[k] * suffix_prod(b, k + 1)) by (nonlinear_arith)
            requires
                0 <= a[k] <= b[k],
                0 <= suffix_prod(a, k + 1) <= suffix_prod(b, k + 1);
    }
}

/// Under default strides the summed extreme offsets are exactly the ends
/// of the element range: 0 and one less than the element count.
pub proof fn lemma_default_bounds(d: Seq<usize>, s: Seq<isize>, k: int)
    requires
        is_default_strides(d, s),
        0 <= k <= d.len(),
    ensures
        lo_from(d, s, k) == 0,
        hi_from(d, s, k) == suffix_prod(d, k) - 1,
    decreases d.len() - k,
{
    if k < d.len() {
        lemma_default_bounds(d, s, k + 1);
        lemma_size_zero(d, k + 1);
        assert(s[k] >= 0);
        assert((d[k] - 1) * s[k] + (suffix_prod(d, k + 1) - 1) == d[k] * suffix_prod(d, k + 1)
            - 1) by (nonlinear_arith)
            requires s[k] == suffix_prod(d, k + 1);
    }
}

/// Sum of the strides from axis `k` rightwards (the step of a diagonal
/// traversal).
pub open spec fn sum_from(s: Seq<isize>, k: int) -> int
    decreases s.len() - k when k <= s.len()
{
    if k < 0 || k >= s.len() {
        0
    } else {
        s[k] + sum_from(s, k + 1)
    }
}

/// Changing one axis of an index moves its offset by the change scaled by
/// that axis's stride.
pub proof fn lemma_update_offset(s: Seq<isize>, idx: Seq<usize>, a: int, t: usize, j: int)
    requires
        idx.len() == s.len(),
        0 <= a < s.len(),
        0 <= j <= s.len(),
    ensures
        offset_from(idx.update(a, t), s, j) == offset_from(idx, s, j) + (if j <= a {
            (t - idx[a]) * s[a]
        } else {
            0
        }),
    decreases s.len() - j,
{
    if j < s.len() {
        lemma_update_offset(s, idx, a, t, j + 1);
        if j == a {
            assert((t - idx[a]) * s[a] == t * s[a] - idx[a] * s[a]) by (nonlinear_arith);
        }
    }
}

/// A constant index scales the stride sum.
pub proof fn lemma_const_offset(s: Seq<isize>, idx: Seq<usize>, t: usize, j: int)
    requires
        idx.len() == s.len(),
        forall|i: int| 0 <= i < s.len() ==> idx[i] == t,
        0 <= j <= s.len(),
    ensures
        offset_from(idx, s, j) == t * sum_from(s, j),
    decreases s.len() - j,
{
    if j < s.len() {
        lemma_const_offset(s, idx, t, j + 1);
        assert(t * s[j] + t * sum_from(s, j + 1) == t * (s[j] + sum_from(s, j + 1)))
            by (nonlinear_arith);
    } else {
        assert(t * 0 == 0) by (nonlinear_arith);
    }
}

/// On a non-empty shape within the machine-range discipline, every single
/// extent is itself representable.
pub proof fn lemma_extent_fits(d: Seq<usize>, k: int)
    requires
        strides_fit(d),
        !has_zero(d),
        0 <= k < d.len(),
    ensures
        d[k] <= isize::MAX as int,
{
    lemma_size_zero(d, k + 1);
    assert(forall|j: int| 0 <= j < d.len() ==> d[j] >= 1);
    assert(suffix_prod(d, k + 1) >= 1);
    assert(suffix_prod(d, k) == d[k] * suffix_prod(d, k + 1));
    assert(suffix_prod(d, k) <= isize::MAX as int);
    assert(d[k] <= d[k] * suffix_prod(d, k + 1)) by (nonlinear_arith)
        requires d[k] >= 0, suffix_prod(d, k + 1) >= 1;
}

/// The least extent of a shape; 0 for rank 0 (a diagonal of a scalar is
/// empty, as is the diagonal of anything with an empty axis).
pub open spec fn min_extent(d: Seq<usize>) -> int
    decreases d.len()
{
    if d.len() == 0 {
        0
    } else if d.len() == 1 {
        d[0] as int
    } else {
        let m = min_extent(d.drop_last());
        if (d.last() as int) < m {
            d.last() as int
        } else {
            m
        }
    }
}

/// The least extent bounds every extent.
pub proof fn lemma_min_extent_le(d: Seq<usize>, k: int)
    requires
        0 <= k < d.len(),
    ensures
        min_extent(d) <= d[k],
    decreases d.len(),
{
    if d.len() > 1 && k < d.len() - 1 {
        lemma_min_extent_le(d.drop_last(), k);
    }
}

/// A shape: ordered per-axis extents, rank known at runtime.
pub struct Dim {
    extents: Vec<usize>,
}

impl View for Dim {
    type V = Seq<usize>;

    closed spec fn view(&self) -> Seq<usize> {
        self.extents@
    }
}

impl Clone for Dim {
    fn clone(&self) -> (r: Self)
        ensures
            r@ == self@,
    {
        let e = self.extents.clone();
        proof {
            assert(e@ =~= self.extents@);
        }
        Dim { extents: e }
    }
}

impl Dim {
    /// Wrap a list of extents as a shape.
    pub fn new(extents: Vec<usize>) -> (r: Dim)
        ensures
            r@ == extents@,
    {
        Dim { extents }
    }

    /// Number of axes.
    pub fn rank(&self) -> (r: usize)
        ensures
            r == self@.len(),
    {
        self.extents.len()
    }

    /// The extents, readable in place.
    pub fn shape(&self) -> (r: &Vec<usize>)
        ensures
            r@ == self@,
    {
        &self.extents
    }

    /// Extent of one axis.
    pub fn extent(&self, k: usize) -> (r: usize)
        requires
            k < self@.len(),
        ensures
            r == self@[k as int],
    {
        self.extents[k]
    }

    /// Total element count (product of all extents; 1 for rank 0).
    pub fn size(&self) -> (r: usize)
        requires
            strides_fit(self@),
        ensures
            r == dim_size(self@),
    {
        let n = self.extents.len();
        let mut r: usize = 1;
        let mut k: usize = n;
        proof {
            lemma_size_zero(self@, 0);
        }
        while k > 0
            invariant
                k <= n,
                n == self@.len(),
                strides_fit(self@),
                self.extents@ == self@,
                r == suffix_prod(self@, k as int),
            decreases k,
        {
            k = k - 1;
            proof {
                lemma_size_zero(self@, k as int);
                lemma_size_zero(self@, k as int + 1);
                assert(suffix_prod(self@, k as int) == self@[k as int] * suffix_prod(
                    self@,
                    k as int + 1,
                ));
                assert(self@[k as int] * suffix_prod(self@, k as int + 1) == suffix_prod(
                    self@,
                    k as int + 1,
                ) * self@[k as int]) by (nonlinear_arith);
            }
            r = r * self.extents[k];
        }
        r
    }

    /// Row-major strides: last axis stride 1, each axis the product of the
    /// extents to its right.
    pub fn default_strides(&self) -> (r: Vec<isize>)
        requires
            strides_fit(self@),
        ensures
            is_default_strides(self@, r@),
    {
        let n = self.extents.len();
        let mut r: Vec<isize> = Vec::new();
        let mut i: usize = 0;
        while i < n
            invariant
                i <= n,
                r@.len() == i,
            decreases n - i,
        {
            r.push(0);
            i = i + 1;
        }
        let mut cum: usize = 1;
        let mut k: usize = n;
        proof {
            lemma_size_zero(self@, 0);
        }
        while k > 0
            invariant
                k <= n,
                n == self@.len(),
                strides_fit(self@),
                self.extents@ == self@,
                r@.len() == n,
                cum == suffix_prod(self@, k as int),
                forall|j: int| k <= j < n ==> r@[j] == suffix_prod(self@, j + 1),
            decreases k,
        {
            k = k - 1;
            proof {
                lemma_size_zero(self@, k as int);
                lemma_size_zero(self@, k as int + 1);
                assert(suffix_prod(self@, k as int) == self@[k as int] * suffix_prod(
                    self@,
                    k as int + 1,
                ));
                assert(self@[k as int] * suffix_prod(self@, k as int + 1) == suffix_prod(
                    self@,
                    k as int + 1,
                ) * self@[k as int]) by (nonlinear_arith);
            }
            r[k] = cum as isize;
            cum = cum * self.extents[k];
        }
        r
    }

    /// The all-zero index of this shape (first index in row-major order).
    pub fn first_index(&self) -> (r: Vec<usize>)
        ensures
            r@ == Seq::new(self@.len(), |j: int| 0usize),
    {
        let n = self.extents.len();
        let mut r: Vec<usize> = Vec::new();
        let mut i: usize = 0;
        while i < n
            invariant
                i <= n,
                r@.len() == i,
                forall|j: int| 0 <= j < i ==> r@[j] == 0,
            decreases n - i,
        {
            r.push(0);
            i = i + 1;
        }
        proof {
            assert(r@ =~= Seq::new(self@.len(), |j: int| 0usize));
        }
        r
    }

    /// The odometer step: the next valid index after `index` in row-major
    /// order, or `None` when `index` is the last one.
    pub fn next_for(&self, index: Vec<usize>) -> (r: Option<Vec<usize>>)
        requires
            valid_index(self@, index@),
        ensures
            match r {
                Some(next) => {
                    &&& valid_index(self@, next@)
                    &&& rm_rank(self@, next@) == rm_rank(self@, index@) + 1
                },
                None => rm_rank(self@, index@) == dim_size(self@) - 1,
            },
    {
        let ghost orig = index@;
        let mut ix = index;
        let n = self.extents.len();
        let mut k: usize = n;
        loop
            invariant
                k <= n,
                n == self@.len(),
                self.extents@ == self@,
                orig == index@,
                valid_index(self@, orig),
                ix@.len() == n,
                forall|j: int| 0 <= j < k ==> ix@[j] == orig[j],
                forall|j: int| k <= j < n ==> orig[j] == self@[j] - 1,
                forall|j: int| k <= j < n ==> ix@[j] == 0,
            decreases k,
        {
            if k == 0 {
                proof {
                    lemma_maxed_tail_rank(self@, orig, 0);
                }
                return None;
            }
            k = k - 1;
            proof {
                assert(ix@[k as int] == orig[k as int]);
                assert(orig[k as int] < self@[k as int]);
            }
            let v = ix[k];
            if v + 1 == self.extents[k] {
                ix[k] = 0;
            } else {
                let ghost pre = ix@;
                proof {
                    assert forall|j: int| k < j < n implies pre[j] == 0 by {
                        assert(ix@[j] == 0);
                    }
                }
                ix[k] = v + 1;
                proof {
                    assert(ix@ == pre.update(k as int, (v + 1) as usize));
                    lemma_odometer_step(self@, orig, ix@, k as int);
                }
                return Some(ix);
            }
        }
    }
}

} // verus!
