//! The slicing engine: per-axis `(start, optional stop, step)` descriptors
//! with Python-style negative indexing and negative steps, rewritten into a
//! fresh (dimension, stride, offset) triple without touching element data.

use vstd::prelude::*;

use crate::ArrayError;
use crate::dim::Dim;
use crate::dim::has_zero;
use crate::dim::injective_offsets;
use crate::dim::lemma_lo_achieved;
use crate::dim::lemma_hi_achieved;
use crate::dim::lemma_offset_in_bounds;
use crate::dim::lemma_sp_monotone;
use crate::dim::lemma_stride_bound;
use crate::dim::offset_from;
use crate::dim::offset_of;
use crate::dim::strides_fit;
use crate::dim::suffix_prod;
use crate::dim::valid_index;
use crate::dim::view_ok;

verus! {

/// A per-axis slice descriptor: start, optional stop, step (never zero).
/// Negative start/stop count from the end of the axis, Python style.
#[derive(Clone, Copy, Debug)]
pub struct Slice(pub isize, pub Option<isize>, pub isize);

impl Slice {
    /// The full-axis slice: every position, forward.
    pub fn full() -> (r: Slice)
        ensures
            r.0 == 0,
            r.1 == Option::<isize>::None,
            r.2 == 1,
    {
        Slice(0, Option::None, 1)
    }
}

/// A start or stop resolved against extent `m`: negative values count back
/// from `m`.
pub open spec fn norm_ix(m: usize, x: isize) -> int {
    if x < 0 {
        m + x
    } else {
        x as int
    }
}

/// The resolved start of a slice on an axis of extent `m`.
pub open spec fn sl_start(m: usize, sl: Slice) -> int {
    norm_ix(m, sl.0)
}

/// The resolved stop: a missing stop means the full extent, and a stop
/// short of the start is clamped up to it (an empty span).
pub open spec fn sl_stop(m: usize, sl: Slice) -> int {
    let e = match sl.1 {
        Option::Some(x) => norm_ix(m, x),
        Option::None => m as int,
    };
    if e < sl_start(m, sl) {
        sl_start(m, sl)
    } else {
        e
    }
}

/// Number of selected positions on the axis: the span covered in whole
/// steps, rounded up.
pub open spec fn sl_len(m: usize, sl: Slice) -> int {
    let span = sl_stop(m, sl) - sl_start(m, sl);
    let mag = if sl.2 >= 0 {
        sl.2 as int
    } else {
        -(sl.2 as int)
    };
    span / mag + if span % mag > 0 {
        1int
    } else {
        0int
    }
}

/// The axis position of the first element the sliced view presents: the
/// start for a forward step, the last selected position for a backward one.
pub open spec fn sl_base(m: usize, sl: Slice) -> int {
    if sl.2 >= 0 {
        sl_start(m, sl)
    } else {
        sl_stop(m, sl) - 1
    }
}

/// The resolved start and stop both land inside `[0, m]`.
pub open spec fn axis_ranges_ok(m: usize, sl: Slice) -> bool {
    &&& 0 <= sl_start(m, sl) <= m
    &&& match sl.1 {
        Option::Some(x) => 0 <= norm_ix(m, x) <= m,
        Option::None => true,
    }
}

/// Range discipline over a whole descriptor list.
pub open spec fn ranges_ok(d: Seq<usize>, ss: Seq<Slice>) -> bool {
    forall|k: int| 0 <= k < d.len() ==> axis_ranges_ok(d[k], #[trigger] ss[k])
}

/// No descriptor has a zero step.
pub open spec fn steps_ok(ss: Seq<Slice>) -> bool {
    forall|k: int| 0 <= k < ss.len() ==> (#[trigger] ss[k]).2 != 0
}

/// The stride of axis `k` after slicing: scaled by the step wherever the
/// axis keeps at least two positions; immaterial (kept as is) otherwise.
pub open spec fn new_stride(d: Seq<usize>, s: Seq<isize>, ss: Seq<Slice>, k: int) -> int {
    if !has_zero(d) && sl_len(d[k], ss[k]) >= 2 {
        s[k] * ss[k].2
    } else {
        s[k] as int
    }
}

/// The index in the source view that a sliced-view index reads: per axis,
/// the base plus the index scaled by the step.
pub open spec fn src_index(d: Seq<usize>, ss: Seq<Slice>, idx2: Seq<usize>) -> Seq<usize> {
    Seq::new(d.len(), |k: int| (sl_base(d[k], ss[k]) + idx2[k] * ss[k].2) as usize)
}

/// What a successful slice application guarantees: the new extents and
/// strides follow the per-axis formulas, the new triple is a well-formed
/// view over the same buffer, and every element of the sliced view is the
/// source element at the mapped index.
pub open spec fn slice_applies(
    glen: int,
    off: int,
    d: Seq<usize>,
    s: Seq<isize>,
    ss: Seq<Slice>,
    nd: Seq<usize>,
    ns: Seq<isize>,
    noff: int,
) -> bool {
    &&& nd.len() == d.len()
    &&& ns.len() == d.len()
    &&& forall|k: int| 0 <= k < d.len() ==> #[trigger] nd[k] == sl_len(d[k], ss[k])
    &&& forall|k: int| 0 <= k < d.len() ==> #[trigger] ns[k] == new_stride(d, s, ss, k)
    &&& view_ok(glen, noff, nd, ns)
    &&& forall|idx2: Seq<usize>|
        valid_index(nd, idx2) ==> valid_index(d, #[trigger] src_index(d, ss, idx2)) && noff
            + offset_of(idx2, ns) == off + offset_of(src_index(d, ss, idx2), s)
}

/// Resolve a possibly negative index against extent `m`.
/// (The negative branch avoids negating `isize::MIN`.)
pub(crate) fn abs_index(m: usize, x: isize) -> (r: usize)
    requires
        0 <= norm_ix(m, x) <= m,
    ensures
        r == norm_ix(m, x),
{
    if x < 0 {
        m - ((-(x + 1)) as usize) - 1
    } else {
        x as usize
    }
}

/// Facts about the number of selected positions on one axis.
pub(crate) proof fn lemma_axis_len(m: usize, sl: Slice)
    requires
        axis_ranges_ok(m, sl),
        sl.2 != 0,
    ensures
        0 <= sl_len(m, sl) <= m,
        sl_len(m, sl) == 0 <==> sl_stop(m, sl) == sl_start(m, sl),
        m == 0 ==> sl_len(m, sl) == 0,
{
    let span = sl_stop(m, sl) - sl_start(m, sl);
    let mag = if sl.2 >= 0 { sl.2 as int } else { -(sl.2 as int) };
    assert(mag >= 1);
    assert(0 <= span <= m);
    vstd::arithmetic::div_mod::lemma_fundamental_div_mod(span, mag);
    vstd::arithmetic::div_mod::lemma_mod_division_less_than_divisor(span, mag);
    let q = span / mag;
    let r = span % mag;
    assert(q >= 0) by (nonlinear_arith)
        requires span >= 0, mag >= 1, span == mag * q + r, 0 <= r < mag;
    if r > 0 {
        assert(q + 1 <= span) by (nonlinear_arith)
            requires span == mag * q + r, mag >= 1, 1 <= r < mag, q >= 0;
    } else {
        assert(q <= span) by (nonlinear_arith)
            requires span == mag * q, mag >= 1, q >= 0;
        if span > 0 {
            assert(q >= 1) by (nonlinear_arith)
                requires span == mag * q, span > 0, q >= 0, mag >= 1;
        }
    }
}

/// Every selected position on one axis lands inside the axis.
pub(crate) proof fn lemma_axis_src_in_range(m: usize, sl: Slice, j: int)
    requires
        axis_ranges_ok(m, sl),
        sl.2 != 0,
        0 <= j < sl_len(m, sl),
    ensures
        0 <= sl_base(m, sl) + j * sl.2,
        sl_base(m, sl) + j * sl.2 < m,
    decreases 0int,
{
    let start = sl_start(m, sl);
    let stop = sl_stop(m, sl);
    let span = stop - start;
    let mag = if sl.2 >= 0 { sl.2 as int } else { -(sl.2 as int) };
    assert(mag >= 1);
    vstd::arithmetic::div_mod::lemma_fundamental_div_mod(span, mag);
    vstd::arithmetic::div_mod::lemma_mod_division_less_than_divisor(span, mag);
    let q = span / mag;
    let r = span % mag;
    let len = sl_len(m, sl);
    // The last selected position stays short of the stop.
    assert((len - 1) * mag <= span - 1) by (nonlinear_arith)
        requires
            span == mag * q + r,
            0 <= r < mag,
            mag >= 1,
            len == q + (if r > 0 { 1int } else { 0int }),
            len >= 1;
    assert(0 <= j * mag <= (len - 1) * mag) by (nonlinear_arith)
        requires 0 <= j <= len - 1, mag >= 1;
    if sl.2 >= 0 {
        assert(j * sl.2 == j * mag);
        assert(sl_base(m, sl) + j * sl.2 <= start + span - 1);
        assert(sl_base(m, sl) + j * sl.2 < m);
    } else {
        assert(j * sl.2 == -(j * mag)) by (nonlinear_arith)
            requires sl.2 < 0, mag == -(sl.2 as int);
        assert(sl_base(m, sl) + j * sl.2 >= stop - 1 - (span - 1));
        assert(stop >= start + 1);
        assert(sl_base(m, sl) + j * sl.2 < m);
    }
}

/// Offsets in the sliced view map to source offsets: summed from axis `k`,
/// the sliced offset plus the base contributions equals the source offset
/// of the mapped index.
proof fn lemma_slice_offset_map(
    d: Seq<usize>,
    s: Seq<isize>,
    ss: Seq<Slice>,
    nd: Seq<usize>,
    ns: Seq<isize>,
    idx2: Seq<usize>,
    k: int,
)
    requires
        s.len() == d.len(),
        ss.len() == d.len(),
        nd.len() == d.len(),
        ns.len() == d.len(),
        ranges_ok(d, ss),
        steps_ok(ss),
        !has_zero(d),
        forall|j: int| 0 <= j < d.len() ==> #[trigger] nd[j] == sl_len(d[j], ss[j]),
        forall|j: int| 0 <= j < d.len() ==> #[trigger] ns[j] == new_stride(d, s, ss, j),
        valid_index(nd, idx2),
        0 <= k <= d.len(),
    ensures
        offset_from(src_index(d, ss, idx2), s, k) == offset_from(bases_of(d, ss), s, k)
            + offset_from(idx2, ns, k),
    decreases d.len() - k,
{
    if k < d.len() {
        lemma_slice_offset_map(d, s, ss, nd, ns, idx2, k + 1);
        let src = src_index(d, ss, idx2);
        let b = sl_base(d[k], ss[k]);
        let i2 = idx2[k] as int;
        let st = ss[k].2 as int;
        lemma_axis_src_in_range(d[k], ss[k], i2);
        assert(src[k] == b + i2 * st);
        if sl_len(d[k], ss[k]) >= 2 {
            assert(ns[k] == s[k] * st);
            assert((b + i2 * st) * s[k] == b * s[k] + i2 * (s[k] * st)) by (nonlinear_arith);
        } else {
            assert(i2 == 0);
            assert((b + i2 * st) * s[k] == b * s[k]) by (nonlinear_arith)
                requires i2 == 0;
            assert(i2 * ns[k] == 0) by (nonlinear_arith)
                requires i2 == 0;
        }
        assert(bases_of(d, ss)[k] == b);
    }
}

/// The per-axis bases, as an index of the source view: the index every
/// sliced-view element offset is measured from.
pub open spec fn bases_of(d: Seq<usize>, ss: Seq<Slice>) -> Seq<usize> {
    Seq::new(d.len(), |k: int| sl_base(d[k], ss[k]) as usize)
}

/// When every axis keeps at least one position, the bases form a valid
/// index of the source view.
proof fn lemma_bases_valid(d: Seq<usize>, ss: Seq<Slice>)
    requires
        ss.len() == d.len(),
        ranges_ok(d, ss),
        steps_ok(ss),
        forall|k: int| 0 <= k < d.len() ==> sl_len(d[k], #[trigger] ss[k]) >= 1,
    ensures
        valid_index(d, bases_of(d, ss)),
{
    assert forall|k: int| 0 <= k < d.len() implies bases_of(d, ss)[k] < d[k] by {
        lemma_axis_src_in_range(d[k], ss[k], 0);
        assert(0 * ss[k].2 == 0) by (nonlinear_arith);
    }
}

/// Every valid index of the sliced view maps to a valid index of the
/// source view.
proof fn lemma_src_valid(d: Seq<usize>, ss: Seq<Slice>, nd: Seq<usize>, idx2: Seq<usize>)
    requires
        ss.len() == d.len(),
        nd.len() == d.len(),
        ranges_ok(d, ss),
        steps_ok(ss),
        forall|j: int| 0 <= j < d.len() ==> #[trigger] nd[j] == sl_len(d[j], ss[j]),
        valid_index(nd, idx2),
    ensures
        valid_index(d, src_index(d, ss, idx2)),
{
    assert forall|k: int| 0 <= k < d.len() implies src_index(d, ss, idx2)[k] < d[k] by {
        lemma_axis_src_in_range(d[k], ss[k], idx2[k] as int);
    }
}

/// Slicing a self-alias-free view yields a self-alias-free view.
pub(crate) proof fn lemma_slice_injective(
    glen: int,
    off: int,
    d: Seq<usize>,
    s: Seq<isize>,
    ss: Seq<Slice>,
    nd: Seq<usize>,
    ns: Seq<isize>,
    noff: int,
)
    requires
        s.len() == d.len(),
        ss.len() == d.len(),
        injective_offsets(d, s),
        slice_applies(glen, off, d, s, ss, nd, ns, noff),
        ranges_ok(d, ss),
        steps_ok(ss),
    ensures
        injective_offsets(nd, ns),
{
    assert forall|a: Seq<usize>, b: Seq<usize>|
        valid_index(nd, a) && valid_index(nd, b) && offset_of(a, ns) == offset_of(b, ns) implies a
        == b by {
        let sa = src_index(d, ss, a);
        let sb = src_index(d, ss, b);
        assert(noff + offset_of(a, ns) == off + offset_of(sa, s));
        assert(noff + offset_of(b, ns) == off + offset_of(sb, s));
        assert(sa == sb);
        assert forall|k: int| 0 <= k < nd.len() implies a[k] == b[k] by {
            lemma_axis_src_in_range(d[k], ss[k], a[k] as int);
            lemma_axis_src_in_range(d[k], ss[k], b[k] as int);
            assert(sa[k] == sl_base(d[k], ss[k]) + a[k] * ss[k].2);
            assert(sb[k] == sl_base(d[k], ss[k]) + b[k] * ss[k].2);
            assert(a[k] == b[k]) by (nonlinear_arith)
                requires
                    sl_base(d[k], ss[k]) + a[k] * ss[k].2 == sl_base(d[k], ss[k]) + b[k]
                        * ss[k].2,
                    ss[k].2 != 0;
        }
        assert(a =~= b);
    }
}

/// Rewrite a (dimension, stride, offset) triple under a descriptor list,
/// one descriptor per axis. `glen` is the length of the buffer the triple
/// views; no element data is read or written.
pub(crate) fn do_slices(
    dim: &Dim,
    strides: &Vec<isize>,
    off: usize,
    slices: &Vec<Slice>,
    Ghost(glen): Ghost<int>,
) -> (r: Result<(Dim, Vec<isize>, usize), ArrayError>)
    requires
        view_ok(glen, off as int, dim@, strides@),
        slices@.len() == dim@.len() && steps_ok(slices@) ==> ranges_ok(dim@, slices@),
    ensures
        match r {
            Result::Err(e) => {
                &&& (e == ArrayError::RankMismatch <==> slices@.len() != dim@.len())
                &&& (slices@.len() == dim@.len() ==> e == ArrayError::InvalidStep
                    && !steps_ok(slices@))
            },
            Result::Ok(t) => {
                &&& slices@.len() == dim@.len()
                &&& steps_ok(slices@)
                &&& slice_applies(glen, off as int, dim@, strides@, slices@, t.0@, t.1@, t.2 as int)
            },
        },
{
    let r = dim.rank();
    if slices.len() != r {
        return Result::Err(ArrayError::RankMismatch);
    }
    let mut k: usize = 0;
    while k < r
        invariant
            r == dim@.len(),
            slices@.len() == r,
            forall|j: int| 0 <= j < k ==> (#[trigger] slices@[j]).2 != 0,
            k <= r,
        decreases r - k,
    {
        if slices[k].2 == 0 {
            return Result::Err(ArrayError::InvalidStep);
        }
        k = k + 1;
    }
    assert(steps_ok(slices@));

    // Whether the source view holds any element at all; offset arithmetic
    // below is only meaningful (and only needed) while it does and while
    // every axis sliced so far keeps at least one position.
    let mut alive0 = true;
    let mut k: usize = 0;
    while k < r
        invariant
            r == dim@.len(),
            k <= r,
            alive0 <==> forall|j: int| 0 <= j < k ==> dim@[j] != 0,
        decreases r - k,
    {
        if dim.extent(k) == 0 {
            alive0 = false;
        }
        k = k + 1;
    }
    assert(alive0 <==> !has_zero(dim@));

    let ghost d = dim@;
    let ghost s = strides@;
    let ghost ss = slices@;

    let mut nd: Vec<usize> = Vec::new();
    let mut ns: Vec<isize> = Vec::new();
    let mut noff: usize = off;
    let mut alive = alive0;
    proof {
        lemma_zero_offset(part_bases(d, ss, 0), s, 0);
        if alive {
            assert(forall|j: int| 0 <= j < d.len() ==> d[j] >= 1);
            assert(valid_index(d, part_bases(d, ss, 0)));
        }
    }
    let mut k: usize = 0;
    while k < r
        invariant
            r == d.len(),
            s.len() == d.len(),
            ss.len() == d.len(),
            dim@ == d,
            strides@ == s,
            slices@ == ss,
            view_ok(glen, off as int, d, s),
            ranges_ok(d, ss),
            steps_ok(ss),
            alive0 <==> !has_zero(d),
            k <= r,
            nd@.len() == k,
            ns@.len() == k,
            forall|j: int| 0 <= j < k ==> #[trigger] nd@[j] == sl_len(d[j], ss[j]),
            forall|j: int| 0 <= j < k ==> #[trigger] ns@[j] == new_stride(d, s, ss, j),
            alive <==> (!has_zero(d) && forall|j: int|
                0 <= j < k ==> sl_len(d[j], #[trigger] ss[j]) >= 1),
            alive ==> noff as int == off + offset_from(part_bases(d, ss, k as int), s, 0),
            alive ==> valid_index(d, part_bases(d, ss, k as int)),
            !alive ==> noff == off,
        decreases r - k,
    {
        let m = dim.extent(k);
        let sl = slices[k];
        let st = sl.2;
        proof {
            assert(axis_ranges_ok(d[k as int], ss[k as int]));
            lemma_axis_len(m, sl);
        }
        let start = abs_index(m, sl.0);
        let stop_raw = match sl.1 {
            Option::Some(e) => abs_index(m, e),
            Option::None => m,
        };
        let stop = if stop_raw < start {
            start
        } else {
            stop_raw
        };
        let span = stop - start;
        let mag = if st >= 0 {
            st as usize
        } else {
            ((-(st + 1)) as usize) + 1
        };
        let l = span / mag + (if span % mag > 0 {
            1
        } else {
            0
        });
        proof {
            assert(l == sl_len(d[k as int], ss[k as int]));
        }

        // The stride of a degenerate axis is immaterial; keeping the old
        // one also keeps the product inside the machine range.
        let nst: isize = if alive0 && l >= 2 {
            proof {
                lemma_new_stride_fits(glen, off as int, d, s, ss, k as int);
            }
            strides[k] * st
        } else {
            strides[k]
        };

        let ghost old_noff = noff as int;
        let ghost old_alive = alive;
        if alive {
            if l == 0 {
                alive = false;
                noff = off;
            } else {
                let base = if st >= 0 {
                    start
                } else {
                    stop - 1
                };
                proof {
                    lemma_base_step(glen, off as int, d, s, ss, k as int, noff as int);
                }
                let sk = strides[k];
                if base > 0 {
                    if sk >= 0 {
                        noff = noff + base * (sk as usize);
                    } else {
                        proof {
                            assert(base * (-(sk as int)) == -(base * (sk as int)))
                                by (nonlinear_arith);
                        }
                        noff = noff - base * ((-sk) as usize);
                    }
                } else {
                    proof {
                        assert(sl_base(d[k as int], ss[k as int]) * s[k as int] == 0)
                            by (nonlinear_arith)
                            requires sl_base(d[k as int], ss[k as int]) == 0;
                    }
                }
            }
        }
        nd.push(l);
        ns.push(nst);
        k = k + 1;
    }
    proof {
        lemma_assemble(glen, off as int, d, s, ss, nd@, ns@, noff as int, alive);
    }
    Result::Ok((Dim::new(nd), ns, noff))
}

/// The bases of the first `k` axes, zero beyond: the source index whose
/// offset the slicing loop has accumulated after `k` axes.
pub open spec fn part_bases(d: Seq<usize>, ss: Seq<Slice>, k: int) -> Seq<usize> {
    Seq::new(d.len(), |j: int| if j < k {
        sl_base(d[j], ss[j]) as usize
    } else {
        0usize
    })
}

/// A non-degenerate axis of a live view keeps its scaled stride inside the
/// machine range.
proof fn lemma_new_stride_fits(
    glen: int,
    off: int,
    d: Seq<usize>,
    s: Seq<isize>,
    ss: Seq<Slice>,
    k: int,
)
    requires
        view_ok(glen, off, d, s),
        ranges_ok(d, ss),
        steps_ok(ss),
        ss.len() == d.len(),
        !has_zero(d),
        0 <= k < d.len(),
        sl_len(d[k], ss[k]) >= 2,
    ensures
        -glen < s[k] * ss[k].2,
        s[k] * ss[k].2 < glen,
        isize::MIN <= s[k] * ss[k].2 <= isize::MAX,
{
    let m = d[k];
    let sl = ss[k];
    let st = sl.2 as int;
    lemma_axis_len(m, sl);
    lemma_axis_src_in_range(m, sl, 0);
    lemma_axis_src_in_range(m, sl, 1);
    // Positions base and base + st both lie in [0, m), so |st| <= m - 1
    // and the axis has at least two positions.
    assert(m >= 2);
    lemma_stride_bound(glen, off, d, s, k);
    // Both selected offsets differ by st * s[k], and both land in the
    // buffer when taken from a common valid index: bound the product by
    // comparing the two element offsets.
    let zero = Seq::new(d.len(), |j: int| 0usize);
    let b0 = sl_base(m, sl) as usize;
    let b1v = sl_base(m, sl) + st;
    let e0 = zero.update(k, b0);
    let e1 = zero.update(k, b1v as usize);
    assert(forall|j: int| 0 <= j < d.len() ==> d[j] >= 1);
    assert(valid_index(d, e0));
    assert(valid_index(d, e1));
    lemma_offset_in_bounds(glen, off, d, s, e0);
    lemma_offset_in_bounds(glen, off, d, s, e1);
    lemma_single_axis_offset(d, s, e0, k, 0);
    lemma_single_axis_offset(d, s, e1, k, 0);
    assert(offset_of(e0, s) == b0 * s[k]);
    assert(offset_of(e1, s) == (b1v as usize) * s[k]);
    assert((b1v as usize) * s[k] - (b0 as int) * s[k] == st * s[k]) by (nonlinear_arith)
        requires b1v == b0 + st, b1v == (b1v as usize) as int, b0 == (b0 as usize) as int;
    assert(s[k] * st == st * s[k]) by (nonlinear_arith);
}

/// An all-zero index contributes no offset.
proof fn lemma_zero_offset(q: Seq<usize>, s: Seq<isize>, j: int)
    requires
        forall|i: int| 0 <= i < q.len() ==> q[i] == 0,
        q.len() == s.len(),
        0 <= j <= s.len(),
    ensures
        offset_from(q, s, j) == 0,
    decreases s.len() - j,
{
    if j < s.len() {
        lemma_zero_offset(q, s, j + 1);
        assert(q[j] * s[j] == 0) by (nonlinear_arith)
            requires q[j] == 0;
    }
}

/// The offset of an index that is zero outside one axis is that axis's
/// contribution alone.
proof fn lemma_single_axis_offset(d: Seq<usize>, s: Seq<isize>, idx: Seq<usize>, u: int, j: int)
    requires
        s.len() == d.len(),
        idx.len() == d.len(),
        0 <= u < d.len(),
        forall|i: int| 0 <= i < d.len() && i != u ==> idx[i] == 0,
        0 <= j <= d.len(),
    ensures
        offset_from(idx, s, j) == if j <= u {
            idx[u] * s[u]
        } else {
            0
        },
    decreases d.len() - j,
{
    if j < d.len() {
        lemma_single_axis_offset(d, s, idx, u, j + 1);
        if j != u {
            assert(idx[j] * s[j] == 0) by (nonlinear_arith)
                requires idx[j] == 0;
        }
    }
}

/// One step of the offset accumulation: adding the base contribution of
/// axis `k` moves from the partial-bases offset at `k` to the one at
/// `k + 1`, and both stay inside the buffer.
proof fn lemma_base_step(
    glen: int,
    off: int,
    d: Seq<usize>,
    s: Seq<isize>,
    ss: Seq<Slice>,
    k: int,
    noff: int,
)
    requires
        view_ok(glen, off, d, s),
        ranges_ok(d, ss),
        steps_ok(ss),
        ss.len() == d.len(),
        !has_zero(d),
        0 <= k < d.len(),
        sl_len(d[k], ss[k]) >= 1,
        valid_index(d, part_bases(d, ss, k)),
        noff == off + offset_from(part_bases(d, ss, k), s, 0),
    ensures
        valid_index(d, part_bases(d, ss, k + 1)),
        0 <= noff + sl_base(d[k], ss[k]) * s[k],
        noff + sl_base(d[k], ss[k]) * s[k] < glen,
        noff + sl_base(d[k], ss[k]) * s[k] == off + offset_from(part_bases(d, ss, k + 1), s, 0),
        0 <= sl_base(d[k], ss[k]) < d[k],
        sl_base(d[k], ss[k]) >= 1 ==> -glen < s[k] < glen,
        0 <= noff < glen,
{
    lemma_axis_src_in_range(d[k], ss[k], 0);
    assert(0 * ss[k].2 == 0) by (nonlinear_arith);
    let pk = part_bases(d, ss, k);
    let pk1 = part_bases(d, ss, k + 1);
    assert(valid_index(d, pk1)) by {
        assert(forall|j: int| 0 <= j < d.len() && j != k ==> pk1[j] == pk[j]);
        assert(pk1[k] == sl_base(d[k], ss[k]) as usize);
    }
    lemma_offset_in_bounds(glen, off, d, s, pk);
    lemma_offset_in_bounds(glen, off, d, s, pk1);
    lemma_part_bases_diff(d, s, ss, k, 0);
    if sl_base(d[k], ss[k]) >= 1 {
        assert(d[k] >= 2);
        lemma_stride_bound(glen, off, d, s, k);
    }
}

/// The partial-bases offsets at `k` and `k + 1` differ by exactly the base
/// contribution of axis `k`.
proof fn lemma_part_bases_diff(d: Seq<usize>, s: Seq<isize>, ss: Seq<Slice>, k: int, j: int)
    requires
        s.len() == d.len(),
        ss.len() == d.len(),
        ranges_ok(d, ss),
        steps_ok(ss),
        0 <= k < d.len(),
        sl_len(d[k], ss[k]) >= 1,
        0 <= j <= d.len(),
    ensures
        offset_from(part_bases(d, ss, k + 1), s, j) == offset_from(part_bases(d, ss, k), s, j) + (
        if j <= k {
            sl_base(d[k], ss[k]) * s[k]
        } else {
            0
        }),
    decreases d.len() - j,
{
    if j < d.len() {
        lemma_part_bases_diff(d, s, ss, k, j + 1);
        let pk = part_bases(d, ss, k);
        let pk1 = part_bases(d, ss, k + 1);
        if j == k {
            lemma_axis_src_in_range(d[k], ss[k], 0);
            assert(0 * ss[k].2 == 0) by (nonlinear_arith);
            assert(pk[j] == 0);
            assert(pk1[j] == sl_base(d[k], ss[k]) as usize);
            assert(pk[j] * s[j] == 0) by (nonlinear_arith)
                requires pk[j] == 0;
        } else {
            assert(pk1[j] == pk[j]);
        }
    }
}

/// Assemble the final guarantee of `do_slices` from the loop's invariants.
proof fn lemma_assemble(
    glen: int,
    off: int,
    d: Seq<usize>,
    s: Seq<isize>,
    ss: Seq<Slice>,
    nd: Seq<usize>,
    ns: Seq<isize>,
    noff: int,
    alive: bool,
)
    requires
        view_ok(glen, off, d, s),
        ranges_ok(d, ss),
        steps_ok(ss),
        ss.len() == d.len(),
        nd.len() == d.len(),
        ns.len() == d.len(),
        forall|j: int| 0 <= j < d.len() ==> #[trigger] nd[j] == sl_len(d[j], ss[j]),
        forall|j: int| 0 <= j < d.len() ==> #[trigger] ns[j] == new_stride(d, s, ss, j),
        alive <==> (!has_zero(d) && forall|j: int|
            0 <= j < d.len() ==> sl_len(d[j], #[trigger] ss[j]) >= 1),
        alive ==> noff == off + offset_from(part_bases(d, ss, d.len() as int), s, 0),
        alive ==> valid_index(d, part_bases(d, ss, d.len() as int)),
        !alive ==> noff == off,
        0 <= noff,
    ensures
        slice_applies(glen, off, d, s, ss, nd, ns, noff),
{
    // Extents only shrink, so the machine-range discipline carries over.
    assert(strides_fit(nd)) by {
        assert forall|j: int| 0 <= j < d.len() implies nd[j] <= d[j] by {
            lemma_axis_len(d[j], ss[j]);
        }
        assert forall|k: int| 0 <= k <= nd.len() implies suffix_prod(nd, k) <= isize::MAX as int by {
            lemma_sp_monotone(nd, d, k);
        }
    }
    if !alive {
        // Some axis of the result is empty: the view holds nothing, and
        // well-formedness asks only for the structural parts.
        assert(has_zero(nd)) by {
            if has_zero(d) {
                let j = choose|j: int| 0 <= j < d.len() && d[j] == 0;
                lemma_axis_len(d[j], ss[j]);
                assert(nd[j] == 0);
            } else {
                let j = choose|j: int| 0 <= j < d.len() && sl_len(d[j], #[trigger] ss[j]) < 1;
                lemma_axis_len(d[j], ss[j]);
                assert(nd[j] == 0);
            }
        }
        assert forall|idx2: Seq<usize>| valid_index(nd, idx2) implies valid_index(
            d,
            #[trigger] src_index(d, ss, idx2),
        ) && noff + offset_of(idx2, ns) == off + offset_of(src_index(d, ss, idx2), s) by {
            let j = choose|j: int| 0 <= j < nd.len() && nd[j] == 0;
            assert(idx2[j] < nd[j]);
        }
    } else {
        assert(!has_zero(nd)) by {
            if has_zero(nd) {
                let j = choose|j: int| 0 <= j < nd.len() && nd[j] == 0;
                assert(sl_len(d[j], ss[j]) >= 1);
            }
        }
        assert(bases_of(d, ss) =~= part_bases(d, ss, d.len() as int));
        // Element mapping.
        assert forall|idx2: Seq<usize>| valid_index(nd, idx2) implies valid_index(
            d,
            #[trigger] src_index(d, ss, idx2),
        ) && noff + offset_of(idx2, ns) == off + offset_of(src_index(d, ss, idx2), s) by {
            lemma_src_valid(d, ss, nd, idx2);
            lemma_slice_offset_map(d, s, ss, nd, ns, idx2, 0);
        }
        // Extreme offsets of the result are offsets of mapped indices, so
        // they stay inside the buffer.
        let lo_ix = Seq::new(nd.len(), |j: int| if ns[j] < 0 {
            (nd[j] - 1) as usize
        } else {
            0usize
        });
        let hi_ix = Seq::new(nd.len(), |j: int| if ns[j] >= 0 {
            (nd[j] - 1) as usize
        } else {
            0usize
        });
        lemma_lo_achieved(nd, ns, lo_ix, 0);
        lemma_hi_achieved(nd, ns, hi_ix, 0);
        lemma_src_valid(d, ss, nd, lo_ix);
        lemma_src_valid(d, ss, nd, hi_ix);
        lemma_slice_offset_map(d, s, ss, nd, ns, lo_ix, 0);
        lemma_slice_offset_map(d, s, ss, nd, ns, hi_ix, 0);
        lemma_offset_in_bounds(glen, off, d, s, src_index(d, ss, lo_ix));
        lemma_offset_in_bounds(glen, off, d, s, src_index(d, ss, hi_ix));
    }
}

} // verus!
