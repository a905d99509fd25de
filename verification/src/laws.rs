//! Library-wide laws, stated once over the public model and proved.

use vstd::prelude::*;

use crate::array::Array;
use crate::dim::lemma_default_offset_is_rank;
use crate::dim::lemma_size_zero;
use crate::dim::lemma_unrank_ok;
use crate::dim::rm_rank;
use crate::dim::rm_unrank;
use crate::dim::valid_index;

verus! {

/// Default strides reproduce the row-major offset formula: on a
/// contiguous view, the element a valid multi-index addresses is the
/// buffer element whose distance from the view's base is the index's
/// row-major position (how many indices precede it in rightmost-fastest
/// order).
pub proof fn law_default_strides_offset<A>(a: Array<A>, idx: Seq<usize>)
    requires
        a.wf(),
        a.is_contiguous(),
        valid_index(a.dims(), idx),
    ensures
        a.elem(idx) == a.buf()[a.off_spec() + rm_rank(a.dims(), idx)],
{
    lemma_default_offset_is_rank(a.dims(), a.strides_spec(), idx, 0);
}

/// Row-major iteration of a contiguous view reads the buffer in
/// increasing linear-offset order: the element yielded at traversal
/// position `p` sits exactly `p` places after the view's base. Together
/// with `Dim::next_for` — whose contract says each odometer step advances
/// the row-major position by exactly one — this says that filling a fresh
/// array by iteration order and filling it by nested loops (outermost to
/// innermost) agree.
pub proof fn law_row_major_order<A>(a: Array<A>, p: int)
    requires
        a.wf(),
        a.is_contiguous(),
        0 <= p < a.size_spec(),
    ensures
        a.lin()[p] == a.buf()[a.off_spec() + p],
{
    lemma_size_zero(a.dims(), 0);
    lemma_unrank_ok(a.dims(), p);
    lemma_default_offset_is_rank(a.dims(), a.strides_spec(), rm_unrank(a.dims(), p), 0);
}

/// Two views over equal buffer contents with the same descriptor observe
/// exactly the same elements. This is the reading half of copy-on-write
/// independence: a clone observes what its source observed, and — since
/// every mutator's contract touches only the receiver — mutating either
/// afterwards cannot change what the other observes.
pub proof fn law_shared_view_reads_equal<A>(a: Array<A>, b: Array<A>)
    requires
        a.same_view(b),
    ensures
        forall|idx: Seq<usize>| a.elem(idx) == #[trigger] b.elem(idx),
        a.lin() == b.lin(),
{
    assert(a.lin() =~= b.lin());
}

} // verus!
