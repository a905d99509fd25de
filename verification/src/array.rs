//! The array core: a reference-counted buffer shared between views, a
//! logical element offset, a (dimension, stride) pair, and copy-on-write
//! mutation. Iteration, slicing, reshape and the arithmetic operations are
//! all built over this one view model.

use vstd::prelude::*;

use std::rc::Rc;

use crate::ArrayError;
use crate::dim::Dim;
use crate::dim::dim_size;
use crate::dim::has_zero;
use crate::dim::injective_offsets;
use crate::dim::is_default_strides;
use crate::dim::lemma_default_bounds;
use crate::dim::lemma_default_injective;
use crate::dim::lemma_default_offset_is_rank;
use crate::dim::lemma_offset_in_bounds;
use crate::dim::lemma_partial_offset_in_bounds;
use crate::dim::lemma_rank_range;
use crate::dim::lemma_size_zero;
use crate::dim::lemma_sp_monotone;
use crate::dim::lemma_stride_bound;
use crate::dim::lemma_unrank_of_rank;
use crate::dim::lemma_unrank_ok;
use crate::dim::offset_from;
use crate::dim::offset_of;
use crate::dim::rm_rank;
use crate::dim::rm_unrank;
use crate::dim::strides_fit;
use crate::dim::valid_index;
use crate::dim::view_ok;
use crate::slice::Slice;
use crate::slice::abs_index;
use crate::slice::do_slices;
use crate::slice::lemma_axis_len;
use crate::slice::lemma_axis_src_in_range;
use crate::slice::lemma_slice_injective;
use crate::slice::ranges_ok;
use crate::slice::sl_base;
use crate::slice::sl_len;
use crate::slice::slice_applies;
use crate::slice::src_index;
use crate::slice::steps_ok;

verus! {

/// An N-dimensional array: a shared, reference-counted buffer seen through
/// a (offset, dimension, stride) descriptor. Cloning shares the buffer;
/// mutation privatizes it first (copy-on-write).
pub struct Array<A> {
    data: Rc<Vec<A>>,
    off: usize,
    dim: Dim,
    strides: Vec<isize>,
}

/// Relies on `Rc::make_mut`: after the call the buffer is exclusively
/// owned, duplicated first if it was shared. For `Copy` elements the
/// privatizing clone copies the contents unchanged.
#[verifier::external_body]
fn buf_privatize<A: Copy>(data: &mut Rc<Vec<A>>)
    ensures
        final(data)@ == old(data)@,
{
    Rc::make_mut(data);
}

/// Relies on `Rc::make_mut` for exclusive access, then writes one element
/// in place.
#[verifier::external_body]
fn buf_set<A: Copy>(data: &mut Rc<Vec<A>>, i: usize, v: A)
    requires
        i < old(data)@.len(),
    ensures
        final(data)@ == old(data)@.update(i as int, v),
{
    Rc::make_mut(data)[i] = v;
}

/// Relies on `Rc::ptr_eq`: whether two views hold the very same backing
/// buffer. A storage-identity probe; nothing is claimed of the answer.
#[verifier::external_body]
fn buf_same<A>(a: &Rc<Vec<A>>, b: &Rc<Vec<A>>) -> bool {
    Rc::ptr_eq(a, b)
}

/// Read one element through the shared handle.
fn buf_get<A: Copy>(data: &Rc<Vec<A>>, i: usize) -> (r: A)
    requires
        i < data@.len(),
    ensures
        r == data@[i as int],
{
    (**data)[i]
}

/// Copy a stride vector (element for element, so the view is preserved).
fn copy_strides(v: &Vec<isize>) -> (r: Vec<isize>)
    ensures
        r@ == v@,
{
    let mut r: Vec<isize> = Vec::new();
    let mut k: usize = 0;
    while k < v.len()
        invariant
            k <= v@.len(),
            r@ =~= v@.take(k as int),
        decreases v@.len() - k,
    {
        r.push(v[k]);
        k = k + 1;
    }
    proof {
        assert(r@ =~= v@);
    }
    r
}

/// Copy an index vector.
fn copy_index(v: &Vec<usize>) -> (r: Vec<usize>)
    ensures
        r@ == v@,
{
    let mut r: Vec<usize> = Vec::new();
    let mut k: usize = 0;
    while k < v.len()
        invariant
            k <= v@.len(),
            r@ =~= v@.take(k as int),
        decreases v@.len() - k,
    {
        r.push(v[k]);
        k = k + 1;
    }
    proof {
        assert(r@ =~= v@);
    }
    r
}

/// Whether two extent lists are equal.
fn dims_equal(a: &Vec<usize>, b: &Vec<usize>) -> (r: bool)
    ensures
        r == (a@ == b@),
{
    if a.len() != b.len() {
        proof {
            assert(a@ != b@);
        }
        return false;
    }
    let mut k: usize = 0;
    while k < a.len()
        invariant
            a@.len() == b@.len(),
            k <= a@.len(),
            forall|j: int| 0 <= j < k ==> a@[j] == b@[j],
        decreases a@.len() - k,
    {
        if a[k] != b[k] {
            return false;
        }
        k = k + 1;
    }
    proof {
        assert(a@ =~= b@);
    }
    true
}

/// The linear element offset of a valid index against a strided view over
/// a buffer of length `glen`; always lands inside the buffer.
pub(crate) fn stride_offset(
    off: usize,
    strides: &Vec<isize>,
    index: &Vec<usize>,
    Ghost(glen): Ghost<int>,
    Ghost(d): Ghost<Seq<usize>>,
) -> (o: usize)
    requires
        view_ok(glen, off as int, d, strides@),
        valid_index(d, index@),
    ensures
        o as int == off + offset_of(index@, strides@),
        o < glen,
{
    let n = index.len();
    let mut o = off;
    let mut k: usize = 0;
    proof {
        lemma_partial_offset_in_bounds(glen, off as int, d, strides@, index@, 0);
    }
    while k < n
        invariant
            n == index@.len(),
            d.len() == n,
            strides@.len() == n,
            view_ok(glen, off as int, d, strides@),
            valid_index(d, index@),
            k <= n,
            o as int == off + offset_of(index@, strides@) - offset_from(index@, strides@, k as int),
            0 <= (o as int) < glen,
        decreases n - k,
    {
        proof {
            lemma_partial_offset_in_bounds(glen, off as int, d, strides@, index@, k as int);
            lemma_partial_offset_in_bounds(glen, off as int, d, strides@, index@, k as int + 1);
        }
        let i = index[k];
        let s = strides[k];
        if i > 0 {
            proof {
                assert(!has_zero(d));
                assert(d[k as int] >= 2);
                lemma_stride_bound(glen, off as int, d, strides@, k as int);
                assert(i * (-(s as int)) == -(i * (s as int))) by (nonlinear_arith);
            }
            if s >= 0 {
                o = o + i * (s as usize);
            } else {
                o = o - i * ((-s) as usize);
            }
        } else {
            proof {
                assert(i * (s as int) == 0) by (nonlinear_arith)
                    requires i == 0;
            }
        }
        k = k + 1;
    }
    o
}

impl<A> Array<A> {
    /// The whole backing buffer, as a sequence of elements.
    pub closed spec fn buf(self) -> Seq<A> {
        self.data@
    }

    /// The element offset of the view's base into the buffer.
    pub closed spec fn off_spec(self) -> int {
        self.off as int
    }

    /// The per-axis extents of the view.
    pub closed spec fn dims(self) -> Seq<usize> {
        self.dim@
    }

    /// The per-axis strides of the view, in elements.
    pub closed spec fn strides_spec(self) -> Seq<isize> {
        self.strides@
    }

    /// Number of axes.
    pub open spec fn rank_spec(self) -> int {
        self.dims().len() as int
    }

    /// Total element count of the view.
    pub open spec fn size_spec(self) -> int {
        dim_size(self.dims())
    }

    /// The data-model invariant: strides align with extents, every
    /// reachable offset lands inside the buffer, and no two distinct
    /// indices alias one element.
    pub open spec fn wf(self) -> bool {
        &&& view_ok(self.buf().len() as int, self.off_spec(), self.dims(), self.strides_spec())
        &&& injective_offsets(self.dims(), self.strides_spec())
    }

    /// The element a valid index addresses.
    pub open spec fn elem(self, idx: Seq<usize>) -> A {
        self.buf()[self.off_spec() + offset_of(idx, self.strides_spec())]
    }

    /// The elements of the view in row-major order.
    pub open spec fn lin(self) -> Seq<A> {
        Seq::new(self.size_spec() as nat, |p: int| self.elem(rm_unrank(self.dims(), p)))
    }

    /// Whether the view is contiguous: its strides are the default
    /// (row-major) strides of its own shape.
    pub open spec fn is_contiguous(self) -> bool {
        is_default_strides(self.dims(), self.strides_spec())
    }

    /// Two arrays describe the same view of the same buffer contents.
    pub open spec fn same_view(self, o: Array<A>) -> bool {
        &&& self.buf() == o.buf()
        &&& self.off_spec() == o.off_spec()
        &&& self.dims() == o.dims()
        &&& self.strides_spec() == o.strides_spec()
    }

    /// The current extents, readable in place.
    pub fn shape(&self) -> (r: &Vec<usize>)
        ensures
            r@ == self.dims(),
    {
        self.dim.shape()
    }

    /// Number of axes.
    pub fn rank(&self) -> (r: usize)
        ensures
            r == self.dims().len(),
    {
        self.dim.rank()
    }

    /// Total element count of the view.
    pub fn size(&self) -> (r: usize)
        requires
            self.wf(),
        ensures
            r == self.size_spec(),
    {
        self.dim.size()
    }

    /// Whether this view and `other` hold the very same backing buffer.
    /// Observable only through this probe: the value model of two views
    /// with equal contents is identical whether or not they share storage.
    pub fn shares_storage(&self, other: &Array<A>) -> bool {
        buf_same(&self.data, &other.data)
    }

    /// Whether `index` is inside the view's shape.
    fn index_ok(&self, index: &Vec<usize>) -> (r: bool)
        ensures
            r == valid_index(self.dims(), index@),
    {
        let n = self.dim.rank();
        if index.len() != n {
            return false;
        }
        let mut k: usize = 0;
        while k < n
            invariant
                n == self.dims().len(),
                index@.len() == n,
                k <= n,
                forall|j: int| 0 <= j < k ==> index@[j] < self.dims()[j],
            decreases n - k,
        {
            if index[k] >= self.dim.extent(k) {
                return false;
            }
            k = k + 1;
        }
        true
    }
}

impl<A: Copy> Array<A> {
    /// Allocate a fresh contiguous array of shape `dim` filled with `elem`.
    pub fn new(dim: Dim, elem: A) -> (r: Array<A>)
        requires
            strides_fit(dim@),
        ensures
            r.wf(),
            r.dims() == dim@,
            r.off_spec() == 0,
            r.is_contiguous(),
            r.buf() == Seq::new(dim_size(dim@) as nat, |p: int| elem),
            r.lin() == Seq::new(dim_size(dim@) as nat, |p: int| elem),
            forall|idx: Seq<usize>| valid_index(dim@, idx) ==> r.elem(idx) == elem,
    {
        let n = dim.size();
        let mut v: Vec<A> = Vec::new();
        while v.len() < n
            invariant
                v@.len() <= n,
                forall|j: int| 0 <= j < v@.len() ==> v@[j] == elem,
            decreases n - v@.len(),
        {
            v.push(elem);
        }
        proof {
            assert(v@ =~= Seq::new(dim_size(dim@) as nat, |p: int| elem));
        }
        let r = Array::from_vec(dim, v);
        proof {
            assert forall|idx: Seq<usize>| valid_index(r.dims(), idx) implies r.elem(idx)
                == elem by {
                lemma_offset_in_bounds(
                    r.buf().len() as int,
                    r.off_spec(),
                    r.dims(),
                    r.strides_spec(),
                    idx,
                );
            }
        }
        r
    }

    /// Wrap an existing buffer as a contiguous array of shape `dim`. The
    /// buffer's length must match the shape's element count exactly; a
    /// mismatched buffer is rejected by the precondition rather than left
    /// as the caller's unchecked burden.
    pub fn from_vec(dim: Dim, v: Vec<A>) -> (r: Array<A>)
        requires
            strides_fit(dim@),
            v@.len() == dim_size(dim@),
        ensures
            r.wf(),
            r.dims() == dim@,
            r.off_spec() == 0,
            r.is_contiguous(),
            r.buf() == v@,
            r.lin() == v@,
    {
        let strides = dim.default_strides();
        let ghost d = dim@;
        let ghost s = strides@;
        proof {
            lemma_size_zero(d, 0);
            lemma_default_bounds(d, s, 0);
            lemma_default_injective(d, s);
            if has_zero(d) {
                let j = choose|j: int| 0 <= j < d.len() && d[j] == 0;
                assert(dim_size(d) == 0 <==> exists|i: int| 0 <= i < d.len() && d[i] == 0);
            }
        }
        let r = Array { data: Rc::new(v), off: 0, dim, strides };
        proof {
            assert(r.lin() =~= r.buf()) by {
                assert forall|p: int| 0 <= p < dim_size(d) implies r.lin()[p] == r.buf()[p] by {
                    assert(!has_zero(d)) by {
                        lemma_size_zero(d, 0);
                    }
                    lemma_unrank_ok(d, p);
                    lemma_default_offset_is_rank(d, s, rm_unrank(d, p), 0);
                }
            }
        }
        r
    }

    /// Force this view to own its buffer exclusively, duplicating it if it
    /// is shared. A no-op on an unshared buffer; the view's value is
    /// unchanged either way.
    pub fn make_unique(&mut self)
        ensures
            final(self).same_view(*old(self)),
            final(self).wf() == old(self).wf(),
    {
        buf_privatize(&mut self.data);
    }

    /// Bounds-checked read: the element at `index`, or `None` when any
    /// axis of the index is out of range.
    pub fn at(&self, index: &Vec<usize>) -> (r: Option<A>)
        requires
            self.wf(),
        ensures
            r == if valid_index(self.dims(), index@) {
                Option::Some(self.elem(index@))
            } else {
                Option::None::<A>
            },
    {
        if !self.index_ok(index) {
            return Option::None;
        }
        proof {
            lemma_offset_in_bounds(
                self.buf().len() as int,
                self.off_spec(),
                self.dims(),
                self.strides_spec(),
                index@,
            );
        }
        let o = stride_offset(
            self.off,
            &self.strides,
            index,
            Ghost(self.buf().len() as int),
            Ghost(self.dims()),
        );
        Option::Some(buf_get(&self.data, o))
    }

    /// Non-optional indexing: like `at`, but an out-of-range index is a
    /// hard error rather than an empty result.
    pub fn index(&self, index: &Vec<usize>) -> (r: Result<A, ArrayError>)
        requires
            self.wf(),
        ensures
            r == if valid_index(self.dims(), index@) {
                Result::Ok::<A, ArrayError>(self.elem(index@))
            } else {
                Result::Err::<A, ArrayError>(ArrayError::IndexOutOfBounds)
            },
    {
        match self.at(index) {
            Option::Some(v) => Result::Ok(v),
            Option::None => Result::Err(ArrayError::IndexOutOfBounds),
        }
    }

    /// Bounds-checked write: privatize the buffer (copy-on-write), then
    /// store `v` at `index`. Returns whether the index was in range; out
    /// of range, the array is untouched.
    pub fn set(&mut self, index: &Vec<usize>, v: A) -> (r: bool)
        requires
            old(self).wf(),
        ensures
            final(self).wf(),
            final(self).dims() == old(self).dims(),
            final(self).strides_spec() == old(self).strides_spec(),
            final(self).off_spec() == old(self).off_spec(),
            r == valid_index(old(self).dims(), index@),
            r ==> final(self).elem(index@) == v,
            r ==> forall|idx2: Seq<usize>|
                valid_index(old(self).dims(), idx2) && idx2 != index@
                    ==> final(self).elem(idx2) == old(self).elem(idx2),
            !r ==> final(self).buf() == old(self).buf(),
    {
        self.make_unique();
        if !self.index_ok(index) {
            return false;
        }
        proof {
            lemma_offset_in_bounds(
                self.buf().len() as int,
                self.off_spec(),
                self.dims(),
                self.strides_spec(),
                index@,
            );
        }
        let o = stride_offset(
            self.off,
            &self.strides,
            index,
            Ghost(self.buf().len() as int),
            Ghost(self.dims()),
        );
        buf_set(&mut self.data, o, v);
        proof {
            assert forall|idx2: Seq<usize>|
                valid_index(old(self).dims(), idx2) && idx2 != index@ implies final(self).elem(
                idx2,
            ) == old(self).elem(idx2) by {
                lemma_offset_in_bounds(
                    old(self).buf().len() as int,
                    old(self).off_spec(),
                    old(self).dims(),
                    old(self).strides_spec(),
                    idx2,
                );
                assert(offset_of(idx2, old(self).strides_spec()) != offset_of(
                    index@,
                    old(self).strides_spec(),
                ));
            }
        }
        true
    }
}

impl<A> Clone for Array<A> {
    /// Share the buffer and copy the view descriptor: no element is
    /// copied, and the clone observes exactly the same values.
    fn clone(&self) -> (r: Self)
        ensures
            r.same_view(*self),
            r.wf() == self.wf(),
    {
        Array {
            data: self.data.clone(),
            off: self.off,
            dim: self.dim.clone(),
            strides: copy_strides(&self.strides),
        }
    }
}

/// A row-major iterator over a strided view: holds its own handle on the
/// buffer and walks the multi-index odometer.
pub struct Elements<A> {
    data: Rc<Vec<A>>,
    off: usize,
    dim: Dim,
    strides: Vec<isize>,
    index: Option<Vec<usize>>,
}

impl<A> Elements<A> {
    /// The buffer the iterator reads.
    pub closed spec fn buf(self) -> Seq<A> {
        self.data@
    }

    /// The base offset of the traversed view.
    pub closed spec fn off_spec(self) -> int {
        self.off as int
    }

    /// The extents of the traversed view.
    pub closed spec fn dims(self) -> Seq<usize> {
        self.dim@
    }

    /// The strides of the traversed view.
    pub closed spec fn strides_spec(self) -> Seq<isize> {
        self.strides@
    }

    /// The iterator's validity: a well-formed view, with the cursor (when
    /// present) inside it.
    pub open spec fn wf(self) -> bool {
        &&& view_ok(self.buf().len() as int, self.off_spec(), self.dims(), self.strides_spec())
        &&& self.cursor_ok()
    }

    /// The cursor is a valid index whenever it is present.
    pub closed spec fn cursor_ok(self) -> bool {
        match self.index {
            Option::Some(ix) => valid_index(self.dim@, ix@),
            Option::None => true,
        }
    }

    /// How many elements have been yielded so far.
    pub closed spec fn pos(self) -> int {
        match self.index {
            Option::Some(ix) => rm_rank(self.dim@, ix@),
            Option::None => dim_size(self.dim@),
        }
    }

    /// The full element sequence the traversal yields, in row-major order.
    pub open spec fn elts(self) -> Seq<A> {
        Seq::new(
            dim_size(self.dims()) as nat,
            |p: int| self.buf()[self.off_spec() + offset_of(rm_unrank(self.dims(), p), self.strides_spec())],
        )
    }

    /// The traversal state other than the cursor.
    pub open spec fn same_view(self, o: Elements<A>) -> bool {
        &&& self.buf() == o.buf()
        &&& self.off_spec() == o.off_spec()
        &&& self.dims() == o.dims()
        &&& self.strides_spec() == o.strides_spec()
    }
}

impl<A: Copy> Elements<A> {
    /// Yield the element at the cursor and advance in row-major order;
    /// `None` once the traversal is exhausted (it stays exhausted).
    pub fn next(&mut self) -> (r: Option<A>)
        requires
            old(self).wf(),
        ensures
            final(self).wf(),
            final(self).same_view(*old(self)),
            if old(self).pos() < old(self).elts().len() {
                &&& r == Option::Some(old(self).elts()[old(self).pos()])
                &&& final(self).pos() == old(self).pos() + 1
            } else {
                &&& r == Option::None::<A>
                &&& final(self).pos() == old(self).pos()
            },
    {
        proof {
            lemma_size_zero(self.dim@, 0);
        }
        let cur = self.index.take();
        match cur {
            Option::None => Option::None,
            Option::Some(ix) => {
                proof {
                    lemma_rank_range(self.dim@, ix@, 0);
                    lemma_unrank_of_rank(self.dim@, ix@);
                }
                let o = stride_offset(
                    self.off,
                    &self.strides,
                    &ix,
                    Ghost(self.buf().len() as int),
                    Ghost(self.dim@),
                );
                let v = buf_get(&self.data, o);
                self.index = self.dim.next_for(ix);
                Option::Some(v)
            },
        }
    }
}

/// A row-major mutation cursor: yields each multi-index of a shape in
/// turn, for writing through `set` while traversing. A mutable borrow
/// cannot live inside an iterator here, so mutable traversal hands out
/// the indices instead of references.
pub struct ElementsMut {
    dim: Dim,
    index: Option<Vec<usize>>,
}

impl ElementsMut {
    /// The extents the cursor walks.
    pub closed spec fn dims(self) -> Seq<usize> {
        self.dim@
    }

    /// The cursor is a valid index whenever it is present.
    pub closed spec fn wf(self) -> bool {
        match self.index {
            Option::Some(ix) => valid_index(self.dim@, ix@),
            Option::None => true,
        }
    }

    /// How many indices have been yielded so far.
    pub closed spec fn pos(self) -> int {
        match self.index {
            Option::Some(ix) => rm_rank(self.dim@, ix@),
            Option::None => dim_size(self.dim@),
        }
    }

    /// Yield the next multi-index in row-major order, or `None` once the
    /// traversal is exhausted (it stays exhausted).
    pub fn next_index(&mut self) -> (r: Option<Vec<usize>>)
        requires
            old(self).wf(),
        ensures
            final(self).wf(),
            final(self).dims() == old(self).dims(),
            match r {
                Option::Some(ix) => {
                    &&& old(self).pos() < dim_size(old(self).dims())
                    &&& valid_index(old(self).dims(), ix@)
                    &&& rm_rank(old(self).dims(), ix@) == old(self).pos()
                    &&& final(self).pos() == old(self).pos() + 1
                },
                Option::None => {
                    &&& old(self).pos() == dim_size(old(self).dims())
                    &&& final(self).pos() == old(self).pos()
                },
            },
    {
        proof {
            lemma_size_zero(self.dim@, 0);
        }
        let cur = self.index.take();
        match cur {
            Option::None => Option::None,
            Option::Some(ix) => {
                proof {
                    lemma_rank_range(self.dim@, ix@, 0);
                }
                let ret = copy_index(&ix);
                self.index = self.dim.next_for(ix);
                Option::Some(ret)
            },
        }
    }
}

/// A mutation cursor over the elements a descriptor list selects: yields,
/// in the sliced view's row-major order, the source multi-indices of the
/// selected elements, so a caller can write them through `set` while the
/// array keeps its own shape.
pub struct SliceIndices {
    dim: Dim,
    base: Vec<usize>,
    step: Vec<isize>,
    index: Option<Vec<usize>>,
    src: Ghost<(Seq<usize>, Seq<Slice>)>,
}

impl SliceIndices {
    /// The extents of the sliced view being walked.
    pub closed spec fn dims(self) -> Seq<usize> {
        self.dim@
    }

    /// The extents of the source view.
    pub closed spec fn src_shape(self) -> Seq<usize> {
        self.src@.0
    }

    /// The descriptor list being applied.
    pub closed spec fn descriptors(self) -> Seq<Slice> {
        self.src@.1
    }

    /// The cursor's validity: the stored per-axis data follows from the
    /// source shape and descriptors, and the cursor (when present) is a
    /// valid index of the sliced view.
    pub closed spec fn wf(self) -> bool {
        let d = self.src@.0;
        let ss = self.src@.1;
        &&& ss.len() == d.len()
        &&& ranges_ok(d, ss)
        &&& steps_ok(ss)
        &&& self.dim@.len() == d.len()
        &&& self.base@.len() == d.len()
        &&& self.step@.len() == d.len()
        &&& forall|k: int| 0 <= k < d.len() ==> #[trigger] self.dim@[k] == sl_len(d[k], ss[k])
        &&& forall|k: int| 0 <= k < d.len() ==> #[trigger] self.step@[k] == ss[k].2
        &&& forall|k: int|
            0 <= k < d.len() ==> (sl_len(d[k], ss[k]) >= 1 ==> #[trigger] self.base@[k] == sl_base(
                d[k],
                ss[k],
            ))
        &&& match self.index {
            Option::Some(ix) => valid_index(self.dim@, ix@),
            Option::None => true,
        }
    }

    /// How many indices have been yielded so far.
    pub closed spec fn pos(self) -> int {
        match self.index {
            Option::Some(ix) => rm_rank(self.dim@, ix@),
            Option::None => dim_size(self.dim@),
        }
    }

    /// Yield the source index of the next selected element in the sliced
    /// view's row-major order, or `None` once exhausted.
    pub fn next_index(&mut self) -> (r: Option<Vec<usize>>)
        requires
            old(self).wf(),
        ensures
            final(self).wf(),
            final(self).dims() == old(self).dims(),
            final(self).src_shape() == old(self).src_shape(),
            final(self).descriptors() == old(self).descriptors(),
            match r {
                Option::Some(ix) => {
                    &&& old(self).pos() < dim_size(old(self).dims())
                    &&& ix@ == src_index(
                        old(self).src_shape(),
                        old(self).descriptors(),
                        rm_unrank(old(self).dims(), old(self).pos()),
                    )
                    &&& valid_index(old(self).src_shape(), ix@)
                    &&& final(self).pos() == old(self).pos() + 1
                },
                Option::None => {
                    &&& old(self).pos() == dim_size(old(self).dims())
                    &&& final(self).pos() == old(self).pos()
                },
            },
    {
        proof {
            lemma_size_zero(self.dim@, 0);
        }
        let cur = self.index.take();
        match cur {
            Option::None => Option::None,
            Option::Some(ix2) => {
                let ghost d = self.src@.0;
                let ghost ss = self.src@.1;
                proof {
                    lemma_rank_range(self.dim@, ix2@, 0);
                    lemma_unrank_of_rank(self.dim@, ix2@);
                }
                let n = self.dim.rank();
                let mut out: Vec<usize> = Vec::new();
                let mut k: usize = 0;
                while k < n
                    invariant
                        d == self.src@.0,
                        ss == self.src@.1,
                        n == self.dim@.len(),
                        n == d.len(),
                        ss.len() == n,
                        self.base@.len() == n,
                        self.step@.len() == n,
                        ranges_ok(d, ss),
                        steps_ok(ss),
                        forall|j: int| 0 <= j < n ==> #[trigger] self.dim@[j] == sl_len(d[j], ss[j]),
                        forall|j: int| 0 <= j < n ==> #[trigger] self.step@[j] == ss[j].2,
                        forall|j: int|
                            0 <= j < n ==> (sl_len(d[j], ss[j]) >= 1 ==> #[trigger] self.base@[j]
                                == sl_base(d[j], ss[j])),
                        valid_index(self.dim@, ix2@),
                        k <= n,
                        out@.len() == k,
                        forall|j: int|
                            0 <= j < k ==> #[trigger] out@[j] == src_index(d, ss, ix2@)[j],
                    decreases n - k,
                {
                    proof {
                        lemma_axis_src_in_range(d[k as int], ss[k as int], ix2@[k as int] as int);
                    }
                    let b = self.base[k];
                    let st = self.step[k];
                    let j = ix2[k];
                    let v: usize = if st >= 0 {
                        b + j * (st as usize)
                    } else {
                        proof {
                            assert(j * (-(st as int)) == -(j * (st as int))) by (nonlinear_arith);
                        }
                        b - j * (((-(st + 1)) as usize) + 1)
                    };
                    out.push(v);
                    k = k + 1;
                }
                proof {
                    assert(out@ =~= src_index(d, ss, ix2@));
                    assert forall|j: int| 0 <= j < n implies src_index(d, ss, ix2@)[j] < d[j] by {
                        lemma_axis_src_in_range(d[j], ss[j], ix2@[j] as int);
                    }
                    assert(valid_index(d, out@));
                }
                self.index = self.dim.next_for(ix2);
                Option::Some(out)
            },
        }
    }
}

impl<A: Copy> Array<A> {
    /// A mutation cursor over the sliced view: privatize the buffer
    /// (copy-on-write), then yield the source indices the descriptors
    /// select, in the sliced view's row-major order, for writing through
    /// `set`. The array itself keeps its shape.
    pub fn slice_iter_mut(&mut self, slices: &Vec<Slice>) -> (r: Result<SliceIndices, ArrayError>)
        requires
            old(self).wf(),
            slices@.len() == old(self).dims().len() && steps_ok(slices@) ==> ranges_ok(
                old(self).dims(),
                slices@,
            ),
        ensures
            final(self).same_view(*old(self)),
            final(self).wf(),
            match r {
                Result::Err(e) => {
                    &&& (e == ArrayError::RankMismatch <==> slices@.len() != old(
                        self,
                    ).dims().len())
                    &&& (slices@.len() == old(self).dims().len() ==> e == ArrayError::InvalidStep
                        && !steps_ok(slices@))
                },
                Result::Ok(it) => {
                    &&& it.wf()
                    &&& it.pos() == 0
                    &&& it.src_shape() == old(self).dims()
                    &&& it.descriptors() == slices@
                    &&& it.dims().len() == old(self).dims().len()
                    &&& forall|k: int|
                        0 <= k < old(self).dims().len() ==> #[trigger] it.dims()[k] == sl_len(
                            old(self).dims()[k],
                            slices@[k],
                        )
                },
            },
    {
        self.make_unique();
        let ghost d = self.dims();
        let ghost ss = slices@;
        let r = self.dim.rank();
        if slices.len() != r {
            return Result::Err(ArrayError::RankMismatch);
        }
        let mut k: usize = 0;
        while k < r
            invariant
                self.same_view(*old(self)),
                self.wf(),
                r == self.dims().len(),
                slices@.len() == r,
                forall|j: int| 0 <= j < k ==> (#[trigger] slices@[j]).2 != 0,
                k <= r,
            decreases r - k,
        {
            if slices[k].2 == 0 {
                proof {
                    assert(!steps_ok(slices@));
                }
                return Result::Err(ArrayError::InvalidStep);
            }
            k = k + 1;
        }
        assert(steps_ok(ss));
        let mut dv: Vec<usize> = Vec::new();
        let mut bv: Vec<usize> = Vec::new();
        let mut sv: Vec<isize> = Vec::new();
        let mut k: usize = 0;
        while k < r
            invariant
                d == self.dims(),
                ss == slices@,
                self.dim@ == d,
                slices@.len() == r,
                r == d.len(),
                ranges_ok(d, ss),
                steps_ok(ss),
                view_ok(self.buf().len() as int, self.off_spec(), d, self.strides_spec()),
                k <= r,
                dv@.len() == k,
                bv@.len() == k,
                sv@.len() == k,
                forall|j: int| 0 <= j < k ==> #[trigger] dv@[j] == sl_len(d[j], ss[j]),
                forall|j: int| 0 <= j < k ==> #[trigger] sv@[j] == ss[j].2,
                forall|j: int|
                    0 <= j < k ==> (sl_len(d[j], ss[j]) >= 1 ==> #[trigger] bv@[j] == sl_base(
                        d[j],
                        ss[j],
                    )),
            decreases r - k,
        {
            let m = self.dim.extent(k);
            let sl = slices[k];
            proof {
                assert(crate::slice::axis_ranges_ok(d[k as int], ss[k as int]));
                lemma_axis_len(m, sl);
            }
            let start = abs_index(m, sl.0);
            let stop_raw = match sl.1 {
                Option::Some(e) => abs_index(m, e),
                Option::None => m,
            };
            let stop = if stop_raw < start {
                start
            } else {
                stop_raw
            };
            let span = stop - start;
            let mag = if sl.2 >= 0 {
                sl.2 as usize
            } else {
                ((-(sl.2 + 1)) as usize) + 1
            };
            let l = span / mag + (if span % mag > 0 {
                1
            } else {
                0
            });
            proof {
                assert(l == sl_len(d[k as int], ss[k as int]));
            }
            let base = if l == 0 {
                0
            } else if sl.2 >= 0 {
                start
            } else {
                stop - 1
            };
            dv.push(l);
            bv.push(base);
            sv.push(sl.2);
            k = k + 1;
        }
        proof {
            assert(strides_fit(dv@)) by {
                assert forall|j: int| 0 <= j < d.len() implies dv@[j] <= d[j] by {
                    lemma_axis_len(d[j], ss[j]);
                }
                assert forall|k2: int| 0 <= k2 <= dv@.len() implies crate::dim::suffix_prod(
                    dv@,
                    k2,
                ) <= isize::MAX as int by {
                    lemma_sp_monotone(dv@, d, k2);
                }
            }
        }
        let nd = Dim::new(dv);
        proof {
            lemma_size_zero(nd@, 0);
        }
        let n = nd.size();
        let index = if n == 0 {
            Option::None
        } else {
            proof {
                assert(forall|j: int| 0 <= j < nd@.len() ==> nd@[j] >= 1);
                crate::dim::lemma_zero_tail_rank(nd@, Seq::new(nd@.len(), |j: int| 0usize), 0);
            }
            Option::Some(nd.first_index())
        };
        Result::Ok(SliceIndices { dim: nd, base: bv, step: sv, index, src: Ghost((d, ss)) })
    }
}

impl<A: Copy> Array<A> {
    /// A fresh mutation cursor over the whole view, after privatizing the
    /// buffer (copy-on-write), exactly like any other mutable access.
    pub fn iter_mut(&mut self) -> (it: ElementsMut)
        requires
            old(self).wf(),
        ensures
            final(self).same_view(*old(self)),
            final(self).wf(),
            it.wf(),
            it.pos() == 0,
            it.dims() == old(self).dims(),
    {
        self.make_unique();
        proof {
            lemma_size_zero(self.dims(), 0);
        }
        let n = self.dim.size();
        let index = if n == 0 {
            Option::None
        } else {
            proof {
                assert(forall|j: int| 0 <= j < self.dims().len() ==> self.dims()[j] >= 1);
                crate::dim::lemma_zero_tail_rank(self.dims(), Seq::new(self.dims().len(), |j: int| 0usize), 0);
            }
            Option::Some(self.dim.first_index())
        };
        ElementsMut { dim: self.dim.clone(), index }
    }
}

impl<A: Copy> Array<A> {
    /// A fresh row-major iterator over the whole view.
    pub fn iter(&self) -> (it: Elements<A>)
        requires
            self.wf(),
        ensures
            it.wf(),
            it.pos() == 0,
            it.elts() == self.lin(),
            it.buf() == self.buf(),
            it.off_spec() == self.off_spec(),
            it.dims() == self.dims(),
            it.strides_spec() == self.strides_spec(),
    {
        proof {
            lemma_size_zero(self.dims(), 0);
        }
        let n = self.dim.size();
        let index = if n == 0 {
            Option::None
        } else {
            proof {
                assert(!has_zero(self.dims())) by {
                    lemma_size_zero(self.dims(), 0);
                }
                assert(forall|j: int| 0 <= j < self.dims().len() ==> self.dims()[j] >= 1);
            }
            Option::Some(self.dim.first_index())
        };
        let it = Elements {
            data: self.data.clone(),
            off: self.off,
            dim: self.dim.clone(),
            strides: copy_strides(&self.strides),
            index,
        };
        proof {
            if it.pos() != 0 {
                let ix = Seq::new(self.dims().len(), |j: int| 0usize);
                crate::dim::lemma_zero_tail_rank(self.dims(), ix, 0);
            }
            assert(it.elts() =~= self.lin());
        }
        it
    }
}

impl<A: Copy> Array<A> {
    /// Rewrite this view in place under a per-axis descriptor list:
    /// Python-style start/stop/step slicing, sharing the buffer. The
    /// descriptor count must equal the rank and no step may be zero, else
    /// the matching error is returned and the view is untouched.
    pub fn apply_slice(&mut self, slices: &Vec<Slice>) -> (r: Result<(), ArrayError>)
        requires
            old(self).wf(),
            slices@.len() == old(self).dims().len() && steps_ok(slices@) ==> ranges_ok(
                old(self).dims(),
                slices@,
            ),
        ensures
            final(self).buf() == old(self).buf(),
            match r {
                Result::Err(e) => {
                    &&& final(self).same_view(*old(self))
                    &&& final(self).wf()
                    &&& (e == ArrayError::RankMismatch <==> slices@.len() != old(
                        self,
                    ).dims().len())
                    &&& (slices@.len() == old(self).dims().len() ==> e == ArrayError::InvalidStep
                        && !steps_ok(slices@))
                },
                Result::Ok(u) => {
                    &&& slice_applies(
                        old(self).buf().len() as int,
                        old(self).off_spec(),
                        old(self).dims(),
                        old(self).strides_spec(),
                        slices@,
                        final(self).dims(),
                        final(self).strides_spec(),
                        final(self).off_spec(),
                    )
                    &&& final(self).wf()
                },
            },
    {
        let ghost glen = self.buf().len() as int;
        match do_slices(&self.dim, &self.strides, self.off, slices, Ghost(glen)) {
            Result::Err(e) => Result::Err(e),
            Result::Ok(t) => {
                let (nd, ns, noff) = t;
                proof {
                    lemma_slice_injective(
                        glen,
                        self.off as int,
                        self.dim@,
                        self.strides@,
                        slices@,
                        nd@,
                        ns@,
                        noff as int,
                    );
                }
                self.dim = nd;
                self.strides = ns;
                self.off = noff;
                Result::Ok(())
            },
        }
    }

    /// A sliced view of this array: clone the descriptor, share the
    /// buffer, and rewrite the clone's (dimension, stride, offset).
    pub fn slice(&self, slices: &Vec<Slice>) -> (r: Result<Array<A>, ArrayError>)
        requires
            self.wf(),
            slices@.len() == self.dims().len() && steps_ok(slices@) ==> ranges_ok(
                self.dims(),
                slices@,
            ),
        ensures
            match r {
                Result::Err(e) => {
                    &&& (e == ArrayError::RankMismatch <==> slices@.len() != self.dims().len())
                    &&& (slices@.len() == self.dims().len() ==> e == ArrayError::InvalidStep
                        && !steps_ok(slices@))
                },
                Result::Ok(b) => {
                    &&& b.buf() == self.buf()
                    &&& slice_applies(
                        self.buf().len() as int,
                        self.off_spec(),
                        self.dims(),
                        self.strides_spec(),
                        slices@,
                        b.dims(),
                        b.strides_spec(),
                        b.off_spec(),
                    )
                    &&& b.wf()
                },
            },
    {
        let mut arr = self.clone();
        match arr.apply_slice(slices) {
            Result::Ok(u) => Result::Ok(arr),
            Result::Err(e) => Result::Err(e),
        }
    }

    /// Iterate over the sliced view directly, without keeping an
    /// intermediate array.
    pub fn slice_iter(&self, slices: &Vec<Slice>) -> (r: Result<Elements<A>, ArrayError>)
        requires
            self.wf(),
            slices@.len() == self.dims().len() && steps_ok(slices@) ==> ranges_ok(
                self.dims(),
                slices@,
            ),
        ensures
            match r {
                Result::Err(e) => {
                    &&& (e == ArrayError::RankMismatch <==> slices@.len() != self.dims().len())
                    &&& (slices@.len() == self.dims().len() ==> e == ArrayError::InvalidStep
                        && !steps_ok(slices@))
                },
                Result::Ok(it) => {
                    &&& it.wf()
                    &&& it.pos() == 0
                    &&& it.buf() == self.buf()
                    &&& slice_applies(
                        self.buf().len() as int,
                        self.off_spec(),
                        self.dims(),
                        self.strides_spec(),
                        slices@,
                        it.dims(),
                        it.strides_spec(),
                        it.off_spec(),
                    )
                },
            },
    {
        match self.slice(slices) {
            Result::Ok(b) => Result::Ok(b.iter()),
            Result::Err(e) => Result::Err(e),
        }
    }

    /// The same elements in the same row-major order under a new shape.
    /// Requires equal element counts (else `SizeMismatch`). A contiguous
    /// view is rewrapped over the shared buffer without copying; a
    /// non-contiguous view is materialized into a fresh contiguous buffer.
    pub fn reshape(&self, shape: Dim) -> (r: Result<Array<A>, ArrayError>)
        requires
            self.wf(),
            strides_fit(shape@),
        ensures
            match r {
                Result::Err(e) => {
                    &&& e == ArrayError::SizeMismatch
                    &&& dim_size(shape@) != self.size_spec()
                },
                Result::Ok(b) => {
                    &&& dim_size(shape@) == self.size_spec()
                    &&& b.wf()
                    &&& b.dims() == shape@
                    &&& b.is_contiguous()
                    &&& b.lin() == self.lin()
                    &&& (self.is_contiguous() ==> b.buf() == self.buf() && b.off_spec()
                        == self.off_spec())
                },
            },
    {
        if shape.size() != self.dim.size() {
            return Result::Err(ArrayError::SizeMismatch);
        }
        let dflt = self.dim.default_strides();
        if strides_equal(&self.strides, &dflt) {
            // Contiguous: share the buffer, adopt the new shape's default
            // strides.
            let ns = shape.default_strides();
            let ghost d2 = shape@;
            let ghost s2 = ns@;
            let ghost d = self.dims();
            proof {
                lemma_size_zero(d, 0);
                lemma_size_zero(d2, 0);
                lemma_default_bounds(d2, s2, 0);
                lemma_default_injective(d2, s2);
                lemma_default_bounds(d, self.strides_spec(), 0);
            }
            let b = Array {
                data: self.data.clone(),
                off: self.off,
                dim: shape,
                strides: ns,
            };
            proof {
                assert(b.lin() =~= self.lin()) by {
                    assert forall|p: int| 0 <= p < dim_size(d2) implies b.lin()[p]
                        == self.lin()[p] by {
                        assert(!has_zero(d2)) by {
                            lemma_size_zero(d2, 0);
                        }
                        assert(!has_zero(d)) by {
                            lemma_size_zero(d, 0);
                        }
                        lemma_unrank_ok(d2, p);
                        lemma_unrank_ok(d, p);
                        lemma_default_offset_is_rank(d2, s2, rm_unrank(d2, p), 0);
                        lemma_default_offset_is_rank(d, self.strides_spec(), rm_unrank(d, p), 0);
                    }
                }
            }
            Result::Ok(b)
        } else {
            // Not contiguous: materialize the row-major element sequence
            // into a fresh buffer and wrap it under the new shape.
            proof {
                if self.is_contiguous() {
                    assert(self.strides_spec() =~= dflt@);
                }
            }
            let mut it = self.iter();
            let mut v: Vec<A> = Vec::new();
            let mut done = false;
            while !done
                invariant
                    it.wf(),
                    it.elts() == self.lin(),
                    0 <= it.pos() <= self.lin().len(),
                    v@ =~= self.lin().take(it.pos()),
                    done ==> it.pos() == self.lin().len(),
                decreases self.lin().len() - it.pos() + (if done {
                    0int
                } else {
                    1int
                }),
            {
                match it.next() {
                    Option::Some(x) => {
                        v.push(x);
                        proof {
                            assert(v@ =~= self.lin().take(it.pos()));
                        }
                    },
                    Option::None => {
                        done = true;
                    },
                }
            }
            proof {
                assert(v@ =~= self.lin());
                lemma_size_zero(self.dims(), 0);
            }
            Result::Ok(Array::from_vec(shape, v))
        }
    }
}

impl<A: Copy> Array<A> {
    /// A single-axis run: iterate the `dimension[axis]` elements reached
    /// from the multi-index `from` (which must sit at the start of that
    /// axis) by stepping `stride[axis]` at a time.
    pub fn iter1d(&self, axis: usize, from: &Vec<usize>) -> (it: Elements<A>)
        requires
            self.wf(),
            axis < self.dims().len(),
            valid_index(self.dims(), from@),
            from@[axis as int] == 0,
        ensures
            it.wf(),
            it.pos() == 0,
            it.buf() == self.buf(),
            it.elts().len() == self.dims()[axis as int],
            forall|t: int|
                0 <= t < self.dims()[axis as int] ==> it.elts()[t] == self.elem(
                    from@.update(axis as int, t as usize),
                ),
    {
        let ghost d = self.dims();
        let ghost s = self.strides_spec();
        let ghost glen = self.buf().len() as int;
        proof {
            lemma_offset_in_bounds(glen, self.off_spec(), d, s, from@);
        }
        let o1 = stride_offset(self.off, &self.strides, from, Ghost(glen), Ghost(d));
        let m = self.dim.extent(axis);
        let sx = self.strides[axis];
        let mut dv: Vec<usize> = Vec::new();
        dv.push(m);
        let mut sv: Vec<isize> = Vec::new();
        sv.push(sx);
        let mut iv: Vec<usize> = Vec::new();
        iv.push(0);
        let it = Elements {
            data: self.data.clone(),
            off: o1,
            dim: Dim::new(dv),
            strides: sv,
            index: Option::Some(iv),
        };
        proof {
            let d1 = it.dims();
            let s1 = it.strides_spec();
            assert(d1 =~= seq![m]);
            assert(s1 =~= seq![sx]);
            assert(!has_zero(d));
            assert(m >= 1);
            lemma_run_wf(glen, self.off_spec(), d, s, axis as int, o1 as int);
            assert(it.wf()) by {
                assert(valid_index(d1, seq![0usize]));
            }
            assert(it.pos() == 0) by {
                crate::dim::lemma_zero_tail_rank(d1, seq![0usize], 0);
            }
            assert(dim_size(d1) == m) by {
                assert(crate::dim::suffix_prod(d1, 1) == 1);
                assert(crate::dim::suffix_prod(d1, 0) == d1[0] * crate::dim::suffix_prod(d1, 1));
            }
            assert forall|t: int| 0 <= t < m implies it.elts()[t] == self.elem(
                from@.update(axis as int, t as usize),
            ) by {
                lemma_unrank_ok(d1, t);
                let u = rm_unrank(d1, t);
                assert(crate::dim::suffix_prod(d1, 1) == 1);
                assert(crate::dim::rank_from(d1, u, 1) == 0);
                assert(u[0] * 1 == u[0]) by (nonlinear_arith);
                assert(u[0] == t);
                assert(offset_from(u, s1, 1) == 0);
                assert(offset_of(u, s1) == u[0] * s1[0]);
                crate::dim::lemma_update_offset(s, from@, axis as int, t as usize, 0);
                assert(t == (t as usize) as int);
                assert(((t as usize) - from@[axis as int]) * s[axis as int] == t * (sx as int))
                    by (nonlinear_arith)
                    requires
                        from@[axis as int] == 0,
                        s[axis as int] == sx,
                        t == (t as usize) as int;
            }
        }
        it
    }

    /// The diagonal: `min(extents)` elements, each one step of every axis
    /// at once from the view's base.
    pub fn diag(&self) -> (it: Elements<A>)
        requires
            self.wf(),
        ensures
            it.wf(),
            it.pos() == 0,
            it.buf() == self.buf(),
            it.elts().len() == crate::dim::min_extent(self.dims()),
            forall|t: int|
                0 <= t < crate::dim::min_extent(self.dims()) ==> it.elts()[t] == self.elem(
                    Seq::new(self.dims().len(), |j: int| t as usize),
                ),
    {
        let ghost d = self.dims();
        let ghost s = self.strides_spec();
        let ghost glen = self.buf().len() as int;
        let n = self.dim.rank();
        let mut mn: usize = 0;
        if n > 0 {
            mn = self.dim.extent(0);
            proof {
                assert(d.take(1) =~= seq![d[0]]);
            }
            let mut k: usize = 1;
            while k < n
                invariant
                    d == self.dims(),
                    self.dim@ == d,
                    n == d.len(),
                    1 <= k <= n,
                    mn == crate::dim::min_extent(d.take(k as int)),
                decreases n - k,
            {
                proof {
                    assert(d.take(k as int + 1).drop_last() =~= d.take(k as int));
                    assert(d.take(k as int + 1).last() == d[k as int]);
                }
                if self.dim.extent(k) < mn {
                    mn = self.dim.extent(k);
                }
                k = k + 1;
            }
            proof {
                assert(d.take(n as int) =~= d);
            }
        }
        proof {
            assert(mn == crate::dim::min_extent(d));
        }
        let mut ssum: isize = 0;
        if mn >= 2 {
            proof {
                assert forall|j: int| 0 <= j < d.len() implies d[j] >= 2 by {
                    crate::dim::lemma_min_extent_le(d, j);
                }
                lemma_ones_offset(s, 0, 0);
            }
            let mut k: usize = 0;
            while k < n
                invariant
                    d == self.dims(),
                    s == self.strides_spec(),
                    self.strides@ == s,
                    view_ok(glen, self.off_spec(), d, s),
                    n == d.len(),
                    s.len() == n,
                    forall|j: int| 0 <= j < d.len() ==> d[j] >= 2,
                    k <= n,
                    ssum as int == crate::dim::sum_from(s, 0) - crate::dim::sum_from(s, k as int),
                decreases n - k,
            {
                proof {
                    lemma_ones_step(glen, self.off_spec(), d, s, k as int);
                }
                ssum = ssum + self.strides[k];
                k = k + 1;
            }
        }
        let mut dv: Vec<usize> = Vec::new();
        dv.push(mn);
        let mut sv: Vec<isize> = Vec::new();
        sv.push(ssum);
        let index = if mn == 0 {
            Option::None
        } else {
            let mut iv: Vec<usize> = Vec::new();
            iv.push(0);
            Option::Some(iv)
        };
        let it = Elements {
            data: self.data.clone(),
            off: self.off,
            dim: Dim::new(dv),
            strides: sv,
            index,
        };
        proof {
            let d1 = it.dims();
            let s1 = it.strides_spec();
            assert(d1 =~= seq![mn]);
            assert(s1 =~= seq![ssum]);
            lemma_diag_wf(glen, self.off_spec(), d, s, mn as int, ssum as int);
            if mn >= 1 {
                assert(valid_index(d1, seq![0usize]));
                assert(it.pos() == 0) by {
                    crate::dim::lemma_zero_tail_rank(d1, seq![0usize], 0);
                }
            } else {
                assert(it.pos() == 0) by {
                    assert(crate::dim::suffix_prod(d1, 1) == 1);
                }
            }
            assert(dim_size(d1) == mn) by {
                assert(crate::dim::suffix_prod(d1, 1) == 1);
            }
            assert forall|t: int| 0 <= t < mn implies it.elts()[t] == self.elem(
                Seq::new(d.len(), |j: int| t as usize),
            ) by {
                lemma_unrank_ok(d1, t);
                let u = rm_unrank(d1, t);
                assert(crate::dim::suffix_prod(d1, 1) == 1);
                assert(crate::dim::rank_from(d1, u, 1) == 0);
                assert(u[0] * 1 == u[0]) by (nonlinear_arith);
                assert(u[0] == t);
                assert(offset_from(u, s1, 1) == 0);
                assert(offset_of(u, s1) == u[0] * s1[0]);
                let c = Seq::new(d.len(), |j: int| t as usize);
                crate::dim::lemma_const_offset(s, c, t as usize, 0);
                if mn >= 2 {
                    assert(t == (t as usize) as int);
                    assert(t * (ssum as int) == (t as usize) * crate::dim::sum_from(s, 0))
                        by (nonlinear_arith)
                        requires
                            ssum as int == crate::dim::sum_from(s, 0),
                            t == (t as usize) as int;
                } else {
                    assert(t == 0);
                    assert(t * (ssum as int) == 0) by (nonlinear_arith)
                        requires t == 0;
                    assert((t as usize) * crate::dim::sum_from(s, 0) == 0) by (nonlinear_arith)
                        requires t == 0;
                }
            }
        }
        it
    }
}

/// The index with ones on the first `c` axes and zeros beyond.
spec fn ones_to(n: int, c: int) -> Seq<usize> {
    Seq::new(n as nat, |j: int| if j < c {
        1usize
    } else {
        0usize
    })
}

/// Offset of a ones-then-zeros index: the partial stride sum.
proof fn lemma_ones_offset(s: Seq<isize>, c: int, j: int)
    requires
        0 <= c <= s.len(),
        0 <= j <= s.len(),
    ensures
        offset_from(ones_to(s.len() as int, c), s, j) == if j <= c {
            crate::dim::sum_from(s, j) - crate::dim::sum_from(s, c)
        } else {
            0
        },
    decreases s.len() - j,
{
    if j < s.len() {
        lemma_ones_offset(s, c, j + 1);
        let q = ones_to(s.len() as int, c);
        if j < c {
            assert(q[j] == 1);
            assert(q[j] * s[j] == s[j]) by (nonlinear_arith)
                requires q[j] == 1;
        } else {
            assert(q[j] == 0);
            assert(q[j] * s[j] == 0) by (nonlinear_arith)
                requires q[j] == 0;
        }
    }
}

/// One step of the diagonal stride sum stays inside the buffer range.
proof fn lemma_ones_step(glen: int, off: int, d: Seq<usize>, s: Seq<isize>, k: int)
    requires
        view_ok(glen, off, d, s),
        s.len() == d.len(),
        forall|j: int| 0 <= j < d.len() ==> d[j] >= 2,
        0 <= k < d.len(),
        0 <= off,
    ensures
        -glen < crate::dim::sum_from(s, 0) - crate::dim::sum_from(s, k) < glen - off,
        -glen < crate::dim::sum_from(s, 0) - crate::dim::sum_from(s, k + 1) < glen - off,
        crate::dim::sum_from(s, k) == s[k] + crate::dim::sum_from(s, k + 1),
        0 <= off + crate::dim::sum_from(s, 0) - crate::dim::sum_from(s, k),
        0 <= off + crate::dim::sum_from(s, 0) - crate::dim::sum_from(s, k + 1),
{
    assert(!has_zero(d));
    let q0 = ones_to(d.len() as int, k);
    let q1 = ones_to(d.len() as int, k + 1);
    let z = ones_to(d.len() as int, 0);
    assert(valid_index(d, q0));
    assert(valid_index(d, q1));
    assert(valid_index(d, z));
    lemma_ones_offset(s, k, 0);
    lemma_ones_offset(s, k + 1, 0);
    lemma_ones_offset(s, 0, 0);
    lemma_offset_in_bounds(glen, off, d, s, q0);
    lemma_offset_in_bounds(glen, off, d, s, q1);
    lemma_offset_in_bounds(glen, off, d, s, z);
}

/// Well-formedness of the one-axis view that `iter1d` builds.
proof fn lemma_run_wf(glen: int, off: int, d: Seq<usize>, s: Seq<isize>, a: int, o1: int)
    requires
        view_ok(glen, off, d, s),
        exists|from: Seq<usize>|
            valid_index(d, from) && from[a] == 0 && o1 == off + offset_of(from, s),
        0 <= a < d.len(),
    ensures
        view_ok(glen, o1, seq![d[a]], seq![s[a]]),
{
    let from = choose|from: Seq<usize>|
        valid_index(d, from) && from[a] == 0 && o1 == off + offset_of(from, s);
    assert(!has_zero(d));
    let d1 = seq![d[a]];
    let s1 = seq![s[a]];
    assert(strides_fit(d1)) by {
        crate::dim::lemma_extent_fits(d, a);
        assert(crate::dim::suffix_prod(d1, 1) == 1);
        assert(crate::dim::suffix_prod(d1, 0) == d[a] * 1);
        assert forall|k: int| 0 <= k <= d1.len() implies crate::dim::suffix_prod(d1, k)
            <= isize::MAX as int by {
            if k == 0 {
                assert(crate::dim::suffix_prod(d1, 0) == d[a] * 1);
            }
        }
    }
    let hi_t = d[a] - 1;
    let lo_ix = from;
    let hi_ix = from.update(a, hi_t as usize);
    assert(valid_index(d, hi_ix));
    lemma_offset_in_bounds(glen, off, d, s, lo_ix);
    lemma_offset_in_bounds(glen, off, d, s, hi_ix);
    crate::dim::lemma_update_offset(s, from, a, hi_t as usize, 0);
    assert((hi_t - from[a]) * s[a] == hi_t * (s[a] as int)) by (nonlinear_arith)
        requires from[a] == 0;
    assert(crate::dim::lo_from(d1, s1, 1) == 0);
    assert(crate::dim::hi_from(d1, s1, 1) == 0);
    assert(crate::dim::lo_from(d1, s1, 0) == crate::dim::axis_lo(d[a], s[a]));
    assert(crate::dim::hi_from(d1, s1, 0) == crate::dim::axis_hi(d[a], s[a]));
}

/// Well-formedness of the one-axis view that `diag` builds.
proof fn lemma_diag_wf(glen: int, off: int, d: Seq<usize>, s: Seq<isize>, mn: int, ssum: int)
    requires
        view_ok(glen, off, d, s),
        mn == crate::dim::min_extent(d),
        mn >= 2 ==> ssum == crate::dim::sum_from(s, 0),
        mn == 1 || mn == 0 ==> ssum == 0,
        mn >= 0,
        mn <= usize::MAX,
        isize::MIN <= ssum <= isize::MAX,
    ensures
        view_ok(glen, off, seq![mn as usize], seq![ssum as isize]),
{
    let d1 = seq![mn as usize];
    let s1 = seq![ssum as isize];
    assert(strides_fit(d1)) by {
        assert(crate::dim::suffix_prod(d1, 1) == 1);
        assert(crate::dim::suffix_prod(d1, 0) == (mn as usize) * 1);
        if mn >= 1 {
            assert(d.len() >= 1);
            assert(!has_zero(d)) by {
                if has_zero(d) {
                    let j = choose|j: int| 0 <= j < d.len() && d[j] == 0;
                    crate::dim::lemma_min_extent_le(d, j);
                }
            }
            crate::dim::lemma_extent_fits(d, 0);
            crate::dim::lemma_min_extent_le(d, 0);
        }
        assert forall|k: int| 0 <= k <= d1.len() implies crate::dim::suffix_prod(d1, k)
            <= isize::MAX as int by {
            if k == 0 {
                assert(crate::dim::suffix_prod(d1, 0) == (mn as usize) * 1);
            }
        }
    }
    if mn >= 1 {
        assert(!has_zero(d)) by {
            if has_zero(d) {
                let j = choose|j: int| 0 <= j < d.len() && d[j] == 0;
                crate::dim::lemma_min_extent_le(d, j);
            }
        }
        assert forall|j: int| 0 <= j < d.len() implies d[j] >= mn by {
            crate::dim::lemma_min_extent_le(d, j);
        }
        let c0 = Seq::new(d.len(), |j: int| 0usize);
        let c1 = Seq::new(d.len(), |j: int| (mn - 1) as usize);
        assert(valid_index(d, c0));
        assert(valid_index(d, c1));
        crate::dim::lemma_const_offset(s, c0, 0, 0);
        crate::dim::lemma_const_offset(s, c1, (mn - 1) as usize, 0);
        lemma_offset_in_bounds(glen, off, d, s, c0);
        lemma_offset_in_bounds(glen, off, d, s, c1);
        assert(0 * crate::dim::sum_from(s, 0) == 0) by (nonlinear_arith);
        if mn >= 2 {
            assert(mn - 1 == ((mn - 1) as usize) as int);
            assert(((mn - 1) as usize) * crate::dim::sum_from(s, 0) == (mn - 1) * ssum)
                by (nonlinear_arith)
                requires
                    ssum == crate::dim::sum_from(s, 0),
                    mn - 1 == ((mn - 1) as usize) as int;
        } else {
            assert(((mn - 1) as usize) * crate::dim::sum_from(s, 0) == 0) by (nonlinear_arith)
                requires mn == 1;
            assert((mn - 1) * ssum == 0) by (nonlinear_arith)
                requires mn == 1;
        }
        assert(crate::dim::lo_from(d1, s1, 1) == 0);
        assert(crate::dim::hi_from(d1, s1, 1) == 0);
        assert(crate::dim::lo_from(d1, s1, 0) == crate::dim::axis_lo(mn as usize, ssum as isize));
        assert(crate::dim::hi_from(d1, s1, 0) == crate::dim::axis_hi(mn as usize, ssum as isize));
    }
}

/// Whether two stride vectors are equal.
fn strides_equal(a: &Vec<isize>, b: &Vec<isize>) -> (r: bool)
    ensures
        r == (a@ == b@),
{
    if a.len() != b.len() {
        proof {
            assert(a@ != b@);
        }
        return false;
    }
    let mut k: usize = 0;
    while k < a.len()
        invariant
            a@.len() == b@.len(),
            k <= a@.len(),
            forall|j: int| 0 <= j < k ==> a@[j] == b@[j],
        decreases a@.len() - k,
    {
        if a[k] != b[k] {
            return false;
        }
        k = k + 1;
    }
    proof {
        assert(a@ =~= b@);
    }
    true
}

/// The value fits a 64-bit signed machine integer.
pub open spec fn in_i64(x: int) -> bool {
    i64::MIN <= x <= i64::MAX
}

/// Truncating (round-toward-zero) signed division, the behaviour of `/`
/// on machine integers.
pub open spec fn div_trunc(x: i64, y: i64) -> int {
    let ax = if x >= 0 {
        x as int
    } else {
        -(x as int)
    };
    let ay = if y >= 0 {
        y as int
    } else {
        -(y as int)
    };
    let q = ax / ay;
    if (x < 0) != (y < 0) {
        -q
    } else {
        q
    }
}

/// The elementwise binary operations the engine applies.
enum ElemOp {
    OpAdd,
    OpSub,
    OpMul,
    OpDiv,
    OpBitAnd,
    OpBitOr,
    OpBitXor,
}

/// Mathematical value of one elementwise combination.
spec fn op_val(op: ElemOp, x: i64, y: i64) -> int {
    match op {
        ElemOp::OpAdd => x + y,
        ElemOp::OpSub => x - y,
        ElemOp::OpMul => x * y,
        ElemOp::OpDiv => div_trunc(x, y),
        ElemOp::OpBitAnd => (x & y) as int,
        ElemOp::OpBitOr => (x | y) as int,
        ElemOp::OpBitXor => (x ^ y) as int,
    }
}

/// When one elementwise combination is defined on the machine.
spec fn op_ok(op: ElemOp, x: i64, y: i64) -> bool {
    match op {
        ElemOp::OpAdd => in_i64(x + y),
        ElemOp::OpSub => in_i64(x - y),
        ElemOp::OpMul => in_i64(x * y),
        ElemOp::OpDiv => y != 0 && !(x == i64::MIN && y == -1),
        ElemOp::OpBitAnd => true,
        ElemOp::OpBitOr => true,
        ElemOp::OpBitXor => true,
    }
}

/// Truncating signed division, computed over magnitudes so the spec above
/// is met exactly.
fn div_vals(x: i64, y: i64) -> (r: i64)
    requires
        y != 0,
        !(x == i64::MIN && y == -1),
    ensures
        r as int == div_trunc(x, y),
{
    let ax: u64 = if x >= 0 {
        x as u64
    } else {
        // avoids negating i64::MIN
        ((-(x + 1)) as u64) + 1
    };
    let ay: u64 = if y >= 0 {
        y as u64
    } else {
        ((-(y + 1)) as u64) + 1
    };
    proof {
        assert(ax as int == if x >= 0 { x as int } else { -(x as int) });
        assert(ay as int == if y >= 0 { y as int } else { -(y as int) });
        assert(ay >= 1);
        assert(ax <= 0x8000_0000_0000_0000u64);
        vstd::arithmetic::div_mod::lemma_fundamental_div_mod(ax as int, ay as int);
        vstd::arithmetic::div_mod::lemma_mod_division_less_than_divisor(ax as int, ay as int);
        assert((ax as int) / (ay as int) >= 0) by (nonlinear_arith)
            requires
                ax as int == (ay as int) * ((ax as int) / (ay as int)) + (ax as int) % (ay as int),
                0 <= (ax as int) % (ay as int) < ay as int,
                ax >= 0,
                ay >= 1;
        assert((ax as int) / (ay as int) <= ax as int) by (nonlinear_arith)
            requires
                ax as int == (ay as int) * ((ax as int) / (ay as int)) + (ax as int) % (ay as int),
                0 <= (ax as int) % (ay as int) < ay as int,
                (ax as int) / (ay as int) >= 0,
                ay >= 1;
    }
    let q = ax / ay;
    if (x < 0) != (y < 0) {
        if q == 0 {
            0
        } else {
            -((q - 1) as i64) - 1
        }
    } else {
        proof {
            if ay == 1 {
                assert(q == ax) by (nonlinear_arith)
                    requires
                        ax as int == (ay as int) * ((ax as int) / (ay as int)) + (ax as int) % (
                        ay as int),
                        0 <= (ax as int) % (ay as int) < ay as int,
                        q == ax / ay,
                        q as int == (ax as int) / (ay as int),
                        ay == 1;
                assert(ax <= i64::MAX as u64) by {
                    if x < 0 {
                        // same sign, so y < 0; a magnitude of 2^63 would
                        // mean x == i64::MIN and y == -1, excluded.
                        if ax == 0x8000_0000_0000_0000u64 {
                            assert(x == i64::MIN);
                            assert(y == -1);
                        }
                    }
                }
            } else {
                assert(2 * q <= (ay as int) * (q as int)) by (nonlinear_arith)
                    requires ay >= 2, q >= 0;
                assert((ay as int) * (q as int) <= ax as int) by (nonlinear_arith)
                    requires
                        ax as int == (ay as int) * (q as int) + (ax as int) % (ay as int),
                        0 <= (ax as int) % (ay as int);
            }
        }
        q as i64
    }
}

/// The cursor's row-major position: that of its index, or one past the
/// end once exhausted.
spec fn cursor_rank(d: Seq<usize>, cur: Option<Vec<usize>>) -> int {
    match cur {
        Option::Some(ix) => rm_rank(d, ix@),
        Option::None => dim_size(d),
    }
}

impl Array<i64> {
    /// A fresh array of shape `dim` filled with zeros.
    pub fn zeros(dim: Dim) -> (r: Array<i64>)
        requires
            strides_fit(dim@),
        ensures
            r.wf(),
            r.dims() == dim@,
            r.off_spec() == 0,
            r.is_contiguous(),
            forall|idx: Seq<usize>| valid_index(dim@, idx) ==> r.elem(idx) == 0i64,
    {
        Array::new(dim, 0)
    }

    /// Elementwise comparison. Shapes must match exactly (no broadcast):
    /// differing shapes are an error, never silently unequal.
    pub fn eq(&self, other: &Array<i64>) -> (r: Result<bool, ArrayError>)
        requires
            self.wf(),
            other.wf(),
        ensures
            match r {
                Result::Err(e) => e == ArrayError::ShapeMismatch && self.dims() != other.dims(),
                Result::Ok(b) => self.dims() == other.dims() && (b <==> self.lin() == other.lin()),
            },
    {
        if !dims_equal(self.dim.shape(), other.dim.shape()) {
            return Result::Err(ArrayError::ShapeMismatch);
        }
        let mut it1 = self.iter();
        let mut it2 = other.iter();
        proof {
            lemma_size_zero(self.dims(), 0);
        }
        let mut done = false;
        let mut res = true;
        while !done
            invariant
                it1.wf(),
                it2.wf(),
                it1.elts() == self.lin(),
                it2.elts() == other.lin(),
                self.lin().len() == other.lin().len(),
                it1.pos() == it2.pos(),
                0 <= it1.pos() <= self.lin().len(),
                res ==> forall|p: int| 0 <= p < it1.pos() ==> self.lin()[p] == other.lin()[p],
                !res ==> self.lin() != other.lin(),
                done ==> it1.pos() == self.lin().len() || !res,
            decreases self.lin().len() - it1.pos() + (if done {
                0int
            } else {
                1int
            }),
        {
            let a1 = it1.next();
            let a2 = it2.next();
            match (a1, a2) {
                (Option::Some(x), Option::Some(y)) => {
                    if x != y {
                        proof {
                            let p = it1.pos() - 1;
                            assert(self.lin()[p] != other.lin()[p]);
                        }
                        res = false;
                        done = true;
                    }
                },
                _ => {
                    done = true;
                },
            }
        }
        if res {
            proof {
                assert(self.lin() =~= other.lin());
            }
            Result::Ok(true)
        } else {
            Result::Ok(false)
        }
    }

    /// The elementwise engine: combine every element of `self` with the
    /// matching element of `other` under `op`, in place, after privatizing
    /// the buffer. Shapes must match exactly.
    fn zip_apply(&mut self, other: &Array<i64>, op: ElemOp) -> (r: Result<(), ArrayError>)
        requires
            old(self).wf(),
            other.wf(),
            old(self).dims() == other.dims() ==> forall|idx: Seq<usize>|
                valid_index(old(self).dims(), idx) ==> op_ok(
                    op,
                    old(self).elem(idx),
                    other.elem(idx),
                ),
        ensures
            final(self).wf(),
            final(self).dims() == old(self).dims(),
            final(self).strides_spec() == old(self).strides_spec(),
            final(self).off_spec() == old(self).off_spec(),
            match r {
                Result::Err(e) => {
                    &&& e == ArrayError::ShapeMismatch
                    &&& old(self).dims() != other.dims()
                    &&& final(self).buf() == old(self).buf()
                },
                Result::Ok(u) => {
                    &&& old(self).dims() == other.dims()
                    &&& forall|idx: Seq<usize>|
                        valid_index(old(self).dims(), idx) ==> final(self).elem(idx) as int
                            == op_val(op, old(self).elem(idx), other.elem(idx))
                },
            },
    {
        if !dims_equal(self.dim.shape(), other.dim.shape()) {
            return Result::Err(ArrayError::ShapeMismatch);
        }
        self.make_unique();
        let ghost d = old(self).dims();
        let n = self.dim.size();
        proof {
            lemma_size_zero(d, 0);
        }
        let mut cur: Option<Vec<usize>> = if n == 0 {
            Option::None
        } else {
            proof {
                assert(forall|j: int| 0 <= j < d.len() ==> d[j] >= 1);
                crate::dim::lemma_zero_tail_rank(d, Seq::new(d.len(), |j: int| 0usize), 0);
            }
            Option::Some(self.dim.first_index())
        };
        while cur.is_some()
            invariant
                self.wf(),
                other.wf(),
                self.dims() == d,
                other.dims() == d,
                self.strides_spec() == old(self).strides_spec(),
                self.off_spec() == old(self).off_spec(),
                self.buf().len() == old(self).buf().len(),
                forall|idx: Seq<usize>|
                    valid_index(d, idx) ==> op_ok(op, old(self).elem(idx), other.elem(idx)),
                match cur {
                    Option::Some(ix) => valid_index(d, ix@),
                    Option::None => true,
                },
                0 <= cursor_rank(d, cur) <= dim_size(d),
                forall|idx: Seq<usize>|
                    valid_index(d, idx) ==> #[trigger] self.elem(idx) as int == (if 0 <= rm_rank(
                        d,
                        idx,
                    ) && rm_rank(d, idx) < cursor_rank(d, cur) {
                        op_val(op, old(self).elem(idx), other.elem(idx))
                    } else {
                        old(self).elem(idx) as int
                    }),
            decreases dim_size(d) - cursor_rank(d, cur),
        {
            let c = cur.take();
            let ix = match c {
                Option::Some(ix) => ix,
                Option::None => vstd::pervasive::unreached(),
            };
            proof {
                lemma_rank_range(d, ix@, 0);
                lemma_offset_in_bounds(
                    self.buf().len() as int,
                    self.off_spec(),
                    d,
                    self.strides_spec(),
                    ix@,
                );
                lemma_offset_in_bounds(
                    other.buf().len() as int,
                    other.off_spec(),
                    d,
                    other.strides_spec(),
                    ix@,
                );
            }
            let o1 = stride_offset(
                self.off,
                &self.strides,
                &ix,
                Ghost(self.buf().len() as int),
                Ghost(d),
            );
            let x = buf_get(&self.data, o1);
            let o2 = stride_offset(
                other.off,
                &other.strides,
                &ix,
                Ghost(other.buf().len() as int),
                Ghost(d),
            );
            let y = buf_get(&other.data, o2);
            proof {
                assert(x == self.elem(ix@));
                assert(x == old(self).elem(ix@));
                assert(y == other.elem(ix@));
                assert(op_ok(op, x, y));
            }
            let v: i64 = match op {
                ElemOp::OpAdd => x + y,
                ElemOp::OpSub => x - y,
                ElemOp::OpMul => x * y,
                ElemOp::OpDiv => div_vals(x, y),
                ElemOp::OpBitAnd => x & y,
                ElemOp::OpBitOr => x | y,
                ElemOp::OpBitXor => x ^ y,
            };
            let ghost pre = *self;
            buf_set(&mut self.data, o1, v);
            proof {
                assert forall|idx: Seq<usize>| valid_index(d, idx) implies #[trigger] self.elem(
                    idx,
                ) as int == (if 0 <= rm_rank(d, idx) && rm_rank(d, idx) < rm_rank(d, ix@) + 1 {
                    op_val(op, old(self).elem(idx), other.elem(idx))
                } else {
                    old(self).elem(idx) as int
                }) by {
                    lemma_rank_range(d, idx, 0);
                    lemma_offset_in_bounds(
                        pre.buf().len() as int,
                        pre.off_spec(),
                        d,
                        pre.strides_spec(),
                        idx,
                    );
                    if idx == ix@ {
                        assert(self.elem(idx) == v);
                    } else {
                        assert(offset_of(idx, pre.strides_spec()) != offset_of(
                            ix@,
                            pre.strides_spec(),
                        ));
                        assert(self.elem(idx) == pre.elem(idx));
                        if rm_rank(d, idx) == rm_rank(d, ix@) {
                            crate::dim::lemma_rank_injective(d, idx, ix@, 0);
                            assert(idx =~= ix@);
                        }
                    }
                }
            }
            cur = self.dim.next_for(ix);
        }
        proof {
            assert forall|idx: Seq<usize>| valid_index(d, idx) implies #[trigger] self.elem(
                idx,
            ) as int == op_val(op, old(self).elem(idx), other.elem(idx)) by {
                lemma_rank_range(d, idx, 0);
            }
        }
        Result::Ok(())
    }

    /// In-place elementwise addition; shapes must match.
    pub fn iadd(&mut self, other: &Array<i64>) -> (r: Result<(), ArrayError>)
        requires
            old(self).wf(),
            other.wf(),
            old(self).dims() == other.dims() ==> forall|idx: Seq<usize>|
                valid_index(old(self).dims(), idx) ==> in_i64(
                    old(self).elem(idx) + other.elem(idx),
                ),
        ensures
            final(self).wf(),
            final(self).dims() == old(self).dims(),
            final(self).strides_spec() == old(self).strides_spec(),
            final(self).off_spec() == old(self).off_spec(),
            match r {
                Result::Err(e) => e == ArrayError::ShapeMismatch && old(self).dims()
                    != other.dims() && final(self).buf() == old(self).buf(),
                Result::Ok(u) => old(self).dims() == other.dims() && forall|idx: Seq<usize>|
                    valid_index(old(self).dims(), idx) ==> final(self).elem(idx) as int == old(
                        self,
                    ).elem(idx) + other.elem(idx),
            },
    {
        self.zip_apply(other, ElemOp::OpAdd)
    }

    /// In-place elementwise subtraction; shapes must match.
    pub fn isub(&mut self, other: &Array<i64>) -> (r: Result<(), ArrayError>)
        requires
            old(self).wf(),
            other.wf(),
            old(self).dims() == other.dims() ==> forall|idx: Seq<usize>|
                valid_index(old(self).dims(), idx) ==> in_i64(
                    old(self).elem(idx) - other.elem(idx),
                ),
        ensures
            final(self).wf(),
            final(self).dims() == old(self).dims(),
            final(self).strides_spec() == old(self).strides_spec(),
            final(self).off_spec() == old(self).off_spec(),
            match r {
                Result::Err(e) => e == ArrayError::ShapeMismatch && old(self).dims()
                    != other.dims() && final(self).buf() == old(self).buf(),
                Result::Ok(u) => old(self).dims() == other.dims() && forall|idx: Seq<usize>|
                    valid_index(old(self).dims(), idx) ==> final(self).elem(idx) as int == old(
                        self,
                    ).elem(idx) - other.elem(idx),
            },
    {
        self.zip_apply(other, ElemOp::OpSub)
    }

    /// In-place elementwise multiplication; shapes must match.
    pub fn imul(&mut self, other: &Array<i64>) -> (r: Result<(), ArrayError>)
        requires
            old(self).wf(),
            other.wf(),
            old(self).dims() == other.dims() ==> forall|idx: Seq<usize>|
                valid_index(old(self).dims(), idx) ==> in_i64(
                    old(self).elem(idx) * other.elem(idx),
                ),
        ensures
            final(self).wf(),
            final(self).dims() == old(self).dims(),
            final(self).strides_spec() == old(self).strides_spec(),
            final(self).off_spec() == old(self).off_spec(),
            match r {
                Result::Err(e) => e == ArrayError::ShapeMismatch && old(self).dims()
                    != other.dims() && final(self).buf() == old(self).buf(),
                Result::Ok(u) => old(self).dims() == other.dims() && forall|idx: Seq<usize>|
                    valid_index(old(self).dims(), idx) ==> final(self).elem(idx) as int == old(
                        self,
                    ).elem(idx) * other.elem(idx),
            },
    {
        self.zip_apply(other, ElemOp::OpMul)
    }

    /// In-place elementwise truncating division; shapes must match and no
    /// divisor may be zero (nor any pair overflow).
    pub fn idiv(&mut self, other: &Array<i64>) -> (r: Result<(), ArrayError>)
        requires
            old(self).wf(),
            other.wf(),
            old(self).dims() == other.dims() ==> forall|idx: Seq<usize>|
                valid_index(old(self).dims(), idx) ==> other.elem(idx) != 0i64 && !(old(self).elem(
                    idx,
                ) == i64::MIN && other.elem(idx) == -1i64),
        ensures
            final(self).wf(),
            final(self).dims() == old(self).dims(),
            final(self).strides_spec() == old(self).strides_spec(),
            final(self).off_spec() == old(self).off_spec(),
            match r {
                Result::Err(e) => e == ArrayError::ShapeMismatch && old(self).dims()
                    != other.dims() && final(self).buf() == old(self).buf(),
                Result::Ok(u) => old(self).dims() == other.dims() && forall|idx: Seq<usize>|
                    valid_index(old(self).dims(), idx) ==> final(self).elem(idx) as int
                        == div_trunc(old(self).elem(idx), other.elem(idx)),
            },
    {
        self.zip_apply(other, ElemOp::OpDiv)
    }

    /// In-place elementwise bitwise and; shapes must match.
    pub fn ibitand(&mut self, other: &Array<i64>) -> (r: Result<(), ArrayError>)
        requires
            old(self).wf(),
            other.wf(),
        ensures
            final(self).wf(),
            final(self).dims() == old(self).dims(),
            final(self).strides_spec() == old(self).strides_spec(),
            final(self).off_spec() == old(self).off_spec(),
            match r {
                Result::Err(e) => e == ArrayError::ShapeMismatch && old(self).dims()
                    != other.dims() && final(self).buf() == old(self).buf(),
                Result::Ok(u) => old(self).dims() == other.dims() && forall|idx: Seq<usize>|
                    valid_index(old(self).dims(), idx) ==> final(self).elem(idx) == (old(self).elem(
                        idx,
                    ) & other.elem(idx)),
            },
    {
        self.zip_apply(other, ElemOp::OpBitAnd)
    }

    /// In-place elementwise bitwise or; shapes must match.
    pub fn ibitor(&mut self, other: &Array<i64>) -> (r: Result<(), ArrayError>)
        requires
            old(self).wf(),
            other.wf(),
        ensures
            final(self).wf(),
            final(self).dims() == old(self).dims(),
            final(self).strides_spec() == old(self).strides_spec(),
            final(self).off_spec() == old(self).off_spec(),
            match r {
                Result::Err(e) => e == ArrayError::ShapeMismatch && old(self).dims()
                    != other.dims() && final(self).buf() == old(self).buf(),
                Result::Ok(u) => old(self).dims() == other.dims() && forall|idx: Seq<usize>|
                    valid_index(old(self).dims(), idx) ==> final(self).elem(idx) == (old(self).elem(
                        idx,
                    ) | other.elem(idx)),
            },
    {
        self.zip_apply(other, ElemOp::OpBitOr)
    }

    /// In-place elementwise bitwise xor; shapes must match.
    pub fn ibitxor(&mut self, other: &Array<i64>) -> (r: Result<(), ArrayError>)
        requires
            old(self).wf(),
            other.wf(),
        ensures
            final(self).wf(),
            final(self).dims() == old(self).dims(),
            final(self).strides_spec() == old(self).strides_spec(),
            final(self).off_spec() == old(self).off_spec(),
            match r {
                Result::Err(e) => e == ArrayError::ShapeMismatch && old(self).dims()
                    != other.dims() && final(self).buf() == old(self).buf(),
                Result::Ok(u) => old(self).dims() == other.dims() && forall|idx: Seq<usize>|
                    valid_index(old(self).dims(), idx) ==> final(self).elem(idx) == (old(self).elem(
                        idx,
                    ) ^ other.elem(idx)),
            },
    {
        self.zip_apply(other, ElemOp::OpBitXor)
    }

    /// In-place elementwise negation.
    pub fn ineg(&mut self)
        requires
            old(self).wf(),
            forall|idx: Seq<usize>|
                valid_index(old(self).dims(), idx) ==> old(self).elem(idx) != i64::MIN,
        ensures
            final(self).wf(),
            final(self).dims() == old(self).dims(),
            final(self).strides_spec() == old(self).strides_spec(),
            final(self).off_spec() == old(self).off_spec(),
            forall|idx: Seq<usize>|
                valid_index(old(self).dims(), idx) ==> final(self).elem(idx) as int == -(old(
                    self,
                ).elem(idx) as int),
    {
        self.make_unique();
        let ghost d = old(self).dims();
        let n = self.dim.size();
        proof {
            lemma_size_zero(d, 0);
        }
        let mut cur: Option<Vec<usize>> = if n == 0 {
            Option::None
        } else {
            proof {
                assert(forall|j: int| 0 <= j < d.len() ==> d[j] >= 1);
                crate::dim::lemma_zero_tail_rank(d, Seq::new(d.len(), |j: int| 0usize), 0);
            }
            Option::Some(self.dim.first_index())
        };
        while cur.is_some()
            invariant
                self.wf(),
                self.dims() == d,
                self.strides_spec() == old(self).strides_spec(),
                self.off_spec() == old(self).off_spec(),
                self.buf().len() == old(self).buf().len(),
                forall|idx: Seq<usize>|
                    valid_index(d, idx) ==> old(self).elem(idx) != i64::MIN,
                match cur {
                    Option::Some(ix) => valid_index(d, ix@),
                    Option::None => true,
                },
                0 <= cursor_rank(d, cur) <= dim_size(d),
                forall|idx: Seq<usize>|
                    valid_index(d, idx) ==> #[trigger] self.elem(idx) as int == (if 0 <= rm_rank(
                        d,
                        idx,
                    ) && rm_rank(d, idx) < cursor_rank(d, cur) {
                        -(old(self).elem(idx) as int)
                    } else {
                        old(self).elem(idx) as int
                    }),
            decreases dim_size(d) - cursor_rank(d, cur),
        {
            let c = cur.take();
            let ix = match c {
                Option::Some(ix) => ix,
                Option::None => vstd::pervasive::unreached(),
            };
            proof {
                lemma_rank_range(d, ix@, 0);
                lemma_offset_in_bounds(
                    self.buf().len() as int,
                    self.off_spec(),
                    d,
                    self.strides_spec(),
                    ix@,
                );
            }
            let o1 = stride_offset(
                self.off,
                &self.strides,
                &ix,
                Ghost(self.buf().len() as int),
                Ghost(d),
            );
            let x = buf_get(&self.data, o1);
            proof {
                assert(x == self.elem(ix@));
                assert(x == old(self).elem(ix@));
            }
            let v: i64 = -x;
            let ghost pre = *self;
            buf_set(&mut self.data, o1, v);
            proof {
                assert forall|idx: Seq<usize>| valid_index(d, idx) implies #[trigger] self.elem(
                    idx,
                ) as int == (if 0 <= rm_rank(d, idx) && rm_rank(d, idx) < rm_rank(d, ix@) + 1 {
                    -(old(self).elem(idx) as int)
                } else {
                    old(self).elem(idx) as int
                }) by {
                    lemma_rank_range(d, idx, 0);
                    lemma_offset_in_bounds(
                        pre.buf().len() as int,
                        pre.off_spec(),
                        d,
                        pre.strides_spec(),
                        idx,
                    );
                    if idx == ix@ {
                        assert(self.elem(idx) == v);
                    } else {
                        assert(offset_of(idx, pre.strides_spec()) != offset_of(
                            ix@,
                            pre.strides_spec(),
                        ));
                        assert(self.elem(idx) == pre.elem(idx));
                        if rm_rank(d, idx) == rm_rank(d, ix@) {
                            crate::dim::lemma_rank_injective(d, idx, ix@, 0);
                            assert(idx =~= ix@);
                        }
                    }
                }
            }
            cur = self.dim.next_for(ix);
        }
        proof {
            assert forall|idx: Seq<usize>| valid_index(d, idx) implies #[trigger] self.elem(
                idx,
            ) as int == -(old(self).elem(idx) as int) by {
                lemma_rank_range(d, idx, 0);
            }
        }
    }

    /// Elementwise negation, returning a fresh array.
    pub fn neg(&self) -> (r: Array<i64>)
        requires
            self.wf(),
            forall|idx: Seq<usize>|
                valid_index(self.dims(), idx) ==> self.elem(idx) != i64::MIN,
        ensures
            r.wf(),
            r.dims() == self.dims(),
            forall|idx: Seq<usize>|
                valid_index(self.dims(), idx) ==> r.elem(idx) as int == -(self.elem(idx) as int),
    {
        let mut res = self.clone();
        proof {
            assert forall|idx: Seq<usize>| valid_index(res.dims(), idx) implies res.elem(idx)
                != i64::MIN by {
                assert(valid_index(self.dims(), idx));
                assert(self.elem(idx) != i64::MIN);
                assert(res.elem(idx) == self.elem(idx));
            }
        }
        res.ineg();
        res
    }
}

impl Array<i64> {
    /// Elementwise addition, returning a fresh array; shapes must match.
    pub fn add(&self, other: &Array<i64>) -> (r: Result<Array<i64>, ArrayError>)
        requires
            self.wf(),
            other.wf(),
            self.dims() == other.dims() ==> forall|idx: Seq<usize>|
                valid_index(self.dims(), idx) ==> in_i64(self.elem(idx) + other.elem(idx)),
        ensures
            match r {
                Result::Err(e) => e == ArrayError::ShapeMismatch && self.dims() != other.dims(),
                Result::Ok(b) => self.dims() == other.dims() && b.dims() == self.dims() && forall|
                    idx: Seq<usize>,
                |
                    valid_index(self.dims(), idx) ==> b.elem(idx) as int == self.elem(idx)
                        + other.elem(idx),
            },
    {
        let mut res = self.clone();
        match res.iadd(other) {
            Result::Ok(u) => Result::Ok(res),
            Result::Err(e) => Result::Err(e),
        }
    }

    /// Elementwise subtraction, returning a fresh array; shapes must match.
    pub fn sub(&self, other: &Array<i64>) -> (r: Result<Array<i64>, ArrayError>)
        requires
            self.wf(),
            other.wf(),
            self.dims() == other.dims() ==> forall|idx: Seq<usize>|
                valid_index(self.dims(), idx) ==> in_i64(self.elem(idx) - other.elem(idx)),
        ensures
            match r {
                Result::Err(e) => e == ArrayError::ShapeMismatch && self.dims() != other.dims(),
                Result::Ok(b) => self.dims() == other.dims() && b.dims() == self.dims() && forall|
                    idx: Seq<usize>,
                |
                    valid_index(self.dims(), idx) ==> b.elem(idx) as int == self.elem(idx)
                        - other.elem(idx),
            },
    {
        let mut res = self.clone();
        match res.isub(other) {
            Result::Ok(u) => Result::Ok(res),
            Result::Err(e) => Result::Err(e),
        }
    }

    /// Elementwise multiplication, returning a fresh array; shapes must
    /// match.
    pub fn mul(&self, other: &Array<i64>) -> (r: Result<Array<i64>, ArrayError>)
        requires
            self.wf(),
            other.wf(),
            self.dims() == other.dims() ==> forall|idx: Seq<usize>|
                valid_index(self.dims(), idx) ==> in_i64(self.elem(idx) * other.elem(idx)),
        ensures
            match r {
                Result::Err(e) => e == ArrayError::ShapeMismatch && self.dims() != other.dims(),
                Result::Ok(b) => self.dims() == other.dims() && b.dims() == self.dims() && forall|
                    idx: Seq<usize>,
                |
                    valid_index(self.dims(), idx) ==> b.elem(idx) as int == self.elem(idx)
                        * other.elem(idx),
            },
    {
        let mut res = self.clone();
        match res.imul(other) {
            Result::Ok(u) => Result::Ok(res),
            Result::Err(e) => Result::Err(e),
        }
    }

    /// Elementwise truncating division, returning a fresh array.
    pub fn div(&self, other: &Array<i64>) -> (r: Result<Array<i64>, ArrayError>)
        requires
            self.wf(),
            other.wf(),
            self.dims() == other.dims() ==> forall|idx: Seq<usize>|
                valid_index(self.dims(), idx) ==> other.elem(idx) != 0i64 && !(self.elem(idx)
                    == i64::MIN && other.elem(idx) == -1i64),
        ensures
            match r {
                Result::Err(e) => e == ArrayError::ShapeMismatch && self.dims() != other.dims(),
                Result::Ok(b) => self.dims() == other.dims() && b.dims() == self.dims() && forall|
                    idx: Seq<usize>,
                |
                    valid_index(self.dims(), idx) ==> b.elem(idx) as int == div_trunc(
                        self.elem(idx),
                        other.elem(idx),
                    ),
            },
    {
        let mut res = self.clone();
        match res.idiv(other) {
            Result::Ok(u) => Result::Ok(res),
            Result::Err(e) => Result::Err(e),
        }
    }

    /// Elementwise bitwise and, returning a fresh array.
    pub fn bitand(&self, other: &Array<i64>) -> (r: Result<Array<i64>, ArrayError>)
        requires
            self.wf(),
            other.wf(),
        ensures
            match r {
                Result::Err(e) => e == ArrayError::ShapeMismatch && self.dims() != other.dims(),
                Result::Ok(b) => self.dims() == other.dims() && b.dims() == self.dims() && forall|
                    idx: Seq<usize>,
                |
                    valid_index(self.dims(), idx) ==> b.elem(idx) == (self.elem(idx) & other.elem(
                        idx,
                    )),
            },
    {
        let mut res = self.clone();
        match res.ibitand(other) {
            Result::Ok(u) => Result::Ok(res),
            Result::Err(e) => Result::Err(e),
        }
    }

    /// Elementwise bitwise or, returning a fresh array.
    pub fn bitor(&self, other: &Array<i64>) -> (r: Result<Array<i64>, ArrayError>)
        requires
            self.wf(),
            other.wf(),
        ensures
            match r {
                Result::Err(e) => e == ArrayError::ShapeMismatch && self.dims() != other.dims(),
                Result::Ok(b) => self.dims() == other.dims() && b.dims() == self.dims() && forall|
                    idx: Seq<usize>,
                |
                    valid_index(self.dims(), idx) ==> b.elem(idx) == (self.elem(idx) | other.elem(
                        idx,
                    )),
            },
    {
        let mut res = self.clone();
        match res.ibitor(other) {
            Result::Ok(u) => Result::Ok(res),
            Result::Err(e) => Result::Err(e),
        }
    }

    /// Elementwise bitwise xor, returning a fresh array.
    pub fn bitxor(&self, other: &Array<i64>) -> (r: Result<Array<i64>, ArrayError>)
        requires
            self.wf(),
            other.wf(),
        ensures
            match r {
                Result::Err(e) => e == ArrayError::ShapeMismatch && self.dims() != other.dims(),
                Result::Ok(b) => self.dims() == other.dims() && b.dims() == self.dims() && forall|
                    idx: Seq<usize>,
                |
                    valid_index(self.dims(), idx) ==> b.elem(idx) == (self.elem(idx) ^ other.elem(
                        idx,
                    )),
            },
    {
        let mut res = self.clone();
        match res.ibitxor(other) {
            Result::Ok(u) => Result::Ok(res),
            Result::Err(e) => Result::Err(e),
        }
    }
}

/// The two-axis index (i, j).
pub open spec fn idx2(i: int, j: int) -> Seq<usize> {
    Seq::new(2, |k: int| if k == 0 {
        i as usize
    } else {
        j as usize
    })
}

/// The element of a rank-2 array at row `i`, column `j`.
pub open spec fn at2(x: Array<i64>, i: int, j: int) -> i64 {
    x.elem(idx2(i, j))
}

/// Partial dot product: the first `t` terms of row `i` of `x` against
/// column `j` of `y`.
pub open spec fn mat_dot(x: Array<i64>, y: Array<i64>, i: int, j: int, t: int) -> int
    decreases t when t >= 0
{
    if t <= 0 {
        0
    } else {
        mat_dot(x, y, i, j, t - 1) + at2(x, i, t - 1) * at2(y, t - 1, j)
    }
}

/// Every partial dot product, and every term, stays on the machine.
pub open spec fn mat_fits(x: Array<i64>, y: Array<i64>) -> bool {
    forall|i: int, j: int, t: int|
        0 <= i < x.dims()[0] && 0 <= j < y.dims()[1] && 0 <= t <= x.dims()[1] ==> in_i64(
            #[trigger] mat_dot(x, y, i, j, t),
        ) && (t < x.dims()[1] ==> in_i64(at2(x, i, t) * at2(y, t, j)))
}

impl Array<i64> {
    /// Matrix multiply of two rank-2 views with matching inner dimension:
    /// each output cell is the dot product of a row run of `self` with a
    /// column run of `other`, written exactly once into a fresh buffer.
    pub fn mat_mul(&self, other: &Array<i64>) -> (r: Array<i64>)
        requires
            self.wf(),
            other.wf(),
            self.dims().len() == 2,
            other.dims().len() == 2,
            self.dims()[1] == other.dims()[0],
            self.dims()[1] >= 1,
            self.dims()[0] * other.dims()[1] <= isize::MAX as int,
            mat_fits(*self, *other),
        ensures
            r.wf(),
            r.is_contiguous(),
            r.dims() == seq![self.dims()[0], other.dims()[1]],
            forall|i: int, j: int|
                0 <= i < self.dims()[0] && 0 <= j < other.dims()[1] ==> at2(r, i, j) as int
                    == #[trigger] mat_dot(*self, *other, i, j, self.dims()[1] as int),
    {
        let ghost sd = self.dims();
        let ghost od = other.dims();
        let m = self.dim.extent(0);
        let a = self.dim.extent(1);
        let n = other.dim.extent(1);
        let mut out: Vec<i64> = Vec::new();
        let mut i: usize = 0;
        proof {
            assert(0 * n == 0) by (nonlinear_arith);
        }
        while i < m
            invariant
                self.wf(),
                other.wf(),
                sd == self.dims(),
                od == other.dims(),
                sd.len() == 2,
                od.len() == 2,
                m == sd[0],
                a == sd[1],
                n == od[1],
                od[0] == a,
                a >= 1,
                mat_fits(*self, *other),
                m * n <= isize::MAX as int,
                i <= m,
                out@.len() == i * n,
                forall|i2: int, j2: int|
                    0 <= i2 < i && 0 <= j2 < n ==> #[trigger] out@[i2 * n + j2] as int == mat_dot(
                        *self,
                        *other,
                        i2,
                        j2,
                        a as int,
                    ),
            decreases m - i,
        {
            let mut j: usize = 0;
            while j < n
                invariant
                    self.wf(),
                    other.wf(),
                    sd == self.dims(),
                    od == other.dims(),
                    sd.len() == 2,
                    od.len() == 2,
                    m == sd[0],
                    a == sd[1],
                    n == od[1],
                    od[0] == a,
                    a >= 1,
                    mat_fits(*self, *other),
                    m * n <= isize::MAX as int,
                    i < m,
                    j <= n,
                    out@.len() == i * n + j,
                    forall|i2: int, j2: int|
                        0 <= i2 < i && 0 <= j2 < n ==> #[trigger] out@[i2 * n + j2] as int
                            == mat_dot(*self, *other, i2, j2, a as int),
                    forall|j2: int|
                        0 <= j2 < j ==> #[trigger] out@[i * n + j2] as int == mat_dot(
                            *self,
                            *other,
                            i as int,
                            j2,
                            a as int,
                        ),
                decreases n - j,
            {
                let mut fi: Vec<usize> = Vec::new();
                fi.push(i);
                fi.push(0);
                let mut fj: Vec<usize> = Vec::new();
                fj.push(0);
                fj.push(j);
                proof {
                    assert(fi@ =~= seq![i, 0usize]);
                    assert(fj@ =~= seq![0usize, j]);
                    assert(valid_index(sd, fi@));
                    assert(valid_index(od, fj@));
                }
                let mut row = self.iter1d(1, &fi);
                let mut col = other.iter1d(0, &fj);
                proof {
                    assert(row.elts() =~= Seq::new(a as nat, |tt: int| at2(*self, i as int, tt)))
                        by {
                        assert forall|tt: int| 0 <= tt < a implies row.elts()[tt] == at2(
                            *self,
                            i as int,
                            tt,
                        ) by {
                            assert(fi@.update(1, tt as usize) =~= idx2(i as int, tt));
                        }
                    }
                    assert(col.elts() =~= Seq::new(a as nat, |tt: int| at2(*other, tt, j as int)))
                        by {
                        assert forall|tt: int| 0 <= tt < a implies col.elts()[tt] == at2(
                            *other,
                            tt,
                            j as int,
                        ) by {
                            assert(fj@.update(0, tt as usize) =~= idx2(tt, j as int));
                        }
                    }
                }
                let mut acc: i64 = 0;
                let mut t: usize = 0;
                while t < a
                    invariant
                        row.wf(),
                        col.wf(),
                        sd == self.dims(),
                        od == other.dims(),
                        sd.len() == 2,
                        od.len() == 2,
                        m == sd[0],
                        a == sd[1],
                        n == od[1],
                        od[0] == a,
                        i < m,
                        j < n,
                        mat_fits(*self, *other),
                        row.elts() == Seq::new(a as nat, |tt: int| at2(*self, i as int, tt)),
                        col.elts() == Seq::new(a as nat, |tt: int| at2(*other, tt, j as int)),
                        row.pos() == t,
                        col.pos() == t,
                        t <= a,
                        acc as int == mat_dot(*self, *other, i as int, j as int, t as int),
                    decreases a - t,
                {
                    let xv = match row.next() {
                        Option::Some(v) => v,
                        Option::None => vstd::pervasive::unreached(),
                    };
                    let yv = match col.next() {
                        Option::Some(v) => v,
                        Option::None => vstd::pervasive::unreached(),
                    };
                    proof {
                        assert(xv == at2(*self, i as int, t as int));
                        assert(yv == at2(*other, t as int, j as int));
                        assert(in_i64(mat_dot(*self, *other, i as int, j as int, t + 1)));
                        assert(in_i64(at2(*self, i as int, t as int) * at2(
                            *other,
                            t as int,
                            j as int,
                        )));
                    }
                    acc = acc + xv * yv;
                    t = t + 1;
                }
                out.push(acc);
                proof {
                    assert forall|i2: int, j2: int| 0 <= i2 < i && 0 <= j2 < n implies #[trigger] out@[
                        i2 * n + j2
                    ] as int == mat_dot(*self, *other, i2, j2, a as int) by {
                        assert(i2 * n + j2 < i * n + j) by (nonlinear_arith)
                            requires 0 <= i2 < i, 0 <= j2 < n, 0 <= j;
                        assert(0 <= i2 * n + j2) by (nonlinear_arith)
                            requires 0 <= i2, 0 <= j2, n >= 0;
                    }
                }
                j = j + 1;
            }
            proof {
                assert((i + 1) * n == i * n + n) by (nonlinear_arith);
                assert forall|i2: int, j2: int| 0 <= i2 < i + 1 && 0 <= j2 < n implies #[trigger] out@[
                    i2 * n + j2
                ] as int == mat_dot(*self, *other, i2, j2, a as int) by {
                    if i2 == i {
                        assert(out@[i as int * n + j2] as int == mat_dot(
                            *self,
                            *other,
                            i as int,
                            j2,
                            a as int,
                        ));
                    }
                }
            }
            i = i + 1;
        }
        let mut dv: Vec<usize> = Vec::new();
        dv.push(m);
        dv.push(n);
        let ghost d2 = dv@;
        proof {
            assert(d2 =~= seq![m, n]);
            assert(crate::dim::suffix_prod(d2, 2) == 1);
            assert(crate::dim::suffix_prod(d2, 1) == n * 1);
            assert(crate::dim::suffix_prod(d2, 0) == m * (n * 1));
            assert(n * 1 == n) by (nonlinear_arith);
            assert(m * (n * 1) == m * n) by (nonlinear_arith);
            assert(crate::dim::suffix_prod(od, 2) == 1);
            assert(crate::dim::suffix_prod(od, 1) == od[1] * 1);
            assert(od[1] * 1 == od[1]) by (nonlinear_arith);
            assert(n <= isize::MAX as int);
            assert(strides_fit(d2)) by {
                assert forall|k: int| 0 <= k <= d2.len() implies crate::dim::suffix_prod(d2, k)
                    <= isize::MAX as int by {
                    if k == 0 {
                        assert(crate::dim::suffix_prod(d2, 0) == m * n);
                    } else if k == 1 {
                        assert(crate::dim::suffix_prod(d2, 1) == n);
                    } else {
                        assert(crate::dim::suffix_prod(d2, k) == 1);
                    }
                }
            }
            assert(dim_size(d2) == m * n);
        }
        let rr = Array::from_vec(Dim::new(dv), out);
        proof {
            assert forall|i: int, j: int| 0 <= i < sd[0] && 0 <= j < od[1] implies at2(
                rr,
                i,
                j,
            ) as int == #[trigger] mat_dot(*self, *other, i, j, sd[1] as int) by {
                let q = idx2(i, j);
                assert(valid_index(d2, q));
                lemma_default_offset_is_rank(d2, rr.strides_spec(), q, 0);
                assert(crate::dim::rank_from(d2, q, 2) == 0);
                assert(crate::dim::rank_from(d2, q, 1) == q[1] * 1 + 0);
                assert(crate::dim::rank_from(d2, q, 0) == q[0] * crate::dim::suffix_prod(d2, 1)
                    + crate::dim::rank_from(d2, q, 1));
                assert(q[0] == i && q[1] == j);
                assert(i * crate::dim::suffix_prod(d2, 1) == i * n) by (nonlinear_arith)
                    requires crate::dim::suffix_prod(d2, 1) == n;
                assert(j * 1 == j) by (nonlinear_arith);
                assert(rm_rank(d2, q) == i * n + j);
                assert(rr.elem(q) == rr.buf()[i * n + j]);
            }
            assert(rr.dims() == seq![sd[0], od[1]]) by {
                assert(d2 =~= seq![sd[0], od[1]]);
            }
        }
        rr
    }
}

} // verus!
