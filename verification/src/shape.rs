//! Tensor shapes, broadcasting, and walking an N-dimensional coordinate space.
use vstd::prelude::*;
use crate::dense::filled;
use vstd::arithmetic::div_mod::lemma_div_denominator;
use vstd::arithmetic::mul::lemma_mul_is_commutative;
use crate::index::{
    coord_of, flat, head_fits, head_numel, in_bounds, lemma_coord_of_flat, lemma_flat_bound,
    lemma_flat_of_coord, lemma_head_numel, lemma_numel_zero, lemma_offset_of_coord,
    lemma_tail_numel_of_positive, numel, offset, offset_upto, pinned, row_major, tail_fits,
    tail_flat, tail_numel,
};

verus! {

/// The largest rank a shape can have.
pub const MAX_RANK: usize = 8;

/// Tensor dimensions, outermost first.
///
/// Stored inline up to rank 8, so that a shape never allocates. The empty shape `[]` is a scalar
/// with one element.
#[derive(Debug, Clone, Copy, Hash)]
pub struct Shape {
    dims: [usize; 8],
    rank: usize,
}

impl Shape {
    /// The extents, outermost first.
    pub closed spec fn view(self) -> Seq<usize> {
        self.dims@.subrange(0, self.rank as int)
    }

    /// At most eight axes, and nothing stored behind the last one.
    #[verifier::type_invariant]
    pub closed spec fn wf(self) -> bool {
        &&& self.rank <= 8
        &&& forall|i: int| self.rank <= i < 8 ==> self.dims@[i] == 0
    }

    /// Makes a shape from a slice of extents.
    #[must_use]
    pub fn new(dims: &[usize]) -> (s: Self)
        requires
            dims@.len() <= MAX_RANK,
        ensures
            s.wf(),
            s@ == dims@,
    {
        let mut array: [usize; 8] = [0; 8];
        let mut i: usize = 0;
        while i < dims.len()
            invariant
                i <= dims.len() <= 8,
                forall|j: int| 0 <= j < i ==> array@[j] == dims@[j],
                forall|j: int| i <= j < 8 ==> array@[j] == 0,
            decreases dims.len() - i,
        {
            array[i] = dims[i];
            i = i + 1;
        }
        let s = Shape { dims: array, rank: dims.len() };
        assert(s@ =~= dims@);
        s
    }

    /// Makes a shape from an array of extents.
    #[must_use]
    pub fn from<const N: usize>(dims: [usize; N]) -> (s: Self)
        requires
            N <= MAX_RANK,
        ensures
            s.wf(),
            s@ == dims@,
    {
        Self::new(dims.as_slice())
    }

    /// The extents as a slice.
    #[must_use]
    pub fn dims(&self) -> (d: &[usize])
        ensures
            self.wf(),
            d@ == self@,
    {
        proof {
            use_type_invariant(self);
        }
        &self.dims[0..self.rank]
    }

    /// How many axes the shape has.
    #[must_use]
    pub fn rank(&self) -> (r: usize)
        ensures
            self.wf(),
            r == self@.len(),
            r <= MAX_RANK,
    {
        proof {
            use_type_invariant(self);
        }
        self.rank
    }

    /// The extent of one axis.
    #[must_use]
    pub fn dim(&self, axis: usize) -> (d: usize)
        requires
            axis < self@.len(),
        ensures
            d == self@[axis as int],
    {
        proof {
            use_type_invariant(self);
        }
        self.dims[axis]
    }

    /// The total number of elements.
    #[must_use]
    pub fn numel(&self) -> (n: usize)
        requires
            head_fits(self@),
        ensures
            n == numel(self@),
    {
        proof {
            use_type_invariant(self);
        }
        let mut n: usize = 1;
        let mut i: usize = 0;
        while i < self.rank
            invariant
                self.wf(),
                i <= self.rank == self@.len(),
                self.rank <= 8,
                head_fits(self@),
                n == head_numel(self@, i as int),
            decreases self.rank - i,
        {
            assert(head_numel(self@, i + 1) == head_numel(self@, i as int) * (
            self@[i as int] as nat));
            n = n * self.dims[i];
            i = i + 1;
        }
        proof {
            lemma_head_numel(self@);
        }
        n
    }

    /// The row-major strides of the shape.
    #[must_use]
    pub fn contiguous_strides(&self) -> (s: Self)
        requires
            tail_fits(self@),
        ensures
            s.wf(),
            s@ == row_major(self@),
    {
        proof {
            use_type_invariant(self);
        }
        let mut strides: [usize; 8] = [0; 8];
        let mut acc: usize = 1;
        let mut i: usize = self.rank;
        while i > 0
            invariant
                self.wf(),
                i <= self.rank == self@.len(),
                self.rank <= 8,
                tail_fits(self@),
                acc == tail_numel(self@, i as int),
                forall|j: int| i <= j < self.rank ==> strides@[j] == tail_numel(self@, j + 1),
                forall|j: int| self.rank <= j < 8 ==> strides@[j] == 0,
            decreases i,
        {
            i = i - 1;
            strides[i] = acc;
            assert(tail_numel(self@, i as int) == (self@[i as int] as nat) * tail_numel(
                self@,
                i + 1,
            ));
            acc = self.dims[i] * acc;
        }
        let s = Shape { dims: strides, rank: self.rank };
        assert(s@ =~= row_major(self@));
        s
    }

    /// Whether this is a scalar shape (rank 0).
    #[must_use]
    pub fn is_scalar(&self) -> (r: bool)
        ensures
            r == (self@.len() == 0),
    {
        proof {
            use_type_invariant(self);
        }
        self.rank == 0
    }

    /// Broadcasts two shapes together to find their common shape.
    ///
    /// Aligned at the last axis, two extents agree when they are equal or one of them is 1.
    /// Returns `None` if some pair does not agree.
    #[must_use]
    pub fn broadcast(&self, other: &Self) -> (r: Option<Self>)
        ensures
            r is Some <==> broadcastable(self@, other@),
            r matches Some(s) ==> s.wf() && s@ == broadcast_dims(self@, other@),
    {
        proof {
            use_type_invariant(self);
            use_type_invariant(other);
        }
        let max_rank: usize = if self.rank >= other.rank {
            self.rank
        } else {
            other.rank
        };
        let mut result: [usize; 8] = [0; 8];
        let mut i: usize = 0;
        while i < max_rank
            invariant
                self.wf(),
                other.wf(),
                self@.len() == self.rank,
                other@.len() == other.rank,
                self.rank <= max_rank,
                other.rank <= max_rank,
                max_rank == self.rank || max_rank == other.rank,
                i <= max_rank <= 8,
                forall|k: int| 0 <= k < i ==> #[trigger] agree_at(self@, other@, k),
                forall|j: int|
                    max_rank - i <= j < max_rank ==> #[trigger] result@[j] == joined(
                        dim_from_end(self@, max_rank - 1 - j),
                        dim_from_end(other@, max_rank - 1 - j),
                    ),
                forall|j: int| max_rank <= j < 8 ==> result@[j] == 0,
            decreases max_rank - i,
        {
            let a: usize = if i < self.rank {
                self.dims[self.rank - 1 - i]
            } else {
                1
            };
            let b: usize = if i < other.rank {
                other.dims[other.rank - 1 - i]
            } else {
                1
            };
            assert(a == dim_from_end(self@, i as int));
            assert(b == dim_from_end(other@, i as int));
            let out: usize = if a == b {
                a
            } else if a == 1 {
                b
            } else if b == 1 {
                a
            } else {
                assert(!agree_at(self@, other@, i as int));
                return None;
            };
            assert(agree_at(self@, other@, i as int));
            result[max_rank - 1 - i] = out;
            i = i + 1;
        }
        let s = Shape { dims: result, rank: max_rank };
        assert(s@ =~= broadcast_dims(self@, other@));
        Some(s)
    }

    /// Whether this shape can be broadcast to `target`.
    #[must_use]
    pub fn can_broadcast_to(&self, target: &Self) -> (r: bool)
        ensures
            r == broadcasts_to(self@, target@),
    {
        proof {
            use_type_invariant(self);
            use_type_invariant(target);
        }
        if self.rank > target.rank {
            return false;
        }
        let mut i: usize = 0;
        while i < self.rank
            invariant
                self.wf(),
                target.wf(),
                self@.len() == self.rank,
                target@.len() == target.rank,
                i <= self.rank <= target.rank <= 8,
                forall|k: int| 0 <= k < i ==> #[trigger] stretches_at(self@, target@, k),
            decreases self.rank - i,
        {
            let a: usize = self.dims[self.rank - 1 - i];
            let t: usize = target.dims[target.rank - 1 - i];
            if a != t && a != 1 {
                assert(!stretches_at(self@, target@, i as int));
                return false;
            }
            assert(stretches_at(self@, target@, i as int));
            i = i + 1;
        }
        true
    }

    /// The shape with axes `i` and `j` exchanged.
    #[must_use]
    pub fn swapped(&self, i: usize, j: usize) -> (s: Self)
        requires
            i < self@.len(),
            j < self@.len(),
        ensures
            s.wf(),
            s@ == swapped_dims(self@, i as int, j as int),
    {
        proof {
            use_type_invariant(self);
        }
        let mut dims: [usize; 8] = self.dims;
        let a: usize = dims[i];
        let b: usize = dims[j];
        dims[i] = b;
        dims[j] = a;
        let s = Shape { dims, rank: self.rank };
        assert(s@ =~= swapped_dims(self@, i as int, j as int));
        s
    }

    /// Iterates over the extents.
    pub fn iter(&self) -> (d: std::slice::Iter<'_, usize>)
        ensures
            vstd::std_specs::slice::into_iter_elts(d) == self@,
    {
        self.dims().iter()
    }
}

impl Default for Shape {
    fn default() -> (s: Self)
        ensures
            s.wf(),
            s@ == Seq::<usize>::empty(),
    {
        let s = Shape { dims: [0; 8], rank: 0 };
        assert(s@ =~= Seq::<usize>::empty());
        s
    }
}

impl std::ops::Index<usize> for Shape {
    type Output = usize;

    fn index(&self, index: usize) -> (r: &usize)
        ensures
            *r == self@[index as int],
    {
        proof {
            use_type_invariant(self);
        }
        &self.dims[index]
    }
}

impl vstd::std_specs::core::IndexSpecImpl<usize> for Shape {
    open spec fn index_req(&self, index: &usize) -> bool {
        *index < self@.len()
    }
}

impl<'a> IntoIterator for &'a Shape {
    type Item = &'a usize;

    type IntoIter = std::slice::Iter<'a, usize>;

    fn into_iter(self) -> (r: std::slice::Iter<'a, usize>)
        ensures
            vstd::std_specs::slice::into_iter_elts(r) == self@,
    {
        self.iter()
    }
}

impl PartialEq for Shape {
    fn eq(&self, other: &Self) -> (r: bool) {
        proof {
            use_type_invariant(self);
            use_type_invariant(other);
        }
        if self.rank != other.rank {
            assert(self@.len() != other@.len());
            return false;
        }
        let mut i: usize = 0;
        while i < self.rank
            invariant
                self.wf(),
                other.wf(),
                i <= self.rank == other.rank,
                self.rank <= 8,
                forall|j: int| 0 <= j < i ==> self@[j] == other@[j],
            decreases self.rank - i,
        {
            if self.dims[i] != other.dims[i] {
                assert(self@[i as int] != other@[i as int]);
                return false;
            }
            i = i + 1;
        }
        assert(self@ =~= other@);
        true
    }
}

impl vstd::std_specs::cmp::PartialEqSpecImpl for Shape {
    open spec fn obeys_eq_spec() -> bool {
        true
    }

    open spec fn eq_spec(&self, other: &Self) -> bool {
        self@ == other@
    }
}

impl Eq for Shape {

}

/// The extents of `d` counted from the last axis; axes beyond the first count as 1.
pub open spec fn dim_from_end(d: Seq<usize>, k: int) -> usize {
    if 0 <= k < d.len() {
        d[d.len() - 1 - k]
    } else {
        1
    }
}

/// The extents of `a` and `b` at distance `k` from the last axis can be broadcast together.
pub open spec fn agree_at(a: Seq<usize>, b: Seq<usize>, k: int) -> bool {
    let x = dim_from_end(a, k);
    let y = dim_from_end(b, k);
    x == y || x == 1 || y == 1
}

/// The common extent of two that agree.
pub open spec fn joined(x: usize, y: usize) -> usize {
    if x == 1 {
        y
    } else {
        x
    }
}

pub open spec fn larger(a: nat, b: nat) -> nat {
    if a >= b {
        a
    } else {
        b
    }
}

/// Every aligned pair of extents agrees.
pub open spec fn broadcastable(a: Seq<usize>, b: Seq<usize>) -> bool {
    forall|k: int| 0 <= k < larger(a.len(), b.len()) ==> #[trigger] agree_at(a, b, k)
}

/// The common extents of two broadcastable shapes.
pub open spec fn broadcast_dims(a: Seq<usize>, b: Seq<usize>) -> Seq<usize> {
    let n = larger(a.len(), b.len());
    Seq::new(n, |j: int| joined(dim_from_end(a, n - 1 - j), dim_from_end(b, n - 1 - j)))
}

/// The extent of `a` at distance `k` from the last axis fits that of `target`, or is 1.
pub open spec fn stretches_at(a: Seq<usize>, target: Seq<usize>, k: int) -> bool {
    dim_from_end(a, k) == dim_from_end(target, k) || dim_from_end(a, k) == 1
}

/// A shape with extents `a` can be read as one with extents `target`.
pub open spec fn broadcasts_to(a: Seq<usize>, target: Seq<usize>) -> bool {
    &&& a.len() <= target.len()
    &&& forall|k: int| 0 <= k < a.len() ==> #[trigger] stretches_at(a, target, k)
}

/// `d` with entries `i` and `j` exchanged.
pub open spec fn swapped_dims<T>(d: Seq<T>, i: int, j: int) -> Seq<T> {
    d.update(i, d[j]).update(j, d[i])
}

/// Iterator over an N-dimensional coordinate space, last axis fastest.
pub struct NdIterator {
    shape: Shape,
    coord: [usize; 8],
    done: bool,
}

impl NdIterator {
    /// The extents that are walked.
    pub closed spec fn dims(self) -> Seq<usize> {
        self.shape@
    }

    /// The current coordinate.
    pub closed spec fn at(self) -> Seq<usize> {
        self.coord@.subrange(0, self.shape@.len() as int)
    }

    /// Whether the walk has ended.
    pub closed spec fn done(self) -> bool {
        self.done
    }

    /// While the walk goes on the coordinate is within bounds; afterwards it is all zeros.
    pub closed spec fn wf(self) -> bool {
        &&& self.shape.wf()
        &&& self.shape@.len() <= 8
        &&& !self.done ==> in_bounds(self.at(), self.dims())
        &&& self.done ==> forall|k: int| 0 <= k < self.at().len() ==> self.at()[k] == 0
    }

    /// Starts at the first coordinate of `shape`; a shape without elements is done at once.
    #[must_use]
    pub fn new(shape: Shape) -> (it: Self)
        requires
            head_fits(shape@),
        ensures
            it.wf(),
            it.dims() == shape@,
            it.done() == (numel(shape@) == 0),
            it.at() == Seq::new(shape@.len(), |k: int| 0usize),
    {
        let rank = shape.rank();
        let done = shape.numel() == 0;
        let it = NdIterator { shape, coord: [0; 8], done };
        proof {
            lemma_numel_zero(shape@);
            assert(it.at() =~= Seq::new(shape@.len(), |k: int| 0usize));
        }
        it
    }

    /// The current coordinate as a slice.
    #[must_use]
    pub fn coord(&self) -> (c: &[usize])
        requires
            self.wf(),
        ensures
            c@ == self.at(),
    {
        &self.coord[0..self.shape.rank()]
    }

    /// Advances to the next coordinate in row-major order. Returns `false` when there is none.
    pub fn step(&mut self) -> (more: bool)
        requires
            old(self).wf(),
        ensures
            final(self).wf(),
            final(self).dims() == old(self).dims(),
            old(self).done() ==> !more && *final(self) == *old(self),
            !old(self).done() ==> {
                let next = flat(old(self).at(), old(self).dims()) + 1;
                &&& more == (next < numel(old(self).dims()))
                &&& final(self).done() == !more
                &&& more ==> in_bounds(final(self).at(), final(self).dims())
                &&& more ==> flat(final(self).at(), final(self).dims()) == next
                &&& !more ==> flat(final(self).at(), final(self).dims()) == 0
            },
    {
        if self.done {
            return false;
        }
        let ghost d = self.shape@;
        let ghost start = self.at();
        let rank = self.shape.rank();
        if rank == 0 {
            self.done = true;
            return false;
        }
        let mut idx: usize = rank - 1;
        let shape = self.shape;
        let mut coord: [usize; 8] = self.coord;
        loop
            invariant_except_break
                forall|k: int| 0 <= k <= idx ==> coord@[k] == start[k],
            invariant
                idx < rank == d.len(),
                rank <= 8,
                shape@ == d,
                shape.wf(),
                start == old(self).at(),
                in_bounds(start, d),
                forall|k: int| idx < k < rank ==> coord@[k] == 0,
                tail_flat(start, d, idx + 1) + 1 == tail_numel(d, idx + 1),
                self.shape == shape,
                !self.done,
                *self == *old(self),
            ensures
                idx < rank,
                coord@[idx as int] == start[idx as int] + 1,
                coord@[idx as int] < d[idx as int],
                forall|k: int| 0 <= k < idx ==> coord@[k] == start[k],
            decreases idx,
        {
            assert(start[idx as int] < d[idx as int]);
            coord[idx] = coord[idx] + 1;
            if coord[idx] < shape.dim(idx) {
                break;
            }
            coord[idx] = 0;
            proof {
                lemma_carry(start, d, idx as int);
            }
            if idx == 0 {
                self.coord = coord;
                self.done = true;
                proof {
                    lemma_flat_zero(self.at(), d, 0);
                }
                return false;
            }
            idx = idx - 1;
        }
        self.coord = coord;
        proof {
            assert(in_bounds(self.at(), d)) by {
                assert forall|k: int| 0 <= k < d.len() implies #[trigger] self.at()[k] < d[k] by {
                    assert(start[k] < d[k]);
                }
            }
            lemma_increment(start, self.at(), d, idx as int, 0);
            lemma_flat_bound(self.at(), d, 0);
        }
        true
    }
}

/// When the digit at `k` is the largest and the digits behind it are the largest too, so is the
/// group of both.
proof fn lemma_carry(c: Seq<usize>, d: Seq<usize>, k: int)
    requires
        in_bounds(c, d),
        0 <= k < d.len(),
        c[k] + 1 == d[k],
        tail_flat(c, d, k + 1) + 1 == tail_numel(d, k + 1),
    ensures
        tail_flat(c, d, k) + 1 == tail_numel(d, k),
{
    let p = tail_numel(d, k + 1) as int;
    let ck = c[k] as int;
    assert(ck * p + p == (ck + 1) * p) by (nonlinear_arith);
}

proof fn lemma_flat_zero(c: Seq<usize>, d: Seq<usize>, k: int)
    requires
        c.len() == d.len(),
        0 <= k <= d.len(),
        forall|j: int| k <= j < d.len() ==> c[j] == 0,
    ensures
        tail_flat(c, d, k) == 0,
    decreases d.len() - k,
{
    if k < d.len() {
        lemma_flat_zero(c, d, k + 1);
        let p = tail_numel(d, k + 1) as int;
        assert(0 * p == 0) by (nonlinear_arith);
    }
}

/// The all-zero coordinate is the first one of a shape that has elements.
pub proof fn lemma_zero_coord(d: Seq<usize>)
    requires
        numel(d) > 0,
    ensures
        in_bounds(Seq::new(d.len(), |k: int| 0usize), d),
        flat(Seq::new(d.len(), |k: int| 0usize), d) == 0,
{
    lemma_numel_zero(d);
    lemma_flat_zero(Seq::new(d.len(), |k: int| 0usize), d, 0);
}

proof fn lemma_increment(c: Seq<usize>, n: Seq<usize>, d: Seq<usize>, idx: int, k: int)
    requires
        in_bounds(c, d),
        in_bounds(n, d),
        0 <= k <= idx < d.len(),
        forall|j: int| 0 <= j < idx ==> n[j] == c[j],
        n[idx] == c[idx] + 1,
        forall|j: int| idx < j < d.len() ==> n[j] == 0,
        tail_flat(c, d, idx + 1) + 1 == tail_numel(d, idx + 1),
    ensures
        tail_flat(n, d, k) == tail_flat(c, d, k) + 1,
    decreases idx - k,
{
    if k < idx {
        lemma_increment(c, n, d, idx, k + 1);
    } else {
        lemma_flat_zero(n, d, idx + 1);
        let p = tail_numel(d, k + 1) as int;
        let ck = c[k] as int;
        assert((ck + 1) * p == ck * p + p) by (nonlinear_arith);
    }
}

/// Maps a coordinate to a storage offset in a view with the given shape and strides.
///
/// The coordinate is aligned with the view at the last axis, so that it may have more entries
/// than the view has axes; an axis of extent 1 is read at 0 whatever the coordinate says.
#[must_use]
pub fn get_offset(coord: &[usize], shape: &Shape, strides: &Shape) -> (r: usize)
    requires
        shape@.len() <= coord@.len(),
        shape@.len() <= strides@.len(),
        offset(coord@, shape@, strides@) <= usize::MAX,
    ensures
        r == offset(coord@, shape@, strides@),
{
    let rank = shape.rank();
    let len: usize = coord.len();
    let skip: usize = len - rank;
    let mut r: usize = 0;
    let mut i: usize = 0;
    while i < rank
        invariant
            i <= rank == shape@.len(),
            skip + rank == len == coord@.len(),
            rank <= strides@.len(),
            r == offset_upto(coord@, shape@, strides@, i as int),
            offset(coord@, shape@, strides@) <= usize::MAX,
        decreases rank - i,
    {
        let dim_in = shape.dim(i);
        let c: usize = coord[skip + i];
        let c_in: usize = if dim_in == 1 {
            0
        } else {
            c
        };
        let stride = strides.dim(i);
        proof {
            lemma_offset_monotonic(coord@, shape@, strides@, i + 1, rank as int);
            assert(c_in == pinned(coord@[coord@.len() - shape@.len() + i], shape@[i as int]));
            assert(c_in * stride >= 0) by (nonlinear_arith)
                requires
                    c_in >= 0,
                    stride >= 0,
            ;
        }
        r = r + c_in * stride;
        i = i + 1;
    }
    r
}

/// The coordinate at a row-major position.
#[must_use]
pub fn flat_to_coord(index: usize, shape: &Shape) -> (c: Vec<usize>)
    requires
        tail_fits(shape@),
        forall|k: int| 0 <= k < shape@.len() ==> shape@[k] > 0,
    ensures
        c@ == coord_of(index as nat, shape@),
{
    let dims = shape.dims();
    let ghost d = shape@;
    let rank: usize = dims.len();
    let mut coord: Vec<usize> = filled(rank, 0);
    let mut rest: usize = index;
    let mut i: usize = rank;
    proof {
        lemma_div_by_one(index as int);
    }
    while i > 0
        invariant
            i <= rank == d.len(),
            dims@ == d,
            coord@.len() == rank,
            forall|k: int| 0 <= k < d.len() ==> d[k] > 0,
            rest == index as nat / tail_numel(d, i as int),
            forall|k: int| i <= k < rank ==> coord@[k] == coord_of(index as nat, d)[k],
        decreases i,
    {
        i = i - 1;
        proof {
            lemma_tail_numel_of_positive(d, i + 1);
            lemma_div_denominator(index as int, tail_numel(d, i + 1) as int, d[i as int] as int);
            lemma_mul_is_commutative(tail_numel(d, i + 1) as int, d[i as int] as int);
        }
        coord[i] = rest % dims[i];
        rest = rest / dims[i];
    }
    assert(coord@ =~= coord_of(index as nat, d));
    coord
}

proof fn lemma_div_by_one(x: int)
    ensures
        x / 1 == x,
{
}

pub proof fn lemma_offset_monotonic(
    c: Seq<usize>,
    d: Seq<usize>,
    s: Seq<usize>,
    m: int,
    n: int,
)
    requires
        m <= n,
    ensures
        offset_upto(c, d, s, m) <= offset_upto(c, d, s, n),
    decreases n - m,
{
    if m < n {
        lemma_offset_monotonic(c, d, s, m, n - 1);
    }
}

/// Flat indices and coordinates of a shape name each other: both ways lead back, and with
/// row-major strides the offset of a coordinate is its flat index.
pub proof fn law_coordinates(i: nat, c: Seq<usize>, d: Seq<usize>)
    requires
        tail_fits(d),
        i < numel(d),
        in_bounds(c, d),
    ensures
        in_bounds(coord_of(i, d), d),
        flat(coord_of(i, d), d) == i,
        coord_of(flat(c, d), d) == c,
        flat(c, d) < numel(d),
        offset(coord_of(i, d), d, row_major(d)) == i,
        offset(c, d, row_major(d)) == flat(c, d),
{
    lemma_flat_of_coord(i, d);
    lemma_coord_of_flat(c, d);
    lemma_offset_of_coord(i, d);
    lemma_offset_of_coord(flat(c, d), d);
}

} // verus!
