//! Steps that the gradients of several operations share.
use vstd::prelude::*;
use crate::autograd::layout::reshape;
use crate::cpu::elementwise::{elementwise_op, lemma_stretched_bound, zip_ok, zip_value, BinaryOp};
use crate::cpu::norm::{zeros, zeros_value};
use crate::dense::{filled, Dense, Value};
use crate::index::{
    bounded, coord_of, flat, in_bounds, lemma_bounded_fits, lemma_coord_of_flat,
    lemma_flat_of_coord, numel, offset, row_major,
};
use crate::math::fold;
use crate::scalar::{zero, Constant, Scalar};
use crate::shape::{broadcasts_to, get_offset, lemma_zero_coord, NdIterator, Shape};
use crate::views::reshape_value;

verus! {

/// Where element `i` of an array with extents `from` is summed in one with extents `dims`: axes
/// are aligned at the last one, and an axis of extent 1 takes everything.
pub open spec fn landing(i: int, from: Seq<usize>, dims: Seq<usize>) -> int {
    offset(coord_of(i as nat, from), dims, row_major(dims)) as int
}

/// Adds element `i` of `g` where it lands on `j`.
pub open spec fn reduce_step<S: Scalar>(g: Value<S>, dims: Seq<usize>, j: int) -> spec_fn(
    int,
    S,
) -> S {
    |i: int, acc: S|
        if landing(i, g.dims, dims) == j {
            S::add_spec(acc, g.data[i])
        } else {
            acc
        }
}

/// A gradient can be summed into the given extents.
pub open spec fn reduce_ok<S>(g: Value<S>, dims: Seq<usize>) -> bool {
    ||| g.dims == dims
    ||| numel(g.dims) == 0
    ||| {
        &&& dims.len() <= g.dims.len()
        &&& forall|i: int|
            0 <= i < numel(g.dims) ==> #[trigger] landing(i, g.dims, dims) < numel(dims)
    }
}

/// A gradient summed into the given extents: each element is the sum of those that broadcasting
/// made of it, in row-major order.
pub open spec fn reduce_value<S: Scalar>(g: Value<S>, dims: Seq<usize>) -> Value<S> {
    if g.dims == dims {
        g
    } else {
        Value {
            dims,
            data: Seq::new(
                numel(dims),
                |j: int| fold(numel(g.dims), zero(), reduce_step(g, dims, j)),
            ),
        }
    }
}

/// Sums a gradient into the extents of the operand that was broadcast.
pub(crate) fn reduce_to<S: Scalar>(grad: &Dense<S>, target: &Shape) -> (r: Dense<S>)
    requires
        grad.wf(),
        bounded(target@),
        reduce_ok(grad@, target@),
    ensures
        r.wf(),
        r@ == reduce_value(grad@, target@),
{
    if *grad.shape() == *target {
        return grad.duplicate();
    }
    let ghost g = grad@;
    let ghost dims = target@;
    proof {
        lemma_bounded_fits(dims);
        lemma_bounded_fits(g.dims);
    }
    let n = grad.numel();
    if n == 0 {
        let r = zeros(target);
        assert(r@ =~= reduce_value(g, dims));
        return r;
    }
    let count = target.numel();
    let strides = target.contiguous_strides();
    let mut out: Vec<S> = filled(count, S::constant(Constant::Zero));
    let mut iter = NdIterator::new(*grad.shape());
    let mut i: usize = 0;
    proof {
        lemma_zero_coord(g.dims);
    }
    while i < n
        invariant
            i <= n == numel(g.dims),
            grad.wf(),
            g == grad@,
            dims == target@,
            strides@ == row_major(dims),
            strides@.len() == dims.len(),
            count == numel(dims),
            dims.len() <= g.dims.len(),
            forall|t: int|
                0 <= t < numel(g.dims) ==> #[trigger] landing(t, g.dims, dims) < numel(dims),
            iter.wf(),
            iter.dims() == g.dims,
            i < n ==> !iter.done() && in_bounds(iter.at(), g.dims) && flat(iter.at(), g.dims) == i,
            out@.len() == count,
            forall|j: int|
                0 <= j < count ==> #[trigger] out@[j] == fold(
                    i as nat,
                    zero(),
                    reduce_step(g, dims, j),
                ),
        decreases n - i,
    {
        proof {
            lemma_coord_of_flat(iter.at(), g.dims);
            assert(landing(i as int, g.dims, dims) < numel(dims));
        }
        let at = get_offset(iter.coord(), target, &strides);
        let ghost prev = out@;
        out[at] = out[at].add(grad.data()[i]);
        proof {
            assert forall|j: int| 0 <= j < count implies #[trigger] out@[j] == fold(
                (i + 1) as nat,
                zero(),
                reduce_step(g, dims, j),
            ) by {
                assert(prev[j] == fold(i as nat, zero(), reduce_step(g, dims, j)));
            }
        }
        iter.step();
        i = i + 1;
    }
    assert(out@ =~= reduce_value(g, dims).data);
    Dense::new(*target, out)
}

/// What was broadcast can be summed back.
pub proof fn lemma_reduce_ok<S>(g: Value<S>, dims: Seq<usize>)
    requires
        broadcasts_to(dims, g.dims),
        bounded(dims),
    ensures
        reduce_ok(g, dims),
{
    lemma_bounded_fits(dims);
    assert forall|i: int| 0 <= i < numel(g.dims) implies #[trigger] landing(i, g.dims, dims)
        < numel(dims) by {
        lemma_flat_of_coord(i as nat, g.dims);
        lemma_stretched_bound(dims, g.dims, coord_of(i as nat, g.dims));
    }
}

/// An array of one element.
pub open spec fn single<S>(x: S) -> Value<S> {
    Value { dims: seq![1usize], data: seq![x] }
}

/// An array of one element.
pub(crate) fn single_of<S: Scalar>(x: S) -> (r: Dense<S>)
    ensures
        r.wf(),
        r@ == single(x),
{
    let dims: [usize; 1] = [1];
    let shape = Shape::new(dims.as_slice());
    let mut data: Vec<S> = Vec::new();
    data.push(x);
    proof {
        assert(dims@ =~= seq![1usize]);
        crate::cpu::norm::lemma_single(shape@, 1);
        assert(data@ =~= seq![x]);
    }
    Dense::new(shape, data)
}

/// The extents of a gradient with the reduced axis put back.
pub open spec fn kept_dims(d: Seq<usize>, dim: int, keep_dim: bool) -> Seq<usize> {
    if keep_dim {
        d
    } else {
        d.insert(dim, 1)
    }
}

/// The gradient of a reduction can be spread over the reduced axis.
pub open spec fn expand_ok<S: Scalar>(
    g: Value<S>,
    dims: Seq<usize>,
    dim: int,
    keep_dim: bool,
) -> bool {
    let kept = kept_dims(g.dims, dim, keep_dim);
    &&& !keep_dim ==> dim <= g.dims.len() && g.dims.len() < 8
    &&& zip_ok(zeros_value::<S>(dims), reshape_value(g, kept))
}

/// The gradient of a reduction spread over the reduced axis: the axis is put back with extent 1
/// where it was dropped, and the gradient is added to zeros with the extents of the input.
pub open spec fn expand_value<S: Scalar>(
    g: Value<S>,
    dims: Seq<usize>,
    dim: int,
    keep_dim: bool,
) -> Value<S> {
    zip_value(
        zeros_value::<S>(dims),
        reshape_value(g, kept_dims(g.dims, dim, keep_dim)),
        BinaryOp::Add,
    )
}

/// Inserting an axis of extent 1 changes no element count.
pub proof fn lemma_kept(d: Seq<usize>, dim: int)
    requires
        0 <= dim <= d.len(),
        bounded(d),
    ensures
        numel(d.insert(dim, 1)) == numel(d),
        bounded(d.insert(dim, 1)),
{
    let e = d.insert(dim, 1usize);
    lemma_insert_numel(d, dim);
    let n = crate::index::nonzero(d);
    let m = crate::index::nonzero(e);
    assert(m =~= n.insert(dim, 1usize));
    lemma_insert_numel(n, dim);
}

proof fn lemma_insert_numel(d: Seq<usize>, dim: int)
    requires
        0 <= dim <= d.len(),
    ensures
        numel(d.insert(dim, 1)) == numel(d),
{
    let e = d.insert(dim, 1usize);
    crate::cpu::reduce::lemma_axis_numel(e, dim, false);
    assert(crate::cpu::reduce::reduced_dims(e, dim, false) =~= d);
    let o = crate::cpu::reduce::outer(e, dim);
    let i = crate::cpu::reduce::inner(e, dim);
    assert((o * 1) * i == o * i) by (nonlinear_arith);
}

/// Spreads the gradient of a reduction over the reduced axis.
pub(crate) fn expand_reduce_grad<S: Scalar>(
    grad: &Dense<S>,
    input_shape: &Shape,
    dim: usize,
    keep_dim: bool,
) -> (r: Dense<S>)
    requires
        grad.wf(),
        bounded(input_shape@),
        expand_ok(grad@, input_shape@, dim as int, keep_dim),
    ensures
        r.wf(),
        r@ == expand_value(grad@, input_shape@, dim as int, keep_dim),
{
    let zero_grad = zeros(input_shape);
    if keep_dim {
        assert(reshape_value(grad@, grad@.dims) == grad@);
        return elementwise_op(&zero_grad, grad, BinaryOp::Add);
    }
    let ghost d = grad@.dims;
    let mut dims: Vec<usize> = copied_dims(grad.shape());
    dims.insert(dim, 1);
    proof {
        assert(dims@ =~= d.insert(dim as int, 1));
        lemma_kept(d, dim as int);
    }
    let kept = reshape(grad, &Shape::new(&dims));
    elementwise_op(&zero_grad, &kept, BinaryOp::Add)
}

fn copied_dims(shape: &Shape) -> (r: Vec<usize>)
    ensures
        r@ == shape@,
{
    crate::dense::copied(shape.dims())
}

} // verus!
