//! Operations on CUDA tensors: the output that is made, and the kernel that fills it.
use vstd::prelude::*;
use crate::create::{device_added, device_room};
use crate::cuda::command::{
    launch_over, launchable, over_elems, requests, Kernel, LaunchView, Request,
};
use crate::cuda::plan::{
    as_params, binary_info, buffers, buffers_of, make_binary_info, make_reduce_info,
    make_softmax_info, on_device, params_of, planned, queued, reduce_info, softmax_info,
};
use crate::cpu::matmul::rows;
use crate::cpu::reduce::{lemma_reduced_bounded, reduced_dims, reduced_shape};
use crate::dense::copied;
use crate::handle::{no_meta, same_meta, undisturbed};
use crate::index::{bounded, lemma_bounded_fits, numel};
use crate::runtime::Runtime;
use crate::scalar::Scalar;
use crate::shape::{broadcast_dims, broadcastable, Shape};
use crate::tape::derefs;
use crate::tensor::Tensor;

verus! {

/// Room for one tensor of `n` elements on the device, and for its metadata.
pub open spec fn room_for<S>(rt: Runtime<S>, n: nat) -> bool {
    &&& rt.mem.cells.room() > 0
    &&& device_room(rt, n as usize)
    &&& launchable(n)
}

/// A valid tensor on a device.
pub open spec fn on_cuda<S>(rt: Runtime<S>, t: Tensor) -> bool {
    t.valid(rt.mem) && t.device is Cuda && bounded(t.shape@)
}

/// A row-major tensor on a device. Kernels that read memory in storage order need it.
pub open spec fn packed<S>(rt: Runtime<S>, t: Tensor) -> bool {
    on_cuda(rt, t) && t.contiguous_spec()
}

/// The launch of a kernel over all elements of an output without elements is left out.
pub open spec fn unless_empty<S>(n: nat, l: LaunchView<S>) -> Seq<LaunchView<S>> {
    if n == 0 {
        Seq::empty()
    } else {
        seq![l]
    }
}

/// The launch of an elementwise kernel of two operands.
pub open spec fn binary_launch<S>(lhs: Tensor, rhs: Tensor, out: Tensor, kernel: Kernel) -> Seq<
    LaunchView<S>,
> {
    let n = numel(out.shape@);
    unless_empty(
        n,
        over_elems(
            kernel,
            n,
            buffers_of(seq![lhs, rhs, out]),
            binary_info(out.shape@, lhs.shape@, lhs.strides@, rhs.shape@, rhs.strides@),
            Seq::empty(),
            seq![(n as usize) as i32],
        ),
    )
}

/// After an output was made, nothing else has changed.
pub open spec fn made<S>(a: Runtime<S>, b: Runtime<S>) -> bool {
    &&& b.wf()
    &&& undisturbed(a, b)
    &&& same_meta(a, b)
    &&& b.holds() == a.holds()
}

pub(crate) proof fn lemma_nothing_queued<S>(a: Runtime<S>, b: Runtime<S>, t: Tensor)
    requires
        device_added(a, b, t, no_meta()),
    ensures
        planned(a, b, t, Seq::empty()),
{
    assert(requests(b.queue@) =~= requests(b.queue@) + Seq::<LaunchView<S>>::empty().map_values(
        |l: LaunchView<S>| Request::Run(l),
    ));
    assert(queued(b, b, Seq::empty()));
}

pub(crate) fn list3<'a>(a: &'a Tensor, b: &'a Tensor, c: &'a Tensor) -> (r: Vec<u32>)
    ensures
        r@ == buffers_of(seq![*a, *b, *c]),
{
    let ts: [&Tensor; 3] = [a, b, c];
    assert(derefs(ts@) =~= seq![*a, *b, *c]);
    buffers(ts.as_slice())
}

pub(crate) fn list2<'a>(a: &'a Tensor, b: &'a Tensor) -> (r: Vec<u32>)
    ensures
        r@ == buffers_of(seq![*a, *b]),
{
    let ts: [&Tensor; 2] = [a, b];
    assert(derefs(ts@) =~= seq![*a, *b]);
    buffers(ts.as_slice())
}

pub(crate) fn list4<'a>(a: &'a Tensor, b: &'a Tensor, c: &'a Tensor, d: &'a Tensor) -> (r: Vec<u32>)
    ensures
        r@ == buffers_of(seq![*a, *b, *c, *d]),
{
    let ts: [&Tensor; 4] = [a, b, c, d];
    assert(derefs(ts@) =~= seq![*a, *b, *c, *d]);
    buffers(ts.as_slice())
}

/// One number as a parameter.
pub(crate) fn one_param(n: usize) -> (r: Vec<i32>)
    ensures
        r@ == seq![n as i32],
{
    let mut v: Vec<i32> = Vec::new();
    v.push(n as i32);
    assert(v@ =~= seq![n as i32]);
    v
}

/// An elementwise operation of two operands; operands are read through their strides.
pub(crate) fn binary_op<S: Scalar>(lhs: &Tensor, rhs: &Tensor, kernel: Kernel, rt: &mut Runtime<S>) -> (r:
    Tensor)
    requires
        old(rt).wf(),
        on_cuda(*old(rt), *lhs),
        on_cuda(*old(rt), *rhs),
        broadcastable(lhs.shape@, rhs.shape@),
        bounded(broadcast_dims(lhs.shape@, rhs.shape@)),
        room_for(*old(rt), numel(broadcast_dims(lhs.shape@, rhs.shape@))),
    ensures
        made(*old(rt), *final(rt)),
        on_device(*final(rt), r, broadcast_dims(lhs.shape@, rhs.shape@)),
        planned(*old(rt), *final(rt), r, binary_launch(*lhs, *rhs, r, kernel)),
{
    let ghost before = *rt;
    let shape = match lhs.shape.broadcast(&rhs.shape) {
        Some(s) => s,
        None => {
            assert(false);
            lhs.shape
        },
    };
    let _ = shape.rank();
    proof {
        lemma_bounded_fits(shape@);
    }
    let n = shape.numel();
    let out = rt.device_zeros(shape);
    let ghost mid = *rt;
    if n == 0 {
        proof {
            lemma_nothing_queued(before, mid, out);
        }
        return out;
    }
    let info = make_binary_info(&shape, lhs, rhs);
    let l = launch_over(kernel, n, list3(lhs, rhs, &out), info, Vec::new(), one_param(n));
    rt.enqueue(l);
    proof {
        assert(l@.params =~= Seq::<S>::empty());
        assert(queued(mid, *rt, binary_launch(*lhs, *rhs, out, kernel)));
    }
    out
}

/// Elementwise addition.
pub fn add<S: Scalar>(lhs: &Tensor, rhs: &Tensor, rt: &mut Runtime<S>) -> (r: Tensor)
    requires
        old(rt).wf(),
        on_cuda(*old(rt), *lhs),
        on_cuda(*old(rt), *rhs),
        broadcastable(lhs.shape@, rhs.shape@),
        bounded(broadcast_dims(lhs.shape@, rhs.shape@)),
        room_for(*old(rt), numel(broadcast_dims(lhs.shape@, rhs.shape@))),
    ensures
        made(*old(rt), *final(rt)),
        on_device(*final(rt), r, broadcast_dims(lhs.shape@, rhs.shape@)),
        planned(*old(rt), *final(rt), r, binary_launch(*lhs, *rhs, r, Kernel::AddBroadcast)),
{
    binary_op(lhs, rhs, Kernel::AddBroadcast, rt)
}

/// Elementwise subtraction.
pub fn sub<S: Scalar>(lhs: &Tensor, rhs: &Tensor, rt: &mut Runtime<S>) -> (r: Tensor)
    requires
        old(rt).wf(),
        on_cuda(*old(rt), *lhs),
        on_cuda(*old(rt), *rhs),
        broadcastable(lhs.shape@, rhs.shape@),
        bounded(broadcast_dims(lhs.shape@, rhs.shape@)),
        room_for(*old(rt), numel(broadcast_dims(lhs.shape@, rhs.shape@))),
    ensures
        made(*old(rt), *final(rt)),
        on_device(*final(rt), r, broadcast_dims(lhs.shape@, rhs.shape@)),
        planned(*old(rt), *final(rt), r, binary_launch(*lhs, *rhs, r, Kernel::SubBroadcast)),
{
    binary_op(lhs, rhs, Kernel::SubBroadcast, rt)
}

/// Elementwise multiplication.
pub fn mul<S: Scalar>(lhs: &Tensor, rhs: &Tensor, rt: &mut Runtime<S>) -> (r: Tensor)
    requires
        old(rt).wf(),
        on_cuda(*old(rt), *lhs),
        on_cuda(*old(rt), *rhs),
        broadcastable(lhs.shape@, rhs.shape@),
        bounded(broadcast_dims(lhs.shape@, rhs.shape@)),
        room_for(*old(rt), numel(broadcast_dims(lhs.shape@, rhs.shape@))),
    ensures
        made(*old(rt), *final(rt)),
        on_device(*final(rt), r, broadcast_dims(lhs.shape@, rhs.shape@)),
        planned(*old(rt), *final(rt), r, binary_launch(*lhs, *rhs, r, Kernel::MulBroadcast)),
{
    binary_op(lhs, rhs, Kernel::MulBroadcast, rt)
}

/// Elementwise division.
pub fn div<S: Scalar>(lhs: &Tensor, rhs: &Tensor, rt: &mut Runtime<S>) -> (r: Tensor)
    requires
        old(rt).wf(),
        on_cuda(*old(rt), *lhs),
        on_cuda(*old(rt), *rhs),
        broadcastable(lhs.shape@, rhs.shape@),
        bounded(broadcast_dims(lhs.shape@, rhs.shape@)),
        room_for(*old(rt), numel(broadcast_dims(lhs.shape@, rhs.shape@))),
    ensures
        made(*old(rt), *final(rt)),
        on_device(*final(rt), r, broadcast_dims(lhs.shape@, rhs.shape@)),
        planned(*old(rt), *final(rt), r, binary_launch(*lhs, *rhs, r, Kernel::DivBroadcast)),
{
    binary_op(lhs, rhs, Kernel::DivBroadcast, rt)
}

/// The launch of a kernel that maps each element.
pub open spec fn unary_launch<S>(x: Tensor, out: Tensor, kernel: Kernel) -> Seq<LaunchView<S>> {
    let n = numel(x.shape@);
    unless_empty(
        n,
        over_elems(
            kernel,
            n,
            buffers_of(seq![x, out]),
            Seq::empty(),
            Seq::empty(),
            seq![(n as usize) as i32],
        ),
    )
}

/// An operation that maps each element.
pub(crate) fn unary_op<S: Scalar>(x: &Tensor, kernel: Kernel, rt: &mut Runtime<S>) -> (r: Tensor)
    requires
        old(rt).wf(),
        packed(*old(rt), *x),
        room_for(*old(rt), numel(x.shape@)),
    ensures
        made(*old(rt), *final(rt)),
        on_device(*final(rt), r, x.shape@),
        planned(*old(rt), *final(rt), r, unary_launch(*x, r, kernel)),
{
    let ghost before = *rt;
    proof {
        lemma_bounded_fits(x.shape@);
    }
    let n = x.shape.numel();
    let out = rt.device_zeros(x.shape);
    let ghost mid = *rt;
    if n == 0 {
        proof {
            lemma_nothing_queued(before, mid, out);
        }
        return out;
    }
    let l = launch_over(kernel, n, list2(x, &out), Vec::new(), Vec::new(), one_param(n));
    rt.enqueue(l);
    proof {
        assert(l@.params =~= Seq::<S>::empty());
        assert(l@.info =~= Seq::<i32>::empty());
        assert(queued(mid, *rt, unary_launch(*x, out, kernel)));
    }
    out
}

/// Elementwise `ReLU`.
pub fn relu<S: Scalar>(x: &Tensor, rt: &mut Runtime<S>) -> (r: Tensor)
    requires
        old(rt).wf(),
        packed(*old(rt), *x),
        room_for(*old(rt), numel(x.shape@)),
    ensures
        made(*old(rt), *final(rt)),
        on_device(*final(rt), r, x.shape@),
        planned(*old(rt), *final(rt), r, unary_launch(*x, r, Kernel::ReluForward)),
{
    unary_op(x, Kernel::ReluForward, rt)
}

/// Elementwise `GELU`.
pub fn gelu<S: Scalar>(x: &Tensor, rt: &mut Runtime<S>) -> (r: Tensor)
    requires
        old(rt).wf(),
        packed(*old(rt), *x),
        room_for(*old(rt), numel(x.shape@)),
    ensures
        made(*old(rt), *final(rt)),
        on_device(*final(rt), r, x.shape@),
        planned(*old(rt), *final(rt), r, unary_launch(*x, r, Kernel::GeluForward)),
{
    unary_op(x, Kernel::GeluForward, rt)
}

/// The launch of a reduction kernel.
pub open spec fn reduction_launch<S>(x: Tensor, dim: usize, out: Tensor, kernel: Kernel) -> Seq<
    LaunchView<S>,
> {
    let n = numel(out.shape@);
    unless_empty(
        n,
        over_elems(
            kernel,
            n,
            buffers_of(seq![x, out]),
            reduce_info(x.shape@, x.strides@, dim),
            Seq::empty(),
            as_params(seq![x.shape@[dim as int], n as usize]),
        ),
    )
}

/// A reduction along one axis; the input is read through its strides.
pub(crate) fn reduction_op<S: Scalar>(
    x: &Tensor,
    dim: usize,
    keep_dim: bool,
    kernel: Kernel,
    rt: &mut Runtime<S>,
) -> (r: Tensor)
    requires
        old(rt).wf(),
        on_cuda(*old(rt), *x),
        dim < x.shape@.len(),
        room_for(*old(rt), numel(reduced_dims(x.shape@, dim as int, keep_dim))),
    ensures
        made(*old(rt), *final(rt)),
        on_device(*final(rt), r, reduced_dims(x.shape@, dim as int, keep_dim)),
        planned(*old(rt), *final(rt), r, reduction_launch(*x, dim, r, kernel)),
{
    let ghost before = *rt;
    let shape = reduced_shape(&x.shape, dim, keep_dim);
    proof {
        lemma_reduced_bounded(x.shape@, dim as int, keep_dim);
        lemma_bounded_fits(shape@);
    }
    let n = shape.numel();
    let out = rt.device_zeros(shape);
    let ghost mid = *rt;
    if n == 0 {
        proof {
            lemma_nothing_queued(before, mid, out);
        }
        return out;
    }
    let info = make_reduce_info(x, dim);
    let scalars: [usize; 2] = [x.shape.dim(dim), n];
    proof {
        assert(scalars@ =~= seq![x.shape@[dim as int], n]);
    }
    let l = launch_over(
        kernel,
        n,
        list2(x, &out),
        info,
        Vec::new(),
        params_of(scalars.as_slice()),
    );
    rt.enqueue(l);
    proof {
        assert(l@.params =~= Seq::<S>::empty());
        assert(queued(mid, *rt, reduction_launch(*x, dim, out, kernel)));
    }
    out
}

/// Sum over a single axis.
pub fn sum<S: Scalar>(x: &Tensor, dim: usize, keep_dim: bool, rt: &mut Runtime<S>) -> (r: Tensor)
    requires
        old(rt).wf(),
        on_cuda(*old(rt), *x),
        dim < x.shape@.len(),
        room_for(*old(rt), numel(reduced_dims(x.shape@, dim as int, keep_dim))),
    ensures
        made(*old(rt), *final(rt)),
        on_device(*final(rt), r, reduced_dims(x.shape@, dim as int, keep_dim)),
        planned(*old(rt), *final(rt), r, reduction_launch(*x, dim, r, Kernel::Sum)),
{
    reduction_op(x, dim, keep_dim, Kernel::Sum, rt)
}

/// Mean over a single axis.
pub fn mean<S: Scalar>(x: &Tensor, dim: usize, keep_dim: bool, rt: &mut Runtime<S>) -> (r: Tensor)
    requires
        old(rt).wf(),
        on_cuda(*old(rt), *x),
        dim < x.shape@.len(),
        room_for(*old(rt), numel(reduced_dims(x.shape@, dim as int, keep_dim))),
    ensures
        made(*old(rt), *final(rt)),
        on_device(*final(rt), r, reduced_dims(x.shape@, dim as int, keep_dim)),
        planned(*old(rt), *final(rt), r, reduction_launch(*x, dim, r, Kernel::Mean)),
{
    reduction_op(x, dim, keep_dim, Kernel::Mean, rt)
}

/// The launch of the softmax kernel: one thread for each line along the axis.
pub open spec fn softmax_launch<S>(x: Tensor, dim: usize, out: Tensor) -> Seq<LaunchView<S>> {
    let len = x.shape@[dim as int];
    let lines = numel(x.shape@) / (len as nat);
    unless_empty(
        numel(x.shape@),
        over_elems(
            Kernel::SoftmaxForward,
            lines,
            buffers_of(seq![x, out]),
            softmax_info(x.shape@, x.strides@),
            Seq::empty(),
            as_params(seq![dim, len, lines as usize]),
        ),
    )
}

/// Softmax along a single axis.
pub fn softmax<S: Scalar>(x: &Tensor, dim: usize, rt: &mut Runtime<S>) -> (r: Tensor)
    requires
        old(rt).wf(),
        packed(*old(rt), *x),
        dim < x.shape@.len(),
        room_for(*old(rt), numel(x.shape@)),
    ensures
        made(*old(rt), *final(rt)),
        on_device(*final(rt), r, x.shape@),
        planned(*old(rt), *final(rt), r, softmax_launch(*x, dim, r)),
{
    let ghost before = *rt;
    proof {
        lemma_bounded_fits(x.shape@);
    }
    let n = x.shape.numel();
    let out = rt.device_zeros(x.shape);
    let ghost mid = *rt;
    if n == 0 {
        proof {
            lemma_nothing_queued(before, mid, out);
        }
        return out;
    }
    let len = x.shape.dim(dim);
    proof {
        crate::index::lemma_numel_zero(x.shape@);
        lemma_quotient(n as int, len as int);
    }
    let lines = n / len;
    let info = make_softmax_info(x);
    let scalars: [usize; 3] = [dim, len, lines];
    proof {
        assert(scalars@ =~= seq![dim, len, lines]);
    }
    let l = launch_over(
        Kernel::SoftmaxForward,
        lines,
        list2(x, &out),
        info,
        Vec::new(),
        params_of(scalars.as_slice()),
    );
    rt.enqueue(l);
    proof {
        assert(l@.params =~= Seq::<S>::empty());
        assert(queued(mid, *rt, softmax_launch(*x, dim, out)));
    }
    out
}

/// A quotient is no more than the dividend.
pub(crate) proof fn lemma_quotient(n: int, d: int)
    requires
        0 <= n,
        0 < d,
    ensures
        0 <= n / d <= n,
{
    assert(0 <= n / d <= n) by (nonlinear_arith)
        requires
            0 <= n,
            0 < d,
    ;
}

/// The launch of the layer normalisation kernel: one thread for each row.
pub open spec fn layernorm_launch<S>(
    x: Tensor,
    weight: Tensor,
    bias: Tensor,
    eps: S,
    out: Tensor,
) -> Seq<LaunchView<S>> {
    let len = x.shape@.last();
    let n = numel(x.shape@) / (len as nat);
    unless_empty(
        numel(x.shape@),
        over_elems(
            Kernel::LayernormForward,
            n,
            buffers_of(seq![x, weight, bias, out]),
            Seq::empty(),
            seq![eps],
            as_params(seq![len, n as usize]),
        ),
    )
}

/// Layer normalization.
pub fn layernorm<S: Scalar>(
    x: &Tensor,
    weight: &Tensor,
    bias: &Tensor,
    eps: S,
    rt: &mut Runtime<S>,
) -> (r: Tensor)
    requires
        old(rt).wf(),
        packed(*old(rt), *x),
        on_cuda(*old(rt), *weight),
        on_cuda(*old(rt), *bias),
        numel(x.shape@) > 0 ==> x.shape@.len() > 0,
        room_for(*old(rt), numel(x.shape@)),
    ensures
        made(*old(rt), *final(rt)),
        on_device(*final(rt), r, x.shape@),
        planned(*old(rt), *final(rt), r, layernorm_launch(*x, *weight, *bias, eps, r)),
{
    let ghost before = *rt;
    proof {
        lemma_bounded_fits(x.shape@);
    }
    let n = x.shape.numel();
    let out = rt.device_zeros(x.shape);
    let ghost mid = *rt;
    if n == 0 {
        proof {
            lemma_nothing_queued(before, mid, out);
        }
        return out;
    }
    let rank = x.shape.rank();
    let len = x.shape.dim(rank - 1);
    proof {
        crate::index::lemma_numel_zero(x.shape@);
        lemma_quotient(n as int, len as int);
    }
    let rows = n / len;
    let scalars: [usize; 2] = [len, rows];
    let mut params: Vec<S> = Vec::new();
    params.push(eps);
    proof {
        assert(scalars@ =~= seq![len, rows]);
        assert(params@ =~= seq![eps]);
    }
    let l = launch_over(
        Kernel::LayernormForward,
        rows,
        list4(x, weight, bias, &out),
        Vec::new(),
        params,
        params_of(scalars.as_slice()),
    );
    rt.enqueue(l);
    proof {
        assert(l@.info =~= Seq::<i32>::empty());
        assert(queued(mid, *rt, layernorm_launch(*x, *weight, *bias, eps, out)));
    }
    out
}

/// The launch of the embedding kernel: one thread for each index.
pub open spec fn embedding_launch<S>(x: Tensor, weight: Tensor, out: Tensor) -> Seq<
    LaunchView<S>,
> {
    let n = numel(x.shape@);
    unless_empty(
        n,
        over_elems(
            Kernel::EmbeddingForward,
            n,
            buffers_of(seq![x, weight, out]),
            Seq::empty(),
            Seq::empty(),
            as_params(seq![weight.shape@[0], weight.shape@[1], n as usize]),
        ),
    )
}

/// Embedding lookup.
pub fn embedding<S: Scalar>(x: &Tensor, weight: &Tensor, rt: &mut Runtime<S>) -> (r: Tensor)
    requires
        old(rt).wf(),
        packed(*old(rt), *x),
        on_cuda(*old(rt), *weight),
        weight.shape@.len() >= 2,
        x.shape@.len() < 8,
        bounded(x.shape@.push(weight.shape@[1])),
        launchable(numel(x.shape@)),
        room_for(*old(rt), numel(x.shape@.push(weight.shape@[1]))),
    ensures
        made(*old(rt), *final(rt)),
        on_device(*final(rt), r, x.shape@.push(weight.shape@[1])),
        planned(*old(rt), *final(rt), r, embedding_launch(*x, *weight, r)),
{
    let ghost before = *rt;
    proof {
        lemma_bounded_fits(x.shape@);
    }
    let n = x.shape.numel();
    let vocab = weight.shape.dim(0);
    let width = weight.shape.dim(1);
    let mut dims: Vec<usize> = copied(x.shape.dims());
    dims.push(width);
    assert(dims@ =~= x.shape@.push(width));
    let out = rt.device_zeros(Shape::new(&dims));
    let ghost mid = *rt;
    if n == 0 {
        proof {
            lemma_nothing_queued(before, mid, out);
        }
        return out;
    }
    let scalars: [usize; 3] = [vocab, width, n];
    proof {
        assert(scalars@ =~= seq![vocab, width, n]);
    }
    let l = launch_over(
        Kernel::EmbeddingForward,
        n,
        list3(x, weight, &out),
        Vec::new(),
        Vec::new(),
        params_of(scalars.as_slice()),
    );
    rt.enqueue(l);
    proof {
        assert(l@.info =~= Seq::<i32>::empty());
        assert(l@.params =~= Seq::<S>::empty());
        assert(queued(mid, *rt, embedding_launch(*x, *weight, out)));
    }
    out
}

} // verus!
