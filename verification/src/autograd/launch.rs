//! Work on a device, step by step.
use vstd::prelude::*;
use crate::autograd::backward::alias;
use crate::cpu::elementwise::BinaryOp;
use crate::create::{device_added, device_filled, device_room, shared};
use crate::cuda::command::{launchable, LaunchView};
use crate::cuda::dispatch::lemma_planned_new;
use crate::cuda::forward::{on_cuda, packed, room_for};
use crate::cuda::images::{
    avgpool_backward_launch, conv_backward_launch, maxpool_backward_launch, room_for3,
};
use crate::cuda::norms::{
    batchnorm_backward_launch, batchnorm_ready, cross_entropy_backward_launch,
    embedding_backward_launch, layernorm_backward_launch,
};
use crate::cuda::plan::{planned, planned3, queued};
use crate::cpu::norm::zeros_value;
use crate::dense::{filled, Value};
use crate::dtype::DType;
use crate::handle::{no_meta, same_meta, undisturbed};
use crate::index::{bounded, lemma_bounded_fits, lemma_dims1, numel};
use crate::nn::module::plain;
use crate::op::OpType;
use crate::ops::gradients::owned3;
use crate::ops::methods::{apply, ready};
use crate::runtime::{holds_cell, Runtime};
use crate::scalar::{Constant, Scalar};
use crate::scope::{affords, grown, lemma_op_grown, survives};
use crate::shape::Shape;
use crate::tape::{count_key, derefs, lemma_count_push, lemma_retained, lemma_valid_refs};
use crate::tensor::{Key, Tensor};
use crate::track::can_op;
use crate::trail::{lemma_move, lemma_still, made, trail, Move};

verus! {

/// Kernels that compute gradients.
#[derive(Debug, Clone, Copy, PartialEq, Eq)]
pub enum GradKernel {
    /// The weight of an embedding; takes ids, weight and gradient.
    Embedding,
    /// The logits of a loss; takes logits, targets and gradient.
    Loss,
    /// The input of max pooling; takes input and gradient.
    MaxPool { kernel_size: usize, stride: usize, padding: usize },
    /// The input of average pooling; takes input and gradient.
    AvgPool { kernel_size: usize, stride: usize, padding: usize },
    /// Input, weight and bias of a convolution; takes input, weight and gradient.
    Conv { stride: usize, padding: usize },
    /// Input, weight and bias of a layer normalization; takes those and the gradient.
    Norm { eps_bits: u32 },
    /// Input, scale and shift of a batch normalization; takes those, the running statistics and
    /// the gradient.
    Batch { training: bool, eps_bits: u32 },
}

/// How many tensors the kernels of a gradient fill.
pub open spec fn kernel_width(kernel: GradKernel) -> nat {
    match kernel {
        GradKernel::Conv { .. } => 3,
        GradKernel::Norm { .. } => 3,
        GradKernel::Batch { .. } => 3,
        _ => 1,
    }
}

/// The kernels of a gradient were queued.
pub open spec fn kernel_queued<S: Scalar>(
    a: Runtime<S>,
    b: Runtime<S>,
    kernel: GradKernel,
    ins: Seq<Tensor>,
    outs: Seq<Tensor>,
) -> bool {
    match kernel {
        GradKernel::Embedding => planned(
            a,
            b,
            outs[0],
            embedding_backward_launch(ins[0], ins[1], ins[2], outs[0]),
        ),
        GradKernel::Loss => planned(
            a,
            b,
            outs[0],
            cross_entropy_backward_launch(ins[0], ins[1], ins[2], outs[0]),
        ),
        GradKernel::MaxPool { kernel_size, stride, padding } => planned(
            a,
            b,
            outs[0],
            maxpool_backward_launch(ins[0], ins[1], outs[0], kernel_size, stride, padding),
        ),
        GradKernel::AvgPool { kernel_size, stride, padding } => planned(
            a,
            b,
            outs[0],
            avgpool_backward_launch(ins[0], ins[1], outs[0], kernel_size, stride, padding),
        ),
        GradKernel::Conv { stride, padding } => planned3(
            a,
            b,
            (outs[0], outs[1], outs[2]),
            conv_backward_launch(
                ins[0],
                ins[1],
                ins[2],
                (outs[0], outs[1], outs[2]),
                stride,
                padding,
            ),
        ),
        GradKernel::Norm { eps_bits } => planned3(
            a,
            b,
            (outs[0], outs[1], outs[2]),
            layernorm_backward_launch(
                ins[0],
                ins[1],
                ins[2],
                ins[3],
                (outs[0], outs[1], outs[2]),
                S::from_bits_spec(eps_bits),
            ),
        ),
        GradKernel::Batch { training, eps_bits } => planned3(
            a,
            b,
            (outs[0], outs[1], outs[2]),
            batchnorm_backward_launch(
                ins[0],
                (ins[1], ins[2], ins[3], ins[4]),
                ins[5],
                (outs[0], outs[1], outs[2]),
                training,
                S::from_bits_spec(eps_bits),
            ),
        ),
    }
}

/// Queueing the kernels of a gradient leaves the rest of the runtime alone.
pub proof fn lemma_kernel_state<S: Scalar>(
    a: Runtime<S>,
    b: Runtime<S>,
    kernel: GradKernel,
    ins: Seq<Tensor>,
    outs: Seq<Tensor>,
)
    requires
        kernel_queued(a, b, kernel, ins, outs),
    ensures
        b.tape == a.tape,
        b.mode == a.mode,
        b.hooks == a.hooks,
{
}

/// The kernels of a gradient can be queued.
pub open spec fn kernel_ready<S>(rt: Runtime<S>, kernel: GradKernel, ins: Seq<Tensor>) -> bool {
    let x = ins[0];
    &&& rt.hooks.cuda_ops
    &&& x.device is Cuda
    &&& packed(rt, x)
    &&& match kernel {
        GradKernel::Embedding => {
            &&& ins.len() == 3
            &&& packed(rt, ins[2])
            &&& on_cuda(rt, ins[1])
            &&& ins[1].shape@.len() >= 2
            &&& launchable(numel(x.shape@))
            &&& room_for(rt, numel(ins[1].shape@))
        },
        GradKernel::Loss => {
            &&& ins.len() == 3
            &&& packed(rt, ins[2])
            &&& on_cuda(rt, ins[1])
            &&& x.shape@.len() >= 2
            &&& launchable(x.shape@[0] as nat)
            &&& room_for(rt, numel(x.shape@))
        },
        GradKernel::MaxPool { .. } => {
            &&& ins.len() == 2
            &&& packed(rt, ins[1])
            &&& x.shape@.len() == 4
            &&& ins[1].shape@.len() == 4
            &&& room_for(rt, numel(x.shape@))
        },
        GradKernel::AvgPool { .. } => {
            &&& ins.len() == 2
            &&& packed(rt, ins[1])
            &&& x.shape@.len() == 4
            &&& ins[1].shape@.len() == 4
            &&& room_for(rt, numel(x.shape@))
        },
        GradKernel::Conv { .. } => {
            let w = ins[1].shape@;
            &&& ins.len() == 3
            &&& packed(rt, ins[1])
            &&& packed(rt, ins[2])
            &&& x.shape@.len() == 4
            &&& w.len() == 4
            &&& ins[2].shape@.len() == 4
            &&& launchable(numel(x.shape@))
            &&& launchable(numel(w))
            &&& launchable(w[0] as nat)
            &&& room_for3(rt, numel(x.shape@) + numel(w) + numel(seq![w[0]]))
        },
        GradKernel::Norm { .. } => {
            &&& ins.len() == 4
            &&& packed(rt, ins[3])
            &&& on_cuda(rt, ins[1])
            &&& on_cuda(rt, ins[2])
            &&& numel(x.shape@) > 0 ==> x.shape@.len() > 0
            &&& launchable(numel(x.shape@))
            &&& room_for3(
                rt,
                numel(x.shape@) + numel(ins[1].shape@) + numel(ins[2].shape@),
            )
        },
        GradKernel::Batch { .. } => {
            let c = seq![x.shape@[1]];
            &&& ins.len() == 6
            &&& packed(rt, ins[5])
            &&& batchnorm_ready(rt, x, ins[1], ins[2], ins[3], ins[4])
            &&& room_for3(rt, numel(x.shape@) + numel(c) + numel(c))
        },
    }
}

/// One new tensor, with launches that fill it, is gained.
proof fn lemma_planned_grown<S>(a: Runtime<S>, b: Runtime<S>, r: Tensor, ls: Seq<LaunchView<S>>)
    requires
        a.wf(),
        b.wf(),
        planned(a, b, r, ls),
        r.owned(b),
        undisturbed(a, b),
    ensures
        grown(a, b, seq![r]),
{
    lemma_planned_new(a, b, r, ls);
    lemma_op_grown(a, b, b, r, 0);
}

/// Three new tensors, with launches that fill them, are gained.
proof fn lemma_planned3_grown<S>(
    a: Runtime<S>,
    b: Runtime<S>,
    ts: (Tensor, Tensor, Tensor),
    ls: Seq<LaunchView<S>>,
)
    requires
        a.wf(),
        b.wf(),
        planned3(a, b, ts, ls),
        owned3(b, ts),
        undisturbed(a, b),
    ensures
        grown(a, b, seq![ts.0, ts.1, ts.2]),
{
    reveal(grown);
    let all = seq![ts.0, ts.1, ts.2];
    let (m1, m2, m3) = choose|m1: Runtime<S>, m2: Runtime<S>, m3: Runtime<S>|
        #[trigger] device_added(a, m1, ts.0, no_meta()) && #[trigger] device_added(
            m1,
            m2,
            ts.1,
            no_meta(),
        ) && #[trigger] device_added(m2, m3, ts.2, no_meta()) && queued(m3, b, ls);
    let none = Seq::<Tensor>::empty();
    assert(all =~= none.push(ts.0).push(ts.1).push(ts.2));
    assert(b.holds() == a.holds());
    assert forall|k: Key| #[trigger] b.owners(k) == a.owners(k) + count_key(all, k) by {
        lemma_count_push(none, ts.0, k);
        lemma_count_push(none.push(ts.0), ts.1, k);
        lemma_count_push(none.push(ts.0).push(ts.1), ts.2, k);
        assert(m1.mem.refs(k) == a.mem.refs(k) + (if k == ts.0.key() {
            1int
        } else {
            0int
        }));
        assert(m2.mem.refs(k) == m1.mem.refs(k) + (if k == ts.1.key() {
            1int
        } else {
            0int
        }));
        assert(m3.mem.refs(k) == m2.mem.refs(k) + (if k == ts.2.key() {
            1int
        } else {
            0int
        }));
    }
    assert forall|k: Key| count_key(all, k) <= #[trigger] b.owners(k) by {
        assert(b.owners(k) == a.owners(k) + count_key(all, k));
        crate::custody::lemma_owners(a, k);
    }
    assert(m1.mem.cells@.contains_key(ts.0.cell));
    assert(m2.mem.cells@.contains_key(ts.0.cell) && m2.mem.cells@.contains_key(ts.1.cell));
    assert forall|i: int, j: int| 0 <= i < j < all.len() implies all[i].cell != all[j].cell by {}
    assert forall|u: Tensor| #[trigger] u.owned(a) implies {
        &&& survives(a, b, u)
        &&& !holds_cell(b.holds(), u.cell)
        &&& !holds_cell(all, u.cell)
    } by {
        assert(u.owned(b));
        assert(a.mem.cells@.contains_key(u.cell));
        assert(m1.mem.cells@.contains_key(u.cell));
        assert(m2.mem.cells@.contains_key(u.cell));
        if holds_cell(all, u.cell) {
            let i = choose|i: int| 0 <= i < all.len() && (#[trigger] all[i]).cell == u.cell;
            assert(i == 0 || i == 1 || i == 2);
        }
    }
}

/// A new tensor on a device is gained.
proof fn lemma_device_grown<S>(a: Runtime<S>, b: Runtime<S>, r: Tensor)
    requires
        a.wf(),
        b.wf(),
        device_added(a, b, r, no_meta()) || exists|data: Seq<S>| #[trigger]
            device_filled(a, b, r, no_meta(), data),
        r.owned(b),
        undisturbed(a, b),
        same_meta(a, b),
        b.holds() == a.holds(),
    ensures
        grown(a, b, seq![r]),
{
    assert forall|k: Key| #[trigger] b.mem.refs(k) == a.mem.refs(k) + (if k == r.key() {
        1nat
    } else {
        0nat
    }) by {}
    lemma_op_grown(a, b, b, r, 0);
}

/// Another handle is gained.
pub proof fn lemma_shared_grown<S>(a: Runtime<S>, b: Runtime<S>, t: Tensor, r: Tensor)
    requires
        a.wf(),
        b.wf(),
        t.valid(a.mem),
        a.mem.refs(t.key()) < usize::MAX,
        shared(a, b, t, r, t.shape, t.strides),
        r.owned(b),
        undisturbed(a, b),
        same_meta(a, b),
        b.holds() == a.holds(),
    ensures
        grown(a, b, seq![r]),
{
    assert forall|k: Key| #[trigger] b.mem.refs(k) == a.mem.refs(k) + (if k == r.key() {
        1nat
    } else {
        0nat
    }) by {
        lemma_valid_refs(a.mem, t);
        lemma_retained(a.mem, b.mem, t.key());
    }
    lemma_op_grown(a, b, b, r, 0);
}

/// A change can be made.
pub open spec fn feasible<S: Scalar>(rt: Runtime<S>, m: Move<S>) -> bool {
    match m {
        Move::Op { op, ins, .. } => !(op is CrossEntropy) && 0 < ins.len() <= 2 && ready(
            rt,
            op,
            ins,
        ),
        Move::Transpose { x, dim0, dim1, .. } => {
            &&& can_op(rt, seq![x])
            &&& dim0 < x.shape@.len()
            &&& dim1 < x.shape@.len()
            &&& bounded(x.shape@)
        },
        Move::Reshape { x, dims, .. } => {
            &&& can_op(rt, seq![x])
            &&& x.device is Cpu || x.contiguous_spec()
            &&& bounded(dims)
            &&& numel(dims) == numel(x.shape@)
            &&& rt.mem.arena.room() > 0
        },
        Move::New { value, .. } => {
            &&& affords(rt, 1)
            &&& bounded(value.dims)
            &&& value.data.len() == numel(value.dims)
        },
        Move::Share { x, .. } => {
            &&& x.valid(rt.mem)
            &&& rt.mem.refs(x.key()) < usize::MAX
            &&& rt.mem.cells.room() > 0
        },
        Move::Fill { value, device, .. } => {
            &&& rt.hooks.cuda_memory
            &&& bounded(value.dims)
            &&& value.data.len() == numel(value.dims)
            &&& device is Cuda
            &&& rt.mem.cells.room() > 0
            &&& device_room(rt, numel(value.dims) as usize)
        },
        Move::Blank { dims, device, .. } => {
            &&& rt.hooks.cuda_memory
            &&& bounded(dims)
            &&& device is Cuda
            &&& rt.mem.cells.room() > 0
            &&& device_room(rt, numel(dims) as usize)
        },
        Move::Launch { kernel, ins, .. } => kernel_ready(rt, kernel, ins),
        Move::Drop { t } => t.owned(rt),
    }
}

/// One step of work: what it makes, and from which of the tensors so far.
#[derive(Debug, Clone, Copy)]
pub enum Work<S> {
    /// An elementwise operation.
    Zip { op: BinaryOp, i: usize, j: usize },
    /// A matrix product.
    Matmul { i: usize, j: usize },
    /// Softmax along an axis.
    Softmax { i: usize, dim: usize },
    /// The sum along an axis, which is kept.
    Sum { i: usize, dim: usize },
    /// Two axes swapped.
    Turn { i: usize, dim0: usize, dim1: usize },
    /// Another shape.
    Fit { i: usize, shape: Shape },
    /// Another handle.
    Share { i: usize },
    /// One number on the device of the first tensor.
    Number { value: S },
    /// Zeros on the device of the first tensor.
    Zeros { shape: Shape },
    /// Zeros, written to the device of the first tensor.
    Written { shape: Shape },
    /// Zeros on the CPU.
    Nothing { shape: Shape },
    /// Kernels that compute gradients; those of a batch normalization take five tensors from `i`
    /// on, and `l`.
    Kernels { kernel: GradKernel, i: usize, j: usize, k: usize, l: usize },
}

/// The recorded name of an elementwise operation.
pub open spec fn zip_name(op: BinaryOp) -> OpType {
    match op {
        BinaryOp::Add => OpType::Add,
        BinaryOp::Sub => OpType::Sub,
        BinaryOp::Mul => OpType::Mul,
        BinaryOp::Div => OpType::Div,
    }
}

/// The tensors that the kernels of a gradient take.
pub open spec fn kernel_ins(
    kernel: GradKernel,
    regs: Seq<Tensor>,
    i: usize,
    j: usize,
    k: usize,
    l: usize,
) -> Seq<Tensor> {
    match kernel {
        GradKernel::MaxPool { .. } => seq![regs[i as int], regs[j as int]],
        GradKernel::AvgPool { .. } => seq![regs[i as int], regs[j as int]],
        GradKernel::Norm { .. } => seq![
            regs[i as int],
            regs[j as int],
            regs[k as int],
            regs[l as int],
        ],
        GradKernel::Batch { .. } => seq![
            regs[i as int],
            regs[i as int + 1],
            regs[i as int + 2],
            regs[i as int + 3],
            regs[i as int + 4],
            regs[l as int],
        ],
        _ => seq![regs[i as int], regs[j as int], regs[k as int]],
    }
}

/// How many tensors a step makes.
pub open spec fn width<S>(w: Work<S>) -> nat {
    match w {
        Work::Kernels { kernel, .. } => kernel_width(kernel),
        _ => 1,
    }
}

/// The change that a step makes.
pub open spec fn work_move<S: Scalar>(
    w: Work<S>,
    regs: Seq<Tensor>,
    outs: Seq<Tensor>,
) -> Move<S> {
    let out = outs[0];
    match w {
        Work::Zip { op, i, j } => Move::Op {
            op: zip_name(op),
            ins: seq![regs[i as int], regs[j as int]],
            out,
        },
        Work::Matmul { i, j } => Move::Op {
            op: OpType::Matmul,
            ins: seq![regs[i as int], regs[j as int]],
            out,
        },
        Work::Softmax { i, dim } => Move::Op {
            op: OpType::Softmax { dim },
            ins: seq![regs[i as int]],
            out,
        },
        Work::Sum { i, dim } => Move::Op {
            op: OpType::Sum { dim, keep_dim: true },
            ins: seq![regs[i as int]],
            out,
        },
        Work::Turn { i, dim0, dim1 } => Move::Transpose { x: regs[i as int], dim0, dim1, out },
        Work::Fit { i, shape } => Move::Reshape { x: regs[i as int], dims: shape@, out },
        Work::Share { i } => Move::Share { x: regs[i as int], out },
        Work::Number { value } => Move::Fill {
            value: Value { dims: seq![1usize], data: seq![value] },
            device: regs[0].device,
            out,
        },
        Work::Zeros { shape } => Move::Blank { dims: shape@, device: regs[0].device, out },
        Work::Written { shape } => Move::Fill {
            value: zeros_value(shape@),
            device: regs[0].device,
            out,
        },
        Work::Nothing { shape } => Move::New { value: zeros_value(shape@), out },
        Work::Kernels { kernel, i, j, k, l } => Move::Launch {
            kernel,
            ins: kernel_ins(kernel, regs, i, j, k, l),
            outs,
        },
    }
}

/// A step names tensors that are there.
pub open spec fn names<S>(w: Work<S>, n: nat) -> bool {
    match w {
        Work::Zip { i, j, .. } => i < n && j < n,
        Work::Matmul { i, j } => i < n && j < n,
        Work::Softmax { i, .. } => i < n,
        Work::Sum { i, .. } => i < n,
        Work::Turn { i, .. } => i < n,
        Work::Fit { i, .. } => i < n,
        Work::Share { i } => i < n,
        Work::Number { .. } => 0 < n,
        Work::Zeros { .. } => 0 < n,
        Work::Written { .. } => 0 < n,
        Work::Nothing { .. } => true,
        Work::Kernels { kernel, i, j, k, l } => i < n && j < n && k < n && l < n && (
        kernel is Batch ==> i + 4 < n),
    }
}

/// Queues the kernels of a gradient.
fn queue_kernels<S: Scalar>(
    kernel: GradKernel,
    a: &Tensor,
    b: &Tensor,
    c: &Tensor,
    d: &Tensor,
    rt: &mut Runtime<S>,
) -> (r: Vec<Tensor>)
    requires
        old(rt).wf(),
        !(kernel is Batch),
        kernel_ready(
            *old(rt),
            kernel,
            kernel_ins(kernel, seq![*a, *b, *c, *d], 0, 1, 2, 3),
        ),
    ensures
        final(rt).wf(),
        r@.len() == kernel_width(kernel),
        grown(*old(rt), *final(rt), r@),
        kernel_queued(
            *old(rt),
            *final(rt),
            kernel,
            kernel_ins(kernel, seq![*a, *b, *c, *d], 0, 1, 2, 3),
            r@,
        ),
{
    let ghost first = *rt;
    let ghost ins = kernel_ins(kernel, seq![*a, *b, *c, *d], 0, 1, 2, 3);
    let mut out: Vec<Tensor> = Vec::new();
    match kernel {
        GradKernel::Embedding => {
            let t = a.embedding_backward(b, c, rt);
            proof {
                lemma_planned_grown(first, *rt, t, embedding_backward_launch(*a, *b, *c, t));
            }
            out.push(t);
        },
        GradKernel::Loss => {
            let t = a.cross_entropy_backward(b, c, rt);
            proof {
                lemma_planned_grown(first, *rt, t, cross_entropy_backward_launch(*a, *b, *c, t));
            }
            out.push(t);
        },
        GradKernel::MaxPool { kernel_size, stride, padding } => {
            let t = a.maxpool2d_backward(b, kernel_size, stride, padding, rt);
            proof {
                lemma_planned_grown(
                    first,
                    *rt,
                    t,
                    maxpool_backward_launch(*a, *b, t, kernel_size, stride, padding),
                );
            }
            out.push(t);
        },
        GradKernel::AvgPool { kernel_size, stride, padding } => {
            let t = a.avgpool2d_backward(b, kernel_size, stride, padding, rt);
            proof {
                lemma_planned_grown(
                    first,
                    *rt,
                    t,
                    avgpool_backward_launch(*a, *b, t, kernel_size, stride, padding),
                );
            }
            out.push(t);
        },
        GradKernel::Conv { stride, padding } => {
            let ts = a.conv2d_backward(b, c, stride, padding, rt);
            proof {
                lemma_planned3_grown(
                    first,
                    *rt,
                    ts,
                    conv_backward_launch(*a, *b, *c, ts, stride, padding),
                );
            }
            out.push(ts.0);
            out.push(ts.1);
            out.push(ts.2);
            assert(out@ =~= seq![ts.0, ts.1, ts.2]);
        },
        GradKernel::Norm { eps_bits } => {
            let eps = S::from_bits(eps_bits);
            let ts = a.layernorm_backward(b, c, d, eps, rt);
            proof {
                lemma_planned3_grown(
                    first,
                    *rt,
                    ts,
                    layernorm_backward_launch(*a, *b, *c, *d, ts, eps),
                );
            }
            out.push(ts.0);
            out.push(ts.1);
            out.push(ts.2);
            assert(out@ =~= seq![ts.0, ts.1, ts.2]);
        },
        GradKernel::Batch { .. } => {},
    }
    proof {
        assert(!(kernel is Batch));
        if kernel_width(kernel) == 1 {
            assert(out@ =~= seq![out@[0]]);
        }
    }
    out
}

/// The elementwise operation under its recorded name.
fn zip_op(op: BinaryOp) -> (r: OpType)
    ensures
        r == zip_name(op),
{
    match op {
        BinaryOp::Add => OpType::Add,
        BinaryOp::Sub => OpType::Sub,
        BinaryOp::Mul => OpType::Mul,
        BinaryOp::Div => OpType::Div,
    }
}

/// One tensor in a list.
fn single(t: Tensor) -> (r: Vec<Tensor>)
    ensures
        r@ == seq![t],
{
    let mut out: Vec<Tensor> = Vec::new();
    out.push(t);
    assert(out@ =~= seq![t]);
    out
}

/// Does one step of work.
#[verifier::rlimit(60)]
pub fn work_once<S: Scalar>(w: &Work<S>, regs: &Vec<Tensor>, rt: &mut Runtime<S>) -> (r: Vec<
    Tensor,
>)
    requires
        old(rt).wf(),
        names(*w, regs@.len()),
        feasible(*old(rt), work_move(*w, regs@, Seq::empty())),
    ensures
        final(rt).wf(),
        r@.len() == width(*w),
        grown(*old(rt), *final(rt), r@),
        made(*old(rt), work_move(*w, regs@, r@), *final(rt)),
{
    let ghost a = *rt;
    let ghost m = work_move(*w, regs@, Seq::empty());
    match *w {
        Work::Zip { op, i, j } => {
            let ins: [&Tensor; 2] = [&regs[i], &regs[j]];
            assert(derefs(ins@) =~= seq![regs@[i as int], regs@[j as int]]);
            single(apply(zip_op(op), ins.as_slice(), rt))
        },
        Work::Matmul { i, j } => {
            let ins: [&Tensor; 2] = [&regs[i], &regs[j]];
            assert(derefs(ins@) =~= seq![regs@[i as int], regs@[j as int]]);
            single(apply(OpType::Matmul, ins.as_slice(), rt))
        },
        Work::Softmax { i, dim } => {
            let ins: [&Tensor; 1] = [&regs[i]];
            assert(derefs(ins@) =~= seq![regs@[i as int]]);
            single(apply(OpType::Softmax { dim }, ins.as_slice(), rt))
        },
        Work::Sum { i, dim } => {
            let ins: [&Tensor; 1] = [&regs[i]];
            assert(derefs(ins@) =~= seq![regs@[i as int]]);
            single(apply(OpType::Sum { dim, keep_dim: true }, ins.as_slice(), rt))
        },
        Work::Turn { i, dim0, dim1 } => single(regs[i].transpose(dim0, dim1, rt)),
        Work::Fit { i, shape } => single(regs[i].reshape(shape, rt)),
        Work::Share { i } => {
            let t = regs[i].clone(rt);
            proof {
                lemma_shared_grown(a, *rt, regs@[i as int], t);
            }
            single(t)
        },
        Work::Number { value } => {
            let mut data: Vec<S> = Vec::new();
            data.push(value);
            let dims: [usize; 1] = [1];
            proof {
                lemma_dims1(1);
                assert(dims@ =~= seq![1usize]);
                assert(data@ =~= seq![value]);
            }
            let t = Tensor::from_f32_cuda(&data, Shape::new(&dims), regs[0].device, rt);
            proof {
                lemma_device_grown(a, *rt, t);
            }
            single(t)
        },
        Work::Zeros { shape } => {
            let t = Tensor::zeros_on(shape, DType::F32, regs[0].device, rt);
            proof {
                lemma_device_grown(a, *rt, t);
            }
            single(t)
        },
        Work::Written { shape } => {
            proof {
                lemma_bounded_fits(shape@);
            }
            let data = filled(shape.numel(), S::constant(Constant::Zero));
            assert(data@ =~= zeros_value::<S>(shape@).data);
            let t = Tensor::from_f32_cuda(&data, shape, regs[0].device, rt);
            proof {
                lemma_device_grown(a, *rt, t);
            }
            single(t)
        },
        Work::Nothing { shape } => {
            proof {
                lemma_bounded_fits(shape@);
            }
            let data = filled(shape.numel(), S::constant(Constant::Zero));
            assert(data@ =~= zeros_value::<S>(shape@).data);
            single(plain(data, shape, rt))
        },
        Work::Kernels { kernel: GradKernel::Batch { training, eps_bits }, i, l, .. } => {
            let eps = S::from_bits(eps_bits);
            let n: usize = regs.len();
            assert(i + 4 < n);
            let ts = regs[i].batchnorm_backward(
                &regs[i + 1],
                &regs[i + 2],
                &regs[i + 3],
                &regs[i + 4],
                &regs[l],
                training,
                eps,
                rt,
            );
            proof {
                let k = i as int;
                lemma_planned3_grown(
                    a,
                    *rt,
                    ts,
                    batchnorm_backward_launch(
                        regs@[k],
                        (regs@[k + 1], regs@[k + 2], regs@[k + 3], regs@[k + 4]),
                        regs@[l as int],
                        ts,
                        training,
                        eps,
                    ),
                );
            }
            let mut out: Vec<Tensor> = Vec::new();
            out.push(ts.0);
            out.push(ts.1);
            out.push(ts.2);
            assert(out@ =~= seq![ts.0, ts.1, ts.2]);
            out
        },
        Work::Kernels { kernel, i, j, k, l } => {
            proof {
                let four = seq![
                    regs@[i as int],
                    regs@[j as int],
                    regs@[k as int],
                    regs@[l as int],
                ];
                assert(kernel_ins(kernel, four, 0, 1, 2, 3) =~= kernel_ins(
                    kernel,
                    regs@,
                    i,
                    j,
                    k,
                    l,
                ));
            }
            queue_kernels(kernel, &regs[i], &regs[j], &regs[k], &regs[l], rt)
        },
    }
}

/// How many tensors the first `n` steps make.
pub open spec fn total<S>(program: Seq<Work<S>>, n: int) -> nat
    decreases n,
{
    if n <= 0 {
        0
    } else {
        total(program, n - 1) + width(program[n - 1])
    }
}

/// The change that step `n` makes, of a program that starts from `base` and makes `outs`.
pub open spec fn nth_move<S: Scalar>(
    program: Seq<Work<S>>,
    n: int,
    base: Seq<Tensor>,
    outs: Seq<Tensor>,
) -> Move<S> {
    let from = total(program, n) as int;
    work_move(
        program[n],
        base + outs.subrange(0, from),
        outs.subrange(from, from + width(program[n])),
    )
}

/// The changes that the first `n` steps make.
pub open spec fn all_moves<S: Scalar>(
    program: Seq<Work<S>>,
    n: int,
    base: Seq<Tensor>,
    outs: Seq<Tensor>,
) -> Seq<Move<S>> {
    Seq::new(n as nat, |i: int| nth_move(program, i, base, outs))
}

/// A program names only tensors that are there.
pub open spec fn orderly<S>(program: Seq<Work<S>>, base: nat) -> bool {
    &&& total(program, program.len() as int) <= usize::MAX
    &&& forall|i: int|
        0 <= i < program.len() ==> names(#[trigger] program[i], base + total(program, i))
}

/// Every step of a program can be done, whatever the steps before it made.
pub open spec fn clear<S: Scalar>(
    a: Runtime<S>,
    program: Seq<Work<S>>,
    base: Seq<Tensor>,
) -> bool {
    forall|n: int, outs: Seq<Tensor>, mid: Runtime<S>|
        0 <= n < program.len() && outs.len() == total(program, program.len() as int) && mid.wf()
            && #[trigger] trail(a, mid, all_moves(program, n, base, outs)) ==> feasible(
            mid,
            nth_move(program, n, base, outs),
        )
}

proof fn lemma_total<S>(program: Seq<Work<S>>, m: int, n: int)
    requires
        0 <= m <= n,
    ensures
        total(program, m) <= total(program, n),
    decreases n,
{
    if m < n {
        lemma_total(program, m, n - 1);
    }
}

/// Steps depend only on what was made before them.
proof fn lemma_same_moves<S: Scalar>(
    program: Seq<Work<S>>,
    n: int,
    base: Seq<Tensor>,
    xs: Seq<Tensor>,
    ys: Seq<Tensor>,
)
    requires
        0 <= n <= program.len(),
        xs.len() >= total(program, n),
        ys.len() >= total(program, n),
        xs.subrange(0, total(program, n) as int) == ys.subrange(0, total(program, n) as int),
    ensures
        all_moves(program, n, base, xs) == all_moves(program, n, base, ys),
{
    let t = total(program, n) as int;
    assert forall|i: int| 0 <= i < n implies nth_move(program, i, base, xs) == nth_move(
        program,
        i,
        base,
        ys,
    ) by {
        lemma_total(program, i + 1, n);
        let from = total(program, i) as int;
        let to = from + width(program[i]);
        assert(to == total(program, i + 1));
        assert(xs.subrange(0, t).subrange(0, from) =~= xs.subrange(0, from));
        assert(ys.subrange(0, t).subrange(0, from) =~= ys.subrange(0, from));
        assert(xs.subrange(0, t).subrange(from, to) =~= xs.subrange(from, to));
        assert(ys.subrange(0, t).subrange(from, to) =~= ys.subrange(from, to));
    }
    assert(all_moves(program, n, base, xs) =~= all_moves(program, n, base, ys));
}

/// Whether a change can be made does not depend on the handles that it will make.
proof fn lemma_feasible<S: Scalar>(
    rt: Runtime<S>,
    w: Work<S>,
    regs: Seq<Tensor>,
    xs: Seq<Tensor>,
    ys: Seq<Tensor>,
)
    ensures
        feasible(rt, work_move(w, regs, xs)) == feasible(rt, work_move(w, regs, ys)),
{
}

/// Does all steps of a program, one after the other.
#[verifier::spinoff_prover]
#[verifier::rlimit(80)]
pub fn perform<S: Scalar>(program: &Vec<Work<S>>, base: &Vec<Tensor>, rt: &mut Runtime<S>) -> (r:
    Vec<Tensor>)
    requires
        old(rt).wf(),
        orderly(program@, base@.len()),
        clear(*old(rt), program@, base@),
    ensures
        final(rt).wf(),
        r@.len() == total(program@, program@.len() as int),
        grown(*old(rt), *final(rt), r@),
        trail(
            *old(rt),
            *final(rt),
            all_moves(program@, program@.len() as int, base@, r@),
        ),
{
    let ghost a = *rt;
    let ghost p = program@;
    let ghost all = total(p, p.len() as int);
    let mut regs: Vec<Tensor> = Vec::new();
    let mut b: usize = 0;
    while b < base.len()
        invariant
            b <= base@.len(),
            regs@ == base@.subrange(0, b as int),
        decreases base@.len() - b,
    {
        regs.push(alias(&base[b]));
        b = b + 1;
        assert(regs@ =~= base@.subrange(0, b as int));
    }
    let mut out: Vec<Tensor> = Vec::new();
    let mut n: usize = 0;
    proof {
        assert(base@.subrange(0, base@.len() as int) =~= base@);
        assert(base@ + out@ =~= base@);
        crate::scope::lemma_grown_refl(a);
        lemma_still(a);
        assert(out@ =~= Seq::<Tensor>::empty());
        assert(all_moves(p, 0, base@, out@) =~= Seq::empty());
    }
    while n < program.len()
        invariant
            n <= p.len(),
            p == program@,
            all == total(p, p.len() as int),
            a.wf(),
            rt.wf(),
            orderly(p, base@.len()),
            clear(a, p, base@),
            out@.len() == total(p, n as int),
            regs@ == base@ + out@,
            grown(a, *rt, out@),
            trail(a, *rt, all_moves(p, n as int, base@, out@)),
        decreases p.len() - n,
    {
        let ghost c = *rt;
        let ghost before = out@;
        let ghost from = before.len() as int;
        let ghost w = p[n as int];
        let ghost full = before + Seq::new((all - before.len()) as nat, |i: int| base@[0]);
        proof {
            lemma_total(p, n as int, p.len() as int);
            assert(full.subrange(0, from) =~= before);
            assert(before.subrange(0, from) =~= before);
            lemma_same_moves(p, n as int, base@, before, full);
            assert(trail(a, c, all_moves(p, n as int, base@, full)));
            assert(feasible(c, nth_move(p, n as int, base@, full)));
            lemma_feasible(
                c,
                w,
                regs@,
                full.subrange(from, from + width(w)),
                Seq::empty(),
            );
            assert(names(p[n as int], base@.len() + total(p, n as int)));
        }
        let mut made_now = work_once(&program[n], &regs, rt);
        let ghost new = made_now@;
        let mut i: usize = 0;
        while i < made_now.len()
            invariant
                i <= made_now@.len(),
                new == made_now@,
                regs@ == base@ + before + new.subrange(0, i as int),
            decreases made_now@.len() - i,
        {
            let t = alias(&made_now[i]);
            regs.push(t);
            i = i + 1;
            assert(regs@ =~= base@ + before + new.subrange(0, i as int));
        }
        out.append(&mut made_now);
        proof {
            assert(new.subrange(0, new.len() as int) =~= new);
            assert(out@ =~= before + new);
            assert(regs@ =~= base@ + out@);
            crate::scope::lemma_grown_trans(a, c, *rt, before, new);
            assert(out@.subrange(0, from) =~= before);
            lemma_same_moves(p, n as int, base@, before, out@);
            assert(out@.subrange(from, from + width(w)) =~= new);
            assert(nth_move(p, n as int, base@, out@) == work_move(w, base@ + before, new));
            lemma_move(
                a,
                c,
                *rt,
                all_moves(p, n as int, base@, out@),
                nth_move(p, n as int, base@, out@),
            );
            assert(all_moves(p, n + 1, base@, out@) =~= all_moves(
                p,
                n as int,
                base@,
                out@,
            ).push(nth_move(p, n as int, base@, out@)));
        }
        n = n + 1;
    }
    out
}

} // verus!
