//! Running an operation on CUDA tensors.
use vstd::prelude::*;
use crate::cpu::conv::{conv_dims, conv_geometry, window_ok};
use crate::cpu::matmul::{batch_dims, cols, matmul_dims, rows};
use crate::cpu::pool::{pool_dims, pool_window};
use crate::cpu::reduce::reduced_dims;
use crate::create::{device_added, device_room, device_roomy};
use crate::cuda::command::{launchable, Kernel, LaunchView};
use crate::cuda::forward::{
    binary_launch, embedding_launch, layernorm_launch, on_cuda, packed, reduction_launch, room_for,
    softmax_launch, unary_launch,
};
use crate::cuda::images::{conv_launch, pool_launch, pool_ready};
use crate::cuda::matmul::matmul_launch;
use crate::cuda::norms::loss_planned;
use crate::cuda::plan::{on_device, planned, queued};
use crate::forward::{flows, metas, tracks};
use crate::handle::{no_meta, same_meta, undisturbed};
use crate::index::{bounded, numel};
use crate::op::OpType;
use crate::custody::discarded;
use crate::runtime::Runtime;
use crate::scalar::Scalar;
use crate::scope::{grown, lemma_op_grown, spent};
use crate::shape::{broadcast_dims, broadcastable};
use crate::tape::{derefs, lemma_valid_kept, lemma_valid_refs};
use crate::tensor::{Key, Tensor};
use crate::track::{can_op, taped, track_op};

verus! {

/// The operation can be launched on the inputs.
pub open spec fn launch_ready<S>(rt: Runtime<S>, op: OpType, ins: Seq<Tensor>) -> bool {
    let x = ins[0];
    match op {
        OpType::Add | OpType::Sub | OpType::Mul | OpType::Div => {
            let dims = broadcast_dims(ins[0].shape@, ins[1].shape@);
            &&& ins.len() == 2
            &&& on_cuda(rt, ins[0])
            &&& on_cuda(rt, ins[1])
            &&& broadcastable(ins[0].shape@, ins[1].shape@)
            &&& bounded(dims)
            &&& room_for(rt, numel(dims))
        },
        OpType::Matmul => {
            let a = ins[0].shape@;
            let b = ins[1].shape@;
            &&& ins.len() == 2
            &&& packed(rt, ins[0])
            &&& packed(rt, ins[1])
            &&& a.len() >= 2
            &&& b.len() >= 2
            &&& cols(a) == rows(b)
            &&& broadcastable(batch_dims(a), batch_dims(b))
            &&& bounded(matmul_dims(a, b))
            &&& rt.mem.cells.room() > 0
            &&& device_room(rt, numel(matmul_dims(a, b)) as usize)
            &&& rows(a) + 15 <= u32::MAX
            &&& cols(b) + 15 <= u32::MAX
            &&& numel(broadcast_dims(batch_dims(a), batch_dims(b))) <= u32::MAX
        },
        OpType::Relu | OpType::Gelu => {
            &&& ins.len() == 1
            &&& packed(rt, x)
            &&& room_for(rt, numel(x.shape@))
        },
        OpType::Softmax { dim } => {
            &&& ins.len() == 1
            &&& packed(rt, x)
            &&& dim < x.shape@.len()
            &&& room_for(rt, numel(x.shape@))
        },
        OpType::Sum { dim, keep_dim } => {
            &&& ins.len() == 1
            &&& on_cuda(rt, x)
            &&& dim < x.shape@.len()
            &&& room_for(rt, numel(reduced_dims(x.shape@, dim as int, keep_dim)))
        },
        OpType::Mean { dim, keep_dim } => {
            &&& ins.len() == 1
            &&& on_cuda(rt, x)
            &&& dim < x.shape@.len()
            &&& room_for(rt, numel(reduced_dims(x.shape@, dim as int, keep_dim)))
        },
        OpType::LayerNorm { eps_bits } => {
            &&& ins.len() == 3
            &&& packed(rt, x)
            &&& on_cuda(rt, ins[1])
            &&& on_cuda(rt, ins[2])
            &&& numel(x.shape@) > 0 ==> x.shape@.len() > 0
            &&& room_for(rt, numel(x.shape@))
        },
        OpType::Embedding => {
            let dims = x.shape@.push(ins[1].shape@[1]);
            &&& ins.len() == 2
            &&& packed(rt, x)
            &&& on_cuda(rt, ins[1])
            &&& ins[1].shape@.len() >= 2
            &&& x.shape@.len() < 8
            &&& bounded(dims)
            &&& launchable(numel(x.shape@))
            &&& room_for(rt, numel(dims))
        },
        OpType::CrossEntropy => {
            &&& ins.len() == 2
            &&& packed(rt, x)
            &&& on_cuda(rt, ins[1])
            &&& x.shape@.len() >= 2
            &&& launchable(x.shape@[0] as nat)
            &&& rt.mem.cells.room() >= 2
            &&& device_roomy(rt, 2, x.shape@[0] + 1)
        },
        OpType::Conv2d { stride, padding } => {
            let w = ins[1].shape@;
            let dims = conv_dims(conv_geometry(x.shape@, w, stride, padding));
            &&& ins.len() == 3
            &&& packed(rt, ins[0])
            &&& packed(rt, ins[1])
            &&& packed(rt, ins[2])
            &&& x.shape@.len() == 4
            &&& w.len() == 4
            &&& window_ok(x.shape@, w[2], w[3], stride, padding)
            &&& bounded(dims)
            &&& room_for(rt, numel(dims))
        },
        OpType::MaxPool2d { kernel_size, stride, padding } => ins.len() == 1 && pool_ready(
            rt,
            x,
            kernel_size,
            stride,
            padding,
        ),
        OpType::AvgPool2d { kernel_size, stride, padding } => ins.len() == 1 && pool_ready(
            rt,
            x,
            kernel_size,
            stride,
            padding,
        ),
        _ => false,
    }
}

/// The step from `a` to `b` that queues an operation with the output `r`.
pub open spec fn launched<S: Scalar>(
    a: Runtime<S>,
    b: Runtime<S>,
    op: OpType,
    ins: Seq<Tensor>,
    r: Tensor,
) -> bool {
    match op {
        OpType::Add => planned(a, b, r, binary_launch(ins[0], ins[1], r, Kernel::AddBroadcast)),
        OpType::Sub => planned(a, b, r, binary_launch(ins[0], ins[1], r, Kernel::SubBroadcast)),
        OpType::Mul => planned(a, b, r, binary_launch(ins[0], ins[1], r, Kernel::MulBroadcast)),
        OpType::Div => planned(a, b, r, binary_launch(ins[0], ins[1], r, Kernel::DivBroadcast)),
        OpType::Matmul => planned(a, b, r, matmul_launch(ins[0], ins[1], r)),
        OpType::Relu => planned(a, b, r, unary_launch(ins[0], r, Kernel::ReluForward)),
        OpType::Gelu => planned(a, b, r, unary_launch(ins[0], r, Kernel::GeluForward)),
        OpType::Softmax { dim } => planned(a, b, r, softmax_launch(ins[0], dim, r)),
        OpType::Sum { dim, keep_dim } => planned(
            a,
            b,
            r,
            reduction_launch(ins[0], dim, r, Kernel::Sum),
        ),
        OpType::Mean { dim, keep_dim } => planned(
            a,
            b,
            r,
            reduction_launch(ins[0], dim, r, Kernel::Mean),
        ),
        OpType::LayerNorm { eps_bits } => planned(
            a,
            b,
            r,
            layernorm_launch(ins[0], ins[1], ins[2], S::from_bits_spec(eps_bits), r),
        ),
        OpType::Embedding => planned(a, b, r, embedding_launch(ins[0], ins[1], r)),
        OpType::CrossEntropy => loss_planned(a, b, ins[0], ins[1], r),
        OpType::Conv2d { stride, padding } => planned(
            a,
            b,
            r,
            conv_launch(ins[0], ins[1], ins[2], r, stride, padding),
        ),
        OpType::MaxPool2d { kernel_size, stride, padding } => planned(
            a,
            b,
            r,
            pool_launch(ins[0], r, kernel_size, stride, padding, Kernel::Maxpool2dForward),
        ),
        OpType::AvgPool2d { kernel_size, stride, padding } => planned(
            a,
            b,
            r,
            pool_launch(ins[0], r, kernel_size, stride, padding, Kernel::Avgpool2dForward),
        ),
        _ => false,
    }
}

/// The extents of the output of an operation on the device.
pub open spec fn launch_dims(op: OpType, ins: Seq<Tensor>) -> Seq<usize> {
    let x = ins[0].shape@;
    match op {
        OpType::Add | OpType::Sub | OpType::Mul | OpType::Div => broadcast_dims(
            x,
            ins[1].shape@,
        ),
        OpType::Matmul => matmul_dims(x, ins[1].shape@),
        OpType::Sum { dim, keep_dim } => reduced_dims(x, dim as int, keep_dim),
        OpType::Mean { dim, keep_dim } => reduced_dims(x, dim as int, keep_dim),
        OpType::Embedding => x.push(ins[1].shape@[1]),
        OpType::CrossEntropy => if x[0] == 0 {
            seq![1usize]
        } else {
            Seq::<usize>::empty()
        },
        OpType::Conv2d { stride, padding } => conv_dims(
            conv_geometry(x, ins[1].shape@, stride, padding),
        ),
        OpType::MaxPool2d { kernel_size, stride, padding } => pool_dims(
            x,
            pool_window(x, kernel_size, stride, padding),
        ),
        OpType::AvgPool2d { kernel_size, stride, padding } => pool_dims(
            x,
            pool_window(x, kernel_size, stride, padding),
        ),
        _ => x,
    }
}

/// What an operation on `ins` leaves alone: the tape, and the inputs with their references.
pub open spec fn spares<S>(a: Runtime<S>, b: Runtime<S>, ins: Seq<Tensor>) -> bool {
    &&& b.tape == a.tape
    &&& b.mem.cells.room() >= a.mem.cells.room() - 1
    &&& forall|i: int|
        0 <= i < ins.len() ==> (#[trigger] ins[i]).valid(b.mem) && b.mem.refs(ins[i].key())
            <= a.mem.refs(ins[i].key()) && ins[i].meta(b.mem) == ins[i].meta(a.mem)
}

proof fn lemma_added_spares<S>(a: Runtime<S>, b: Runtime<S>, t: Tensor, ins: Seq<Tensor>)
    requires
        a.wf(),
        device_added(a, b, t, no_meta()),
        forall|i: int| 0 <= i < ins.len() ==> (#[trigger] ins[i]).valid(a.mem),
    ensures
        spares(a, b, ins),
        forall|i: int|
            0 <= i < ins.len() ==> (#[trigger] ins[i]).key() != t.key() && ins[i].cell != t.cell,
{
    assert forall|i: int| 0 <= i < ins.len() implies (#[trigger] ins[i]).valid(b.mem)
        && b.mem.refs(ins[i].key()) <= a.mem.refs(ins[i].key()) && ins[i].meta(b.mem)
        == ins[i].meta(a.mem) && ins[i].key() != t.key() && ins[i].cell != t.cell by {
        let u = ins[i];
        lemma_valid_refs(a.mem, u);
        assert(u.key() != t.key());
        assert(b.mem.refs(u.key()) == a.mem.refs(u.key()));
        lemma_valid_kept(a.mem, b.mem, u);
    }
}

pub proof fn lemma_planned_spares<S>(
    a: Runtime<S>,
    b: Runtime<S>,
    t: Tensor,
    ls: Seq<LaunchView<S>>,
    ins: Seq<Tensor>,
)
    requires
        a.wf(),
        planned(a, b, t, ls),
        forall|i: int| 0 <= i < ins.len() ==> (#[trigger] ins[i]).valid(a.mem),
    ensures
        spares(a, b, ins),
        t.device is Cuda,
        forall|i: int|
            0 <= i < ins.len() ==> (#[trigger] ins[i]).key() != t.key() && ins[i].cell != t.cell,
{
    let mid = choose|mid: Runtime<S>|
        #[trigger] device_added(a, mid, t, no_meta()) && queued(mid, b, ls);
    lemma_added_spares(a, mid, t, ins);
    assert forall|i: int| 0 <= i < ins.len() implies (#[trigger] ins[i]).valid(b.mem)
        && b.mem.refs(ins[i].key()) <= a.mem.refs(ins[i].key()) && ins[i].meta(b.mem)
        == ins[i].meta(a.mem) by {
        assert(ins[i].valid(mid.mem));
    }
}

proof fn lemma_loss_spares<S>(
    a: Runtime<S>,
    b: Runtime<S>,
    logits: Tensor,
    targets: Tensor,
    r: Tensor,
    ins: Seq<Tensor>,
)
    requires
        a.wf(),
        b.wf(),
        loss_planned(a, b, logits, targets, r),
        forall|i: int| 0 <= i < ins.len() ==> (#[trigger] ins[i]).valid(a.mem),
    ensures
        spares(a, b, ins),
{
    if logits.shape@[0] == 0 {
        lemma_added_spares(a, b, r, ins);
    } else {
        let (m, n, rows) = choose|m: Runtime<S>, n: Runtime<S>, rows: Tensor|
            {
                &&& #[trigger] planned(
                    a,
                    m,
                    rows,
                    seq![crate::cuda::norms::row_loss_launch(logits, targets, rows)],
                )
                &&& #[trigger] planned(m, n, r, reduction_launch(rows, 0, r, Kernel::Mean))
                &&& discarded(n, b, rows)
            };
        lemma_loss_steps(a, m, n, b, rows, r, logits, targets, ins);
    }
}

proof fn lemma_loss_steps<S>(
    a: Runtime<S>,
    m: Runtime<S>,
    n: Runtime<S>,
    b: Runtime<S>,
    rows: Tensor,
    r: Tensor,
    logits: Tensor,
    targets: Tensor,
    ins: Seq<Tensor>,
)
    requires
        a.wf(),
        b.wf(),
        planned(
            a,
            m,
            rows,
            seq![crate::cuda::norms::row_loss_launch(logits, targets, rows)],
        ),
        planned(m, n, r, reduction_launch(rows, 0, r, Kernel::Mean)),
        discarded(n, b, rows),
        forall|i: int| 0 <= i < ins.len() ==> (#[trigger] ins[i]).valid(a.mem),
    ensures
        spares(a, b, ins),
{
    let l1 = seq![crate::cuda::norms::row_loss_launch::<S>(logits, targets, rows)];
    let l2 = reduction_launch::<S>(rows, 0, r, Kernel::Mean);
    lemma_planned_spares(a, m, rows, l1, ins);
    let k1 = choose|k1: Runtime<S>|
        #[trigger] device_added(a, k1, rows, no_meta()) && queued(k1, m, l1);
    let k2 = choose|k2: Runtime<S>| #[trigger] device_added(m, k2, r, no_meta()) && queued(k2, n, l2);
    assert forall|i: int| 0 <= i < ins.len() implies (#[trigger] ins[i]).valid(b.mem)
        && b.mem.refs(ins[i].key()) <= a.mem.refs(ins[i].key()) && ins[i].meta(b.mem)
        == ins[i].meta(a.mem) by {
        let u = ins[i];
        lemma_valid_refs(a.mem, u);
        assert(u.valid(m.mem));
        assert(u.key() != rows.key() && u.cell != rows.cell);
        assert(m.mem.refs(u.key()) == a.mem.refs(u.key()));
        assert(u.key() != r.key()) by {
            assert(m.mem.refs(u.key()) > 0);
        }
        assert(u.cell != r.cell);
        assert(n.mem.refs(u.key()) == m.mem.refs(u.key()));
        assert(n.mem.cells@.contains_key(u.cell));
        assert(b.mem.refs(u.key()) == n.mem.refs(u.key()));
        lemma_valid_kept(a.mem, b.mem, u);
    }
}

/// Queues an operation on CUDA tensors.
fn launch_op<S: Scalar>(op: &OpType, inputs: &[&Tensor], rt: &mut Runtime<S>) -> (r: Tensor)
    requires
        old(rt).wf(),
        launch_ready(*old(rt), *op, derefs(inputs@)),
    ensures
        final(rt).wf(),
        on_device(*final(rt), r, launch_dims(*op, derefs(inputs@))),
        undisturbed(*old(rt), *final(rt)),
        launched(*old(rt), *final(rt), *op, derefs(inputs@), r),
{
    let ghost ins = derefs(inputs@);
    assert(ins.len() > 0);
    assert(ins[0] == *inputs@[0]);
    let x: &Tensor = inputs[0];
    match op {
        OpType::Add => {
            assert(ins[1] == *inputs@[1]);
            crate::cuda::forward::add(x, inputs[1], rt)
        },
        OpType::Sub => {
            assert(ins[1] == *inputs@[1]);
            crate::cuda::forward::sub(x, inputs[1], rt)
        },
        OpType::Mul => {
            assert(ins[1] == *inputs@[1]);
            crate::cuda::forward::mul(x, inputs[1], rt)
        },
        OpType::Div => {
            assert(ins[1] == *inputs@[1]);
            crate::cuda::forward::div(x, inputs[1], rt)
        },
        OpType::Matmul => {
            assert(ins[1] == *inputs@[1]);
            crate::cuda::matmul::matmul(x, inputs[1], rt)
        },
        OpType::Relu => crate::cuda::forward::relu(x, rt),
        OpType::Gelu => crate::cuda::forward::gelu(x, rt),
        OpType::Softmax { dim } => crate::cuda::forward::softmax(x, *dim, rt),
        OpType::Sum { dim, keep_dim } => crate::cuda::forward::sum(x, *dim, *keep_dim, rt),
        OpType::Mean { dim, keep_dim } => crate::cuda::forward::mean(x, *dim, *keep_dim, rt),
        OpType::LayerNorm { eps_bits } => {
            assert(ins[1] == *inputs@[1]);
            assert(ins[2] == *inputs@[2]);
            crate::cuda::forward::layernorm(
                x,
                inputs[1],
                inputs[2],
                S::from_bits(*eps_bits),
                rt,
            )
        },
        OpType::Embedding => {
            assert(ins[1] == *inputs@[1]);
            crate::cuda::forward::embedding(x, inputs[1], rt)
        },
        OpType::CrossEntropy => {
            assert(ins[1] == *inputs@[1]);
            crate::cuda::norms::cross_entropy(x, inputs[1], rt)
        },
        OpType::Conv2d { stride, padding } => {
            assert(ins[1] == *inputs@[1]);
            assert(ins[2] == *inputs@[2]);
            crate::cuda::images::conv2d(x, inputs[1], inputs[2], *stride, *padding, rt)
        },
        OpType::MaxPool2d { kernel_size, stride, padding } => crate::cuda::images::maxpool2d(
            x,
            *kernel_size,
            *stride,
            *padding,
            rt,
        ),
        OpType::AvgPool2d { kernel_size, stride, padding } => crate::cuda::images::avgpool2d(
            x,
            *kernel_size,
            *stride,
            *padding,
            rt,
        ),
        _ => {
            assert(false);
            vstd::pervasive::unreached()
        },
    }
}

/// Everything that an operation on CUDA tensors needs.
pub open spec fn cuda_ready<S: Scalar>(rt: Runtime<S>, op: OpType, ins: Seq<Tensor>) -> bool {
    &&& rt.hooks.cuda_ops
    &&& can_op(rt, ins)
    &&& launch_ready(rt, op, ins)
}

/// `r` is the output of an operation on CUDA tensors: a new row-major tensor, with the launches
/// that fill it queued, recorded where gradients flow.
pub open spec fn cuda_computed<S: Scalar>(
    a: Runtime<S>,
    b: Runtime<S>,
    op: OpType,
    ins: Seq<Tensor>,
    r: Tensor,
) -> bool {
    &&& on_device(b, r, launch_dims(op, ins))
    &&& exists|mid: Runtime<S>|
        #[trigger] launched(a, mid, op, ins, r) && taped(
            mid,
            b,
            op,
            ins,
            0,
            r,
            tracks(op, metas(ins, a.mem)),
        )
}

/// `packs` are row-major copies of `ins`, or `ins` themselves.
pub open spec fn packs_of(packs: Seq<Tensor>, ins: Seq<Tensor>) -> bool {
    &&& packs.len() == ins.len()
    &&& forall|i: int| 0 <= i < packs.len() ==> (#[trigger] packs[i]).shape@ == ins[i].shape@
}

/// `r` is the output of an operation on CUDA tensors that reads `packs` in their place.
pub open spec fn cuda_computed_from<S: Scalar>(
    a: Runtime<S>,
    b: Runtime<S>,
    op: OpType,
    ins: Seq<Tensor>,
    packs: Seq<Tensor>,
    r: Tensor,
) -> bool {
    &&& on_device(b, r, launch_dims(op, packs))
    &&& exists|mid: Runtime<S>|
        #[trigger] launched(a, mid, op, packs, r) && taped(
            mid,
            b,
            op,
            ins,
            0,
            r,
            tracks(op, metas(ins, a.mem)),
        )
}

/// Queues an operation on CUDA tensors, whatever their layout: the kernels read the row-major
/// copies `packs`, and what is recorded where gradients flow are the tensors themselves.
pub fn dispatch_packed<S: Scalar>(
    op: OpType,
    inputs: &[&Tensor],
    packs: &[&Tensor],
    rt: &mut Runtime<S>,
) -> (r: Tensor)
    requires
        old(rt).wf(),
        old(rt).hooks.cuda_ops,
        can_op(*old(rt), derefs(inputs@)),
        launch_ready(*old(rt), op, derefs(packs@)),
        packs_of(derefs(packs@), derefs(inputs@)),
    ensures
        final(rt).wf(),
        r.owned(*final(rt)),
        undisturbed(*old(rt), *final(rt)),
        cuda_computed_from(*old(rt), *final(rt), op, derefs(inputs@), derefs(packs@), r),
        !(op is CrossEntropy) ==> grown(*old(rt), *final(rt), seq![r]),
        !(op is CrossEntropy) ==> spent(*old(rt), *final(rt), 1),
{
    let ghost before = *rt;
    let ghost ins = derefs(inputs@);
    let ghost reads = derefs(packs@);
    proof {
        assert forall|i: int| 0 <= i < inputs@.len() implies (#[trigger] inputs@[i]).valid(
            rt.mem,
        ) by {
            assert(ins[i] == *inputs@[i]);
            assert(ins[i].valid(rt.mem));
        }
    }
    let track = flows(&op, inputs, rt);
    let r = launch_op(&op, packs, rt);
    let ghost mid = *rt;
    proof {
        lemma_launched_spares(before, mid, op, reads, r, ins);
        assert forall|i: int| 0 <= i < ins.len() implies (#[trigger] ins[i]).valid(mid.mem)
            && mid.mem.refs(ins[i].key()) + ins.len() <= usize::MAX by {
            assert(before.mem.refs(ins[i].key()) + ins.len() + 1 <= usize::MAX);
        }
    }
    track_op(op, inputs, 0, &r, track, rt);
    proof {
        if !(op is CrossEntropy) {
            let ls = choose|ls: Seq<LaunchView<S>>| planned(before, mid, r, ls);
            lemma_planned_new(before, mid, r, ls);
            lemma_op_grown(before, mid, *rt, r, inputs@.len());
        }
    }
    r
}

/// Queues an operation on CUDA tensors, and records it where gradients flow.
pub(crate) fn dispatch_cuda<S: Scalar>(
    op: OpType,
    inputs: &[&Tensor],
    rt: &mut Runtime<S>,
) -> (r: Tensor)
    requires
        old(rt).wf(),
        cuda_ready(*old(rt), op, derefs(inputs@)),
    ensures
        final(rt).wf(),
        r.owned(*final(rt)),
        undisturbed(*old(rt), *final(rt)),
        cuda_computed(*old(rt), *final(rt), op, derefs(inputs@), r),
        !(op is CrossEntropy) ==> grown(*old(rt), *final(rt), seq![r]),
        !(op is CrossEntropy) ==> spent(*old(rt), *final(rt), 1),
{
    dispatch_packed(op, inputs, inputs, rt)
}

/// What making a tensor on the device and queueing launches changes.
pub proof fn lemma_planned_new<S>(
    a: Runtime<S>,
    b: Runtime<S>,
    r: Tensor,
    ls: Seq<LaunchView<S>>,
)
    requires
        planned(a, b, r, ls),
    ensures
        b.holds() == a.holds(),
        b.tape == a.tape,
        same_meta(a, b),
        !a.mem.cells@.contains_key(r.cell),
        b.mem.cells@.contains_key(r.cell),
        b.mem.cells@[r.cell] == no_meta(),
        b.mem.cells.room() == a.mem.cells.room() - 1,
        b.mem.arena == a.mem.arena,
        forall|k: Key| #[trigger]
            b.mem.refs(k) == a.mem.refs(k) + (if k == r.key() {
                1nat
            } else {
                0nat
            }),
        b.hooks == a.hooks,
        b.mode == a.mode,
{
}

proof fn lemma_launched_spares<S: Scalar>(
    a: Runtime<S>,
    b: Runtime<S>,
    op: OpType,
    ins: Seq<Tensor>,
    r: Tensor,
    ts: Seq<Tensor>,
)
    requires
        a.wf(),
        b.wf(),
        launched(a, b, op, ins, r),
        forall|i: int| 0 <= i < ts.len() ==> (#[trigger] ts[i]).valid(a.mem),
    ensures
        spares(a, b, ts),
{
    if op is CrossEntropy {
        lemma_loss_spares(a, b, ins[0], ins[1], r, ts);
    } else {
        let ls = choose|ls: Seq<LaunchView<S>>| planned(a, b, r, ls);
        lemma_planned_spares(a, b, r, ls, ts);
    }
}

} // verus!
