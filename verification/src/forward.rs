//! Computing operations on CPU tensors.
use vstd::prelude::*;
use crate::cells::Meta;
use crate::cpu::attention::{attention_ok, attention_value, fused_attention};
use crate::cpu::avgpool::{avgpool2d, avgpool_value};
use crate::cpu::conv::{conv2d, conv_ok, conv_value};
use crate::cpu::elementwise::{
    elementwise_op, gelu, map_value, relu, zip_ok, zip_value, BinaryOp, UnaryOp,
};
use crate::cpu::loss::{
    cross_entropy, cross_entropy_ok, cross_entropy_value, embedding, embedding_ok, embedding_value,
};
use crate::cpu::matmul::{matmul, matmul_ok, matmul_value};
use crate::cpu::norm::{layernorm, layernorm_ok, layernorm_value};
use crate::cpu::pool::{maxpool2d, maxpool_value, pool_ok};
use crate::cpu::reduce::{mean, mean_value, softmax, softmax_value, sum, sum_value};
use crate::dense::{Dense, Value};
use crate::device::Device;
use crate::dtype::DType;
use crate::handle::{added, no_meta, undisturbed};
use crate::index::lemma_bounded_fits;
use crate::op::OpType;
use crate::perm::lemma_strided_row_major;
use crate::record::can_record;
use crate::runtime::Runtime;
use crate::scalar::Scalar;
use crate::scope::{grown, lemma_op_grown, spent};
use crate::storage::{Block, CpuStorage};
use crate::tape::{derefs, lemma_valid_kept, lemma_valid_refs};
use crate::tensor::{Memory, Tensor};
use crate::track::{can_op, taped, track_op};

verus! {

/// The optional mask of an attention's inputs.
pub open spec fn mask_of<S>(ins: Seq<Value<S>>) -> Option<Value<S>> {
    if ins.len() == 4 {
        Some(ins[3])
    } else {
        None
    }
}

/// The operation can be computed on the inputs.
pub open spec fn forward_ok<S: Scalar>(op: OpType, ins: Seq<Value<S>>) -> bool {
    match op {
        OpType::Add | OpType::Sub | OpType::Mul | OpType::Div => ins.len() == 2 && zip_ok(
            ins[0],
            ins[1],
        ),
        OpType::Matmul => ins.len() == 2 && matmul_ok(ins[0], ins[1]),
        OpType::Relu | OpType::Gelu => ins.len() == 1,
        OpType::Softmax { dim } => ins.len() == 1 && dim < ins[0].dims.len(),
        OpType::Sum { dim, keep_dim } => ins.len() == 1 && dim < ins[0].dims.len(),
        OpType::Mean { dim, keep_dim } => ins.len() == 1 && dim < ins[0].dims.len(),
        OpType::LayerNorm { eps_bits } => ins.len() == 3 && layernorm_ok(ins[0], ins[1], ins[2]),
        OpType::Embedding => ins.len() == 2 && embedding_ok(ins[0], ins[1]),
        OpType::CrossEntropy => ins.len() == 2 && cross_entropy_ok(ins[0], ins[1]),
        OpType::Conv2d { stride, padding } => ins.len() == 3 && conv_ok(
            ins[0],
            ins[1],
            ins[2],
            stride,
            padding,
        ),
        OpType::MaxPool2d { kernel_size, stride, padding } => ins.len() == 1 && pool_ok(
            ins[0],
            kernel_size,
            stride,
            padding,
        ),
        OpType::AvgPool2d { kernel_size, stride, padding } => ins.len() == 1 && pool_ok(
            ins[0],
            kernel_size,
            stride,
            padding,
        ),
        OpType::FusedAttention => (ins.len() == 3 || ins.len() == 4) && attention_ok(
            ins[0],
            ins[1],
            ins[2],
            mask_of(ins),
        ),
        _ => false,
    }
}

/// What the operation computes.
pub open spec fn forward_value<S: Scalar>(op: OpType, ins: Seq<Value<S>>) -> Value<S> {
    match op {
        OpType::Add => zip_value(ins[0], ins[1], BinaryOp::Add),
        OpType::Sub => zip_value(ins[0], ins[1], BinaryOp::Sub),
        OpType::Mul => zip_value(ins[0], ins[1], BinaryOp::Mul),
        OpType::Div => zip_value(ins[0], ins[1], BinaryOp::Div),
        OpType::Matmul => matmul_value(ins[0], ins[1]),
        OpType::Relu => map_value(ins[0], UnaryOp::Relu),
        OpType::Gelu => map_value(ins[0], UnaryOp::Gelu),
        OpType::Softmax { dim } => softmax_value(ins[0], dim as int),
        OpType::Sum { dim, keep_dim } => sum_value(ins[0], dim as int, keep_dim),
        OpType::Mean { dim, keep_dim } => mean_value(ins[0], dim as int, keep_dim),
        OpType::LayerNorm { eps_bits } => layernorm_value(
            ins[0],
            ins[1],
            ins[2],
            S::from_bits_spec(eps_bits),
        ),
        OpType::Embedding => embedding_value(ins[0], ins[1]),
        OpType::CrossEntropy => cross_entropy_value(ins[0], ins[1]),
        OpType::Conv2d { stride, padding } => conv_value(ins[0], ins[1], ins[2], stride, padding),
        OpType::MaxPool2d { kernel_size, stride, padding } => maxpool_value(
            ins[0],
            kernel_size,
            stride,
            padding,
        ),
        OpType::AvgPool2d { kernel_size, stride, padding } => avgpool_value(
            ins[0],
            kernel_size,
            stride,
            padding,
        ),
        OpType::FusedAttention => attention_value(ins[0], ins[1], ins[2], mask_of(ins)),
        _ => ins[0],
    }
}

/// What arrays hold.
pub open spec fn dense_views<S>(ds: Seq<Dense<S>>) -> Seq<Value<S>> {
    ds.map_values(|d: Dense<S>| d@)
}

/// Computes an operation on arrays.
pub fn forward<S: Scalar>(op: &OpType, ins: &Vec<Dense<S>>) -> (r: Dense<S>)
    requires
        forall|i: int| 0 <= i < ins@.len() ==> (#[trigger] ins@[i]).wf(),
        forward_ok(*op, dense_views(ins@)),
    ensures
        r.wf(),
        r@ == forward_value(*op, dense_views(ins@)),
{
    let ghost vs = dense_views(ins@);
    match op {
        OpType::Add => elementwise_op(&ins[0], &ins[1], BinaryOp::Add),
        OpType::Sub => elementwise_op(&ins[0], &ins[1], BinaryOp::Sub),
        OpType::Mul => elementwise_op(&ins[0], &ins[1], BinaryOp::Mul),
        OpType::Div => elementwise_op(&ins[0], &ins[1], BinaryOp::Div),
        OpType::Matmul => matmul(&ins[0], &ins[1]),
        OpType::Relu => relu(&ins[0]),
        OpType::Gelu => gelu(&ins[0]),
        OpType::Softmax { dim } => softmax(&ins[0], *dim),
        OpType::Sum { dim, keep_dim } => sum(&ins[0], *dim, *keep_dim),
        OpType::Mean { dim, keep_dim } => mean(&ins[0], *dim, *keep_dim),
        OpType::LayerNorm { eps_bits } => layernorm(
            &ins[0],
            &ins[1],
            &ins[2],
            S::from_bits(*eps_bits),
        ),
        OpType::Embedding => embedding(&ins[0], &ins[1]),
        OpType::CrossEntropy => cross_entropy(&ins[0], &ins[1]),
        OpType::Conv2d { stride, padding } => conv2d(&ins[0], &ins[1], &ins[2], *stride, *padding),
        OpType::MaxPool2d { kernel_size, stride, padding } => maxpool2d(
            &ins[0],
            *kernel_size,
            *stride,
            *padding,
        ),
        OpType::AvgPool2d { kernel_size, stride, padding } => avgpool2d(
            &ins[0],
            *kernel_size,
            *stride,
            *padding,
        ),
        OpType::FusedAttention => {
            let mask: Option<&Dense<S>> = if ins.len() == 4 {
                Some(&ins[3])
            } else {
                None
            };
            assert(crate::cpu::attention::mask_view(mask) == mask_of(vs));
            fused_attention(&ins[0], &ins[1], &ins[2], mask)
        },
        _ => {
            assert(false);
            vstd::pervasive::unreached()
        },
    }
}

/// The values of CPU tensors.
pub open spec fn values<S>(ts: Seq<Tensor>, mem: Memory<S>) -> Seq<Value<S>> {
    ts.map_values(|t: Tensor| t.value(mem))
}

/// The metadata of tensors.
pub open spec fn metas<S>(ts: Seq<Tensor>, mem: Memory<S>) -> Seq<Meta> {
    ts.map_values(|t: Tensor| t.meta(mem))
}

/// Gradients flow through the operation: an input that it is differentiated by requires them.
///
/// Ids of an embedding and targets of a loss are not differentiated by.
pub open spec fn tracks(op: OpType, ms: Seq<Meta>) -> bool {
    match op {
        OpType::Embedding => ms[1].requires_grad,
        OpType::CrossEntropy => ms[0].requires_grad,
        _ => exists|i: int| 0 <= i < ms.len() && i < 3 && (#[trigger] ms[i]).requires_grad,
    }
}

/// Everything that an operation on CPU tensors needs.
pub open spec fn op_ready<S: Scalar>(rt: Runtime<S>, op: OpType, inputs: Seq<Tensor>) -> bool {
    &&& rt.hooks.cpu_ops
    &&& can_op(rt, inputs)
    &&& rt.mem.arena.room() > 0
    &&& forall|i: int| 0 <= i < inputs.len() ==> (#[trigger] inputs[i]).is_f32(rt.mem)
    &&& forward_ok(op, values(inputs, rt.mem))
}

/// `r` is the result of an operation on CPU tensors: a new row-major tensor, recorded where
/// gradients flow.
pub open spec fn computed<S: Scalar>(
    a: Runtime<S>,
    b: Runtime<S>,
    op: OpType,
    inputs: Seq<Tensor>,
    r: Tensor,
) -> bool {
    let v = forward_value(op, values(inputs, a.mem));
    &&& r.shape@ == v.dims
    &&& r.contiguous_spec()
    &&& r.dtype == DType::F32
    &&& r.device == Device::Cpu
    &&& r.value(b.mem) == v
    &&& exists|mid: Runtime<S>|
        #[trigger] added(a, mid, r, Block::F32(v.data), no_meta()) && taped(
            mid,
            b,
            op,
            inputs,
            0,
            r,
            tracks(op, metas(inputs, a.mem)),
        )
}

/// Reads all inputs.
fn read_all<S: Scalar>(inputs: &[&Tensor], rt: &Runtime<S>) -> (r: Vec<Dense<S>>)
    requires
        rt.wf(),
        forall|i: int| 0 <= i < inputs@.len() ==> (#[trigger] inputs@[i]).is_f32(rt.mem),
    ensures
        forall|i: int| 0 <= i < r@.len() ==> (#[trigger] r@[i]).wf(),
        dense_views(r@) == values(derefs(inputs@), rt.mem),
{
    let mut out: Vec<Dense<S>> = Vec::new();
    let mut i: usize = 0;
    while i < inputs.len()
        invariant
            i <= inputs@.len(),
            rt.wf(),
            forall|k: int| 0 <= k < inputs@.len() ==> (#[trigger] inputs@[k]).is_f32(rt.mem),
            out@.len() == i,
            forall|k: int| 0 <= k < i ==> (#[trigger] out@[k]).wf(),
            forall|k: int| 0 <= k < i ==> (#[trigger] out@[k])@ == inputs@[k].value(rt.mem),
        decreases inputs@.len() - i,
    {
        let t: &Tensor = inputs[i];
        assert(inputs@[i as int].is_f32(rt.mem));
        out.push(t.read(rt));
        i = i + 1;
    }
    assert(dense_views(out@) =~= values(derefs(inputs@), rt.mem));
    out
}

/// Whether gradients flow through the operation.
pub(crate) fn flows<S>(op: &OpType, inputs: &[&Tensor], rt: &Runtime<S>) -> (r: bool)
    requires
        rt.wf(),
        forall|i: int| 0 <= i < inputs@.len() ==> (#[trigger] inputs@[i]).valid(rt.mem),
        (*op is Embedding) ==> inputs@.len() >= 2,
        (*op is CrossEntropy) ==> inputs@.len() >= 1,
    ensures
        r == tracks(*op, metas(derefs(inputs@), rt.mem)),
{
    let ghost ms = metas(derefs(inputs@), rt.mem);
    match op {
        OpType::Embedding => {
            assert(inputs@[1].valid(rt.mem));
            let t: &Tensor = inputs[1];
            assert(ms[1] == t.meta(rt.mem));
            t.requires_grad(rt)
        },
        OpType::CrossEntropy => {
            assert(inputs@[0].valid(rt.mem));
            let t: &Tensor = inputs[0];
            assert(ms[0] == t.meta(rt.mem));
            t.requires_grad(rt)
        },
        _ => {
            let mut i: usize = 0;
            while i < inputs.len() && i < 3
                invariant
                    i <= inputs@.len(),
                    i <= 3,
                    rt.wf(),
                    ms == metas(derefs(inputs@), rt.mem),
                    forall|k: int|
                        0 <= k < inputs@.len() ==> (#[trigger] inputs@[k]).valid(rt.mem),
                    forall|k: int| 0 <= k < i ==> !(#[trigger] ms[k]).requires_grad,
                    !(*op is Embedding),
                    !(*op is CrossEntropy),
                decreases inputs@.len() - i,
            {
                let t: &Tensor = inputs[i];
                assert(inputs@[i as int].valid(rt.mem));
                assert(ms[i as int] == t.meta(rt.mem));
                if t.requires_grad(rt) {
                    return true;
                }
                i = i + 1;
            }
            false
        },
    }
}

/// Computes an operation on CPU tensors, and records it where gradients flow.
pub(crate) fn dispatch<S: Scalar>(
    op: OpType,
    inputs: &[&Tensor],
    rt: &mut Runtime<S>,
) -> (r: Tensor)
    requires
        old(rt).wf(),
        op_ready(*old(rt), op, derefs(inputs@)),
    ensures
        final(rt).wf(),
        r.owned(*final(rt)),
        undisturbed(*old(rt), *final(rt)),
        computed(*old(rt), *final(rt), op, derefs(inputs@), r),
        grown(*old(rt), *final(rt), seq![r]),
        spent(*old(rt), *final(rt), 1),
{
    let ghost before = *rt;
    let ghost ins = derefs(inputs@);
    proof {
        assert forall|i: int| 0 <= i < inputs@.len() implies (#[trigger] inputs@[i]).is_f32(
            rt.mem,
        ) by {
            assert(ins[i] == *inputs@[i]);
            assert(ins[i].is_f32(rt.mem));
        }
    }
    let track = flows(&op, inputs, rt);
    let data = read_all(inputs, rt);
    let out = forward(&op, &data);
    let ghost v = out@;
    let shape = *out.shape();
    let storage = CpuStorage::F32(out.into_data());
    let meta = Meta { node_id: None, requires_grad: false };
    let r = rt.adopt(storage, shape, DType::F32, meta);
    let ghost mid = *rt;
    proof {
        assert(v == forward_value(op, values(ins, before.mem)));
        assert(added(before, mid, r, Block::F32(v.data), no_meta()));
        lemma_bounded_fits(shape@);
        lemma_strided_row_major(v.data, shape@);
        lemma_inputs_kept(before, mid, ins);
    }
    track_op(op, inputs, 0, &r, track, rt);
    proof {
        assert(ins.len() <= 4);
        lemma_op_grown(before, mid, *rt, r, ins.len());
    }
    r
}

/// After the output was made the operation can be recorded.
pub proof fn lemma_inputs_kept<S>(a: Runtime<S>, b: Runtime<S>, ins: Seq<Tensor>)
    requires
        a.wf(),
        b.wf(),
        can_op(a, ins),
        b.tape == a.tape,
        b.mem.cells.room() == a.mem.cells.room() - 1,
        crate::handle::same_meta(a, b),
        crate::tape::blocks_agree(a.mem, b.mem),
        forall|k: crate::tensor::Key| #[trigger]
            b.mem.refs(k) >= a.mem.refs(k) && (a.mem.refs(k) > 0 ==> b.mem.refs(k) == a.mem.refs(
                k,
            )),
    ensures
        can_record(b, ins),
{
    assert forall|i: int| 0 <= i < ins.len() implies (#[trigger] ins[i]).valid(b.mem)
        && b.mem.refs(ins[i].key()) + ins.len() <= usize::MAX by {
        assert(ins[i].valid(a.mem));
        lemma_valid_refs(a.mem, ins[i]);
        assert(b.mem.refs(ins[i].key()) == a.mem.refs(ins[i].key()));
        assert(b.mem.cells@.contains_key(ins[i].cell));
        lemma_valid_kept(a.mem, b.mem, ins[i]);
    }
}

} // verus!
