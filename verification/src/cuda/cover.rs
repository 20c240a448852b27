//! What launches have to do with the tensors of their operation.
use vstd::prelude::*;
use crate::cuda::command::{launchable, over_elems, Kernel, LaunchView};
use crate::cuda::dispatch::launched;
use crate::cuda::forward::{
    binary_launch, embedding_launch, layernorm_launch, reduction_launch, softmax_launch,
    unary_launch,
};
use crate::cuda::images::{conv_launch, pool_launch};
use crate::cuda::matmul::{matmul_launch, tiles};
use crate::cuda::plan::{binary_info, planned, reduce_info, softmax_info};
use crate::index::row_major;
use crate::op::OpType;
use crate::runtime::Runtime;
use crate::scalar::Scalar;
use crate::tensor::Tensor;

verus! {

/// The threads of a launch along its first axis.
pub open spec fn threads<S>(l: LaunchView<S>) -> int {
    l.grid.0 * l.block.0
}

/// A launch over `n` elements has a thread for each, and no block without one.
pub proof fn law_launch_covers<S>(
    kernel: Kernel,
    n: nat,
    buffers: Seq<u32>,
    info: Seq<i32>,
    params: Seq<S>,
    scalars: Seq<i32>,
)
    requires
        launchable(n),
    ensures
        ({
            let l = over_elems(kernel, n, buffers, info, params, scalars);
            &&& n <= threads(l) < n + 1024
            &&& l.grid.1 == 1 && l.grid.2 == 1 && l.block.1 == 1 && l.block.2 == 1
            &&& l.kernel == kernel && l.buffers == buffers && l.info == info
            &&& l.params == params && l.scalars == scalars
        }),
{
}

/// Tiles of 16 cover a side, and none lies beyond it.
pub proof fn law_tiles_cover(n: usize)
    ensures
        n <= 16 * tiles(n) < n + 16,
{
}

/// How many operands an operation has.
pub open spec fn arity(op: OpType) -> nat {
    match op {
        OpType::Add | OpType::Sub | OpType::Mul | OpType::Div | OpType::Matmul
        | OpType::Embedding => 2,
        OpType::LayerNorm { .. } | OpType::Conv2d { .. } => 3,
        _ => 1,
    }
}

/// Launches read the buffers of the operands in their order and write that of the output.
pub open spec fn wired<S>(ls: Seq<LaunchView<S>>, ins: Seq<Tensor>, r: Tensor) -> bool {
    &&& ls.len() <= 1
    &&& forall|i: int|
        0 <= i < ls.len() ==> {
            let b = (#[trigger] ls[i]).buffers;
            &&& b.len() == ins.len() + 1
            &&& b[ins.len() as int] == r.storage_id.slot_idx
            &&& forall|k: int|
                0 <= k < ins.len() ==> #[trigger] b[k] == ins[k].storage_id.slot_idx
        }
}

/// An operation on a device makes one launch at most, which reads its operands and writes its
/// output; operations with different kernels run different ones.
pub proof fn law_launch_wired<S: Scalar>(
    a: Runtime<S>,
    b: Runtime<S>,
    op: OpType,
    ins: Seq<Tensor>,
    r: Tensor,
)
    requires
        launched(a, b, op, ins, r),
        !(op is CrossEntropy),
        ins.len() == arity(op),
    ensures
        exists|ls: Seq<LaunchView<S>>| #[trigger]
            planned(a, b, r, ls) && wired(ls, ins, r) && (ls.len() == 1 ==> runs(op, ls[0].kernel)),
{
    let ls: Seq<LaunchView<S>> = match op {
        OpType::Add => binary_launch(ins[0], ins[1], r, Kernel::AddBroadcast),
        OpType::Sub => binary_launch(ins[0], ins[1], r, Kernel::SubBroadcast),
        OpType::Mul => binary_launch(ins[0], ins[1], r, Kernel::MulBroadcast),
        OpType::Div => binary_launch(ins[0], ins[1], r, Kernel::DivBroadcast),
        OpType::Matmul => matmul_launch(ins[0], ins[1], r),
        OpType::Relu => unary_launch(ins[0], r, Kernel::ReluForward),
        OpType::Gelu => unary_launch(ins[0], r, Kernel::GeluForward),
        OpType::Softmax { dim } => softmax_launch(ins[0], dim, r),
        OpType::Sum { dim, .. } => reduction_launch(ins[0], dim, r, Kernel::Sum),
        OpType::Mean { dim, .. } => reduction_launch(ins[0], dim, r, Kernel::Mean),
        OpType::LayerNorm { eps_bits } => layernorm_launch(
            ins[0],
            ins[1],
            ins[2],
            S::from_bits_spec(eps_bits),
            r,
        ),
        OpType::Embedding => embedding_launch(ins[0], ins[1], r),
        OpType::Conv2d { stride, padding } => conv_launch(
            ins[0],
            ins[1],
            ins[2],
            r,
            stride,
            padding,
        ),
        OpType::MaxPool2d { kernel_size, stride, padding } => pool_launch(
            ins[0],
            r,
            kernel_size,
            stride,
            padding,
            Kernel::Maxpool2dForward,
        ),
        OpType::AvgPool2d { kernel_size, stride, padding } => pool_launch(
            ins[0],
            r,
            kernel_size,
            stride,
            padding,
            Kernel::Avgpool2dForward,
        ),
        _ => Seq::empty(),
    };
    assert(planned(a, b, r, ls));
    assert(wired(ls, ins, r));
}

/// The kernel does what the operation says.
pub open spec fn runs(op: OpType, kernel: Kernel) -> bool {
    match kernel {
        Kernel::AddBroadcast => op is Add,
        Kernel::SubBroadcast => op is Sub,
        Kernel::MulBroadcast => op is Mul,
        Kernel::DivBroadcast => op is Div,
        Kernel::Matmul => op is Matmul,
        Kernel::ReluForward => op is Relu,
        Kernel::GeluForward => op is Gelu,
        Kernel::SoftmaxForward => op is Softmax,
        Kernel::Sum => op is Sum,
        Kernel::Mean => op is Mean,
        Kernel::LayernormForward => op is LayerNorm,
        Kernel::EmbeddingForward => op is Embedding,
        Kernel::Conv2dForward => op is Conv2d,
        Kernel::Maxpool2dForward => op is MaxPool2d,
        Kernel::Avgpool2dForward => op is AvgPool2d,
        _ => false,
    }
}

/// An elementwise kernel is told the layouts of its output and of both operands: extents and
/// strides, eight places each, and their ranks before them.
pub proof fn law_binary_info(
    out: Seq<usize>,
    lhs: Seq<usize>,
    ls: Seq<usize>,
    rhs: Seq<usize>,
    rs: Seq<usize>,
    k: int,
)
    requires
        out.len() <= 8,
        lhs.len() == ls.len() <= 8,
        rhs.len() == rs.len() <= 8,
        0 <= k < 8,
    ensures
        ({
            let info = binary_info(out, lhs, ls, rhs, rs);
            &&& info.len() == 51
            &&& info[0] == out.len() && info[1] == lhs.len() && info[2] == rhs.len()
            &&& k < out.len() ==> info[3 + k] == out[k] as i32 && info[11 + k] == row_major(
                out,
            )[k] as i32
            &&& k < lhs.len() ==> info[19 + k] == lhs[k] as i32 && info[27 + k] == ls[k] as i32
            &&& k < rhs.len() ==> info[35 + k] == rhs[k] as i32 && info[43 + k] == rs[k] as i32
        }),
{
}

/// A reduction kernel is told the axis, the layout of what is left, and that of the input; the
/// softmax kernel the layout of its input.
pub proof fn law_reduce_info(x: Seq<usize>, s: Seq<usize>, dim: usize, k: int)
    requires
        x.len() == s.len() <= 8,
        dim < x.len(),
        0 <= k < x.len(),
    ensures
        ({
            let info = reduce_info(x, s, dim);
            let soft = softmax_info(x, s);
            let left = if k == dim {
                1i32
            } else {
                x[k] as i32
            };
            &&& info.len() == 35
            &&& info[0] == x.len() && info[1] == x.len() && info[2] == dim
            &&& info[3 + k] == left
            &&& info[19 + k] == x[k] as i32 && info[27 + k] == s[k] as i32
            &&& soft.len() == 18
            &&& soft[0] == x.len()
            &&& soft[2 + k] == x[k] as i32 && soft[10 + k] == s[k] as i32
        }),
{
}

} // verus!
