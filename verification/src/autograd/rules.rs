//! The gradients of each operation with respect to its inputs.
use vstd::prelude::*;
use crate::autograd::layout::{inverse_axes, inverse_of, permute, reshape, transpose};
use crate::autograd::local::{
    expand_ok, expand_reduce_grad, expand_value, reduce_ok, reduce_to, reduce_value, single,
    single_of,
};
use crate::cpu::attention::{attention_ok, mask_view};
use crate::cpu::attention_backward::{attention_backward_value, fused_attention_backward};
use crate::cpu::avgpool::{avgpool2d_backward, avgpool_backward_value};
use crate::cpu::batchnorm::{batchnorm_backward, batchnorm_backward_value, batchnorm_ok};
use crate::cpu::conv_backward::{conv2d_backward, conv_backward_ok, conv_backward_value};
use crate::cpu::elementwise::{
    elementwise_op, map_op, map_value, zip_ok, zip_value, BinaryOp, UnaryOp,
};
use crate::cpu::loss::{
    cross_entropy_backward, cross_entropy_backward_value, cross_entropy_ok, embedding_backward,
    embedding_backward_value, embedding_ok,
};
use crate::cpu::matmul::{matmul, matmul_ok, matmul_value};
use crate::cpu::norm::{
    layernorm_backward, layernorm_backward_value, layernorm_ok, zeros, zeros_value,
};
use crate::cpu::pool::{maxpool2d_backward, maxpool_backward_value, pool_backward_ok};
use crate::cpu::reduce::{softmax, softmax_value, sum, sum_value};
use crate::dense::{Dense, Value};
use crate::forward::{dense_views, mask_of};
use crate::index::numel;
use crate::op::OpType;
use crate::perm::is_permutation;
use crate::scalar::{one, Constant, Scalar};
use crate::shape::broadcasts_to;
use crate::views::{permute_value, reshape_value, transpose_value};

verus! {

/// `-1`
pub open spec fn neg_one<S: Scalar>() -> Value<S> {
    single(S::constant_spec(Constant::NegOne))
}

/// `a * b`
pub open spec fn times<S: Scalar>(a: Value<S>, b: Value<S>) -> Value<S> {
    zip_value(a, b, BinaryOp::Mul)
}

/// `a / b`
pub open spec fn over<S: Scalar>(a: Value<S>, b: Value<S>) -> Value<S> {
    zip_value(a, b, BinaryOp::Div)
}

/// `a - b`
pub open spec fn minus<S: Scalar>(a: Value<S>, b: Value<S>) -> Value<S> {
    zip_value(a, b, BinaryOp::Sub)
}

/// A stack of matrices, each transposed.
pub open spec fn flipped<S>(a: Value<S>) -> Value<S> {
    transpose_value(a, a.dims.len() - 2, a.dims.len() - 1)
}

/// `1 / n`
pub open spec fn reciprocal<S: Scalar>(n: usize) -> S {
    S::div_spec(one(), S::count_spec(n))
}

/// The gradient of a softmax: `y * (g - sum(g * y))`
pub open spec fn softmax_grad<S: Scalar>(x: Value<S>, g: Value<S>, dim: int) -> Value<S> {
    let y = softmax_value(x, dim);
    times(y, minus(g, sum_value(times(g, y), dim, true)))
}

/// Gradients of an operation can be computed from the gradient `g` of its output.
pub open spec fn rule_ok<S: Scalar>(op: OpType, ins: Seq<Value<S>>, g: Value<S>) -> bool {
    match op {
        OpType::Add => ins.len() == 2 && reduce_ok(g, ins[0].dims) && reduce_ok(g, ins[1].dims),
        OpType::Sub => {
            &&& ins.len() == 2
            &&& reduce_ok(g, ins[0].dims)
            &&& zip_ok(g, neg_one())
            &&& reduce_ok(times(g, neg_one()), ins[1].dims)
        },
        OpType::Mul => {
            &&& ins.len() == 2
            &&& zip_ok(g, ins[1])
            &&& zip_ok(g, ins[0])
            &&& reduce_ok(times(g, ins[1]), ins[0].dims)
            &&& reduce_ok(times(g, ins[0]), ins[1].dims)
        },
        OpType::Div => {
            let square = times(ins[1], ins[1]);
            let top = times(times(g, neg_one()), ins[0]);
            &&& ins.len() == 2
            &&& zip_ok(g, ins[1])
            &&& reduce_ok(over(g, ins[1]), ins[0].dims)
            &&& zip_ok(g, neg_one())
            &&& zip_ok(times(g, neg_one()), ins[0])
            &&& zip_ok(ins[1], ins[1])
            &&& zip_ok(top, square)
            &&& reduce_ok(over(top, square), ins[1].dims)
        },
        OpType::Matmul => {
            &&& ins.len() == 2
            &&& ins[0].dims.len() >= 2
            &&& ins[1].dims.len() >= 2
            &&& matmul_ok(g, flipped(ins[1]))
            &&& matmul_ok(flipped(ins[0]), g)
            &&& reduce_ok(matmul_value(g, flipped(ins[1])), ins[0].dims)
            &&& reduce_ok(matmul_value(flipped(ins[0]), g), ins[1].dims)
        },
        OpType::Reshape => ins.len() == 1 && numel(g.dims) == numel(ins[0].dims),
        OpType::Transpose { dim0, dim1 } => ins.len() == 1 && dim0 < g.dims.len() && dim1
            < g.dims.len(),
        OpType::Permute { axes } => ins.len() == 1 && is_permutation(axes@, g.dims.len()),
        OpType::Relu => ins.len() == 1 && zip_ok(g, map_value(ins[0], UnaryOp::ReluSlope)),
        OpType::Gelu => ins.len() == 1 && zip_ok(g, map_value(ins[0], UnaryOp::GeluSlope)),
        OpType::Softmax { dim } => {
            let y = softmax_value(ins[0], dim as int);
            let s = sum_value(times(g, y), dim as int, true);
            &&& ins.len() == 1
            &&& dim < ins[0].dims.len()
            &&& zip_ok(g, y)
            &&& dim < times(g, y).dims.len()
            &&& zip_ok(g, s)
            &&& zip_ok(y, minus(g, s))
        },
        OpType::LayerNorm { eps_bits } => {
            &&& ins.len() == 3
            &&& layernorm_ok(ins[0], ins[1], ins[2])
            &&& numel(ins[0].dims) > 0 ==> broadcasts_to(g.dims, ins[0].dims)
        },
        OpType::BatchNorm { training, eps_bits } => {
            &&& ins.len() == 5
            &&& batchnorm_ok(ins[0], ins[1], ins[2], ins[3], ins[4])
            &&& g.data.len() == ins[0].data.len()
        },
        OpType::Embedding => {
            &&& ins.len() == 2
            &&& embedding_ok(ins[0], ins[1])
            &&& g.dims == ins[0].dims.push(ins[1].dims[1])
        },
        OpType::CrossEntropy => {
            &&& ins.len() == 2
            &&& cross_entropy_ok(ins[0], ins[1])
            &&& numel(g.dims) == 1
        },
        OpType::FusedAttention => {
            &&& ins.len() == 3 || ins.len() == 4
            &&& attention_ok(ins[0], ins[1], ins[2], mask_of(ins))
            &&& g.data.len() == ins[0].data.len()
        },
        OpType::Conv2d { stride, padding } => ins.len() == 3 && conv_backward_ok(
            ins[0],
            ins[1],
            g,
            stride,
            padding,
        ),
        OpType::MaxPool2d { kernel_size, stride, padding } => ins.len() == 1 && pool_backward_ok(
            ins[0],
            g,
            kernel_size,
            stride,
            padding,
        ),
        OpType::AvgPool2d { kernel_size, stride, padding } => ins.len() == 1 && pool_backward_ok(
            ins[0],
            g,
            kernel_size,
            stride,
            padding,
        ),
        OpType::Sum { dim, keep_dim } => ins.len() == 1 && expand_ok(
            g,
            ins[0].dims,
            dim as int,
            keep_dim,
        ),
        OpType::Mean { dim, keep_dim } => {
            &&& ins.len() == 1
            &&& dim < ins[0].dims.len()
            &&& expand_ok(g, ins[0].dims, dim as int, keep_dim)
            &&& zip_ok(
                expand_value(g, ins[0].dims, dim as int, keep_dim),
                single(reciprocal::<S>(ins[0].dims[dim as int])),
            )
        },
        OpType::Checkpoint => false,
    }
}

/// The gradients of an operation with respect to its inputs, from the gradient `g` of its output.
pub open spec fn rule_value<S: Scalar>(op: OpType, ins: Seq<Value<S>>, g: Value<S>) -> Seq<
    Value<S>,
> {
    match op {
        OpType::Add => seq![reduce_value(g, ins[0].dims), reduce_value(g, ins[1].dims)],
        OpType::Sub => seq![
            reduce_value(g, ins[0].dims),
            reduce_value(times(g, neg_one()), ins[1].dims),
        ],
        OpType::Mul => seq![
            reduce_value(times(g, ins[1]), ins[0].dims),
            reduce_value(times(g, ins[0]), ins[1].dims),
        ],
        OpType::Div => seq![
            reduce_value(over(g, ins[1]), ins[0].dims),
            reduce_value(
                over(times(times(g, neg_one()), ins[0]), times(ins[1], ins[1])),
                ins[1].dims,
            ),
        ],
        OpType::Matmul => seq![
            reduce_value(matmul_value(g, flipped(ins[1])), ins[0].dims),
            reduce_value(matmul_value(flipped(ins[0]), g), ins[1].dims),
        ],
        OpType::Reshape => seq![reshape_value(g, ins[0].dims)],
        OpType::Transpose { dim0, dim1 } => seq![transpose_value(g, dim0 as int, dim1 as int)],
        OpType::Permute { axes } => seq![permute_value(g, inverse_of(axes@))],
        OpType::Relu => seq![times(g, map_value(ins[0], UnaryOp::ReluSlope))],
        OpType::Gelu => seq![times(g, map_value(ins[0], UnaryOp::GeluSlope))],
        OpType::Softmax { dim } => seq![softmax_grad(ins[0], g, dim as int)],
        OpType::LayerNorm { eps_bits } => {
            let r = layernorm_backward_value(
                ins[0],
                ins[1],
                ins[2],
                g,
                S::from_bits_spec(eps_bits),
            );
            seq![r.0, r.1, r.2]
        },
        OpType::BatchNorm { training, eps_bits } => {
            let r = batchnorm_backward_value(
                ins[0],
                ins[1],
                ins[2],
                ins[3],
                ins[4],
                g,
                training,
                S::from_bits_spec(eps_bits),
            );
            seq![r.0, r.1, r.2, zeros_value(ins[3].dims), zeros_value(ins[4].dims)]
        },
        OpType::Embedding => seq![
            zeros_value(ins[0].dims),
            embedding_backward_value(ins[0], ins[1], g),
        ],
        OpType::CrossEntropy => seq![
            cross_entropy_backward_value(ins[0], ins[1], g),
            zeros_value(ins[1].dims),
        ],
        OpType::FusedAttention => {
            let r = attention_backward_value(ins[0], ins[1], ins[2], mask_of(ins), g);
            if ins.len() == 4 {
                seq![r.0, r.1, r.2, zeros_value(ins[3].dims)]
            } else {
                seq![r.0, r.1, r.2]
            }
        },
        OpType::Conv2d { stride, padding } => {
            let r = conv_backward_value(ins[0], ins[1], g, stride, padding);
            seq![r.0, r.1, r.2]
        },
        OpType::MaxPool2d { kernel_size, stride, padding } => seq![
            maxpool_backward_value(ins[0], g, kernel_size, stride, padding),
        ],
        OpType::AvgPool2d { kernel_size, stride, padding } => seq![
            avgpool_backward_value(ins[0], g, kernel_size, stride, padding),
        ],
        OpType::Sum { dim, keep_dim } => seq![
            expand_value(g, ins[0].dims, dim as int, keep_dim),
        ],
        OpType::Mean { dim, keep_dim } => seq![
            times(
                expand_value(g, ins[0].dims, dim as int, keep_dim),
                single(reciprocal::<S>(ins[0].dims[dim as int])),
            ),
        ],
        OpType::Checkpoint => Seq::empty(),
    }
}

/// All arrays are well formed.
pub open spec fn all_wf<S>(ds: Seq<Dense<S>>) -> bool {
    forall|i: int| 0 <= i < ds.len() ==> (#[trigger] ds[i]).wf()
}

fn list1<S: Scalar>(a: Dense<S>) -> (r: Vec<Dense<S>>)
    requires
        a.wf(),
    ensures
        all_wf(r@),
        dense_views(r@) == seq![a@],
{
    let mut v: Vec<Dense<S>> = Vec::new();
    v.push(a);
    assert(dense_views(v@) =~= seq![a@]);
    v
}

fn list2<S: Scalar>(a: Dense<S>, b: Dense<S>) -> (r: Vec<Dense<S>>)
    requires
        a.wf(),
        b.wf(),
    ensures
        all_wf(r@),
        dense_views(r@) == seq![a@, b@],
{
    let mut v: Vec<Dense<S>> = Vec::new();
    v.push(a);
    v.push(b);
    assert(dense_views(v@) =~= seq![a@, b@]);
    v
}

fn list3<S: Scalar>(abc: (Dense<S>, Dense<S>, Dense<S>)) -> (r: Vec<Dense<S>>)
    requires
        abc.0.wf(),
        abc.1.wf(),
        abc.2.wf(),
    ensures
        all_wf(r@),
        dense_views(r@) == seq![abc.0@, abc.1@, abc.2@],
{
    let mut v: Vec<Dense<S>> = Vec::new();
    v.push(abc.0);
    v.push(abc.1);
    v.push(abc.2);
    assert(dense_views(v@) =~= seq![abc.0@, abc.1@, abc.2@]);
    v
}

/// The gradients of elementwise operations.
fn elementwise_rule<S: Scalar>(op: &OpType, ins: &Vec<Dense<S>>, g: &Dense<S>) -> (r: Vec<
    Dense<S>,
>)
    requires
        all_wf(ins@),
        g.wf(),
        rule_ok(*op, dense_views(ins@), g@),
        *op is Add || *op is Sub || *op is Mul || *op is Div,
    ensures
        all_wf(r@),
        dense_views(r@) == rule_value(*op, dense_views(ins@), g@),
{
    let ghost vs = dense_views(ins@);
    assert(ins@[0].wf() && ins@[1].wf());
    assert(vs[0] == ins@[0]@ && vs[1] == ins@[1]@);
    let lhs = &ins[0];
    let rhs = &ins[1];
    match op {
        OpType::Add => list2(reduce_to(g, lhs.shape()), reduce_to(g, rhs.shape())),
        OpType::Sub => {
            let neg = single_of(S::constant(Constant::NegOne));
            let gr = elementwise_op(g, &neg, BinaryOp::Mul);
            list2(reduce_to(g, lhs.shape()), reduce_to(&gr, rhs.shape()))
        },
        OpType::Mul => {
            let gl = elementwise_op(g, rhs, BinaryOp::Mul);
            let gr = elementwise_op(g, lhs, BinaryOp::Mul);
            list2(reduce_to(&gl, lhs.shape()), reduce_to(&gr, rhs.shape()))
        },
        _ => {
            let gl = elementwise_op(g, rhs, BinaryOp::Div);
            let neg = single_of(S::constant(Constant::NegOne));
            let minus_g = elementwise_op(g, &neg, BinaryOp::Mul);
            let top = elementwise_op(&minus_g, lhs, BinaryOp::Mul);
            let square = elementwise_op(rhs, rhs, BinaryOp::Mul);
            let gr = elementwise_op(&top, &square, BinaryOp::Div);
            list2(reduce_to(&gl, lhs.shape()), reduce_to(&gr, rhs.shape()))
        },
    }
}

/// The gradients of normalisations and of operations that look entries up.
fn kernel_rule<S: Scalar>(op: &OpType, ins: &Vec<Dense<S>>, g: &Dense<S>) -> (r: Vec<Dense<S>>)
    requires
        all_wf(ins@),
        g.wf(),
        rule_ok(*op, dense_views(ins@), g@),
        *op is LayerNorm || *op is BatchNorm || *op is Embedding || *op is CrossEntropy
            || *op is FusedAttention,
    ensures
        all_wf(r@),
        dense_views(r@) == rule_value(*op, dense_views(ins@), g@),
{
    let ghost vs = dense_views(ins@);
    assert(ins@[0].wf() && ins@[1].wf());
    assert(vs[0] == ins@[0]@ && vs[1] == ins@[1]@);
    match op {
        OpType::LayerNorm { eps_bits } => {
            assert(ins@[2].wf());
            assert(vs[2] == ins@[2]@);
            list3(layernorm_backward(&ins[0], &ins[1], &ins[2], g, S::from_bits(*eps_bits)))
        },
        OpType::BatchNorm { training, eps_bits } => {
            assert(ins@[2].wf() && ins@[3].wf() && ins@[4].wf());
            assert(vs[2] == ins@[2]@ && vs[3] == ins@[3]@ && vs[4] == ins@[4]@);
            let mut r = list3(
                batchnorm_backward(
                    &ins[0],
                    &ins[1],
                    &ins[2],
                    &ins[3],
                    &ins[4],
                    g,
                    *training,
                    S::from_bits(*eps_bits),
                ),
            );
            let ghost first = dense_views(r@);
            r.push(zeros(ins[3].shape()));
            r.push(zeros(ins[4].shape()));
            assert(dense_views(r@) =~= first.push(zeros_value(vs[3].dims)).push(
                zeros_value(vs[4].dims),
            ));
            assert(dense_views(r@) =~= rule_value(*op, vs, g@));
            r
        },
        OpType::Embedding => list2(
            zeros(ins[0].shape()),
            embedding_backward(&ins[0], &ins[1], g),
        ),
        OpType::CrossEntropy => list2(
            cross_entropy_backward(&ins[0], &ins[1], g),
            zeros(ins[1].shape()),
        ),
        _ => {
            assert(ins@[2].wf());
            assert(vs[2] == ins@[2]@);
            let mask: Option<&Dense<S>> = if ins.len() == 4 {
                assert(ins@[3].wf());
                Some(&ins[3])
            } else {
                None
            };
            assert(mask_view(mask) == mask_of(vs));
            let mut r = list3(fused_attention_backward(&ins[0], &ins[1], &ins[2], mask, g));
            if ins.len() == 4 {
                let ghost first = dense_views(r@);
                r.push(zeros(ins[3].shape()));
                assert(dense_views(r@) =~= first.push(zeros_value(vs[3].dims)));
                assert(dense_views(r@) =~= rule_value(*op, vs, g@));
            }
            r
        },
    }
}

/// Computes the gradients of an operation with respect to its inputs.
pub fn rule<S: Scalar>(op: &OpType, ins: &Vec<Dense<S>>, g: &Dense<S>) -> (r: Vec<Dense<S>>)
    requires
        all_wf(ins@),
        g.wf(),
        rule_ok(*op, dense_views(ins@), g@),
    ensures
        all_wf(r@),
        dense_views(r@) == rule_value(*op, dense_views(ins@), g@),
{
    let ghost vs = dense_views(ins@);
    assert(ins@.len() > 0);
    assert(ins@[0].wf());
    assert(vs[0] == ins@[0]@);
    let x = &ins[0];
    match op {
        OpType::Add | OpType::Sub | OpType::Mul | OpType::Div => elementwise_rule(op, ins, g),
        OpType::LayerNorm { .. }
        | OpType::BatchNorm { .. }
        | OpType::Embedding
        | OpType::CrossEntropy
        | OpType::FusedAttention => kernel_rule(op, ins, g),
        OpType::Matmul => {
            assert(ins@[1].wf());
            assert(vs[1] == ins@[1]@);
            let y = &ins[1];
            let rx = x.shape().rank();
            let ry = y.shape().rank();
            let x_t = transpose(x, rx - 2, rx - 1);
            let y_t = transpose(y, ry - 2, ry - 1);
            let gl = matmul(g, &y_t);
            let gr = matmul(&x_t, g);
            list2(reduce_to(&gl, x.shape()), reduce_to(&gr, y.shape()))
        },
        OpType::Reshape => list1(reshape(g, x.shape())),
        OpType::Transpose { dim0, dim1 } => list1(transpose(g, *dim0, *dim1)),
        OpType::Permute { axes } => {
            let inv = inverse_axes(axes);
            list1(permute(g, &inv))
        },
        OpType::Relu => {
            let slope = map_op(x, UnaryOp::ReluSlope);
            list1(elementwise_op(g, &slope, BinaryOp::Mul))
        },
        OpType::Gelu => {
            let slope = map_op(x, UnaryOp::GeluSlope);
            list1(elementwise_op(g, &slope, BinaryOp::Mul))
        },
        OpType::Softmax { dim } => {
            let y = softmax(x, *dim);
            let gy = elementwise_op(g, &y, BinaryOp::Mul);
            let s = sum(&gy, *dim, true);
            let centred = elementwise_op(g, &s, BinaryOp::Sub);
            list1(elementwise_op(&y, &centred, BinaryOp::Mul))
        },
        OpType::Conv2d { stride, padding } => {
            assert(ins@[1].wf());
            assert(vs[1] == ins@[1]@);
            list3(conv2d_backward(x, &ins[1], g, *stride, *padding))
        },
        OpType::MaxPool2d { kernel_size, stride, padding } => list1(
            maxpool2d_backward(x, g, *kernel_size, *stride, *padding),
        ),
        OpType::AvgPool2d { kernel_size, stride, padding } => list1(
            avgpool2d_backward(x, g, *kernel_size, *stride, *padding),
        ),
        OpType::Sum { dim, keep_dim } => list1(
            expand_reduce_grad(g, x.shape(), *dim, *keep_dim),
        ),
        OpType::Mean { dim, keep_dim } => {
            let spread = expand_reduce_grad(g, x.shape(), *dim, *keep_dim);
            let n = x.shape().dim(*dim);
            let scale = single_of(S::constant(Constant::One).div(S::count(n)));
            list1(elementwise_op(&spread, &scale, BinaryOp::Mul))
        },
        OpType::Checkpoint => {
            assert(false);
            vstd::pervasive::unreached()
        },
    }
}

} // verus!
