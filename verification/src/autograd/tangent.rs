//! What the recorded operations do to tangents.
use vstd::prelude::*;
use crate::autograd::adjoint::{
    law_add_adjoint, law_mul_adjoint, law_permute_adjoint, law_reshape_adjoint, law_sub_adjoint,
    law_transpose_adjoint, lemma_times,
};
use crate::autograd::adjoint_conv::law_conv_adjoint;
use crate::autograd::adjoint_matmul::{lemma_matmul_shapes, lemma_matmul_sides, matmul_fits};
use crate::autograd::adjoint_pool::law_avgpool_adjoint;
use crate::autograd::adjoint_reduce::{law_embedding_adjoint, law_mean_adjoint, law_sum_adjoint};
use crate::autograd::backward::{first_progress, swept, tape_steps};
use crate::autograd::chain::{
    balanced, balanced_for, fitting, law_sweep_adjoint, leaves_weight, lemma_pairing_add, passed,
};
use crate::autograd::exact::{
    exact, lemma_add, lemma_mul, lemma_total_eq, lemma_total_zero, pairing,
};
use crate::autograd::local::reduce_value;
use crate::autograd::rules::{flipped, rule_value, times};
use crate::autograd::sweep::{run, StepView};
use crate::autograd::totality::{applies, inputs_wf, law_rule_total};
use crate::broadcast::law_broadcast_self;
use crate::cpu::avgpool::avgpool_value;
use crate::cpu::conv::conv_value;
use crate::cpu::elementwise::{map_value, stretched, zip_value, BinaryOp, UnaryOp};
use crate::cpu::loss::embedding_value;
use crate::cpu::matmul::{matmul_ok, matmul_value};
use crate::cpu::norm::zeros_value;
use crate::cpu::reduce::{mean_value, sum_value};
use crate::dense::Value;
use crate::index::numel;
use crate::op::OpType;
use crate::runtime::Runtime;
use crate::scalar::{zero, Scalar};
use crate::tape::token_index;
use crate::tensor::Tensor;
use crate::views::{permute_value, reshape_value, transpose_value};

verus! {

/// The operations whose change is linear in the changes of their inputs by the operation itself,
/// by the product rule, or by a slope.
pub open spec fn has_tangent(op: OpType) -> bool {
    op is Add || op is Sub || op is Mul || op is Matmul || op is Reshape || op is Transpose || op
        is Permute || op is Relu || op is Gelu || op is Sum || op is Mean || op is Embedding || op
        is Conv2d || op is AvgPool2d
}

/// The change of the output, of extents `out`, of an operation on the inputs `ins`, when these
/// change by `ds`.
pub open spec fn tangent_of<S: Scalar>(
    op: OpType,
    ins: Seq<Value<S>>,
    ds: Seq<Value<S>>,
    out: Seq<usize>,
) -> Value<S> {
    match op {
        OpType::Add => zip_value(ds[0], ds[1], BinaryOp::Add),
        OpType::Sub => zip_value(ds[0], ds[1], BinaryOp::Sub),
        OpType::Mul => zip_value(
            zip_value(ds[0], ins[1], BinaryOp::Mul),
            zip_value(ins[0], ds[1], BinaryOp::Mul),
            BinaryOp::Add,
        ),
        OpType::Matmul => zip_value(
            matmul_value(ds[0], ins[1]),
            matmul_value(ins[0], ds[1]),
            BinaryOp::Add,
        ),
        OpType::Reshape => reshape_value(ds[0], out),
        OpType::Transpose { dim0, dim1 } => transpose_value(ds[0], dim0 as int, dim1 as int),
        OpType::Permute { axes } => permute_value(ds[0], axes@),
        OpType::Relu => times(ds[0], map_value(ins[0], UnaryOp::ReluSlope)),
        OpType::Gelu => times(ds[0], map_value(ins[0], UnaryOp::GeluSlope)),
        OpType::Sum { dim, keep_dim } => sum_value(ds[0], dim as int, keep_dim),
        OpType::Mean { dim, keep_dim } => mean_value(ds[0], dim as int, keep_dim),
        OpType::Embedding => embedding_value(ins[0], ds[1]),
        OpType::Conv2d { stride, padding } => zip_value(
            conv_value(ds[0], ins[1], ds[2], stride, padding),
            conv_value(ins[0], ds[1], zeros_value(ins[2].dims), stride, padding),
            BinaryOp::Add,
        ),
        OpType::AvgPool2d { kernel_size, stride, padding } => avgpool_value(
            ds[0],
            kernel_size,
            stride,
            padding,
        ),
        _ => zeros_value(out),
    }
}

/// The change of input `k` of a step; an input without a node does not change.
pub open spec fn input_tangent<S: Scalar>(
    s: StepView<S>,
    tangents: Seq<Value<S>>,
    k: int,
) -> Value<S> {
    match s.inputs[k] {
        Some(id) => tangents[id as int],
        None => zeros_value(s.saved[k].dims),
    }
}

/// The changes of all inputs of a step.
pub open spec fn input_tangents<S: Scalar>(s: StepView<S>, tangents: Seq<Value<S>>) -> Seq<
    Value<S>,
> {
    Seq::new(s.saved.len(), |k: int| input_tangent(s, tangents, k))
}

/// What the first `n` gradients weigh against as many changes.
pub open spec fn weighed<S: Scalar>(gs: Seq<Value<S>>, ds: Seq<Value<S>>, n: int) -> S
    decreases n,
{
    if n <= 0 {
        zero()
    } else {
        S::add_spec(weighed(gs, ds, n - 1), pairing(gs[n - 1].data, ds[n - 1].data))
    }
}

/// Changes have the shapes of what they change.
pub open spec fn same_shapes<S>(ins: Seq<Value<S>>, ds: Seq<Value<S>>) -> bool {
    &&& ds.len() == ins.len()
    &&& forall|k: int| 0 <= k < ds.len() ==> fitting(#[trigger] ds[k], ins[k])
}

/// The gradients of an operation weigh against the changes of its inputs what the gradient of its
/// output weighs against the change of its output.
spec fn other_side<S: Scalar>(
    op: OpType,
    ins: Seq<Value<S>>,
    ds: Seq<Value<S>>,
    g: Value<S>,
) -> bool {
    let gs = rule_value(op, ins, g);
    &&& forall|k: int| 0 <= k < gs.len() ==> (#[trigger] gs[k]).data.len() == numel(gs[k].dims)
    &&& pairing(g.data, tangent_of(op, ins, ds, g.dims).data) == weighed(
        gs,
        ds,
        ins.len() as int,
    )
}

/// What is zero weighs nothing.
proof fn lemma_weigh_zero<S: Scalar>(g: Seq<S>, z: Seq<S>)
    requires
        exact::<S>(),
        z.len() == g.len(),
        forall|i: int| 0 <= i < z.len() ==> #[trigger] z[i] == zero::<S>(),
    ensures
        pairing(g, z) == zero::<S>(),
{
    let f = |i: int| S::mul_spec(g[i], z[i]);
    assert forall|i: int| 0 <= i < g.len() implies #[trigger] f(i) == zero::<S>() by {
        lemma_mul(g[i], zero(), zero());
    }
    lemma_total_zero(g.len(), f);
}

proof fn lemma_one<S: Scalar>(gs: Seq<Value<S>>, ds: Seq<Value<S>>)
    requires
        exact::<S>(),
    ensures
        weighed(gs, ds, 1) == pairing(gs[0].data, ds[0].data),
        weighed(gs, ds, 2) == S::add_spec(
            pairing(gs[0].data, ds[0].data),
            pairing(gs[1].data, ds[1].data),
        ),
        weighed(gs, ds, 3) == S::add_spec(
            S::add_spec(pairing(gs[0].data, ds[0].data), pairing(gs[1].data, ds[1].data)),
            pairing(gs[2].data, ds[2].data),
        ),
{
    reveal_with_fuel(weighed, 4);
    lemma_add(pairing(gs[0].data, ds[0].data), zero(), zero());
}

proof fn lemma_sums<S: Scalar>(
    op: OpType,
    ins: Seq<Value<S>>,
    ds: Seq<Value<S>>,
    g: Value<S>,
)
    requires
        exact::<S>(),
        op is Add || op is Sub,
        inputs_wf(ins),
        g.wf(),
        applies(op, ins, g.dims),
        same_shapes(ins, ds),
    ensures
        other_side(op, ins, ds, g),
{
    let gs = rule_value(op, ins, g);
    assert(fitting(ds[0], ins[0]) && fitting(ds[1], ins[1]));
    assert(ins[0].wf() && ins[1].wf());
    lemma_one(gs, ds);
    law_rule_total(op, ins, g);
    if op is Add {
        law_add_adjoint(ds[0], ds[1], g);
        assert(rule_value(op, seq![ds[0], ds[1]], g) =~= gs);
    } else {
        law_sub_adjoint(ds[0], ds[1], g);
        assert(rule_value(op, seq![ds[0], ds[1]], g) =~= gs);
    }
}

proof fn lemma_product<S: Scalar>(ins: Seq<Value<S>>, ds: Seq<Value<S>>, g: Value<S>)
    requires
        exact::<S>(),
        inputs_wf(ins),
        g.wf(),
        applies(OpType::Mul, ins, g.dims),
        same_shapes(ins, ds),
    ensures
        other_side(OpType::Mul, ins, ds, g),
{
    let op = OpType::Mul;
    let gs = rule_value(op, ins, g);
    assert(fitting(ds[0], ins[0]) && fitting(ds[1], ins[1]));
    assert(ins[0].wf() && ins[1].wf());
    lemma_one(gs, ds);
    law_rule_total(op, ins, g);
    law_mul_adjoint(ds[0], ins[1], g);
    law_mul_adjoint(ins[0], ds[1], g);
    assert(rule_value(op, seq![ds[0], ins[1]], g)[0] == gs[0]);
    assert(rule_value(op, seq![ins[0], ds[1]], g)[1] == gs[1]);
    lemma_pairing_add(
        zip_value(ds[0], ins[1], BinaryOp::Mul),
        zip_value(ins[0], ds[1], BinaryOp::Mul),
        g.data,
    );
}

/// The gradients of a matrix product can be computed.
proof fn lemma_matrices_fit<S: Scalar>(ins: Seq<Value<S>>, g: Value<S>)
    requires
        inputs_wf(ins),
        g.wf(),
        applies(OpType::Matmul, ins, g.dims),
    ensures
        ins.len() == 2,
        matmul_fits(ins[0], ins[1], g),
        matmul_ok(g, flipped(ins[1])),
        matmul_ok(flipped(ins[0]), g),
{
    assert(ins[0].wf() && ins[1].wf());
    law_rule_total(OpType::Matmul, ins, g);
}

#[verifier::spinoff_prover]
proof fn lemma_matrices<S: Scalar>(ins: Seq<Value<S>>, ds: Seq<Value<S>>, g: Value<S>)
    requires
        exact::<S>(),
        inputs_wf(ins),
        g.wf(),
        applies(OpType::Matmul, ins, g.dims),
        same_shapes(ins, ds),
    ensures
        other_side(OpType::Matmul, ins, ds, g),
{
    let gs = rule_value(OpType::Matmul, ins, g);
    lemma_matrices_fit(ins, g);
    let (a, b) = (ins[0], ins[1]);
    let (c, d) = (ds[0], ds[1]);
    assert(fitting(ds[0], ins[0]) && fitting(ds[1], ins[1]));
    lemma_one(gs, ds);
    lemma_matmul_shapes(a, b, c, b, g);
    lemma_matmul_shapes(a, b, a, d, g);
    lemma_matmul_sides(c, b, g);
    lemma_matmul_sides(a, d, g);
    lemma_pairing_add(matmul_value(c, b), matmul_value(a, d), g.data);
    assert(gs[0] == reduce_value(matmul_value(g, flipped(b)), c.dims));
    assert(gs[1] == reduce_value(matmul_value(flipped(a), g), d.dims));
}

proof fn lemma_slopes<S: Scalar>(
    op: OpType,
    ins: Seq<Value<S>>,
    ds: Seq<Value<S>>,
    g: Value<S>,
)
    requires
        exact::<S>(),
        op is Relu || op is Gelu,
        inputs_wf(ins),
        g.wf(),
        applies(op, ins, g.dims),
        same_shapes(ins, ds),
    ensures
        other_side(op, ins, ds, g),
{
    let gs = rule_value(op, ins, g);
    let d = ds[0];
    assert(fitting(ds[0], ins[0]));
    assert(ins[0].wf());
    lemma_one(gs, ds);
    let slope = map_value(
        ins[0],
        if op is Relu {
            UnaryOp::ReluSlope
        } else {
            UnaryOp::GeluSlope
        },
    );
    law_broadcast_self(g.dims);
    lemma_times(g, slope);
    lemma_times(d, slope);
    let y = times(d, slope);
    let h = times(g, slope);
    let n = g.data.len();
    let left = |i: int| S::mul_spec(g.data[i], y.data[i]);
    let right = |i: int| S::mul_spec(h.data[i], d.data[i]);
    assert forall|i: int| 0 <= i < n implies #[trigger] left(i) == right(i) by {
        let v = stretched(slope, g.dims, i);
        assert(y.data[i] == S::mul_spec(d.data[i], v));
        assert(h.data[i] == S::mul_spec(g.data[i], v));
        lemma_mul(d.data[i], v, zero());
        lemma_mul(g.data[i], v, d.data[i]);
    }
    lemma_total_eq(n, left, right);
}

proof fn lemma_convolved<S: Scalar>(
    stride: usize,
    padding: usize,
    ins: Seq<Value<S>>,
    ds: Seq<Value<S>>,
    g: Value<S>,
)
    requires
        exact::<S>(),
        inputs_wf(ins),
        g.wf(),
        applies(OpType::Conv2d { stride, padding }, ins, g.dims),
        same_shapes(ins, ds),
    ensures
        other_side(OpType::Conv2d { stride, padding }, ins, ds, g),
{
    let op = OpType::Conv2d { stride, padding };
    let gs = rule_value(op, ins, g);
    let still = zeros_value::<S>(ins[2].dims);
    assert(fitting(ds[0], ins[0]) && fitting(ds[1], ins[1]) && fitting(ds[2], ins[2]));
    assert(ins[0].wf() && ins[1].wf() && ins[2].wf());
    crate::index::lemma_dims1(ins[1].dims[0]);
    lemma_one(gs, ds);
    law_rule_total(op, ins, g);
    law_conv_adjoint(ds[0], ins[1], ds[2], g, stride, padding);
    law_conv_adjoint(ins[0], ds[1], still, g, stride, padding);
    let first = rule_value(op, seq![ds[0], ins[1], ds[2]], g);
    let second = rule_value(op, seq![ins[0], ds[1], still], g);
    assert(first[0] =~= gs[0] && first[2] =~= gs[2]);
    assert(second[1] =~= gs[1] && second[2] =~= gs[2]);
    lemma_weigh_zero(gs[2].data, still.data);
    let (a, b, c) = (
        pairing(gs[0].data, ds[0].data),
        pairing(gs[1].data, ds[1].data),
        pairing(gs[2].data, ds[2].data),
    );
    lemma_add(b, zero(), zero());
    lemma_add(a, c, b);
    lemma_add(a, b, c);
    lemma_add(b, c, zero());
    lemma_pairing_add(
        conv_value(ds[0], ins[1], ds[2], stride, padding),
        conv_value(ins[0], ds[1], still, stride, padding),
        g.data,
    );
}

proof fn lemma_rearranged<S: Scalar>(
    op: OpType,
    ins: Seq<Value<S>>,
    ds: Seq<Value<S>>,
    g: Value<S>,
)
    requires
        exact::<S>(),
        op is Reshape || op is Transpose || op is Permute || op is Sum || op is Mean || op
            is AvgPool2d || op is Embedding,
        inputs_wf(ins),
        g.wf(),
        applies(op, ins, g.dims),
        same_shapes(ins, ds),
    ensures
        other_side(op, ins, ds, g),
{
    let gs = rule_value(op, ins, g);
    let d = ds[0];
    assert(fitting(ds[0], ins[0]));
    assert(ins[0].wf());
    lemma_one(gs, ds);
    law_rule_total(op, ins, g);
    match op {
        OpType::Reshape => {
            law_reshape_adjoint(d, g.dims, g);
        },
        OpType::Transpose { dim0, dim1 } => {
            law_transpose_adjoint(d, dim0, dim1, g);
        },
        OpType::Permute { axes } => {
            law_permute_adjoint(d, axes, g);
        },
        OpType::Sum { dim, keep_dim } => {
            law_sum_adjoint(d, dim, keep_dim, g);
        },
        OpType::Mean { dim, keep_dim } => {
            law_mean_adjoint(d, dim, keep_dim, g);
        },
        OpType::AvgPool2d { kernel_size, stride, padding } => {
            law_avgpool_adjoint(d, g, kernel_size, stride, padding);
            assert(rule_value(op, seq![d], g)[0] =~= gs[0]);
        },
        OpType::Embedding => {
            assert(fitting(ds[1], ins[1]));
            assert(ins[1].wf());
            law_embedding_adjoint(ins[0], ds[1], g);
            assert(rule_value(op, seq![ins[0], ds[1]], g)[1] =~= gs[1]);
            let f = |i: int| S::mul_spec(gs[0].data[i], d.data[i]);
            assert forall|i: int| 0 <= i < gs[0].data.len() implies #[trigger] f(i) == zero::<
                S,
            >() by {
                lemma_mul(d.data[i], zero(), zero());
            }
            lemma_total_zero(gs[0].data.len(), f);
            lemma_add(pairing(gs[1].data, ds[1].data), zero(), zero());
        },
        _ => {},
    }
}

proof fn lemma_other_side<S: Scalar>(
    op: OpType,
    ins: Seq<Value<S>>,
    ds: Seq<Value<S>>,
    g: Value<S>,
)
    requires
        exact::<S>(),
        has_tangent(op),
        inputs_wf(ins),
        g.wf(),
        applies(op, ins, g.dims),
        same_shapes(ins, ds),
    ensures
        other_side(op, ins, ds, g),
{
    match op {
        OpType::Add | OpType::Sub => lemma_sums(op, ins, ds, g),
        OpType::Mul => lemma_product(ins, ds, g),
        OpType::Matmul => lemma_matrices(ins, ds, g),
        OpType::Relu | OpType::Gelu => lemma_slopes(op, ins, ds, g),
        OpType::Conv2d { stride, padding } => lemma_convolved(stride, padding, ins, ds, g),
        _ => lemma_rearranged(op, ins, ds, g),
    }
}

/// Inputs without a node weigh nothing.
proof fn lemma_passed<S: Scalar>(
    s: StepView<S>,
    gs: Seq<Value<S>>,
    tangents: Seq<Value<S>>,
    n: int,
)
    requires
        exact::<S>(),
        s.inputs.len() == s.saved.len(),
        gs.len() == s.saved.len(),
        0 <= n <= gs.len(),
        forall|k: int|
            0 <= k < gs.len() ==> (#[trigger] gs[k]).data.len() == numel(s.saved[k].dims),
    ensures
        passed(s.inputs, gs, tangents, n) == weighed(gs, input_tangents(s, tangents), n),
    decreases n,
{
    if n > 0 {
        lemma_passed(s, gs, tangents, n - 1);
        let w = passed(s.inputs, gs, tangents, n - 1);
        assert(gs[n - 1].data.len() == numel(s.saved[n - 1].dims));
        if s.inputs[n - 1] is None {
            lemma_weigh_zero(gs[n - 1].data, input_tangents(s, tangents)[n - 1].data);
            lemma_add(w, zero(), zero());
        }
    }
}

/// A recorded step fits the tangents: its inputs are earlier nodes whose tangents have their
/// shapes, and its own tangent is the change that theirs make.
pub open spec fn follows<S: Scalar>(
    steps: Seq<StepView<S>>,
    tangents: Seq<Value<S>>,
    i: int,
) -> bool {
    let s = steps[i];
    &&& has_tangent(s.op)
    &&& inputs_wf(s.saved)
    &&& applies(s.op, s.saved, tangents[i].dims)
    &&& s.inputs.len() == s.saved.len()
    &&& forall|k: int|
        0 <= k < s.inputs.len() ==> ((#[trigger] s.inputs[k]) matches Some(id) ==> id < i
            && fitting(tangents[id as int], s.saved[k]))
    &&& tangents[i] == tangent_of(s.op, s.saved, input_tangents(s, tangents), tangents[i].dims)
}

/// In exact arithmetic every step that follows its inputs is balanced.
pub proof fn law_step_balanced<S: Scalar>(
    steps: Seq<StepView<S>>,
    tangents: Seq<Value<S>>,
    i: int,
)
    requires
        exact::<S>(),
        follows(steps, tangents, i),
    ensures
        balanced(steps, tangents, i),
{
    let s = steps[i];
    let ds = input_tangents(s, tangents);
    assert forall|k: int| 0 <= k < ds.len() implies fitting(#[trigger] ds[k], s.saved[k]) by {
        assert(s.saved[k].wf());
        assert(s.inputs[k] is Some || s.inputs[k] is None);
    }
    assert forall|g: Value<S>| fitting(g, tangents[i]) implies #[trigger] balanced_for(
        steps,
        tangents,
        i,
        g,
    ) by {
        let gs = rule_value(s.op, s.saved, g);
        lemma_other_side(s.op, s.saved, ds, g);
        law_rule_total(s.op, s.saved, g);
        assert forall|k: int| 0 <= k < gs.len() implies (#[trigger] gs[k]).data.len() == numel(
            s.saved[k].dims,
        ) by {
            assert(gs[k].dims == s.saved[k].dims);
        }
        lemma_passed(s, gs, tangents, gs.len() as int);
        assert forall|k: int| 0 <= k < s.inputs.len() implies ((
        #[trigger] s.inputs[k]) matches Some(id) ==> id < i && fitting(
            gs[k],
            tangents[id as int],
        )) by {
            assert(s.saved[k].wf());
            assert(gs[k].dims == s.saved[k].dims);
        }
    }
}

/// The backward pass over what was recorded is the other side of the recorded computation, in
/// exact arithmetic: where every step that is no leaf follows its inputs, the gradients of the
/// leaves weigh against the changes of the leaves what the gradient of the output weighs against
/// the change that these make of the output.
pub proof fn law_computation_adjoint<S: Scalar>(
    steps: Seq<StepView<S>>,
    tangents: Seq<Value<S>>,
    at: u32,
    grad: Value<S>,
)
    requires
        exact::<S>(),
        steps.len() == tangents.len(),
        forall|i: int| 0 <= i < tangents.len() ==> (#[trigger] tangents[i]).wf(),
        forall|i: int|
            0 <= i < steps.len() ==> !((#[trigger] steps[i]).op is Checkpoint) && (
            steps[i].saved.len() > 0 ==> follows(steps, tangents, i)),
        at < steps.len(),
        fitting(grad, tangents[at as int]),
    ensures
        leaves_weight(
            steps,
            tangents,
            run(steps, first_progress(steps.len(), at, grad)).grads,
        ) == pairing(grad.data, tangents[at as int].data),
{
    assert forall|i: int|
        0 <= i < steps.len() && (#[trigger] steps[i]).saved.len() > 0 implies balanced(
        steps,
        tangents,
        i,
    ) by {
        law_step_balanced(steps, tangents, i);
    }
    law_sweep_adjoint(steps, tangents, at, grad);
}

/// What a backward pass from a recorded output computes is the other side of what was recorded,
/// in exact arithmetic.
pub proof fn law_backward_adjoint<S: Scalar>(
    rt: Runtime<S>,
    output: Tensor,
    grad: Value<S>,
    tangents: Seq<Value<S>>,
)
    requires
        exact::<S>(),
        rt.tape@.len() == tangents.len(),
        forall|i: int| 0 <= i < tangents.len() ==> (#[trigger] tangents[i]).wf(),
        forall|i: int|
            0 <= i < tangents.len() ==> !((#[trigger] tape_steps(rt)[i]).op is Checkpoint) && (
            tape_steps(rt)[i].saved.len() > 0 ==> follows(tape_steps(rt), tangents, i)),
        ({
            let at = token_index(output.meta(rt.mem).node_id->0) as int;
            at < rt.tape@.len() && fitting(grad, tangents[at])
        }),
    ensures
        leaves_weight(tape_steps(rt), tangents, swept(rt, output, grad).grads) == pairing(
            grad.data,
            tangents[token_index(output.meta(rt.mem).node_id->0) as int].data,
        ),
{
    let at = token_index(output.meta(rt.mem).node_id->0);
    law_computation_adjoint(tape_steps(rt), tangents, at, grad);
}

} // verus!
