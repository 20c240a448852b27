//! Whatever was recorded can be differentiated.
use vstd::prelude::*;
use crate::autograd::local::{expand_value, kept_dims, lemma_reduce_ok, single};
use crate::autograd::rules::{flipped, minus, neg_one, over, reciprocal, rule_ok, rule_value, times};
use crate::autograd::sweep::{
    deposit_ok, deposited, deposited_ok, paused, reached, run, run_ok, visit, Grads, Progress,
    StepView,
};
use crate::broadcast::{
    law_broadcast_absorbs, law_broadcast_reaches, law_broadcast_self, law_broadcast_transitive,
};
use crate::cpu::batchnorm::batchnorm_ok;
use crate::cpu::conv::places;
use crate::cpu::elementwise::{zip_ok, zip_value, BinaryOp};
use crate::cpu::matmul::{batch_dims, cols, matmul_dims, matmul_value, rows};
use crate::cpu::norm::zeros_value;
use crate::cpu::reduce::{softmax_value, sum_value};
use crate::dense::Value;
use crate::forward::{forward_ok, forward_value};
use crate::index::{bounded, numel};
use crate::op::OpType;
use crate::perm::{is_permutation, lemma_swapped_is_permuted, permuted};
use crate::scalar::Scalar;
use crate::shape::{broadcast_dims, broadcasts_to, dim_from_end, stretches_at, swapped_dims};
use crate::views::{permute_value, transpose_value};

verus! {

/// All inputs are well formed.
pub open spec fn inputs_wf<S>(ins: Seq<Value<S>>) -> bool {
    forall|i: int| 0 <= i < ins.len() ==> (#[trigger] ins[i]).wf()
}

/// The operation applies to the inputs and its output has the extents `out`.
///
/// A matrix product also has to leave room for the products that its gradients are.
pub open spec fn applies<S: Scalar>(op: OpType, ins: Seq<Value<S>>, out: Seq<usize>) -> bool {
    match op {
        OpType::Reshape => ins.len() == 1 && bounded(out) && numel(out) == numel(ins[0].dims),
        OpType::Transpose { dim0, dim1 } => {
            &&& ins.len() == 1
            &&& dim0 < ins[0].dims.len()
            &&& dim1 < ins[0].dims.len()
            &&& out == transpose_value(ins[0], dim0 as int, dim1 as int).dims
        },
        OpType::Permute { axes } => {
            &&& ins.len() == 1
            &&& is_permutation(axes@, ins[0].dims.len())
            &&& out == permuted(ins[0].dims, axes@)
        },
        OpType::BatchNorm { .. } => {
            &&& ins.len() == 5
            &&& batchnorm_ok(ins[0], ins[1], ins[2], ins[3], ins[4])
            &&& out == ins[0].dims
        },
        OpType::Matmul => {
            &&& forward_ok(op, ins)
            &&& out == forward_value(op, ins).dims
            &&& bounded(matmul_dims(out, flipped(ins[1]).dims))
            &&& bounded(matmul_dims(flipped(ins[0]).dims, out))
        },
        OpType::Conv2d { .. } => {
            &&& forward_ok(op, ins)
            &&& out == forward_value(op, ins).dims
            &&& ins[2].dims == seq![ins[1].dims[0]]
        },
        OpType::Checkpoint => false,
        _ => forward_ok(op, ins) && out == forward_value(op, ins).dims,
    }
}

/// Every gradient has the extents of its input.
pub open spec fn fits_inputs<S>(gs: Seq<Value<S>>, ins: Seq<Value<S>>) -> bool {
    &&& gs.len() == ins.len()
    &&& forall|i: int| 0 <= i < gs.len() ==> (#[trigger] gs[i]).dims == ins[i].dims
}

/// What was broadcast can be multiplied with what it was broadcast to, and summed back.
proof fn lemma_zip_absorbed<S>(g: Value<S>, b: Value<S>)
    requires
        broadcasts_to(b.dims, g.dims),
        bounded(g.dims),
    ensures
        zip_ok(g, b),
        zip_ok(b, g),
        broadcast_dims(g.dims, b.dims) == g.dims,
        broadcast_dims(b.dims, g.dims) == g.dims,
{
    law_broadcast_absorbs(b.dims, g.dims);
}

/// Multiplying by one element keeps the extents, and gives a scalar one axis.
proof fn lemma_zip_single<S: Scalar>(g: Value<S>, x: S)
    requires
        bounded(g.dims),
    ensures
        zip_ok(g, single(x)),
        broadcasts_to(g.dims, broadcast_dims(g.dims, single(x).dims)),
        bounded(broadcast_dims(g.dims, single(x).dims)),
        g.dims.len() > 0 ==> broadcast_dims(g.dims, single(x).dims) == g.dims,
{
    let one = single(x).dims;
    if g.dims.len() > 0 {
        assert(stretches_at(one, g.dims, 0));
        assert(broadcasts_to(one, g.dims));
        law_broadcast_absorbs(one, g.dims);
        law_broadcast_self(g.dims);
    } else {
        assert(broadcasts_to(g.dims, one));
        law_broadcast_absorbs(g.dims, one);
        crate::index::lemma_dims1(1);
        assert(one =~= seq![1usize]);
    }
}

proof fn lemma_elementwise<S: Scalar>(op: OpType, ins: Seq<Value<S>>, g: Value<S>)
    requires
        op is Add || op is Sub || op is Mul || op is Div,
        inputs_wf(ins),
        g.wf(),
        applies(op, ins, g.dims),
    ensures
        rule_ok(op, ins, g),
        fits_inputs(rule_value(op, ins, g), ins),
{
    let a = ins[0];
    let b = ins[1];
    assert(a.wf() && b.wf());
    law_broadcast_reaches(a.dims, b.dims);
    lemma_reduce_ok(g, a.dims);
    lemma_reduce_ok(g, b.dims);
    lemma_zip_absorbed(g, a);
    lemma_zip_absorbed(g, b);
    lemma_reduce_ok(times(g, b), a.dims);
    lemma_reduce_ok(times(g, a), b.dims);
    lemma_reduce_ok(over(g, b), a.dims);
    let minus_one = crate::scalar::Constant::NegOne;
    lemma_zip_single(g, S::constant_spec(minus_one));
    let n = times(g, neg_one());
    law_broadcast_transitive(b.dims, g.dims, n.dims);
    law_broadcast_transitive(a.dims, g.dims, n.dims);
    lemma_reduce_ok(n, b.dims);
    lemma_zip_absorbed(n, a);
    let top = times(n, a);
    assert(top.dims == n.dims);
    law_broadcast_self(b.dims);
    lemma_zip_absorbed(b, b);
    let square = times(b, b);
    assert(square.dims == b.dims);
    lemma_zip_absorbed(top, square);
    let q = over(top, square);
    assert(q.dims == n.dims);
    lemma_reduce_ok(q, b.dims);
}

proof fn lemma_reductions<S: Scalar>(op: OpType, ins: Seq<Value<S>>, g: Value<S>)
    requires
        op is Sum || op is Mean,
        inputs_wf(ins),
        g.wf(),
        applies(op, ins, g.dims),
    ensures
        rule_ok(op, ins, g),
        fits_inputs(rule_value(op, ins, g), ins),
{
    let x = ins[0];
    assert(x.wf());
    let (dim, keep) = match op {
        OpType::Sum { dim, keep_dim } => (dim as int, keep_dim),
        OpType::Mean { dim, keep_dim } => (dim as int, keep_dim),
        _ => (0int, false),
    };
    let kept = kept_dims(g.dims, dim, keep);
    assert(kept =~= x.dims.update(dim, 1));
    assert forall|k: int| 0 <= k < kept.len() implies #[trigger] stretches_at(kept, x.dims, k) by {
        let j = kept.len() - 1 - k;
        assert(dim_from_end(kept, k) == kept[j]);
        assert(dim_from_end(x.dims, k) == x.dims[j]);
    }
    assert(broadcasts_to(kept, x.dims));
    law_broadcast_absorbs(kept, x.dims);
    assert(zeros_value::<S>(x.dims).dims == x.dims);
    let e = expand_value(g, x.dims, dim, keep);
    assert(e.dims == x.dims);
    lemma_zip_single(e, reciprocal::<S>(x.dims[dim]));
}

proof fn lemma_softmax_rule<S: Scalar>(op: OpType, ins: Seq<Value<S>>, g: Value<S>)
    requires
        op is Softmax,
        inputs_wf(ins),
        g.wf(),
        applies(op, ins, g.dims),
    ensures
        rule_ok(op, ins, g),
        fits_inputs(rule_value(op, ins, g), ins),
{
    let x = ins[0];
    assert(x.wf());
    let dim = op->Softmax_dim as int;
    let y = softmax_value(x, dim);
    law_broadcast_self(x.dims);
    lemma_zip_absorbed(g, y);
    let t = times(g, y);
    assert(t.dims == x.dims);
    let s = sum_value(t, dim, true);
    assert(s.dims =~= x.dims.update(dim, 1));
    assert forall|k: int| 0 <= k < s.dims.len() implies #[trigger] stretches_at(s.dims, x.dims, k)
        by {
        let j = s.dims.len() - 1 - k;
        assert(dim_from_end(s.dims, k) == s.dims[j]);
        assert(dim_from_end(x.dims, k) == x.dims[j]);
    }
    assert(broadcasts_to(s.dims, x.dims));
    lemma_zip_absorbed(g, s);
    let d = minus(g, s);
    assert(d.dims == x.dims);
    lemma_zip_absorbed(y, d);
}

proof fn lemma_views_rule<S: Scalar>(op: OpType, ins: Seq<Value<S>>, g: Value<S>)
    requires
        op is Reshape || op is Transpose || op is Permute,
        inputs_wf(ins),
        g.wf(),
        applies(op, ins, g.dims),
    ensures
        rule_ok(op, ins, g),
        fits_inputs(rule_value(op, ins, g), ins),
{
    let x = ins[0];
    assert(x.wf());
    match op {
        OpType::Transpose { dim0, dim1 } => {
            let (i, j) = (dim0 as int, dim1 as int);
            crate::views::law_transpose_value(x, i, j);
            let t = transpose_value(x, i, j);
            assert(transpose_value(g, i, j).dims =~= transpose_value(t, i, j).dims);
        },
        OpType::Permute { axes } => {
            let q = crate::autograd::layout::inverse_of(axes@);
            crate::autograd::layout::lemma_inverse_of(axes@);
            crate::views::law_permute_value(x, axes@, q);
            let t = permute_value(x, axes@);
            assert(permute_value(g, q).dims =~= permute_value(t, q).dims);
        },
        _ => {},
    }
}

/// Where a window stands, the last place lies within the plane.
proof fn lemma_places(n: int, k: int, stride: int)
    requires
        0 <= k <= n,
        stride > 0,
    ensures
        places(n, k, stride) > 0,
        (places(n, k, stride) - 1) * stride + k <= n,
{
    let q = (n - k) / stride;
    vstd::arithmetic::div_mod::lemma_fundamental_div_mod(n - k, stride);
    assert(q * stride <= n - k) by (nonlinear_arith)
        requires
            n - k == stride * q + (n - k) % stride,
            (n - k) % stride >= 0,
    ;
    assert(q >= 0) by (nonlinear_arith)
        requires
            n - k >= 0,
            stride > 0,
            q == (n - k) / stride,
    ;
}

proof fn lemma_images_rule<S: Scalar>(op: OpType, ins: Seq<Value<S>>, g: Value<S>)
    requires
        op is Conv2d || op is MaxPool2d || op is AvgPool2d,
        inputs_wf(ins),
        g.wf(),
        applies(op, ins, g.dims),
    ensures
        rule_ok(op, ins, g),
        fits_inputs(rule_value(op, ins, g), ins),
{
    let x = ins[0];
    assert(x.wf());
    match op {
        OpType::Conv2d { stride, padding } => {
            let w = ins[1];
            lemma_places(x.dims[2] + 2 * padding, w.dims[2] as int, stride as int);
            lemma_places(x.dims[3] + 2 * padding, w.dims[3] as int, stride as int);
            assert(rule_value(op, ins, g)[2].dims =~= ins[2].dims);
        },
        OpType::MaxPool2d { kernel_size, stride, padding } => {
            lemma_places(x.dims[2] + 2 * padding, kernel_size as int, stride as int);
            lemma_places(x.dims[3] + 2 * padding, kernel_size as int, stride as int);
        },
        OpType::AvgPool2d { kernel_size, stride, padding } => {
            lemma_places(x.dims[2] + 2 * padding, kernel_size as int, stride as int);
            lemma_places(x.dims[3] + 2 * padding, kernel_size as int, stride as int);
        },
        _ => {},
    }
}

/// The gradients of an operation can be computed from every gradient with the extents of its
/// output, and each has the extents of its input.
pub proof fn law_rule_total<S: Scalar>(op: OpType, ins: Seq<Value<S>>, g: Value<S>)
    requires
        inputs_wf(ins),
        g.wf(),
        applies(op, ins, g.dims),
    ensures
        rule_ok(op, ins, g),
        fits_inputs(rule_value(op, ins, g), ins),
{
    match op {
        OpType::Add | OpType::Sub | OpType::Mul | OpType::Div => lemma_elementwise(op, ins, g),
        OpType::Sum { .. } | OpType::Mean { .. } => lemma_reductions(op, ins, g),
        OpType::Softmax { .. } => lemma_softmax_rule(op, ins, g),
        OpType::Reshape | OpType::Transpose { .. } | OpType::Permute { .. } => lemma_views_rule(
            op,
            ins,
            g,
        ),
        OpType::Conv2d { .. } | OpType::MaxPool2d { .. } | OpType::AvgPool2d { .. } =>
            lemma_images_rule(op, ins, g),
        OpType::Relu | OpType::Gelu => {
            assert(ins[0].wf());
            law_broadcast_self(g.dims);
        },
        OpType::Matmul => lemma_matmul_rule(op, ins, g),
        OpType::LayerNorm { .. } => {
            assert(ins[0].wf());
            law_broadcast_self(g.dims);
        },
        OpType::CrossEntropy => {
            crate::index::lemma_dims1(1);
        },
        _ => {
            assert(ins[0].wf());
        },
    }
}

/// The extents of transposed matrices.
proof fn lemma_flipped<S>(a: Value<S>)
    requires
        2 <= a.dims.len() <= 8,
    ensures
        flipped(a).dims == batch_dims(a.dims).push(cols(a.dims)).push(rows(a.dims)),
        batch_dims(flipped(a).dims) == batch_dims(a.dims),
        rows(flipped(a).dims) == cols(a.dims),
        cols(flipped(a).dims) == rows(a.dims),
        a.dims == batch_dims(a.dims).push(rows(a.dims)).push(cols(a.dims)),
{
    let n = a.dims.len();
    lemma_swapped_is_permuted(a.dims, n - 2, n - 1);
    let f = flipped(a).dims;
    assert(f == swapped_dims(a.dims, n - 2, n - 1));
    assert(f =~= batch_dims(a.dims).push(cols(a.dims)).push(rows(a.dims)));
    assert(batch_dims(f) =~= batch_dims(a.dims));
    assert(a.dims =~= batch_dims(a.dims).push(rows(a.dims)).push(cols(a.dims)));
}

/// Stacks of equal matrices broadcast as their leading extents do.
proof fn lemma_stacks(p: Seq<usize>, q: Seq<usize>, x: usize, y: usize)
    requires
        broadcasts_to(p, q),
    ensures
        broadcasts_to(p.push(x).push(y), q.push(x).push(y)),
{
    let a = p.push(x).push(y);
    let b = q.push(x).push(y);
    assert forall|k: int| 0 <= k < a.len() implies #[trigger] stretches_at(a, b, k) by {
        if k >= 2 {
            assert(stretches_at(p, q, k - 2));
            assert(dim_from_end(a, k) == dim_from_end(p, k - 2));
            assert(dim_from_end(b, k) == dim_from_end(q, k - 2));
        }
    }
}

proof fn lemma_matmul_rule<S: Scalar>(op: OpType, ins: Seq<Value<S>>, g: Value<S>)
    requires
        op is Matmul,
        inputs_wf(ins),
        g.wf(),
        applies(op, ins, g.dims),
    ensures
        rule_ok(op, ins, g),
        fits_inputs(rule_value(op, ins, g), ins),
{
    let a = ins[0];
    let b = ins[1];
    assert(a.wf() && b.wf());
    let (pa, pb) = (batch_dims(a.dims), batch_dims(b.dims));
    let both = broadcast_dims(pa, pb);
    let (m, k, n) = (rows(a.dims), cols(a.dims), cols(b.dims));
    lemma_flipped(a);
    lemma_flipped(b);
    law_broadcast_reaches(pa, pb);
    law_broadcast_absorbs(pa, both);
    law_broadcast_absorbs(pb, both);
    assert(g.dims == both.push(m).push(n));
    assert(batch_dims(g.dims) =~= both);
    let x = matmul_value(g, flipped(b));
    assert(x.dims =~= both.push(m).push(k));
    lemma_stacks(pa, both, m, k);
    lemma_reduce_ok(x, a.dims);
    let y = matmul_value(flipped(a), g);
    assert(y.dims =~= both.push(k).push(n));
    lemma_stacks(pb, both, k, n);
    lemma_reduce_ok(y, b.dims);
}

/// The steps fit together: each applies to its inputs, and the inputs that a node stands for have
/// the extents of that node's output.
pub open spec fn shaped<S: Scalar>(
    steps: Seq<StepView<S>>,
    outs: Seq<Seq<usize>>,
    i: int,
) -> bool {
    let s = steps[i];
    s.saved.len() > 0 && !(s.op is Checkpoint) ==> {
        &&& inputs_wf(s.saved)
        &&& applies(s.op, s.saved, outs[i])
        &&& s.inputs.len() <= s.saved.len()
        &&& forall|j: int|
            0 <= j < s.inputs.len() ==> ((#[trigger] s.inputs[j]) matches Some(id) ==> id < i
                && outs[id as int] == s.saved[j].dims)
    }
}

/// All steps fit together.
pub open spec fn well_shaped<S: Scalar>(steps: Seq<StepView<S>>, outs: Seq<Seq<usize>>) -> bool {
    &&& outs.len() == steps.len()
    &&& forall|i: int| 0 <= i < steps.len() ==> #[trigger] shaped(steps, outs, i)
}

/// Every gradient has the extents of its node's output.
pub open spec fn grads_fit<S>(grads: Grads<S>, outs: Seq<Seq<usize>>) -> bool {
    forall|i: int| #[trigger]
        grads.contains_key(i) ==> 0 <= i < outs.len() && grads[i].wf() && grads[i].dims == outs[i]
}

/// Gradients with the extents of their inputs are well formed.
pub open spec fn all_fit<S>(
    inputs: Seq<Option<u32>>,
    gs: Seq<Value<S>>,
    outs: Seq<Seq<usize>>,
) -> bool {
    &&& gs.len() >= inputs.len()
    &&& forall|j: int|
        0 <= j < inputs.len() ==> ((#[trigger] inputs[j]) matches Some(id) ==> id < outs.len()
            && gs[j].wf() && gs[j].dims == outs[id as int])
}

proof fn lemma_deposits<S: Scalar>(
    grads: Grads<S>,
    inputs: Seq<Option<u32>>,
    gs: Seq<Value<S>>,
    outs: Seq<Seq<usize>>,
    n: int,
)
    requires
        grads_fit(grads, outs),
        all_fit(inputs, gs, outs),
        0 <= n <= inputs.len(),
    ensures
        deposited_ok(grads, inputs, gs, n),
        grads_fit(deposited(grads, inputs, gs, n), outs),
    decreases n,
{
    if n > 0 {
        lemma_deposits(grads, inputs, gs, outs, n - 1);
        let before = deposited(grads, inputs, gs, n - 1);
        let input = inputs[n - 1];
        let g = gs[n - 1];
        if let Some(id) = input {
            if before.contains_key(id as int) {
                let x = before[id as int];
                law_broadcast_self(x.dims);
                assert(zip_ok(x, g));
                assert(zip_value(x, g, BinaryOp::Add).wf());
            }
        }
        assert forall|i: int| 0 <= i < n implies #[trigger] deposit_ok(
            deposited(grads, inputs, gs, i),
            inputs[i],
            gs[i],
        ) by {
            if i == n - 1 {
            }
        }
        let after = deposited(grads, inputs, gs, n);
        assert forall|i: int| #[trigger] after.contains_key(i) implies 0 <= i < outs.len()
            && after[i].wf() && after[i].dims == outs[i] by {
            if before.contains_key(i) {
            }
        }
    }
}

/// A backward pass over steps that fit together never gets stuck: every gradient rule it meets
/// applies, and every sum of gradients is of gradients with the same extents.
pub proof fn law_backward_total<S: Scalar>(
    steps: Seq<StepView<S>>,
    outs: Seq<Seq<usize>>,
    p: Progress<S>,
)
    requires
        well_shaped(steps, outs),
        p.left <= steps.len(),
        grads_fit(p.grads, outs),
    ensures
        run_ok(steps, p),
        grads_fit(run(steps, p).grads, outs),
    decreases p.left,
{
    if p.left > 0 && !paused(steps, p.grads, p.left - 1) {
        let i = p.left - 1;
        let s = steps[i];
        assert(shaped(steps, outs, i));
        if reached(steps, p.grads, i) {
            let g = p.grads[i];
            law_rule_total(s.op, s.saved, g);
            let gs = rule_value(s.op, s.saved, g);
            lemma_rule_wf(s.op, s.saved, g);
            assert(all_fit(s.inputs, gs, outs)) by {
                assert forall|j: int| 0 <= j < s.inputs.len() implies ((
                #[trigger] s.inputs[j]) matches Some(id) ==> id < outs.len() && gs[j].wf()
                    && gs[j].dims == outs[id as int]) by {
                    assert(gs[j].dims == s.saved[j].dims);
                }
            }
            lemma_deposits(p.grads, s.inputs, gs, outs, s.inputs.len() as int);
        }
        law_backward_total(
            steps,
            outs,
            Progress { left: i, grads: visit(steps, p.grads, i) },
        );
    }
}

/// The gradients of an operation are well formed.
proof fn lemma_rule_wf<S: Scalar>(op: OpType, ins: Seq<Value<S>>, g: Value<S>)
    requires
        inputs_wf(ins),
        g.wf(),
        applies(op, ins, g.dims),
        rule_ok(op, ins, g),
        fits_inputs(rule_value(op, ins, g), ins),
    ensures
        forall|i: int| 0 <= i < ins.len() ==> (#[trigger] rule_value(op, ins, g)[i]).wf(),
{
    let gs = rule_value(op, ins, g);
    assert forall|i: int| 0 <= i < ins.len() implies (#[trigger] gs[i]).wf() by {
        assert(ins[i].wf());
        assert(gs[i].dims == ins[i].dims);
        lemma_rule_len(op, ins, g, i);
    }
}

proof fn lemma_rule_len<S: Scalar>(op: OpType, ins: Seq<Value<S>>, g: Value<S>, i: int)
    requires
        inputs_wf(ins),
        g.wf(),
        applies(op, ins, g.dims),
        rule_ok(op, ins, g),
        fits_inputs(rule_value(op, ins, g), ins),
        0 <= i < ins.len(),
    ensures
        rule_value(op, ins, g)[i].data.len() == numel(rule_value(op, ins, g)[i].dims),
{
    match op {
        OpType::Add | OpType::Sub | OpType::Mul | OpType::Div | OpType::Matmul =>
            lemma_sums_len(op, ins, g, i),
        OpType::LayerNorm { .. } | OpType::BatchNorm { .. } | OpType::Conv2d { .. } =>
            lemma_weights_len(op, ins, g, i),
        OpType::Embedding | OpType::CrossEntropy | OpType::FusedAttention =>
            lemma_lookups_len(op, ins, g, i),
        _ => lemma_single_len(op, ins, g, i),
    }
}

proof fn lemma_sums_len<S: Scalar>(op: OpType, ins: Seq<Value<S>>, g: Value<S>, i: int)
    requires
        inputs_wf(ins),
        g.wf(),
        applies(op, ins, g.dims),
        rule_ok(op, ins, g),
        fits_inputs(rule_value(op, ins, g), ins),
        0 <= i < ins.len(),
        op is Add || op is Sub || op is Mul || op is Div || op is Matmul,
    ensures
        rule_value(op, ins, g)[i].data.len() == numel(rule_value(op, ins, g)[i].dims),
{
    assert(ins[i].wf());
    if i == 0 {
        assert(rule_value(op, ins, g)[0].data.len() == numel(rule_value(op, ins, g)[0].dims));
    } else {
        assert(rule_value(op, ins, g)[1].data.len() == numel(rule_value(op, ins, g)[1].dims));
    }
}

proof fn lemma_weights_len<S: Scalar>(op: OpType, ins: Seq<Value<S>>, g: Value<S>, i: int)
    requires
        inputs_wf(ins),
        g.wf(),
        applies(op, ins, g.dims),
        rule_ok(op, ins, g),
        fits_inputs(rule_value(op, ins, g), ins),
        0 <= i < ins.len(),
        op is LayerNorm || op is BatchNorm || op is Conv2d,
    ensures
        rule_value(op, ins, g)[i].data.len() == numel(rule_value(op, ins, g)[i].dims),
{
    assert(ins[i].wf());
    let d = ins[0].dims;
    if op is LayerNorm && numel(d) > 0 {
        crate::index::lemma_dims1(d[d.len() - 1]);
    }
    if op is BatchNorm {
        crate::index::lemma_dims1(d[1]);
    }
    if op is Conv2d {
        crate::index::lemma_dims1(ins[1].dims[0]);
    }
}

proof fn lemma_lookups_len<S: Scalar>(op: OpType, ins: Seq<Value<S>>, g: Value<S>, i: int)
    requires
        inputs_wf(ins),
        g.wf(),
        applies(op, ins, g.dims),
        rule_ok(op, ins, g),
        fits_inputs(rule_value(op, ins, g), ins),
        0 <= i < ins.len(),
        op is Embedding || op is CrossEntropy || op is FusedAttention,
    ensures
        rule_value(op, ins, g)[i].data.len() == numel(rule_value(op, ins, g)[i].dims),
{
    assert(ins[i].wf());
    assert(ins[0].wf());
}

proof fn lemma_single_len<S: Scalar>(op: OpType, ins: Seq<Value<S>>, g: Value<S>, i: int)
    requires
        inputs_wf(ins),
        g.wf(),
        applies(op, ins, g.dims),
        rule_ok(op, ins, g),
        fits_inputs(rule_value(op, ins, g), ins),
        0 <= i < ins.len(),
        ins.len() == 1,
    ensures
        rule_value(op, ins, g)[i].data.len() == numel(rule_value(op, ins, g)[i].dims),
{
    assert(ins[0].wf());
}

} // verus!
