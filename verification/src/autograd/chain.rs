//! The chain rule: what a whole backward pass comes to.
//!
//! Give every node a tangent, the change of its output that changes of the leaves make. Where each
//! recorded step is balanced, that is, its gradient rule is the other side of what it does to
//! tangents, the whole pass is balanced too: the gradient that it starts from weighs against the
//! tangent of its output what the gradients of the leaves weigh against theirs.
use vstd::prelude::*;
use crate::autograd::backward::first_progress;
use crate::autograd::exact::{
    exact, lemma_add, lemma_distribute, lemma_total_add, lemma_total_eq, lemma_total_pick,
    pairing, total,
};
use crate::autograd::rules::rule_value;
use crate::autograd::sweep::{
    deposit, deposited, paused, reached, run, visit, Grads, Progress, StepView,
};
use crate::broadcast::law_broadcast_self;
use crate::cpu::elementwise::{zip_value, BinaryOp};
use crate::dense::Value;
use crate::index::{lemma_bounded_fits, lemma_offset_of_coord};
use crate::scalar::{zero, Scalar};

verus! {

/// What the gradients of the first `n` inputs weigh against the tangents of their nodes; an input
/// without a node does not change.
pub open spec fn passed<S: Scalar>(
    inputs: Seq<Option<u32>>,
    gs: Seq<Value<S>>,
    tangents: Seq<Value<S>>,
    n: int,
) -> S
    decreases n,
{
    if n <= 0 {
        zero()
    } else {
        let before = passed(inputs, gs, tangents, n - 1);
        match inputs[n - 1] {
            Some(id) => S::add_spec(before, pairing(gs[n - 1].data, tangents[id as int].data)),
            None => before,
        }
    }
}

/// A gradient of the shape of the node that it belongs to.
pub open spec fn fitting<S>(g: Value<S>, tangent: Value<S>) -> bool {
    g.wf() && g.dims == tangent.dims
}

/// The inputs of step `i` are earlier nodes, and what it passes on has their shapes and weighs
/// against their tangents what the gradient of its output weighs against its own.
pub open spec fn balanced_for<S: Scalar>(
    steps: Seq<StepView<S>>,
    tangents: Seq<Value<S>>,
    i: int,
    g: Value<S>,
) -> bool {
    let s = steps[i];
    let gs = rule_value(s.op, s.saved, g);
    &&& forall|k: int|
        0 <= k < s.inputs.len() ==> ((#[trigger] s.inputs[k]) matches Some(id) ==> id < i
            && fitting(gs[k], tangents[id as int]))
    &&& pairing(g.data, tangents[i].data) == passed(
        s.inputs,
        gs,
        tangents,
        s.inputs.len() as int,
    )
}

/// Step `i` is balanced for every gradient of its output.
pub open spec fn balanced<S: Scalar>(
    steps: Seq<StepView<S>>,
    tangents: Seq<Value<S>>,
    i: int,
) -> bool {
    forall|g: Value<S>|
        fitting(g, tangents[i]) ==> #[trigger] balanced_for(steps, tangents, i, g)
}

/// What the gradient of node `i` weighs against its tangent: nothing where there is no gradient,
/// or where it has been passed on.
pub open spec fn weight_at<S: Scalar>(
    steps: Seq<StepView<S>>,
    tangents: Seq<Value<S>>,
    p: Progress<S>,
    i: int,
) -> S {
    if p.grads.contains_key(i) && (i < p.left || steps[i].saved.len() == 0) {
        pairing(p.grads[i].data, tangents[i].data)
    } else {
        zero()
    }
}

/// What all gradients that have not been passed on weigh against the tangents.
pub open spec fn weight<S: Scalar>(
    steps: Seq<StepView<S>>,
    tangents: Seq<Value<S>>,
    p: Progress<S>,
) -> S {
    total(steps.len(), |i: int| weight_at(steps, tangents, p, i))
}

/// Gradients belong to nodes and have their shapes.
pub open spec fn all_fitting<S>(grads: Grads<S>, tangents: Seq<Value<S>>) -> bool {
    forall|i: int| #[trigger]
        grads.contains_key(i) ==> 0 <= i < tangents.len() && fitting(grads[i], tangents[i])
}

/// The sum of two values of one shape, and what it weighs.
pub proof fn lemma_pairing_add<S: Scalar>(a: Value<S>, b: Value<S>, x: Seq<S>)
    requires
        exact::<S>(),
        a.wf(),
        b.wf(),
        a.dims == b.dims,
        x.len() == a.data.len(),
    ensures
        ({
            let c = zip_value(a, b, BinaryOp::Add);
            &&& c.wf()
            &&& c.dims == a.dims
            &&& pairing(c.data, x) == S::add_spec(pairing(a.data, x), pairing(b.data, x))
            &&& pairing(x, c.data) == S::add_spec(pairing(x, a.data), pairing(x, b.data))
        }),
{
    let c = zip_value(a, b, BinaryOp::Add);
    law_broadcast_self(a.dims);
    lemma_bounded_fits(a.dims);
    let n = a.data.len();
    let fa = |i: int| S::mul_spec(a.data[i], x[i]);
    let fb = |i: int| S::mul_spec(b.data[i], x[i]);
    let fc = |i: int| S::mul_spec(c.data[i], x[i]);
    let ga = |i: int| S::mul_spec(x[i], a.data[i]);
    let gb = |i: int| S::mul_spec(x[i], b.data[i]);
    let gc = |i: int| S::mul_spec(x[i], c.data[i]);
    let f = |i: int| S::add_spec(fa(i), fb(i));
    let g = |i: int| S::add_spec(ga(i), gb(i));
    assert forall|i: int| 0 <= i < n implies #[trigger] fc(i) == f(i) && gc(i) == g(i) by {
        lemma_offset_of_coord(i as nat, a.dims);
        lemma_distribute(x[i], a.data[i], b.data[i]);
    }
    assert forall|i: int| 0 <= i < n implies #[trigger] gc(i) == g(i) by {
        assert(fc(i) == f(i));
    }
    lemma_total_eq(n, fc, f);
    lemma_total_eq(n, gc, g);
    lemma_total_add(n, fa, fb);
    lemma_total_add(n, ga, gb);
}

/// A gradient that is added to a node adds its weight.
proof fn lemma_deposit<S: Scalar>(
    steps: Seq<StepView<S>>,
    tangents: Seq<Value<S>>,
    p: Progress<S>,
    id: u32,
    g: Value<S>,
)
    requires
        exact::<S>(),
        steps.len() == tangents.len(),
        forall|i: int| 0 <= i < tangents.len() ==> (#[trigger] tangents[i]).wf(),
        all_fitting(p.grads, tangents),
        id < p.left <= steps.len(),
        fitting(g, tangents[id as int]),
    ensures
        ({
            let q = Progress { grads: deposit(p.grads, Some(id), g), ..p };
            &&& all_fitting(q.grads, tangents)
            &&& weight(steps, tangents, q) == S::add_spec(
                weight(steps, tangents, p),
                pairing(g.data, tangents[id as int].data),
            )
        }),
{
    let q = Progress { grads: deposit(p.grads, Some(id), g), ..p };
    let n = steps.len();
    let k = id as int;
    let x = tangents[k];
    let more = pairing(g.data, x.data);
    let f = |i: int| weight_at(steps, tangents, p, i);
    let h = |i: int| weight_at(steps, tangents, q, i);
    let d = |i: int|
        if i == k {
            more
        } else {
            zero()
        };
    let both = |i: int| S::add_spec(f(i), d(i));
    assert(x.wf());
    if p.grads.contains_key(k) {
        lemma_pairing_add(p.grads[k], g, x.data);
    }
    assert forall|i: int| 0 <= i < n implies #[trigger] h(i) == both(i) by {
        if i == k {
            lemma_add(more, zero(), zero());
        } else {
            assert(q.grads.contains_key(i) == p.grads.contains_key(i));
            lemma_add(f(i), zero(), zero());
        }
    }
    lemma_total_eq(n, h, both);
    lemma_total_add(n, f, d);
    lemma_total_pick(n, k, d);
    assert forall|i: int| #[trigger] q.grads.contains_key(i) implies 0 <= i < tangents.len()
        && fitting(q.grads[i], tangents[i]) by {
        if i != k {
            assert(p.grads.contains_key(i));
        }
    }
}

/// The gradients of the first `n` inputs add what they weigh.
proof fn lemma_deposited<S: Scalar>(
    steps: Seq<StepView<S>>,
    tangents: Seq<Value<S>>,
    p: Progress<S>,
    inputs: Seq<Option<u32>>,
    gs: Seq<Value<S>>,
    n: int,
)
    requires
        exact::<S>(),
        steps.len() == tangents.len(),
        forall|i: int| 0 <= i < tangents.len() ==> (#[trigger] tangents[i]).wf(),
        all_fitting(p.grads, tangents),
        p.left <= steps.len(),
        0 <= n <= inputs.len(),
        forall|k: int|
            0 <= k < inputs.len() ==> ((#[trigger] inputs[k]) matches Some(id) ==> id < p.left
                && fitting(gs[k], tangents[id as int])),
    ensures
        ({
            let q = Progress { grads: deposited(p.grads, inputs, gs, n), ..p };
            &&& all_fitting(q.grads, tangents)
            &&& weight(steps, tangents, q) == S::add_spec(
                weight(steps, tangents, p),
                passed(inputs, gs, tangents, n),
            )
        }),
    decreases n,
{
    let w = weight(steps, tangents, p);
    if n > 0 {
        lemma_deposited(steps, tangents, p, inputs, gs, n - 1);
        let q = Progress { grads: deposited(p.grads, inputs, gs, n - 1), ..p };
        match inputs[n - 1] {
            Some(id) => {
                lemma_deposit(steps, tangents, q, id, gs[n - 1]);
                lemma_add(
                    w,
                    passed(inputs, gs, tangents, n - 1),
                    pairing(gs[n - 1].data, tangents[id as int].data),
                );
            },
            None => {},
        }
    } else {
        lemma_add(w, zero(), zero());
    }
}

/// Passing on a gradient changes no weight.
proof fn lemma_visit<S: Scalar>(
    steps: Seq<StepView<S>>,
    tangents: Seq<Value<S>>,
    p: Progress<S>,
)
    requires
        exact::<S>(),
        steps.len() == tangents.len(),
        forall|i: int| 0 <= i < tangents.len() ==> (#[trigger] tangents[i]).wf(),
        all_fitting(p.grads, tangents),
        0 < p.left <= steps.len(),
        steps[p.left - 1].saved.len() > 0 ==> balanced(steps, tangents, p.left - 1),
    ensures
        ({
            let q = Progress { left: p.left - 1, grads: visit(steps, p.grads, p.left - 1) };
            &&& all_fitting(q.grads, tangents)
            &&& weight(steps, tangents, q) == weight(steps, tangents, p)
        }),
{
    let i = p.left - 1;
    let n = steps.len();
    let mid = Progress { left: i, ..p };
    let f = |j: int| weight_at(steps, tangents, p, j);
    let h = |j: int| weight_at(steps, tangents, mid, j);
    if reached(steps, p.grads, i) {
        let s = steps[i];
        let g = p.grads[i];
        let gs = rule_value(s.op, s.saved, g);
        assert(balanced_for(steps, tangents, i, g));
        lemma_deposited(steps, tangents, mid, s.inputs, gs, s.inputs.len() as int);
        let w = pairing(g.data, tangents[i].data);
        let d = |j: int|
            if j == i {
                w
            } else {
                zero()
            };
        let both = |j: int| S::add_spec(h(j), d(j));
        assert forall|j: int| 0 <= j < n implies #[trigger] f(j) == both(j) by {
            if j == i {
                lemma_add(w, zero(), zero());
            } else {
                lemma_add(h(j), zero(), zero());
            }
        }
        lemma_total_eq(n, f, both);
        lemma_total_add(n, h, d);
        lemma_total_pick(n, i, d);
    } else {
        lemma_total_eq(n, f, h);
    }
}

/// In exact arithmetic a backward pass over balanced steps keeps the weight of its gradients.
pub proof fn law_run_balanced<S: Scalar>(
    steps: Seq<StepView<S>>,
    tangents: Seq<Value<S>>,
    p: Progress<S>,
)
    requires
        exact::<S>(),
        steps.len() == tangents.len(),
        forall|i: int| 0 <= i < tangents.len() ==> (#[trigger] tangents[i]).wf(),
        forall|i: int|
            0 <= i < steps.len() && (#[trigger] steps[i]).saved.len() > 0 ==> balanced(
                steps,
                tangents,
                i,
            ),
        all_fitting(p.grads, tangents),
        p.left <= steps.len(),
    ensures
        all_fitting(run(steps, p).grads, tangents),
        weight(steps, tangents, run(steps, p)) == weight(steps, tangents, p),
    decreases p.left,
{
    if !(p.left <= 0 || paused(steps, p.grads, p.left - 1)) {
        assert(steps[p.left - 1].saved.len() > 0 ==> balanced(steps, tangents, p.left - 1));
        lemma_visit(steps, tangents, p);
        law_run_balanced(
            steps,
            tangents,
            Progress { left: p.left - 1, grads: visit(steps, p.grads, p.left - 1) },
        );
    }
}

/// What the gradients of the leaves weigh against the tangents of the leaves.
pub open spec fn leaves_weight<S: Scalar>(
    steps: Seq<StepView<S>>,
    tangents: Seq<Value<S>>,
    grads: Grads<S>,
) -> S {
    total(
        steps.len(),
        |i: int|
            if grads.contains_key(i) && steps[i].saved.len() == 0 {
                pairing(grads[i].data, tangents[i].data)
            } else {
                zero()
            },
    )
}

/// The chain rule, in exact arithmetic: over steps that are balanced, the gradients of the leaves
/// weigh against the changes of the leaves what the gradient that the pass starts from weighs
/// against the change of the output.
pub proof fn law_sweep_adjoint<S: Scalar>(
    steps: Seq<StepView<S>>,
    tangents: Seq<Value<S>>,
    at: u32,
    grad: Value<S>,
)
    requires
        exact::<S>(),
        steps.len() == tangents.len(),
        forall|i: int| 0 <= i < tangents.len() ==> (#[trigger] tangents[i]).wf(),
        forall|i: int|
            0 <= i < steps.len() && (#[trigger] steps[i]).saved.len() > 0 ==> balanced(
                steps,
                tangents,
                i,
            ),
        forall|i: int| 0 <= i < steps.len() ==> !((#[trigger] steps[i]).op is Checkpoint),
        at < steps.len(),
        fitting(grad, tangents[at as int]),
    ensures
        leaves_weight(
            steps,
            tangents,
            run(steps, first_progress(steps.len(), at, grad)).grads,
        ) == pairing(grad.data, tangents[at as int].data),
{
    let p = first_progress(steps.len(), at, grad);
    let n = steps.len();
    law_run_balanced(steps, tangents, p);
    crate::autograd::sweep::law_run_ends(steps, p);
    let f = |i: int| weight_at(steps, tangents, p, i);
    lemma_total_pick(n, at as int, f);
    let q = run(steps, p);
    let h = |i: int| weight_at(steps, tangents, q, i);
    let l = |i: int|
        if q.grads.contains_key(i) && steps[i].saved.len() == 0 {
            pairing(q.grads[i].data, tangents[i].data)
        } else {
            zero()
        };
    lemma_total_eq(n, h, l);
}

} // verus!
