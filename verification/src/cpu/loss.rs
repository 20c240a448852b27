//! Embedding lookup and categorical cross-entropy.
use vstd::prelude::*;
use crate::cpu::norm::lemma_single;
use crate::cpu::reduce::{
    exp_step, inner, line_at, line_exp, line_exp_sum, line_index, line_max, max_step,
};
use crate::dense::{copied, filled, Dense, Value};
use crate::index::{bounded, lemma_bounded_fits, numel, tail_numel};
use crate::math::{fold, lemma_index2, lemma_join2, lemma_split2};
use crate::scalar::{one, zero, Constant, Scalar};
use crate::shape::Shape;

verus! {

/// The class that a number stands for.
pub open spec fn class_of<S: Scalar>(v: S) -> int {
    S::index_spec(v)->0 as int
}

/// Every number stands for a class below `count`.
pub open spec fn classes_ok<S: Scalar>(x: Seq<S>, count: usize) -> bool {
    forall|i: int|
        0 <= i < x.len() ==> S::index_spec(#[trigger] x[i]) is Some && class_of(x[i]) < count
}

/// The class that a number stands for.
fn class_at<S: Scalar>(v: S) -> (r: usize)
    requires
        S::index_spec(v) is Some,
    ensures
        r == class_of(v),
{
    match v.index() {
        Some(i) => i,
        None => 0,
    }
}

/// Ids can be looked up in a table: it has two axes, every id names a row, and the result fits.
pub open spec fn embedding_ok<S: Scalar>(x: Value<S>, weight: Value<S>) -> bool {
    &&& weight.dims.len() == 2
    &&& x.dims.len() < 8
    &&& classes_ok(x.data, weight.dims[0])
    &&& bounded(x.dims.push(weight.dims[1]))
}

/// The rows of `weight` that the ids in `x` name.
pub open spec fn embedding_value<S: Scalar>(x: Value<S>, weight: Value<S>) -> Value<S> {
    let e = weight.dims[1] as int;
    let dims = x.dims.push(weight.dims[1]);
    Value {
        dims,
        data: Seq::new(
            numel(dims),
            |i: int| weight.data[class_of(x.data[i / e]) * e + i % e],
        ),
    }
}

/// Appending an axis multiplies the element count by its extent.
pub proof fn lemma_numel_push(d: Seq<usize>, e: usize)
    ensures
        numel(d.push(e)) == numel(d) * e as nat,
{
    let p = d.push(e);
    crate::index::lemma_head_numel(p);
    crate::index::lemma_head_numel(d);
    crate::cpu::matmul::lemma_head_prefix(p, d, d.len() as int);
}

pub proof fn lemma_numel2(d: Seq<usize>)
    requires
        d.len() == 2,
    ensures
        numel(d) == d[0] as nat * d[1] as nat,
{
    reveal_with_fuel(tail_numel, 3);
}

/// Embedding lookup forward.
pub fn embedding<S: Scalar>(x: &Dense<S>, weight: &Dense<S>) -> (r: Dense<S>)
    requires
        x.wf(),
        weight.wf(),
        embedding_ok(x@, weight@),
    ensures
        r.wf(),
        r@ == embedding_value(x@, weight@),
{
    let vocab = weight.shape().dim(0);
    let e = weight.shape().dim(1);
    let mut dims = copied(x.shape().dims());
    dims.push(e);
    let shape = Shape::new(&dims);
    let ghost value = embedding_value(x@, weight@);
    proof {
        assert(shape@ =~= x@.dims.push(e));
        lemma_bounded_fits(shape@);
        lemma_bounded_fits(weight@.dims);
        lemma_numel_push(x@.dims, e);
        lemma_numel2(weight@.dims);
    }
    let total = shape.numel();
    let mut out: Vec<S> = Vec::with_capacity(total);
    let n = x.numel();
    let mut i: usize = 0;
    while i < total
        invariant
            i <= total == n * e,
            n == x@.data.len(),
            x.wf(),
            weight.wf(),
            e == weight@.dims[1],
            vocab == weight@.dims[0],
            weight@.data.len() == vocab * e,
            weight@.data.len() <= usize::MAX,
            classes_ok(x@.data, vocab),
            value == embedding_value(x@, weight@),
            value.data.len() == total,
            out@.len() == i,
            forall|k: int| 0 <= k < i ==> out@[k] == value.data[k],
        decreases total - i,
    {
        proof {
            lemma_split2(i as int, n as int, e as int);
            assert(S::index_spec(x@.data[i as int / e as int]) is Some);
            lemma_index2(
                class_of(x@.data[i as int / e as int]),
                vocab as int,
                i as int % e as int,
                e as int,
            );
        }
        let token = class_at(x.data()[i / e]);
        out.push(weight.data()[token * e + i % e]);
        i = i + 1;
    }
    assert(out@ =~= value.data);
    Dense::new(shape, out)
}

/// Adds the gradient of position `i` when its id is `token`.
pub open spec fn gather_step<S: Scalar>(
    x: Seq<S>,
    go: Seq<S>,
    e: int,
    token: int,
    d: int,
) -> spec_fn(int, S) -> S {
    |i: int, acc: S|
        if class_of(x[i]) == token {
            S::add_spec(acc, go[i * e + d])
        } else {
            acc
        }
}

/// The gradients of all positions, added up per row of the table.
pub open spec fn embedding_backward_value<S: Scalar>(
    x: Value<S>,
    weight: Value<S>,
    go: Value<S>,
) -> Value<S> {
    let e = weight.dims[1] as int;
    Value {
        dims: weight.dims,
        data: Seq::new(
            weight.data.len(),
            |k: int| fold(x.data.len(), zero(), gather_step(x.data, go.data, e, k / e, k % e)),
        ),
    }
}

/// The state of entry `k` of the table gradient after `i` positions and `d` entries of the next.
spec fn gathered<S: Scalar>(x: Seq<S>, go: Seq<S>, e: int, i: int, d: int, k: int) -> S {
    let f = gather_step(x, go, e, k / e, k % e);
    if k % e < d {
        fold((i + 1) as nat, zero(), f)
    } else {
        fold(i as nat, zero(), f)
    }
}

/// Embedding lookup backward: the gradient of the table.
pub fn embedding_backward<S: Scalar>(
    x: &Dense<S>,
    weight: &Dense<S>,
    grad_out: &Dense<S>,
) -> (r: Dense<S>)
    requires
        x.wf(),
        weight.wf(),
        grad_out.wf(),
        embedding_ok(x@, weight@),
        grad_out@.dims == x@.dims.push(weight@.dims[1]),
    ensures
        r.wf(),
        r@ == embedding_backward_value(x@, weight@, grad_out@),
{
    let vocab = weight.shape().dim(0);
    let e = weight.shape().dim(1);
    let n = x.numel();
    let ghost value = embedding_backward_value(x@, weight@, grad_out@);
    let ghost xs = x@.data;
    let ghost gs = grad_out@.data;
    proof {
        lemma_bounded_fits(weight@.dims);
        lemma_bounded_fits(grad_out@.dims);
        lemma_numel_push(x@.dims, e);
        lemma_numel2(weight@.dims);
    }
    let total = weight.numel();
    let mut gw: Vec<S> = filled(total, S::constant(Constant::Zero));
    let mut i: usize = 0;
    while i < n
        invariant
            i <= n == xs.len(),
            x.wf(),
            grad_out.wf(),
            xs == x@.data,
            gs == grad_out@.data,
            gs.len() == n * e,
            gs.len() <= usize::MAX,
            total == vocab * e,
            classes_ok(xs, vocab),
            gw@.len() == total,
            forall|k: int|
                0 <= k < total ==> #[trigger] gw@[k] == fold(
                    i as nat,
                    zero::<S>(),
                    gather_step(xs, gs, e as int, k / e as int, k % e as int),
                ),
        decreases n - i,
    {
        proof {
            assert(S::index_spec(xs[i as int]) is Some);
            assert forall|k: int| 0 <= k < total implies gw@[k] == gathered(
                xs,
                gs,
                e as int,
                i as int,
                0,
                k,
            ) by {
                lemma_split2(k, vocab as int, e as int);
            }
        }
        let token = class_at(x.data()[i]);
        let mut d: usize = 0;
        while d < e
            invariant
                d <= e,
                i < n == xs.len(),
                grad_out.wf(),
                gs == grad_out@.data,
                gs.len() == n * e,
                gs.len() <= usize::MAX,
                total == vocab * e,
                token == class_of(xs[i as int]),
                token < vocab,
                gw@.len() == total,
                forall|k: int|
                    0 <= k < total ==> #[trigger] gw@[k] == (if k / e as int == token {
                        gathered(xs, gs, e as int, i as int, d as int, k)
                    } else {
                        gathered(xs, gs, e as int, i as int, 0, k)
                    }),
            decreases e - d,
        {
            let ghost before = gw@;
            proof {
                lemma_index2(token as int, vocab as int, d as int, e as int);
                lemma_index2(i as int, n as int, d as int, e as int);
                lemma_join2(token as int, d as int, e as int);
            }
            let at: usize = token * e + d;
            let v = gw[at].add(grad_out.data()[i * e + d]);
            gw[at] = v;
            d = d + 1;
            proof {
                assert forall|k: int| 0 <= k < total implies #[trigger] gw@[k] == (if k / e as int
                    == token {
                    gathered(xs, gs, e as int, i as int, d as int, k)
                } else {
                    gathered(xs, gs, e as int, i as int, 0, k)
                }) by {
                    lemma_split2(k, vocab as int, e as int);
                    assert(before[k] == (if k / e as int == token {
                        gathered(xs, gs, e as int, i as int, d - 1, k)
                    } else {
                        gathered(xs, gs, e as int, i as int, 0, k)
                    }));
                    if k != at && k / e as int == token {
                        assert(k % e as int != d - 1);
                    }
                }
            }
        }
        i = i + 1;
        proof {
            assert forall|k: int| 0 <= k < total implies #[trigger] gw@[k] == fold(
                i as nat,
                zero::<S>(),
                gather_step(xs, gs, e as int, k / e as int, k % e as int),
            ) by {
                lemma_split2(k, vocab as int, e as int);
            }
        }
    }
    assert(gw@ =~= value.data);
    Dense::new(*weight.shape(), gw)
}

/// Logits and targets belong together: one row of logits per target, and every target names a
/// column.
pub open spec fn cross_entropy_ok<S: Scalar>(logits: Value<S>, targets: Value<S>) -> bool {
    &&& logits.dims.len() == 2
    &&& logits.dims[0] > 0
    &&& targets.dims == seq![logits.dims[0]]
    &&& classes_ok(targets.data, logits.dims[1])
}

/// The logarithm of the softmax of row `b` at its target: `target - max - ln(sum)`
pub open spec fn log_softmax_at<S: Scalar>(logits: Value<S>, targets: Value<S>, b: int) -> S {
    S::sub_spec(
        S::sub_spec(
            line_at(logits, 1, b, class_of(targets.data[b])),
            line_max(logits, 1, b),
        ),
        S::ln_spec(line_exp_sum(logits, 1, b)),
    )
}

pub open spec fn loss_step<S: Scalar>(logits: Value<S>, targets: Value<S>) -> spec_fn(int, S) -> S {
    |b: int, acc: S| S::sub_spec(acc, log_softmax_at(logits, targets, b))
}

/// The mean over all rows of the negated logarithms.
pub open spec fn cross_entropy_value<S: Scalar>(logits: Value<S>, targets: Value<S>) -> Value<S> {
    let total = fold(logits.dims[0] as nat, zero(), loss_step(logits, targets));
    Value { dims: seq![1usize], data: seq![S::div_spec(total, S::count_spec(logits.dims[0]))] }
}

/// Rows of a table are its lines along the last axis.
proof fn lemma_row_line(d: Seq<usize>, b: int, c: int)
    requires
        d.len() == 2,
        0 <= b < d[0],
        0 <= c < d[1],
    ensures
        line_index(d, 1, b, c) == b * d[1] + c,
        0 <= b * d[1],
        b * d[1] + c < numel(d),
{
    lemma_numel2(d);
    assert(tail_numel(d, 2) == 1);
    assert(b / 1 == b && b % 1 == 0);
    assert(inner(d, 1) == 1);
    assert(((b / 1) * d[1] + c) * 1 + b % 1 == b * d[1] + c) by (nonlinear_arith)
        requires
            b / 1 == b,
            b % 1 == 0,
    ;
    lemma_index2(b, d[0] as int, c, d[1] as int);
}

/// The largest logit of a row, and the sum of the shifted exponentials.
fn row_softmax<S: Scalar>(logits: &Dense<S>, b: usize) -> (r: (S, S))
    requires
        logits.wf(),
        logits@.dims.len() == 2,
        b < logits@.dims[0],
    ensures
        r.0 == line_max(logits@, 1, b as int),
        r.1 == line_exp_sum(logits@, 1, b as int),
{
    let vocab = logits.shape().dim(1);
    let ghost mx = max_step(logits@, 1, b as int);
    let ghost ex = exp_step(logits@, 1, b as int);
    proof {
        lemma_bounded_fits(logits@.dims);
    }
    let mut max_logit = S::constant(Constant::NegInfinity);
    let mut c: usize = 0;
    while c < vocab
        invariant
            c <= vocab == logits@.dims[1],
            logits.wf(),
            logits@.dims.len() == 2,
            b < logits@.dims[0],
            numel(logits@.dims) <= usize::MAX,
            mx == max_step(logits@, 1, b as int),
            max_logit == fold(c as nat, S::constant_spec(Constant::NegInfinity), mx),
        decreases vocab - c,
    {
        proof {
            lemma_row_line(logits@.dims, b as int, c as int);
        }
        let v = logits.data()[b * vocab + c];
        if v.gt(max_logit) {
            max_logit = v;
        }
        c = c + 1;
    }
    let mut sum_exp = S::constant(Constant::Zero);
    c = 0;
    while c < vocab
        invariant
            c <= vocab == logits@.dims[1],
            logits.wf(),
            logits@.dims.len() == 2,
            b < logits@.dims[0],
            numel(logits@.dims) <= usize::MAX,
            max_logit == line_max(logits@, 1, b as int),
            ex == exp_step(logits@, 1, b as int),
            sum_exp == fold(c as nat, zero::<S>(), ex),
        decreases vocab - c,
    {
        proof {
            lemma_row_line(logits@.dims, b as int, c as int);
        }
        sum_exp = sum_exp.add(logits.data()[b * vocab + c].sub(max_logit).exp());
        c = c + 1;
    }
    (max_logit, sum_exp)
}

/// Categorical cross-entropy loss forward.
pub fn cross_entropy<S: Scalar>(logits: &Dense<S>, targets: &Dense<S>) -> (r: Dense<S>)
    requires
        logits.wf(),
        targets.wf(),
        cross_entropy_ok(logits@, targets@),
    ensures
        r.wf(),
        r@ == cross_entropy_value(logits@, targets@),
{
    let batch = logits.shape().dim(0);
    let vocab = logits.shape().dim(1);
    let ghost step = loss_step(logits@, targets@);
    proof {
        lemma_single(targets@.dims, batch);
        lemma_bounded_fits(logits@.dims);
    }
    let mut loss = S::constant(Constant::Zero);
    let mut b: usize = 0;
    while b < batch
        invariant
            b <= batch == logits@.dims[0],
            vocab == logits@.dims[1],
            logits.wf(),
            targets.wf(),
            targets@.data.len() == batch,
            cross_entropy_ok(logits@, targets@),
            numel(logits@.dims) <= usize::MAX,
            step == loss_step(logits@, targets@),
            loss == fold(b as nat, zero::<S>(), step),
        decreases batch - b,
    {
        assert(S::index_spec(targets@.data[b as int]) is Some);
        let target = class_at(targets.data()[b]);
        let (max_logit, sum_exp) = row_softmax(logits, b);
        proof {
            lemma_row_line(logits@.dims, b as int, target as int);
        }
        let log_softmax = logits.data()[b * vocab + target].sub(max_logit).sub(sum_exp.ln());
        loss = loss.sub(log_softmax);
        b = b + 1;
    }
    let mean = loss.div(S::count(batch));
    let shape = Shape::from([1]);
    let mut data: Vec<S> = Vec::new();
    data.push(mean);
    proof {
        assert(shape@ =~= seq![1usize]);
        lemma_single(shape@, 1);
        assert(data@ =~= cross_entropy_value(logits@, targets@).data);
    }
    Dense::new(shape, data)
}

/// The gradient of row `b`, column `c` of the logits: `g * (softmax - indicator) / batch`
pub open spec fn cross_entropy_grad<S: Scalar>(
    logits: Value<S>,
    targets: Value<S>,
    g: S,
    b: int,
    c: int,
) -> S {
    let p = S::div_spec(line_exp(logits, 1, b, c), line_exp_sum(logits, 1, b));
    let hit = if c == class_of(targets.data[b]) {
        one::<S>()
    } else {
        zero::<S>()
    };
    S::div_spec(S::mul_spec(g, S::sub_spec(p, hit)), S::count_spec(logits.dims[0]))
}

/// The gradient of the cross-entropy loss with respect to the logits.
pub open spec fn cross_entropy_backward_value<S: Scalar>(
    logits: Value<S>,
    targets: Value<S>,
    go: Value<S>,
) -> Value<S> {
    let v = logits.dims[1] as int;
    Value {
        dims: logits.dims,
        data: Seq::new(
            logits.data.len(),
            |k: int| cross_entropy_grad(logits, targets, go.data[0], k / v, k % v),
        ),
    }
}

/// Categorical cross-entropy loss backward: the gradient of the logits.
pub fn cross_entropy_backward<S: Scalar>(
    logits: &Dense<S>,
    targets: &Dense<S>,
    grad_out: &Dense<S>,
) -> (r: Dense<S>)
    requires
        logits.wf(),
        targets.wf(),
        grad_out.wf(),
        cross_entropy_ok(logits@, targets@),
        numel(grad_out@.dims) == 1,
    ensures
        r.wf(),
        r@ == cross_entropy_backward_value(logits@, targets@, grad_out@),
{
    let batch = logits.shape().dim(0);
    let vocab = logits.shape().dim(1);
    let ghost value = cross_entropy_backward_value(logits@, targets@, grad_out@);
    let g = grad_out.data()[0];
    let total = logits.numel();
    proof {
        lemma_single(targets@.dims, batch);
        lemma_bounded_fits(logits@.dims);
        lemma_numel2(logits@.dims);
    }
    let count = S::count(batch);
    let mut out: Vec<S> = Vec::with_capacity(total);
    let mut b: usize = 0;
    proof {
        assert(0 * vocab == 0) by (nonlinear_arith);
    }
    while b < batch
        invariant
            b <= batch == logits@.dims[0],
            vocab == logits@.dims[1],
            logits.wf(),
            targets.wf(),
            targets@.data.len() == batch,
            cross_entropy_ok(logits@, targets@),
            numel(logits@.dims) <= usize::MAX,
            total == batch * vocab,
            g == grad_out@.data[0],
            count == S::count_spec(batch),
            value == cross_entropy_backward_value(logits@, targets@, grad_out@),
            value.data.len() == total,
            out@.len() == b * vocab,
            forall|k: int| 0 <= k < b * vocab ==> out@[k] == value.data[k],
        decreases batch - b,
    {
        assert(S::index_spec(targets@.data[b as int]) is Some);
        let target = class_at(targets.data()[b]);
        let (max_logit, sum_exp) = row_softmax(logits, b);
        let mut c: usize = 0;
        while c < vocab
            invariant
                c <= vocab,
                b < batch == logits@.dims[0],
                vocab == logits@.dims[1],
                logits.wf(),
                numel(logits@.dims) <= usize::MAX,
                logits@.dims.len() == 2,
                total == batch * vocab,
                g == grad_out@.data[0],
                count == S::count_spec(batch),
                target == class_of(targets@.data[b as int]),
                max_logit == line_max(logits@, 1, b as int),
                sum_exp == line_exp_sum(logits@, 1, b as int),
                value == cross_entropy_backward_value(logits@, targets@, grad_out@),
                value.data.len() == total,
                out@.len() == b * vocab + c,
                forall|k: int| 0 <= k < b * vocab + c ==> out@[k] == value.data[k],
            decreases vocab - c,
        {
            proof {
                lemma_row_line(logits@.dims, b as int, c as int);
                lemma_index2(b as int, batch as int, c as int, vocab as int);
                lemma_join2(b as int, c as int, vocab as int);
            }
            let p = logits.data()[b * vocab + c].sub(max_logit).exp().div(sum_exp);
            let hit = if c == target {
                S::constant(Constant::One)
            } else {
                S::constant(Constant::Zero)
            };
            out.push(g.mul(p.sub(hit)).div(count));
            c = c + 1;
        }
        b = b + 1;
        proof {
            assert((b - 1) * vocab + vocab == b * vocab) by (nonlinear_arith);
        }
    }
    assert(out@ =~= value.data);
    Dense::new(*logits.shape(), out)
}

} // verus!
