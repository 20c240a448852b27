//! Softmax and cross entropy, and their gradients, in exact arithmetic.
use vstd::prelude::*;
use crate::autograd::adjoint_reduce::{lemma_landing_line, line_of};
use crate::autograd::exact::{
    exact, lemma_add, lemma_derived, lemma_distribute, lemma_fold_total, lemma_mul, lemma_scatter,
    lemma_total_eq, lemma_total_mul, lemma_total_pick, lemma_total_runs, lemma_total_select,
    pairing, total,
};
use crate::autograd::ring::{
    cancels, invertible, lemma_cancel, lemma_inverse, lemma_mul3, lemma_mul4, lemma_mul_sub,
    lemma_total_sub, lemma_total_times,
};
use crate::autograd::rules::{minus, rule_value, softmax_grad, times};
use crate::broadcast::{law_broadcast_absorbs, law_broadcast_self};
use crate::cpu::elementwise::stretched;
use crate::cpu::loss::{
    class_of, cross_entropy_backward_value, cross_entropy_grad, cross_entropy_ok,
    cross_entropy_value, lemma_numel2, loss_step,
};
use crate::cpu::reduce::{
    exp_step, inner, lemma_axis_numel, lemma_line_index, lemma_line_injective, lemma_line_of,
    line_at, line_exp, line_exp_sum, line_index, line_max, line_sum, outer, softmax_value, sum_step,
    sum_value,
};
use crate::cpu::weights::law_softmax_entry;
use crate::dense::Value;
use crate::index::{lemma_bounded_fits, lemma_dims1, lemma_offset_of_coord, numel};
use crate::math::{fold, lemma_index2, lemma_join2};
use crate::op::OpType;
use crate::scalar::{one, zero, Constant, Scalar};
use crate::shape::{broadcasts_to, stretches_at};

verus! {

/// The exponential of a sum is the product of the exponentials.
#[verifier::opaque]
pub open spec fn exponential<S: Scalar>() -> bool {
    forall|a: S, b: S| #[trigger]
        S::exp_spec(S::add_spec(a, b)) == S::mul_spec(S::exp_spec(a), S::exp_spec(b))
}

/// The exponential, from that of the distance to another number.
pub(crate) proof fn lemma_shifted<S: Scalar>(a: S, m: S)
    requires
        exact::<S>(),
        cancels::<S>(),
        exponential::<S>(),
    ensures
        S::exp_spec(a) == S::mul_spec(S::exp_spec(S::sub_spec(a, m)), S::exp_spec(m)),
{
    reveal(exponential);
    lemma_cancel(a, m);
    assert(S::exp_spec(S::add_spec(S::sub_spec(a, m), m)) == S::mul_spec(
        S::exp_spec(S::sub_spec(a, m)),
        S::exp_spec(m),
    ));
}

/// Softmax: the entries of a line are to each other as the exponentials of the entries that they
/// come from, and they add up to 1.
pub proof fn law_softmax<S: Scalar>(x: Value<S>, dim: int, p: int, j: int, k: int)
    requires
        exact::<S>(),
        cancels::<S>(),
        exponential::<S>(),
        x.wf(),
        0 <= dim < x.dims.len(),
        0 <= p < outer(x.dims, dim) * inner(x.dims, dim),
        0 <= j < x.dims[dim],
        0 <= k < x.dims[dim],
    ensures
        ({
            let y = softmax_value(x, dim);
            let n = x.dims[dim] as nat;
            &&& y.dims == x.dims
            &&& S::mul_spec(line_at(y, dim, p, j), S::exp_spec(line_at(x, dim, p, k)))
                == S::mul_spec(line_at(y, dim, p, k), S::exp_spec(line_at(x, dim, p, j)))
            &&& invertible(line_exp_sum(x, dim, p)) ==> total(
                n,
                |t: int| line_at(y, dim, p, t),
            ) == one::<S>()
        }),
{
    let y = softmax_value(x, dim);
    let n = x.dims[dim] as nat;
    let m = line_max(x, dim, p);
    let s = line_exp_sum(x, dim, p);
    let r = S::div_spec(one(), s);
    let (a, b) = (line_exp(x, dim, p, j), line_exp(x, dim, p, k));
    let em = S::exp_spec(m);
    law_softmax_entry(x, dim, p, j);
    law_softmax_entry(x, dim, p, k);
    lemma_shifted(line_at(x, dim, p, j), m);
    lemma_shifted(line_at(x, dim, p, k), m);
    lemma_derived(a, s, zero());
    lemma_derived(b, s, zero());
    // (a * r) * (b * em) == (b * r) * (a * em)
    lemma_mul4(a, r, b, em);
    lemma_mul4(b, r, a, em);
    lemma_mul(a, b, zero());
    if invertible(s) {
        let e = |t: int| line_exp(x, dim, p, t);
        lemma_fold_total(n, exp_step(x, dim, p), e);
        lemma_total_times(n, e, r);
        let u = |t: int| line_at(y, dim, p, t);
        let v = |t: int| S::mul_spec(e(t), r);
        assert forall|t: int| 0 <= t < n implies #[trigger] u(t) == v(t) by {
            law_softmax_entry(x, dim, p, t);
            lemma_derived(e(t), s, zero());
        }
        lemma_total_eq(n, u, v);
        lemma_inverse(one(), s);
    }
}

/// A sum over all elements, line by line.
pub(crate) proof fn lemma_by_lines<S: Scalar>(d: Seq<usize>, dim: int, f: spec_fn(int) -> S)
    requires
        exact::<S>(),
        0 <= dim < d.len(),
    ensures
        total(numel(d), f) == total(
            (outer(d, dim) * inner(d, dim)) as nat,
            |p: int| total(d[dim] as nat, |k: int| f(line_index(d, dim, p, k))),
        ),
{
    let n = numel(d);
    let w = inner(d, dim);
    let len = d[dim] as int;
    assert(outer(d, dim) * w >= 0) by (nonlinear_arith)
        requires
            outer(d, dim) >= 0,
            w >= 0,
    ;
    let lines = (outer(d, dim) * w) as nat;
    let land = |i: int| line_of(d, dim, i);
    let unit = |p: int| one::<S>();
    assert forall|i: int| 0 <= i < n implies 0 <= #[trigger] land(i) < lines by {
        lemma_line_of(d, dim, i);
    }
    lemma_scatter(n, lines, land, f, unit);
    let a = |i: int| S::mul_spec(f(i), unit(land(i)));
    assert forall|i: int| 0 <= i < n implies #[trigger] a(i) == f(i) by {
        lemma_mul(f(i), zero(), zero());
    }
    lemma_total_eq(n, a, f);
    let b = |p: int|
        S::mul_spec(
            total(
                n,
                |i: int|
                    if land(i) == p {
                        f(i)
                    } else {
                        zero()
                    },
            ),
            unit(p),
        );
    let c = |p: int| total(len as nat, |k: int| f(line_index(d, dim, p, k)));
    assert forall|p: int| 0 <= p < lines implies #[trigger] b(p) == c(p) by {
        let index = |k: int| line_index(d, dim, p, k);
        let entry = |i: int| (i / w) % len;
        let selected = |i: int| land(i) == p;
        assert forall|k: int| 0 <= k < len implies 0 <= #[trigger] index(k) < n && selected(
            index(k),
        ) && entry(index(k)) == k by {
            lemma_line_index(d, dim, p, k);
            let i = index(k);
            lemma_line_of(d, dim, i);
            lemma_line_injective(d, dim, p, k, line_of(d, dim, i), (i / w) % len);
        }
        assert forall|i: int| 0 <= i < n && #[trigger] selected(i) implies 0 <= entry(i) < len
            && index(entry(i)) == i by {
            lemma_line_of(d, dim, i);
        }
        lemma_total_select(n, len as nat, index, entry, selected, f);
        lemma_total_eq(
            n,
            |i: int|
                if selected(i) {
                    f(i)
                } else {
                    zero()
                },
            |i: int|
                if land(i) == p {
                    f(i)
                } else {
                    zero()
                },
        );
        lemma_total_eq(
            len as nat,
            |k: int| f(index(k)),
            |k: int| f(line_index(d, dim, p, k)),
        );
        lemma_mul(c(p), zero(), zero());
    }
    lemma_total_eq(lines, b, c);
}

/// How a softmax changes when its input changes by `d`: every entry by itself times the change,
/// less the mean of the changes under the softmax.
pub open spec fn softmax_change<S: Scalar>(x: Value<S>, dim: int, d: Value<S>) -> Value<S> {
    let y = softmax_value(x, dim);
    let n = inner(x.dims, dim);
    let len = x.dims[dim] as int;
    Value {
        dims: x.dims,
        data: Seq::new(
            x.data.len(),
            |i: int|
                {
                    let p = (i / n / len) * n + i % n;
                    let mean = total(
                        len as nat,
                        |k: int| S::mul_spec(line_at(y, dim, p, k), line_at(d, dim, p, k)),
                    );
                    S::mul_spec(y.data[i], S::sub_spec(d.data[i], mean))
                },
        ),
    }
}

/// `sum g * (y * (d - sum y * d)) == sum (y * (g - sum g * y)) * d`
pub(crate) proof fn lemma_softmax_line<S: Scalar>(
    n: nat,
    y: spec_fn(int) -> S,
    g: spec_fn(int) -> S,
    d: spec_fn(int) -> S,
)
    requires
        exact::<S>(),
    ensures
        ({
            let yd = total(n, |k: int| S::mul_spec(y(k), d(k)));
            let gy = total(n, |k: int| S::mul_spec(g(k), y(k)));
            total(n, |k: int| S::mul_spec(g(k), S::mul_spec(y(k), S::sub_spec(d(k), yd))))
                == total(n, |k: int| S::mul_spec(S::mul_spec(y(k), S::sub_spec(g(k), gy)), d(k)))
        }),
{
    let fyd = |k: int| S::mul_spec(y(k), d(k));
    let fgy = |k: int| S::mul_spec(g(k), y(k));
    let yd = total(n, fyd);
    let gy = total(n, fgy);
    let gyd = |k: int| S::mul_spec(fgy(k), d(k));
    let left = |k: int| S::mul_spec(g(k), S::mul_spec(y(k), S::sub_spec(d(k), yd)));
    let right = |k: int| S::mul_spec(S::mul_spec(y(k), S::sub_spec(g(k), gy)), d(k));
    let la = |k: int| S::mul_spec(fgy(k), yd);
    let lx = |k: int| S::sub_spec(gyd(k), la(k));
    let ra = |k: int| S::mul_spec(fyd(k), gy);
    let rx = |k: int| S::sub_spec(gyd(k), ra(k));
    assert forall|k: int| 0 <= k < n implies #[trigger] left(k) == lx(k) by {
        lemma_mul(g(k), y(k), S::sub_spec(d(k), yd));
        lemma_mul_sub(d(k), yd, fgy(k));
    }
    assert forall|k: int| 0 <= k < n implies #[trigger] right(k) == rx(k) by {
        lemma_mul_sub(g(k), gy, y(k));
        lemma_mul(y(k), g(k), zero());
        lemma_mul_sub(S::mul_spec(y(k), g(k)), S::mul_spec(y(k), gy), d(k));
        lemma_mul3(y(k), gy, d(k));
    }
    lemma_total_eq(n, left, lx);
    lemma_total_eq(n, right, rx);
    lemma_total_sub(n, gyd, la);
    lemma_total_sub(n, gyd, ra);
    lemma_total_times(n, fgy, yd);
    lemma_total_times(n, fyd, gy);
    lemma_mul(gy, yd, zero());
}

/// The shape of the gradient of a softmax.
proof fn lemma_softmax_grad_dims<S: Scalar>(x: Value<S>, g: Value<S>, dim: int)
    requires
        x.wf(),
        g.wf(),
        g.dims == x.dims,
        0 <= dim < x.dims.len(),
    ensures
        softmax_grad(x, g, dim).dims == x.dims,
        softmax_grad(x, g, dim).data.len() == x.data.len(),
{
    let d = x.dims;
    let e = d.update(dim, 1usize);
    law_broadcast_self(d);
    assert forall|t: int| 0 <= t < e.len() implies #[trigger] stretches_at(e, d, t) by {}
    assert(broadcasts_to(e, d));
    law_broadcast_absorbs(e, d);
    let sums = sum_value(times(g, softmax_value(x, dim)), dim, true);
    assert(sums.dims =~= e);
    assert(minus(g, sums).dims =~= d);
}

/// Entry `i` of the gradient of a softmax.
proof fn lemma_softmax_grad<S: Scalar>(x: Value<S>, g: Value<S>, dim: int, p: int, k: int)
    requires
        exact::<S>(),
        x.wf(),
        g.wf(),
        g.dims == x.dims,
        0 <= dim < x.dims.len(),
        0 <= p < outer(x.dims, dim) * inner(x.dims, dim),
        0 <= k < x.dims[dim],
    ensures
        ({
            let y = softmax_value(x, dim);
            let gy = total(
                x.dims[dim] as nat,
                |t: int| S::mul_spec(line_at(g, dim, p, t), line_at(y, dim, p, t)),
            );
            line_at(softmax_grad(x, g, dim), dim, p, k) == S::mul_spec(
                line_at(y, dim, p, k),
                S::sub_spec(line_at(g, dim, p, k), gy),
            )
        }),
{
    let d = x.dims;
    let y = softmax_value(x, dim);
    let n = x.dims[dim] as nat;
    let prod = times(g, y);
    let sums = sum_value(prod, dim, true);
    let i = line_index(d, dim, p, k);
    let e = d.update(dim, 1usize);
    law_broadcast_self(d);
    lemma_bounded_fits(d);
    lemma_line_index(d, dim, p, k);
    lemma_offset_of_coord(i as nat, d);
    lemma_line_of(d, dim, i);
    lemma_line_injective(
        d,
        dim,
        p,
        k,
        line_of(d, dim, i),
        (i / inner(d, dim)) % d[dim] as int,
    );
    assert(line_of(d, dim, i) == p);
    assert forall|t: int| 0 <= t < e.len() implies #[trigger] stretches_at(e, d, t) by {}
    assert(broadcasts_to(e, d));
    law_broadcast_absorbs(e, d);
    lemma_landing_line(d, dim, i);
    lemma_axis_numel(d, dim, true);
    assert(sums.dims =~= e);
    let left = minus(g, sums);
    assert(left.dims =~= d);
    assert(stretched(sums, d, i) == sums.data[p]);
    assert(left.data[i] == S::sub_spec(g.data[i], line_sum(prod, dim, p)));
    let f = |t: int| S::mul_spec(line_at(g, dim, p, t), line_at(y, dim, p, t));
    let step = sum_step(prod, dim, p);
    assert forall|t: int, acc: S| 0 <= t < n implies #[trigger] step(t, acc) == S::add_spec(
        acc,
        f(t),
    ) by {
        lemma_line_index(d, dim, p, t);
        lemma_offset_of_coord(line_index(d, dim, p, t) as nat, d);
    }
    lemma_fold_total(n, step, f);
}

/// The gradient of a softmax: it weighs against every change of the input what the output's
/// gradient weighs against the change that this makes of the softmax.
pub proof fn law_softmax_adjoint<S: Scalar>(x: Value<S>, dim: usize, d: Value<S>, g: Value<S>)
    requires
        exact::<S>(),
        x.wf(),
        d.wf(),
        g.wf(),
        dim < x.dims.len(),
        d.dims == x.dims,
        g.dims == x.dims,
    ensures
        pairing(g.data, softmax_change(x, dim as int, d).data) == pairing(
            rule_value(OpType::Softmax { dim }, seq![x], g)[0].data,
            d.data,
        ),
{
    let axis = dim as int;
    let e = x.dims;
    let y = softmax_value(x, axis);
    let change = softmax_change(x, axis, d);
    let r = softmax_grad(x, g, axis);
    assert(rule_value(OpType::Softmax { dim }, seq![x], g)[0] == r);
    lemma_softmax_grad_dims(x, g, axis);
    let left = |i: int| S::mul_spec(g.data[i], change.data[i]);
    let right = |i: int| S::mul_spec(r.data[i], d.data[i]);
    lemma_by_lines(e, axis, left);
    lemma_by_lines(e, axis, right);
    assert(outer(e, axis) * inner(e, axis) >= 0) by (nonlinear_arith)
        requires
            outer(e, axis) >= 0,
            inner(e, axis) >= 0,
    ;
    let lines = (outer(e, axis) * inner(e, axis)) as nat;
    let n = e[axis] as nat;
    let lp = |p: int| total(n, |k: int| left(line_index(e, axis, p, k)));
    let rp = |p: int| total(n, |k: int| right(line_index(e, axis, p, k)));
    assert forall|p: int| 0 <= p < lines implies #[trigger] lp(p) == rp(p) by {
        let fy = |k: int| line_at(y, axis, p, k);
        let fg = |k: int| line_at(g, axis, p, k);
        let fd = |k: int| line_at(d, axis, p, k);
        lemma_softmax_line(n, fy, fg, fd);
        let yd = total(n, |k: int| S::mul_spec(fy(k), fd(k)));
        let gy = total(n, |k: int| S::mul_spec(fg(k), fy(k)));
        let a = |k: int| left(line_index(e, axis, p, k));
        let b = |k: int| S::mul_spec(fg(k), S::mul_spec(fy(k), S::sub_spec(fd(k), yd)));
        let c = |k: int| right(line_index(e, axis, p, k));
        let h = |k: int| S::mul_spec(S::mul_spec(fy(k), S::sub_spec(fg(k), gy)), fd(k));
        assert forall|k: int| 0 <= k < n implies #[trigger] a(k) == b(k) by {
            let i = line_index(e, axis, p, k);
            lemma_line_index(e, axis, p, k);
            lemma_line_of(e, axis, i);
            lemma_line_injective(
                e,
                axis,
                p,
                k,
                line_of(e, axis, i),
                (i / inner(e, axis)) % e[axis] as int,
            );
            lemma_total_eq(
                n,
                |t: int| S::mul_spec(line_at(y, axis, p, t), line_at(d, axis, p, t)),
                |t: int| S::mul_spec(fy(t), fd(t)),
            );
        }
        assert forall|k: int| 0 <= k < n implies #[trigger] c(k) == h(k) by {
            lemma_line_index(e, axis, p, k);
            lemma_softmax_grad(x, g, axis, p, k);
            lemma_total_eq(
                n,
                |t: int| S::mul_spec(line_at(g, axis, p, t), line_at(y, axis, p, t)),
                |t: int| S::mul_spec(fg(t), fy(t)),
            );
        }
        lemma_total_eq(n, a, b);
        lemma_total_eq(n, c, h);
    }
    lemma_total_eq(lines, lp, rp);
}

/// What the cross entropy of a row is: the logarithm of the sum of the exponentials of the logits,
/// less the target's logit.
pub open spec fn row_loss<S: Scalar>(logits: Value<S>, targets: Value<S>, b: int) -> S {
    let v = logits.dims[1] as int;
    S::sub_spec(
        S::ln_spec(total(v as nat, |c: int| S::exp_spec(logits.data[b * v + c]))),
        logits.data[b * v + class_of(targets.data[b])],
    )
}

/// Cross entropy: the losses of the rows add up to the loss times their number.
pub proof fn law_cross_entropy<S: Scalar>(logits: Value<S>, targets: Value<S>)
    requires
        exact::<S>(),
        cancels::<S>(),
        exponential::<S>(),
        logits.wf(),
        targets.wf(),
        cross_entropy_ok(logits, targets),
        invertible(S::count_spec(logits.dims[0])),
        forall|b: int|
            0 <= b < logits.dims[0] ==> S::ln_spec(
                S::mul_spec(
                    #[trigger] line_exp_sum(logits, 1, b),
                    S::exp_spec(line_max(logits, 1, b)),
                ),
            ) == S::add_spec(
                S::ln_spec(line_exp_sum(logits, 1, b)),
                line_max(logits, 1, b),
            ),
    ensures
        cross_entropy_value(logits, targets).dims == seq![1usize],
        S::mul_spec(
            cross_entropy_value(logits, targets).data[0],
            S::count_spec(logits.dims[0]),
        ) == total(logits.dims[0] as nat, |b: int| row_loss(logits, targets, b)),
{
    let n = logits.dims[0] as nat;
    lemma_losses(n, logits, targets);
    lemma_inverse(
        fold(n, zero::<S>(), loss_step(logits, targets)),
        S::count_spec(logits.dims[0]),
    );
}

/// The logits of a row, as a line.
proof fn lemma_row<S: Scalar>(logits: Value<S>, b: int, c: int)
    requires
        logits.wf(),
        logits.dims.len() == 2,
        0 <= b < logits.dims[0],
        0 <= c < logits.dims[1],
    ensures
        line_at(logits, 1, b, c) == logits.data[b * logits.dims[1] + c],
        0 <= b * logits.dims[1] + c < logits.data.len(),
        inner(logits.dims, 1) == 1,
        outer(logits.dims, 1) == logits.dims[0],
{
    let d = logits.dims;
    lemma_numel2(d);
    reveal_with_fuel(crate::index::tail_numel, 3);
    reveal_with_fuel(crate::index::head_numel, 3);
    assert(inner(d, 1) == 1);
    assert(outer(d, 1) == 1 * d[0] as nat);
    assert(b / 1 == b && b % 1 == 0);
    assert(((b / 1) * d[1] + c) * 1 + b % 1 == b * d[1] + c) by (nonlinear_arith)
        requires
            b / 1 == b,
            b % 1 == 0,
    ;
    lemma_index2(b, d[0] as int, c, d[1] as int);
}

proof fn lemma_losses<S: Scalar>(n: nat, logits: Value<S>, targets: Value<S>)
    requires
        exact::<S>(),
        cancels::<S>(),
        exponential::<S>(),
        logits.wf(),
        targets.wf(),
        cross_entropy_ok(logits, targets),
        n <= logits.dims[0],
        forall|b: int|
            0 <= b < logits.dims[0] ==> S::ln_spec(
                S::mul_spec(
                    #[trigger] line_exp_sum(logits, 1, b),
                    S::exp_spec(line_max(logits, 1, b)),
                ),
            ) == S::add_spec(
                S::ln_spec(line_exp_sum(logits, 1, b)),
                line_max(logits, 1, b),
            ),
    ensures
        fold(n, zero::<S>(), loss_step(logits, targets)) == total(
            n,
            |b: int| row_loss(logits, targets, b),
        ),
    decreases n,
{
    if n > 0 {
        let b = n - 1;
        lemma_losses((n - 1) as nat, logits, targets);
        let before = fold((n - 1) as nat, zero::<S>(), loss_step(logits, targets));
        let v = logits.dims[1] as nat;
        let t = class_of(targets.data[b]) as int;
        lemma_dims1(logits.dims[0]);
        assert(class_of(targets.data[b]) < logits.dims[1]);
        let m = line_max(logits, 1, b);
        let s = line_exp_sum(logits, 1, b);
        let em = S::exp_spec(m);
        let e = |c: int| line_exp(logits, 1, b, c);
        lemma_fold_total(v, exp_step(logits, 1, b), e);
        lemma_total_times(v, e, em);
        let x = |c: int| S::mul_spec(e(c), em);
        let y = |c: int| S::exp_spec(logits.data[b * v + c]);
        assert forall|c: int| 0 <= c < v implies #[trigger] x(c) == y(c) by {
            lemma_row(logits, b, c);
            lemma_shifted(line_at(logits, 1, b, c), m);
        }
        lemma_total_eq(v, x, y);
        lemma_row(logits, b, t);
        let z = line_at(logits, 1, b, t);
        let l = S::ln_spec(s);
        assert(S::ln_spec(S::mul_spec(s, em)) == S::add_spec(l, m));
        // before - ((z - m) - l) == before + ((l + m) - z)
        lemma_turned(before, z, m, l);
        lemma_total_eq(
            (n - 1) as nat,
            |k: int| row_loss(logits, targets, k),
            |k: int| row_loss(logits, targets, k),
        );
    }
}

/// `a - ((z - m) - l) == a + ((l + m) - z)`
proof fn lemma_turned<S: Scalar>(a: S, z: S, m: S, l: S)
    requires
        exact::<S>(),
        cancels::<S>(),
    ensures
        S::sub_spec(a, S::sub_spec(S::sub_spec(z, m), l)) == S::add_spec(
            a,
            S::sub_spec(S::add_spec(l, m), z),
        ),
{
    let neg = S::constant_spec(Constant::NegOne);
    let q = S::sub_spec(S::sub_spec(z, m), l);
    let p = S::sub_spec(S::add_spec(l, m), z);
    let (nz, nm, nl) = (S::mul_spec(z, neg), S::mul_spec(m, neg), S::mul_spec(l, neg));
    lemma_derived(z, m, zero());
    lemma_derived(S::sub_spec(z, m), l, zero());
    lemma_derived(S::add_spec(l, m), z, zero());
    assert(q == S::add_spec(S::add_spec(z, nm), nl));
    assert(p == S::add_spec(S::add_spec(l, m), nz));
    // q + p == 0
    lemma_distribute(z, one(), neg);
    lemma_distribute(m, one(), neg);
    lemma_distribute(l, one(), neg);
    lemma_mul(z, one(), zero());
    lemma_mul(m, one(), zero());
    lemma_mul(l, one(), zero());
    lemma_mul(z, zero(), zero());
    lemma_mul(m, zero(), zero());
    lemma_mul(l, zero(), zero());
    crate::autograd::exact::lemma_add4(S::add_spec(z, nm), nl, S::add_spec(l, m), nz);
    lemma_add(S::add_spec(z, nm), S::add_spec(l, m), S::add_spec(nl, nz));
    crate::autograd::exact::lemma_add4(z, nm, l, m);
    crate::autograd::exact::lemma_add4(S::add_spec(z, l), S::add_spec(nm, m), nl, nz);
    lemma_add(nm, m, zero());
    lemma_add(m, nm, zero());
    lemma_add(S::add_spec(z, l), zero(), zero());
    crate::autograd::exact::lemma_add4(z, l, nz, nl);
    lemma_add(nl, nz, zero());
    lemma_add(zero::<S>(), zero(), zero());
    assert(S::add_spec(q, p) == zero::<S>());
    lemma_cancel(a, q);
    lemma_add(S::sub_spec(a, q), q, p);
    lemma_add(S::sub_spec(a, q), zero(), zero());
}

/// How the cross entropy changes when the logits change by `d`: in each row by the mean of the
/// changes under the softmax, less the change of the target's logit; and the mean over the rows.
pub open spec fn loss_change<S: Scalar>(
    logits: Value<S>,
    targets: Value<S>,
    d: Value<S>,
) -> S {
    let v = logits.dims[1] as int;
    let y = softmax_value(logits, 1);
    S::div_spec(
        total(
            logits.dims[0] as nat,
            |b: int|
                S::sub_spec(
                    total(v as nat, |c: int| S::mul_spec(y.data[b * v + c], d.data[b * v + c])),
                    d.data[b * v + class_of(targets.data[b])],
                ),
        ),
        S::count_spec(logits.dims[0]),
    )
}

proof fn lemma_loss_row<S: Scalar>(
    logits: Value<S>,
    targets: Value<S>,
    d: Value<S>,
    go: S,
    b: int,
)
    requires
        exact::<S>(),
        logits.wf(),
        targets.wf(),
        d.wf(),
        d.dims == logits.dims,
        cross_entropy_ok(logits, targets),
        0 <= b < logits.dims[0],
    ensures
        ({
            let v = logits.dims[1] as nat;
            let y = softmax_value(logits, 1);
            let k = S::mul_spec(go, S::div_spec(one(), S::count_spec(logits.dims[0])));
            total(
                v,
                |c: int|
                    S::mul_spec(cross_entropy_grad(logits, targets, go, b, c), d.data[b * v + c]),
            ) == S::mul_spec(
                k,
                S::sub_spec(
                    total(v, |c: int| S::mul_spec(y.data[b * v + c], d.data[b * v + c])),
                    d.data[b * v + class_of(targets.data[b])],
                ),
            )
        }),
{
    let v = logits.dims[1] as nat;
    let y = softmax_value(logits, 1);
    let count = S::count_spec(logits.dims[0]);
    let rc = S::div_spec(one(), count);
    let k = S::mul_spec(go, rc);
    let t = class_of(targets.data[b]) as int;
    lemma_dims1(logits.dims[0]);
    assert(class_of(targets.data[b]) < logits.dims[1]);
    let yd = |c: int| S::mul_spec(y.data[b * v + c], d.data[b * v + c]);
    let hit = |c: int|
        if c == t {
            d.data[b * v + c]
        } else {
            zero()
        };
    let diff = |c: int| S::sub_spec(yd(c), hit(c));
    let a = |c: int|
        S::mul_spec(cross_entropy_grad(logits, targets, go, b, c), d.data[b * v + c]);
    let z = |c: int| S::mul_spec(k, diff(c));
    assert forall|c: int| 0 <= c < v implies #[trigger] a(c) == z(c) by {
        lemma_row(logits, b, c);
        lemma_row(y, b, c);
        law_softmax_entry(logits, 1, b, c);
        let p = y.data[b * v + c];
        let h = if c == t {
            one::<S>()
        } else {
            zero::<S>()
        };
        let q = S::sub_spec(p, h);
        let dc = d.data[b * v + c];
        lemma_derived(S::mul_spec(go, q), count, zero());
        lemma_mul3(go, q, rc);
        assert(cross_entropy_grad(logits, targets, go, b, c) == S::mul_spec(k, q));
        lemma_mul(k, q, dc);
        lemma_mul_sub(p, h, dc);
        lemma_mul(dc, one(), zero());
        lemma_mul(dc, zero(), zero());
    }
    lemma_total_eq(v, a, z);
    lemma_total_mul(v, k, diff);
    lemma_total_sub(v, yd, hit);
    lemma_total_pick(v, t, hit);
}

/// The gradient of the cross entropy: it weighs against every change of the logits what the
/// gradient of the loss weighs against the change that this makes of the loss.
pub proof fn law_cross_entropy_adjoint<S: Scalar>(
    logits: Value<S>,
    targets: Value<S>,
    d: Value<S>,
    g: Value<S>,
)
    requires
        exact::<S>(),
        logits.wf(),
        targets.wf(),
        d.wf(),
        d.dims == logits.dims,
        cross_entropy_ok(logits, targets),
    ensures
        S::mul_spec(g.data[0], loss_change(logits, targets, d)) == pairing(
            rule_value(OpType::CrossEntropy, seq![logits, targets], g)[0].data,
            d.data,
        ),
{
    let rows = logits.dims[0] as nat;
    let v = logits.dims[1] as nat;
    let go = g.data[0];
    let count = S::count_spec(logits.dims[0]);
    let rc = S::div_spec(one(), count);
    let k = S::mul_spec(go, rc);
    let y = softmax_value(logits, 1);
    let r = cross_entropy_backward_value(logits, targets, g);
    assert(rule_value(OpType::CrossEntropy, seq![logits, targets], g)[0] == r);
    lemma_numel2(logits.dims);
    let right = |i: int| S::mul_spec(r.data[i], d.data[i]);
    lemma_total_runs(rows, v, right);
    let rr = |b: int| total(v, |c: int| right(b * v + c));
    let part = |b: int|
        S::sub_spec(
            total(v, |c: int| S::mul_spec(y.data[b * v + c], d.data[b * v + c])),
            d.data[b * v + class_of(targets.data[b])],
        );
    let kp = |b: int| S::mul_spec(k, part(b));
    assert forall|b: int| 0 <= b < rows implies #[trigger] rr(b) == kp(b) by {
        lemma_loss_row(logits, targets, d, go, b);
        let p = |c: int| right(b * v + c);
        let q = |c: int|
            S::mul_spec(cross_entropy_grad(logits, targets, go, b, c), d.data[b * v + c]);
        assert forall|c: int| 0 <= c < v implies #[trigger] p(c) == q(c) by {
            lemma_join2(b, c, v as int);
            lemma_index2(b, rows as int, c, v as int);
        }
        lemma_total_eq(v, p, q);
    }
    lemma_total_eq(rows, rr, kp);
    lemma_total_mul(rows, k, part);
    lemma_derived(total(rows, part), count, zero());
    lemma_mul3(go, total(rows, part), rc);
    lemma_mul(go, rc, total(rows, part));
    lemma_mul(total(rows, part), rc, zero());
}

} // verus!
