//! Layer and batch normalisation.
use vstd::prelude::*;
use crate::cpu::elementwise::{lemma_stretched_bound, stretched};
use crate::dense::{filled, Dense, Value};
use crate::index::{
    bounded, coord_of, lemma_bounded_fits, lemma_flat_of_coord, lemma_head_times_tail,
    lemma_numel_zero, numel, row_major, tail_fits, tail_numel,
};
use crate::math::{fold, lemma_index2, lemma_join2, lemma_split2};
use crate::scalar::{one, zero, Constant, Scalar};
use crate::shape::{broadcasts_to, flat_to_coord, get_offset, Shape};

verus! {

/// How a buffer of `n * c * hw` elements falls into `c` groups that are normalised together:
/// group `g` holds the runs of `hw` elements at `g`, `c + g`, `2 * c + g` and so on.
///
/// With `n == 1` the groups are consecutive rows.
#[derive(Debug, Clone, Copy, PartialEq, Eq, Structural)]
pub struct Groups {
    pub n: usize,
    pub c: usize,
    pub hw: usize,
}

impl Groups {
    /// How many elements one group has.
    pub open spec fn len(self) -> nat {
        self.n as nat * self.hw as nat
    }

    /// Where element `t` of group `g` is stored.
    pub open spec fn at(self, g: int, t: int) -> int {
        ((t / self.hw as int) * self.c + g) * self.hw + t % self.hw as int
    }

    /// The group that the element at position `i` belongs to.
    pub open spec fn group_of(self, i: int) -> int {
        (i / self.hw as int) % self.c as int
    }

    /// The groups make up a buffer of `total` elements, which fits the machine.
    pub open spec fn covers(self, total: nat) -> bool {
        &&& total == (self.n as nat * self.c as nat) * self.hw as nat
        &&& total <= usize::MAX
        &&& self.c > 0 ==> self.len() <= usize::MAX
    }
}

pub proof fn lemma_group_index(gr: Groups, total: nat, g: int, t: int)
    requires
        gr.covers(total),
        0 <= g < gr.c,
        0 <= t < gr.len(),
    ensures
        gr.hw > 0,
        0 <= t / gr.hw as int,
        0 <= (t / gr.hw as int) * gr.c,
        0 <= (t / gr.hw as int) * gr.c + g <= gr.at(g, t),
        0 <= ((t / gr.hw as int) * gr.c + g) * gr.hw <= gr.at(g, t),
        0 <= gr.at(g, t) < total,
{
    let n = gr.n as int;
    let c = gr.c as int;
    let hw = gr.hw as int;
    lemma_split2(t, n, hw);
    lemma_index2(t / hw, n, g, c);
    lemma_index2((t / hw) * c + g, n * c, t % hw, hw);
    let q = (t / hw) * c + g;
    assert(q <= q * hw) by (nonlinear_arith)
        requires
            q >= 0,
            hw >= 1,
    ;
}

/// Every position belongs to a group.
pub proof fn lemma_group_of(gr: Groups, total: nat, i: int)
    requires
        gr.covers(total),
        0 <= i < total,
    ensures
        gr.hw > 0,
        gr.c > 0,
        0 <= gr.group_of(i) < gr.c,
        ({
            let t = (i / gr.hw as int / gr.c as int) * gr.hw + i % gr.hw as int;
            0 <= t < gr.len() && gr.at(gr.group_of(i), t) == i
        }),
{
    let n = gr.n as int;
    let c = gr.c as int;
    let hw = gr.hw as int;
    assert(0 <= n * c) by (nonlinear_arith)
        requires
            0 <= n,
            0 <= c,
    ;
    lemma_split2(i, n * c, hw);
    lemma_split2(i / hw, n, c);
    lemma_index2(i / hw / c, n, i % hw, hw);
    lemma_join2(i / hw / c, i % hw, hw);
}

pub open spec fn group_sum_step<S: Scalar>(x: Seq<S>, gr: Groups, g: int) -> spec_fn(int, S) -> S {
    |t: int, acc: S| S::add_spec(acc, x[gr.at(g, t)])
}

/// The sum of a group.
pub open spec fn group_sum<S: Scalar>(x: Seq<S>, gr: Groups, g: int) -> S {
    fold(gr.len(), zero(), group_sum_step(x, gr, g))
}

/// The mean of a group.
pub open spec fn group_mean<S: Scalar>(x: Seq<S>, gr: Groups, g: int) -> S {
    S::div_spec(group_sum(x, gr, g), S::count_spec(gr.len() as usize))
}

pub open spec fn group_sq_step<S: Scalar>(
    x: Seq<S>,
    gr: Groups,
    g: int,
    mean: S,
) -> spec_fn(int, S) -> S {
    |t: int, acc: S|
        S::add_spec(
            acc,
            S::mul_spec(S::sub_spec(x[gr.at(g, t)], mean), S::sub_spec(x[gr.at(g, t)], mean)),
        )
}

/// The variance of a group.
pub open spec fn group_var<S: Scalar>(x: Seq<S>, gr: Groups, g: int) -> S {
    S::div_spec(
        fold(gr.len(), zero(), group_sq_step(x, gr, g, group_mean(x, gr, g))),
        S::count_spec(gr.len() as usize),
    )
}

/// `1 / sqrt(var + eps)`
pub open spec fn inv_std<S: Scalar>(var: S, eps: S) -> S {
    S::div_spec(one(), S::sqrt_spec(S::add_spec(var, eps)))
}

/// `(x - mean) * inv`
pub open spec fn hat<S: Scalar>(x: S, mean: S, inv: S) -> S {
    S::mul_spec(S::sub_spec(x, mean), inv)
}

/// The sum of a group.
pub(crate) fn sum_group<S: Scalar>(x: &Vec<S>, gr: Groups, g: usize) -> (r: S)
    requires
        gr.covers(x@.len()),
        g < gr.c,
    ensures
        r == group_sum(x@, gr, g as int),
{
    let len: usize = gr.n * gr.hw;
    let ghost step = group_sum_step(x@, gr, g as int);
    let mut acc = S::constant(Constant::Zero);
    let mut t: usize = 0;
    while t < len
        invariant
            t <= len == gr.len(),
            gr.covers(x@.len()),
            g < gr.c,
            step == group_sum_step(x@, gr, g as int),
            acc == fold(t as nat, zero::<S>(), step),
        decreases len - t,
    {
        proof {
            lemma_group_index(gr, x@.len(), g as int, t as int);
        }
        acc = acc.add(x[((t / gr.hw) * gr.c + g) * gr.hw + t % gr.hw]);
        t = t + 1;
    }
    acc
}

/// The mean of a group.
fn mean_group<S: Scalar>(x: &Vec<S>, gr: Groups, g: usize) -> (r: S)
    requires
        gr.covers(x@.len()),
        g < gr.c,
    ensures
        r == group_mean(x@, gr, g as int),
{
    sum_group(x, gr, g).div(S::count(gr.n * gr.hw))
}

/// The variance of a group around its mean.
fn var_group<S: Scalar>(x: &Vec<S>, gr: Groups, g: usize, mean: S) -> (r: S)
    requires
        gr.covers(x@.len()),
        g < gr.c,
        mean == group_mean(x@, gr, g as int),
    ensures
        r == group_var(x@, gr, g as int),
{
    let len: usize = gr.n * gr.hw;
    let ghost step = group_sq_step(x@, gr, g as int, mean);
    let mut acc = S::constant(Constant::Zero);
    let mut t: usize = 0;
    while t < len
        invariant
            t <= len == gr.len(),
            gr.covers(x@.len()),
            g < gr.c,
            step == group_sq_step(x@, gr, g as int, mean),
            acc == fold(t as nat, zero::<S>(), step),
        decreases len - t,
    {
        proof {
            lemma_group_index(gr, x@.len(), g as int, t as int);
        }
        let diff = x[((t / gr.hw) * gr.c + g) * gr.hw + t % gr.hw].sub(mean);
        acc = acc.add(diff.mul(diff));
        t = t + 1;
    }
    acc.div(S::count(len))
}

/// `1 / sqrt(var + eps)`
pub(crate) fn inverse_std<S: Scalar>(var: S, eps: S) -> (r: S)
    ensures
        r == inv_std(var, eps),
{
    S::constant(Constant::One).div(var.add(eps).sqrt())
}

/// The means of all groups, and their variances.
pub(crate) fn group_stats<S: Scalar>(x: &Vec<S>, gr: Groups) -> (r: (Vec<S>, Vec<S>))
    requires
        gr.covers(x@.len()),
    ensures
        r.0@ == Seq::new(gr.c as nat, |g: int| group_mean(x@, gr, g)),
        r.1@ == Seq::new(gr.c as nat, |g: int| group_var(x@, gr, g)),
{
    let mut means: Vec<S> = Vec::with_capacity(gr.c);
    let mut vars: Vec<S> = Vec::with_capacity(gr.c);
    let mut g: usize = 0;
    while g < gr.c
        invariant
            g <= gr.c,
            gr.covers(x@.len()),
            means@.len() == g,
            vars@.len() == g,
            forall|k: int| 0 <= k < g ==> means@[k] == group_mean(x@, gr, k),
            forall|k: int| 0 <= k < g ==> vars@[k] == group_var(x@, gr, k),
        decreases gr.c - g,
    {
        let mean = mean_group(x, gr, g);
        let var = var_group(x, gr, g, mean);
        means.push(mean);
        vars.push(var);
        g = g + 1;
    }
    assert(means@ =~= Seq::new(gr.c as nat, |g: int| group_mean(x@, gr, g)));
    assert(vars@ =~= Seq::new(gr.c as nat, |g: int| group_var(x@, gr, g)));
    (means, vars)
}

/// The rows of an array, normalised one by one.
pub open spec fn row_groups(d: Seq<usize>) -> Groups {
    let len = d[d.len() - 1];
    Groups { n: 1, c: (numel(d) / len as nat) as usize, hw: len }
}

/// Weight and bias have one entry per column of `x`; an array without elements asks nothing.
pub open spec fn layernorm_ok<S>(x: Value<S>, weight: Value<S>, bias: Value<S>) -> bool {
    numel(x.dims) > 0 ==> {
        &&& x.dims.len() >= 1
        &&& weight.dims == seq![x.dims[x.dims.len() - 1]]
        &&& bias.dims == seq![x.dims[x.dims.len() - 1]]
    }
}

pub proof fn lemma_rows(d: Seq<usize>)
    requires
        d.len() >= 1,
        numel(d) > 0,
        bounded(d),
    ensures
        d[d.len() - 1] > 0,
        row_groups(d).covers(numel(d)),
        row_groups(d).len() == d[d.len() - 1],
        row_groups(d).c as nat * d[d.len() - 1] as nat == numel(d),
        forall|g: int, t: int|
            0 <= g < row_groups(d).c && 0 <= t < d[d.len() - 1] ==> #[trigger] row_groups(d).at(g, t)
                == g * d[d.len() - 1] + t,
{
    let last = d.len() - 1;
    let len = d[last] as int;
    lemma_numel_zero(d);
    lemma_bounded_fits(d);
    lemma_head_times_tail(d, last);
    assert(tail_numel(d, d.len() as int) == 1);
    assert(tail_numel(d, last) == d[last] as nat * tail_numel(d, d.len() as int));
    vstd::arithmetic::mul::lemma_mul_basics(len);
    let h = crate::index::head_numel(d, last) as int;
    vstd::arithmetic::div_mod::lemma_div_multiples_vanish(h, len);
    vstd::arithmetic::mul::lemma_mul_is_commutative(h, len);
    assert(h <= h * len) by (nonlinear_arith)
        requires
            h >= 0,
            len >= 1,
    ;
    let gr = row_groups(d);
    vstd::arithmetic::mul::lemma_mul_basics(gr.c as int);
    vstd::arithmetic::mul::lemma_mul_basics(gr.hw as int);
    assert forall|g: int, t: int| 0 <= g < gr.c && 0 <= t < len implies #[trigger] gr.at(g, t) == g
        * len + t by {
        vstd::arithmetic::div_mod::lemma_basic_div(t, len);
        vstd::arithmetic::div_mod::lemma_small_mod(t as nat, len as nat);
        assert(0 * gr.c == 0) by (nonlinear_arith);
    }
}

/// Each row shifted by its mean, divided by its deviation, then scaled by `weight` and shifted by
/// `bias`.
pub open spec fn layernorm_value<S: Scalar>(
    x: Value<S>,
    weight: Value<S>,
    bias: Value<S>,
    eps: S,
) -> Value<S> {
    let gr = row_groups(x.dims);
    let len = x.dims[x.dims.len() - 1] as int;
    Value {
        dims: x.dims,
        data: Seq::new(
            x.data.len(),
            |i: int|
                {
                    let g = i / len;
                    let inv = inv_std(group_var(x.data, gr, g), eps);
                    S::add_spec(
                        S::mul_spec(
                            hat(x.data[i], group_mean(x.data, gr, g), inv),
                            weight.data[i % len],
                        ),
                        bias.data[i % len],
                    )
                },
        ),
    }
}

/// Layer normalisation forward.
pub fn layernorm<S: Scalar>(
    x: &Dense<S>,
    weight: &Dense<S>,
    bias: &Dense<S>,
    eps: S,
) -> (r: Dense<S>)
    requires
        x.wf(),
        weight.wf(),
        bias.wf(),
        layernorm_ok(x@, weight@, bias@),
    ensures
        r.wf(),
        r@ == layernorm_value(x@, weight@, bias@, eps),
{
    let total = x.numel();
    let mut out: Vec<S> = Vec::with_capacity(total);
    if total == 0 {
        assert(out@ =~= layernorm_value(x@, weight@, bias@, eps).data);
        return Dense::new(*x.shape(), out);
    }
    let rank = x.shape().rank();
    let len = x.shape().dim(rank - 1);
    proof {
        lemma_rows(x@.dims);
        lemma_single(weight@.dims, len);
        lemma_single(bias@.dims, len);
    }
    let gr = Groups { n: 1, c: total / len, hw: len };
    let (means, vars) = group_stats(x.data(), gr);
    let mut i: usize = 0;
    while i < total
        invariant
            i <= total == x@.data.len(),
            x.wf(),
            weight.wf(),
            bias.wf(),
            len == x@.dims[x@.dims.len() - 1],
            len > 0,
            gr == row_groups(x@.dims),
            gr.c as nat * len as nat == total,
            weight@.data.len() == len,
            bias@.data.len() == len,
            means@ == Seq::new(gr.c as nat, |g: int| group_mean(x@.data, gr, g)),
            vars@ == Seq::new(gr.c as nat, |g: int| group_var(x@.data, gr, g)),
            out@.len() == i,
            forall|k: int|
                0 <= k < i ==> out@[k] == layernorm_value(x@, weight@, bias@, eps).data[k],
        decreases total - i,
    {
        proof {
            lemma_split2(i as int, gr.c as int, len as int);
        }
        let g: usize = i / len;
        let t: usize = i % len;
        let inv = inverse_std(vars[g], eps);
        let x_hat = x.data()[i].sub(means[g]).mul(inv);
        out.push(x_hat.mul(weight.data()[t]).add(bias.data()[t]));
        i = i + 1;
    }
    assert(out@ =~= layernorm_value(x@, weight@, bias@, eps).data);
    Dense::new(*x.shape(), out)
}

pub proof fn lemma_single(d: Seq<usize>, len: usize)
    requires
        d == seq![len],
    ensures
        numel(d) == len,
        bounded(d),
{
    reveal_with_fuel(tail_numel, 3);
    assert(crate::index::nonzero(d) =~= seq![if len == 0 { 1usize } else { len }]);
}

/// The elements of `a`, read as an array with extents `dims`.
pub open spec fn stretch_value<S>(a: Value<S>, dims: Seq<usize>) -> Value<S> {
    Value { dims, data: Seq::new(numel(dims), |i: int| stretched(a, dims, i)) }
}

/// Reads an array as one with the given shape.
pub(crate) fn stretch<S: Scalar>(a: &Dense<S>, shape: &Shape) -> (r: Dense<S>)
    requires
        a.wf(),
        bounded(shape@),
        broadcasts_to(a@.dims, shape@),
    ensures
        r.wf(),
        r@ == stretch_value(a@, shape@),
{
    proof {
        lemma_bounded_fits(shape@);
        lemma_bounded_fits(a@.dims);
    }
    let n = shape.numel();
    let strides = a.shape().contiguous_strides();
    let mut out: Vec<S> = Vec::with_capacity(n);
    let mut i: usize = 0;
    while i < n
        invariant
            i <= n == numel(shape@),
            a.wf(),
            strides@ == row_major(a@.dims),
            tail_fits(shape@),
            tail_fits(a@.dims),
            numel(a@.dims) <= usize::MAX,
            broadcasts_to(a@.dims, shape@),
            out@.len() == i,
            forall|k: int| 0 <= k < i ==> out@[k] == stretched(a@, shape@, k),
        decreases n - i,
    {
        proof {
            lemma_numel_zero(shape@);
            lemma_flat_of_coord(i as nat, shape@);
            lemma_stretched_bound(a@.dims, shape@, coord_of(i as nat, shape@));
        }
        let coord = flat_to_coord(i, shape);
        let at = get_offset(&coord, a.shape(), &strides);
        out.push(a.data()[at]);
        i = i + 1;
    }
    assert(out@ =~= stretch_value(a@, shape@).data);
    Dense::new(*shape, out)
}

pub open spec fn go_w_step<S: Scalar>(go: Seq<S>, w: Seq<S>, gr: Groups, g: int) -> spec_fn(
    int,
    S,
) -> S {
    |t: int, acc: S| S::add_spec(acc, S::mul_spec(go[gr.at(g, t)], w[t]))
}

pub open spec fn go_w_hat_step<S: Scalar>(
    x: Seq<S>,
    go: Seq<S>,
    w: Seq<S>,
    gr: Groups,
    g: int,
    mean: S,
    inv: S,
) -> spec_fn(int, S) -> S {
    |t: int, acc: S|
        S::add_spec(
            acc,
            S::mul_spec(
                S::mul_spec(go[gr.at(g, t)], w[t]),
                hat(x[gr.at(g, t)], mean, inv),
            ),
        )
}

/// The gradient of row `g`, column `t` of a layer normalisation's input.
pub open spec fn layernorm_gx<S: Scalar>(
    x: Seq<S>,
    go: Seq<S>,
    w: Seq<S>,
    gr: Groups,
    eps: S,
    g: int,
    t: int,
) -> S {
    let mean = group_mean(x, gr, g);
    let inv = inv_std(group_var(x, gr, g), eps);
    let count = S::count_spec(gr.hw);
    let go_w = fold(gr.hw as nat, zero(), go_w_step(go, w, gr, g));
    let go_w_hat = fold(gr.hw as nat, zero(), go_w_hat_step(x, go, w, gr, g, mean, inv));
    let term1 = S::mul_spec(S::mul_spec(count, go[gr.at(g, t)]), w[t]);
    let term3 = S::mul_spec(hat(x[gr.at(g, t)], mean, inv), go_w_hat);
    S::div_spec(S::mul_spec(S::sub_spec(S::sub_spec(term1, go_w), term3), inv), count)
}

pub open spec fn gw_step<S: Scalar>(
    x: Seq<S>,
    go: Seq<S>,
    gr: Groups,
    eps: S,
    t: int,
) -> spec_fn(int, S) -> S {
    |g: int, acc: S|
        S::add_spec(
            acc,
            S::mul_spec(
                go[gr.at(g, t)],
                hat(
                    x[gr.at(g, t)],
                    group_mean(x, gr, g),
                    inv_std(group_var(x, gr, g), eps),
                ),
            ),
        )
}

pub open spec fn gb_step<S: Scalar>(go: Seq<S>, gr: Groups, t: int) -> spec_fn(int, S) -> S {
    |g: int, acc: S| S::add_spec(acc, go[gr.at(g, t)])
}

/// An array of zeros.
pub open spec fn zeros_value<S: Scalar>(dims: Seq<usize>) -> Value<S> {
    Value { dims, data: Seq::new(numel(dims), |i: int| zero::<S>()) }
}

/// An array of zeros with the given shape.
pub fn zeros<S: Scalar>(shape: &Shape) -> (r: Dense<S>)
    requires
        bounded(shape@),
    ensures
        r.wf(),
        r@ == zeros_value::<S>(shape@),
{
    proof {
        lemma_bounded_fits(shape@);
    }
    let data: Vec<S> = filled(shape.numel(), S::constant(Constant::Zero));
    assert(data@ =~= zeros_value::<S>(shape@).data);
    Dense::new(*shape, data)
}

/// The gradients of a layer normalisation with respect to its input, weight and bias.
pub open spec fn layernorm_backward_value<S: Scalar>(
    x: Value<S>,
    weight: Value<S>,
    bias: Value<S>,
    grad_out: Value<S>,
    eps: S,
) -> (Value<S>, Value<S>, Value<S>) {
    if numel(x.dims) == 0 {
        (zeros_value(x.dims), zeros_value(weight.dims), zeros_value(bias.dims))
    } else {
        let gr = row_groups(x.dims);
        let len = x.dims[x.dims.len() - 1] as int;
        let go = stretch_value(grad_out, x.dims).data;
        (
            Value {
                dims: x.dims,
                data: Seq::new(
                    x.data.len(),
                    |i: int| layernorm_gx(x.data, go, weight.data, gr, eps, i / len, i % len),
                ),
            },
            Value {
                dims: weight.dims,
                data: Seq::new(
                    len as nat,
                    |t: int| fold(gr.c as nat, zero(), gw_step(x.data, go, gr, eps, t)),
                ),
            },
            Value {
                dims: bias.dims,
                data: Seq::new(len as nat, |t: int| fold(gr.c as nat, zero(), gb_step(go, gr, t))),
            },
        )
    }
}

/// Both sums over one row that the input gradient needs.
fn row_sums<S: Scalar>(
    x: &Vec<S>,
    go: &Vec<S>,
    w: &Vec<S>,
    gr: Groups,
    g: usize,
    mean: S,
    inv: S,
) -> (r: (S, S))
    requires
        gr.covers(x@.len()),
        gr.n == 1,
        go@.len() == x@.len(),
        w@.len() == gr.hw,
        g < gr.c,
    ensures
        r.0 == fold(gr.hw as nat, zero::<S>(), go_w_step(go@, w@, gr, g as int)),
        r.1 == fold(
            gr.hw as nat,
            zero::<S>(),
            go_w_hat_step(x@, go@, w@, gr, g as int, mean, inv),
        ),
{
    let ghost step1 = go_w_step(go@, w@, gr, g as int);
    let ghost step2 = go_w_hat_step(x@, go@, w@, gr, g as int, mean, inv);
    let mut s1 = S::constant(Constant::Zero);
    let mut s2 = S::constant(Constant::Zero);
    let mut t: usize = 0;
    while t < gr.hw
        invariant
            t <= gr.hw,
            gr.covers(x@.len()),
            gr.n == 1,
            go@.len() == x@.len(),
            w@.len() == gr.hw,
            g < gr.c,
            step1 == go_w_step(go@, w@, gr, g as int),
            step2 == go_w_hat_step(x@, go@, w@, gr, g as int, mean, inv),
            s1 == fold(t as nat, zero::<S>(), step1),
            s2 == fold(t as nat, zero::<S>(), step2),
        decreases gr.hw - t,
    {
        proof {
            vstd::arithmetic::mul::lemma_mul_basics(gr.hw as int);
            lemma_group_index(gr, x@.len(), g as int, t as int);
        }
        let at: usize = ((t / gr.hw) * gr.c + g) * gr.hw + t % gr.hw;
        let x_hat = x[at].sub(mean).mul(inv);
        let go_w = go[at].mul(w[t]);
        s1 = s1.add(go_w);
        s2 = s2.add(go_w.mul(x_hat));
        t = t + 1;
    }
    (s1, s2)
}

/// The weight and bias gradients of one column.
fn column_grads<S: Scalar>(
    x: &Vec<S>,
    go: &Vec<S>,
    gr: Groups,
    eps: S,
    means: &Vec<S>,
    vars: &Vec<S>,
    t: usize,
) -> (r: (S, S))
    requires
        gr.covers(x@.len()),
        gr.n == 1,
        go@.len() == x@.len(),
        t < gr.hw,
        means@ == Seq::new(gr.c as nat, |g: int| group_mean(x@, gr, g)),
        vars@ == Seq::new(gr.c as nat, |g: int| group_var(x@, gr, g)),
    ensures
        r.0 == fold(gr.c as nat, zero::<S>(), gw_step(x@, go@, gr, eps, t as int)),
        r.1 == fold(gr.c as nat, zero::<S>(), gb_step(go@, gr, t as int)),
{
    let ghost step1 = gw_step(x@, go@, gr, eps, t as int);
    let ghost step2 = gb_step(go@, gr, t as int);
    let mut gw = S::constant(Constant::Zero);
    let mut gb = S::constant(Constant::Zero);
    let mut g: usize = 0;
    while g < gr.c
        invariant
            g <= gr.c,
            gr.covers(x@.len()),
            gr.n == 1,
            go@.len() == x@.len(),
            t < gr.hw,
            means@ == Seq::new(gr.c as nat, |g: int| group_mean(x@, gr, g)),
            vars@ == Seq::new(gr.c as nat, |g: int| group_var(x@, gr, g)),
            step1 == gw_step(x@, go@, gr, eps, t as int),
            step2 == gb_step(go@, gr, t as int),
            gw == fold(g as nat, zero::<S>(), step1),
            gb == fold(g as nat, zero::<S>(), step2),
        decreases gr.c - g,
    {
        proof {
            vstd::arithmetic::mul::lemma_mul_basics(gr.hw as int);
            lemma_group_index(gr, x@.len(), g as int, t as int);
        }
        let at: usize = ((t / gr.hw) * gr.c + g) * gr.hw + t % gr.hw;
        let inv = inverse_std(vars[g], eps);
        let x_hat = x[at].sub(means[g]).mul(inv);
        gw = gw.add(go[at].mul(x_hat));
        gb = gb.add(go[at]);
        g = g + 1;
    }
    (gw, gb)
}

/// Layer normalisation backward: the gradients of input, weight and bias.
pub fn layernorm_backward<S: Scalar>(
    x: &Dense<S>,
    weight: &Dense<S>,
    bias: &Dense<S>,
    grad_out: &Dense<S>,
    eps: S,
) -> (r: (Dense<S>, Dense<S>, Dense<S>))
    requires
        x.wf(),
        weight.wf(),
        bias.wf(),
        grad_out.wf(),
        layernorm_ok(x@, weight@, bias@),
        numel(x@.dims) > 0 ==> broadcasts_to(grad_out@.dims, x@.dims),
    ensures
        r.0.wf() && r.1.wf() && r.2.wf(),
        (r.0@, r.1@, r.2@) == layernorm_backward_value(x@, weight@, bias@, grad_out@, eps),
{
    let total = x.numel();
    if total == 0 {
        return (zeros(x.shape()), zeros(weight.shape()), zeros(bias.shape()));
    }
    let rank = x.shape().rank();
    let len = x.shape().dim(rank - 1);
    proof {
        lemma_rows(x@.dims);
        lemma_single(weight@.dims, len);
        lemma_single(bias@.dims, len);
    }
    let gr = Groups { n: 1, c: total / len, hw: len };
    let go_dense = stretch(grad_out, x.shape());
    let go = go_dense.data();
    let (means, vars) = group_stats(x.data(), gr);
    let ghost want = layernorm_backward_value(x@, weight@, bias@, grad_out@, eps);
    let mut gx: Vec<S> = Vec::with_capacity(total);
    let count = S::count(len);
    let mut g: usize = 0;
    while g < gr.c
        invariant
            g <= gr.c,
            x.wf(),
            weight.wf(),
            total == x@.data.len(),
            len == x@.dims[x@.dims.len() - 1],
            len > 0,
            gr == row_groups(x@.dims),
            gr.covers(x@.data.len()),
            gr.c as nat * len as nat == total,
            forall|g: int, t: int|
                0 <= g < gr.c && 0 <= t < len ==> #[trigger] gr.at(g, t) == g * len + t,
            weight@.data.len() == len,
            go@ == stretch_value(grad_out@, x@.dims).data,
            go@.len() == total,
            count == S::count_spec(len),
            means@ == Seq::new(gr.c as nat, |g: int| group_mean(x@.data, gr, g)),
            vars@ == Seq::new(gr.c as nat, |g: int| group_var(x@.data, gr, g)),
            gx@.len() == g * len,
            forall|k: int|
                0 <= k < g * len ==> #[trigger] gx@[k] == layernorm_gx(
                    x@.data,
                    go@,
                    weight@.data,
                    gr,
                    eps,
                    k / len as int,
                    k % len as int,
                ),
        decreases gr.c - g,
    {
        let inv = inverse_std(vars[g], eps);
        let mean = means[g];
        let (go_w, go_w_hat) = row_sums(x.data(), go, weight.data(), gr, g, mean, inv);
        proof {
            lemma_index2(g as int, gr.c as int, 0, len as int);
        }
        let mut t: usize = 0;
        while t < len
            invariant
                t <= len,
                g < gr.c,
                x.wf(),
                weight.wf(),
                total == x@.data.len(),
                len == x@.dims[x@.dims.len() - 1],
                gr == row_groups(x@.dims),
                gr.hw == len,
                gr.c as nat * len as nat == total,
                g * len + len <= total,
                0 <= g * len,
                forall|g: int, t: int|
                    0 <= g < gr.c && 0 <= t < len ==> #[trigger] gr.at(g, t) == g * len + t,
                weight@.data.len() == len,
                go@ == stretch_value(grad_out@, x@.dims).data,
                go@.len() == total,
                count == S::count_spec(len),
                mean == group_mean(x@.data, gr, g as int),
                inv == inv_std(group_var(x@.data, gr, g as int), eps),
                go_w == fold(
                    gr.hw as nat,
                    zero::<S>(),
                    go_w_step(go@, weight@.data, gr, g as int),
                ),
                go_w_hat == fold(
                    gr.hw as nat,
                    zero::<S>(),
                    go_w_hat_step(x@.data, go@, weight@.data, gr, g as int, mean, inv),
                ),
                gx@.len() == g * len + t,
                forall|k: int|
                    0 <= k < g * len + t ==> #[trigger] gx@[k] == layernorm_gx(
                        x@.data,
                        go@,
                        weight@.data,
                        gr,
                        eps,
                        k / len as int,
                        k % len as int,
                    ),
            decreases len - t,
        {
            proof {
                lemma_join2(g as int, t as int, len as int);
                assert(gr.at(g as int, t as int) == g * len + t);
            }
            let at: usize = g * len + t;
            let x_hat = x.data()[at].sub(mean).mul(inv);
            let term1 = count.mul(go[at]).mul(weight.data()[t]);
            let term3 = x_hat.mul(go_w_hat);
            gx.push(term1.sub(go_w).sub(term3).mul(inv).div(count));
            t = t + 1;
        }
        g = g + 1;
        proof {
            assert((g - 1) * len + len == g * len) by (nonlinear_arith);
        }
    }
    let mut gw: Vec<S> = Vec::with_capacity(len);
    let mut gb: Vec<S> = Vec::with_capacity(len);
    let mut t: usize = 0;
    while t < len
        invariant
            t <= len,
            x.wf(),
            gr == row_groups(x@.dims),
            gr.covers(x@.data.len()),
            gr.n == 1,
            gr.hw == len,
            go@.len() == x@.data.len(),
            means@ == Seq::new(gr.c as nat, |g: int| group_mean(x@.data, gr, g)),
            vars@ == Seq::new(gr.c as nat, |g: int| group_var(x@.data, gr, g)),
            gw@.len() == t,
            gb@.len() == t,
            forall|k: int|
                0 <= k < t ==> gw@[k] == fold(
                    gr.c as nat,
                    zero::<S>(),
                    gw_step(x@.data, go@, gr, eps, k),
                ),
            forall|k: int|
                0 <= k < t ==> gb@[k] == fold(gr.c as nat, zero::<S>(), gb_step(go@, gr, k)),
        decreases len - t,
    {
        let (a, b) = column_grads(x.data(), go, gr, eps, &means, &vars, t);
        gw.push(a);
        gb.push(b);
        t = t + 1;
    }
    assert(gx@ =~= want.0.data);
    assert(gw@ =~= want.1.data);
    assert(gb@ =~= want.2.data);
    (Dense::new(*x.shape(), gx), Dense::new(*weight.shape(), gw), Dense::new(*bias.shape(), gb))
}

} // verus!
