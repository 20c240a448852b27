//! Batch normalisation over the channels of `[N, C, H, W]` arrays.
use vstd::prelude::*;
use crate::cpu::norm::{
    group_mean, group_stats, group_sum, group_var, hat, inv_std, inverse_std, lemma_group_index,
    lemma_group_of, sum_group, zeros, zeros_value, Groups,
};
use crate::dense::{copied, Dense, Value};
use crate::index::{bounded, lemma_bounded_fits, lemma_numel_zero, numel, tail_numel};
use crate::math::fold;
use crate::scalar::{one, zero, Constant, Scalar};

verus! {

/// The channels of an image batch.
pub open spec fn channel_groups(d: Seq<usize>) -> Groups {
    Groups { n: d[0], c: d[1], hw: (d[2] * d[3]) as usize }
}

/// The element count of four extents, written out.
pub proof fn lemma_numel4(d: Seq<usize>)
    requires
        d.len() == 4,
    ensures
        numel(d) == d[0] as nat * (d[1] as nat * (d[2] as nat * d[3] as nat)),
        numel(d) == (d[0] as nat * d[1] as nat) * (d[2] as nat * d[3] as nat),
        numel(d) == ((d[0] as nat * d[1] as nat) * d[2] as nat) * d[3] as nat,
{
    reveal_with_fuel(tail_numel, 5);
    let a = d[0] as int;
    let b = d[1] as int;
    let c = d[2] as int;
    let e = d[3] as int;
    assert(a * (b * (c * e)) == (a * b) * (c * e) && (a * b) * (c * e) == ((a * b) * c) * e)
        by (nonlinear_arith);
}

pub proof fn lemma_channels(d: Seq<usize>)
    requires
        d.len() == 4,
        bounded(d),
        numel(d) > 0,
    ensures
        d[0] > 0 && d[1] > 0 && d[2] > 0 && d[3] > 0,
        channel_groups(d).hw == d[2] * d[3],
        channel_groups(d).covers(numel(d)),
        channel_groups(d).len() == d[0] as nat * (d[2] as nat * d[3] as nat),
        d[0] * d[2] <= usize::MAX,
        (d[0] * d[2]) * d[3] == channel_groups(d).len(),
{
    lemma_numel4(d);
    lemma_numel_zero(d);
    lemma_bounded_fits(d);
    let a = d[0] as int;
    let b = d[1] as int;
    let c = d[2] as int;
    let e = d[3] as int;
    assert(c * e <= a * (b * (c * e)) && a * (c * e) <= a * (b * (c * e)) && a * c <= a * (b * (c
        * e)) && (a * c) * e == a * (c * e)) by (nonlinear_arith)
        requires
            a >= 1,
            b >= 1,
            c >= 1,
            e >= 1,
    ;
}

/// The running statistics of a layer, one entry per channel.
pub struct RunningStats<S> {
    pub mean: Vec<S>,
    pub var: Vec<S>,
}

/// `(1 - momentum) * old + momentum * mean`
pub open spec fn next_mean<S: Scalar>(old: S, mean: S, momentum: S) -> S {
    S::add_spec(S::mul_spec(S::sub_spec(one(), momentum), old), S::mul_spec(momentum, mean))
}

/// The factor that makes the variance estimate of `m` samples unbiased.
pub open spec fn bessel<S: Scalar>(m: S) -> S {
    if S::gt_spec(m, one()) {
        S::div_spec(m, S::sub_spec(m, one()))
    } else {
        one()
    }
}

/// `(1 - momentum) * old + momentum * var * bessel`
pub open spec fn next_var<S: Scalar>(old: S, var: S, momentum: S, m: S) -> S {
    S::add_spec(
        S::mul_spec(S::sub_spec(one(), momentum), old),
        S::mul_spec(S::mul_spec(momentum, var), bessel(m)),
    )
}

/// The operands of a batch normalisation agree on the number of channels.
pub open spec fn batchnorm_ok<S>(
    x: Value<S>,
    gamma: Value<S>,
    beta: Value<S>,
    mean: Value<S>,
    var: Value<S>,
) -> bool {
    &&& x.dims.len() == 4
    &&& gamma.dims == seq![x.dims[1]]
    &&& beta.dims == seq![x.dims[1]]
    &&& mean.data.len() == x.dims[1]
    &&& var.data.len() == x.dims[1]
}

/// The statistics that channel `g` is normalised with.
pub open spec fn channel_mean<S: Scalar>(
    x: Value<S>,
    mean: Value<S>,
    training: bool,
    g: int,
) -> S {
    if training {
        group_mean(x.data, channel_groups(x.dims), g)
    } else {
        mean.data[g]
    }
}

pub open spec fn channel_var<S: Scalar>(x: Value<S>, var: Value<S>, training: bool, g: int) -> S {
    if training {
        group_var(x.data, channel_groups(x.dims), g)
    } else {
        var.data[g]
    }
}

/// Each channel shifted by its mean, divided by its deviation, scaled by `gamma` and shifted by
/// `beta`. The statistics are those of the batch in training and the running ones otherwise.
pub open spec fn batchnorm_value<S: Scalar>(
    x: Value<S>,
    gamma: Value<S>,
    beta: Value<S>,
    mean: Value<S>,
    var: Value<S>,
    training: bool,
    eps: S,
) -> Value<S> {
    let gr = channel_groups(x.dims);
    Value {
        dims: x.dims,
        data: Seq::new(
            x.data.len(),
            |i: int|
                {
                    let g = gr.group_of(i);
                    let inv = inv_std(channel_var(x, var, training, g), eps);
                    S::add_spec(
                        S::mul_spec(
                            hat(x.data[i], channel_mean(x, mean, training, g), inv),
                            gamma.data[g],
                        ),
                        beta.data[g],
                    )
                },
        ),
    }
}

/// The running means after a training batch.
pub open spec fn next_means<S: Scalar>(x: Value<S>, mean: Seq<S>, momentum: S) -> Seq<S> {
    let gr = channel_groups(x.dims);
    Seq::new(gr.c as nat, |g: int| next_mean(mean[g], group_mean(x.data, gr, g), momentum))
}

/// The running variances after a training batch.
pub open spec fn next_vars<S: Scalar>(x: Value<S>, var: Seq<S>, momentum: S) -> Seq<S> {
    let gr = channel_groups(x.dims);
    Seq::new(
        gr.c as nat,
        |g: int|
            next_var(
                var[g],
                group_var(x.data, gr, g),
                momentum,
                S::count_spec(gr.len() as usize),
            ),
    )
}

/// The statistics of all channels: of the batch in training, the running ones otherwise.
fn channel_stats<S: Scalar>(
    x: &Dense<S>,
    mean: &Dense<S>,
    var: &Dense<S>,
    training: bool,
    gr: Groups,
) -> (r: (Vec<S>, Vec<S>))
    requires
        x.wf(),
        mean.wf(),
        var.wf(),
        gr == channel_groups(x@.dims),
        gr.covers(x@.data.len()),
        mean@.data.len() == gr.c,
        var@.data.len() == gr.c,
    ensures
        r.0@ == Seq::new(gr.c as nat, |g: int| channel_mean(x@, mean@, training, g)),
        r.1@ == Seq::new(gr.c as nat, |g: int| channel_var(x@, var@, training, g)),
{
    if training {
        let (m, v) = group_stats(x.data(), gr);
        assert(m@ =~= Seq::new(gr.c as nat, |g: int| channel_mean(x@, mean@, training, g)));
        assert(v@ =~= Seq::new(gr.c as nat, |g: int| channel_var(x@, var@, training, g)));
        (m, v)
    } else {
        let m = copied(mean.data());
        let v = copied(var.data());
        assert(m@ =~= Seq::new(gr.c as nat, |g: int| channel_mean(x@, mean@, training, g)));
        assert(v@ =~= Seq::new(gr.c as nat, |g: int| channel_var(x@, var@, training, g)));
        (m, v)
    }
}

/// Batch normalisation forward, and in training the next running statistics.
///
/// An empty batch leaves the running statistics as they are.
pub fn batchnorm<S: Scalar>(
    x: &Dense<S>,
    gamma: &Dense<S>,
    beta: &Dense<S>,
    running_mean: &Dense<S>,
    running_var: &Dense<S>,
    training: bool,
    momentum: S,
    eps: S,
) -> (r: (Dense<S>, Option<RunningStats<S>>))
    requires
        x.wf(),
        gamma.wf(),
        beta.wf(),
        running_mean.wf(),
        running_var.wf(),
        batchnorm_ok(x@, gamma@, beta@, running_mean@, running_var@),
    ensures
        r.0.wf(),
        r.0@ == batchnorm_value(x@, gamma@, beta@, running_mean@, running_var@, training, eps),
        r.1 is Some <==> training && numel(x@.dims) > 0,
        r.1 matches Some(s) ==> {
            &&& s.mean@ == next_means(x@, running_mean@.data, momentum)
            &&& s.var@ == next_vars(x@, running_var@.data, momentum)
        },
{
    let total = x.numel();
    let ghost want = batchnorm_value(
        x@,
        gamma@,
        beta@,
        running_mean@,
        running_var@,
        training,
        eps,
    );
    let mut out: Vec<S> = Vec::with_capacity(total);
    if total == 0 {
        assert(out@ =~= want.data);
        return (Dense::new(*x.shape(), out), None);
    }
    proof {
        lemma_channels(x@.dims);
        crate::cpu::norm::lemma_single(gamma@.dims, x@.dims[1]);
        crate::cpu::norm::lemma_single(beta@.dims, x@.dims[1]);
    }
    let n = x.shape().dim(0);
    let c = x.shape().dim(1);
    let h = x.shape().dim(2);
    let w = x.shape().dim(3);
    let gr = Groups { n, c, hw: h * w };
    let (means, vars) = channel_stats(x, running_mean, running_var, training, gr);
    let mut i: usize = 0;
    while i < total
        invariant
            i <= total == x@.data.len(),
            x.wf(),
            gamma.wf(),
            beta.wf(),
            gr == channel_groups(x@.dims),
            gr.covers(x@.data.len()),
            gamma@.data.len() == gr.c,
            beta@.data.len() == gr.c,
            means@ == Seq::new(gr.c as nat, |g: int| channel_mean(x@, running_mean@, training, g)),
            vars@ == Seq::new(gr.c as nat, |g: int| channel_var(x@, running_var@, training, g)),
            want == batchnorm_value(
                x@,
                gamma@,
                beta@,
                running_mean@,
                running_var@,
                training,
                eps,
            ),
            out@.len() == i,
            forall|k: int| 0 <= k < i ==> out@[k] == want.data[k],
        decreases total - i,
    {
        proof {
            lemma_group_of(gr, x@.data.len(), i as int);
        }
        let g: usize = (i / gr.hw) % gr.c;
        let inv = inverse_std(vars[g], eps);
        let x_hat = x.data()[i].sub(means[g]).mul(inv);
        out.push(x_hat.mul(gamma.data()[g]).add(beta.data()[g]));
        i = i + 1;
    }
    assert(out@ =~= want.data);
    let stats = if training {
        assert(means@ =~= Seq::new(gr.c as nat, |g: int| group_mean(x@.data, gr, g)));
        assert(vars@ =~= Seq::new(gr.c as nat, |g: int| group_var(x@.data, gr, g)));
        Some(
            update_stats(x, running_mean.data(), running_var.data(), momentum, gr, &means, &vars),
        )
    } else {
        None
    };
    (Dense::new(*x.shape(), out), stats)
}

/// The running statistics after a training batch with the given statistics.
fn update_stats<S: Scalar>(
    x: &Dense<S>,
    running_mean: &Vec<S>,
    running_var: &Vec<S>,
    momentum: S,
    gr: Groups,
    means: &Vec<S>,
    vars: &Vec<S>,
) -> (r: RunningStats<S>)
    requires
        x.wf(),
        gr == channel_groups(x@.dims),
        gr.covers(x@.data.len()),
        gr.len() <= usize::MAX,
        running_mean@.len() == gr.c,
        running_var@.len() == gr.c,
        means@ == Seq::new(gr.c as nat, |g: int| group_mean(x@.data, gr, g)),
        vars@ == Seq::new(gr.c as nat, |g: int| group_var(x@.data, gr, g)),
    ensures
        r.mean@ == next_means(x@, running_mean@, momentum),
        r.var@ == next_vars(x@, running_var@, momentum),
{
    let one_s = S::constant(Constant::One);
    let m = S::count(gr.n * gr.hw);
    let factor = if m.gt(one_s) {
        m.div(m.sub(one_s))
    } else {
        one_s
    };
    let keep = one_s.sub(momentum);
    let mut mean: Vec<S> = Vec::with_capacity(gr.c);
    let mut var: Vec<S> = Vec::with_capacity(gr.c);
    let mut g: usize = 0;
    while g < gr.c
        invariant
            g <= gr.c,
            running_mean@.len() == gr.c,
            running_var@.len() == gr.c,
            means@ == Seq::new(gr.c as nat, |g: int| group_mean(x@.data, gr, g)),
            vars@ == Seq::new(gr.c as nat, |g: int| group_var(x@.data, gr, g)),
            gr == channel_groups(x@.dims),
            m == S::count_spec(gr.len() as usize),
            factor == bessel(m),
            keep == S::sub_spec(one(), momentum),
            mean@.len() == g,
            var@.len() == g,
            forall|k: int|
                0 <= k < g ==> mean@[k] == next_means(x@, running_mean@, momentum)[k],
            forall|k: int| 0 <= k < g ==> var@[k] == next_vars(x@, running_var@, momentum)[k],
        decreases gr.c - g,
    {
        mean.push(keep.mul(running_mean[g]).add(momentum.mul(means[g])));
        var.push(keep.mul(running_var[g]).add(momentum.mul(vars[g]).mul(factor)));
        g = g + 1;
    }
    assert(mean@ =~= next_means(x@, running_mean@, momentum));
    assert(var@ =~= next_vars(x@, running_var@, momentum));
    RunningStats { mean, var }
}

pub open spec fn dy_hat_step<S: Scalar>(
    x: Seq<S>,
    go: Seq<S>,
    gr: Groups,
    g: int,
    mean: S,
    inv: S,
) -> spec_fn(int, S) -> S {
    |t: int, acc: S|
        S::add_spec(acc, S::mul_spec(go[gr.at(g, t)], hat(x[gr.at(g, t)], mean, inv)))
}

/// The sum over channel `g` of the output gradient times the normalised input.
pub open spec fn dy_hat_sum<S: Scalar>(
    x: Seq<S>,
    go: Seq<S>,
    gr: Groups,
    g: int,
    mean: S,
    inv: S,
) -> S {
    fold(gr.len(), zero(), dy_hat_step(x, go, gr, g, mean, inv))
}

/// The gradient of a batch normalisation's input at position `i`.
pub open spec fn batchnorm_gx<S: Scalar>(
    x: Value<S>,
    gamma: Value<S>,
    mean: Value<S>,
    var: Value<S>,
    go: Seq<S>,
    training: bool,
    eps: S,
    i: int,
) -> S {
    let gr = channel_groups(x.dims);
    let g = gr.group_of(i);
    let mu = channel_mean(x, mean, training, g);
    let inv = inv_std(channel_var(x, var, training, g), eps);
    let m = S::count_spec(gr.len() as usize);
    if training {
        let sum_dy = group_sum(go, gr, g);
        let sum_dy_hat = dy_hat_sum(x.data, go, gr, g, mu, inv);
        S::mul_spec(
            S::div_spec(S::mul_spec(gamma.data[g], inv), m),
            S::sub_spec(
                S::sub_spec(S::mul_spec(m, go[i]), sum_dy),
                S::mul_spec(hat(x.data[i], mu, inv), sum_dy_hat),
            ),
        )
    } else {
        S::mul_spec(S::mul_spec(go[i], gamma.data[g]), inv)
    }
}

/// The gradients of a batch normalisation with respect to input, gamma and beta.
pub open spec fn batchnorm_backward_value<S: Scalar>(
    x: Value<S>,
    gamma: Value<S>,
    beta: Value<S>,
    mean: Value<S>,
    var: Value<S>,
    grad_out: Value<S>,
    training: bool,
    eps: S,
) -> (Value<S>, Value<S>, Value<S>) {
    if numel(x.dims) == 0 {
        (zeros_value(x.dims), zeros_value(gamma.dims), zeros_value(beta.dims))
    } else {
        let gr = channel_groups(x.dims);
        let go = grad_out.data;
        (
            Value {
                dims: x.dims,
                data: Seq::new(
                    x.data.len(),
                    |i: int| batchnorm_gx(x, gamma, mean, var, go, training, eps, i),
                ),
            },
            Value {
                dims: gamma.dims,
                data: Seq::new(
                    gr.c as nat,
                    |g: int|
                        dy_hat_sum(
                            x.data,
                            go,
                            gr,
                            g,
                            channel_mean(x, mean, training, g),
                            inv_std(channel_var(x, var, training, g), eps),
                        ),
                ),
            },
            Value { dims: beta.dims, data: Seq::new(gr.c as nat, |g: int| group_sum(go, gr, g)) },
        )
    }
}

/// The sum over one channel of the output gradient times the normalised input.
fn sum_dy_hat<S: Scalar>(
    x: &Vec<S>,
    go: &Vec<S>,
    gr: Groups,
    g: usize,
    mean: S,
    inv: S,
) -> (r: S)
    requires
        gr.covers(x@.len()),
        go@.len() == x@.len(),
        g < gr.c,
    ensures
        r == dy_hat_sum(x@, go@, gr, g as int, mean, inv),
{
    let len: usize = gr.n * gr.hw;
    let ghost step = dy_hat_step(x@, go@, gr, g as int, mean, inv);
    let mut acc = S::constant(Constant::Zero);
    let mut t: usize = 0;
    while t < len
        invariant
            t <= len == gr.len(),
            gr.covers(x@.len()),
            go@.len() == x@.len(),
            g < gr.c,
            step == dy_hat_step(x@, go@, gr, g as int, mean, inv),
            acc == fold(t as nat, zero::<S>(), step),
        decreases len - t,
    {
        proof {
            lemma_group_index(gr, x@.len(), g as int, t as int);
        }
        let at: usize = ((t / gr.hw) * gr.c + g) * gr.hw + t % gr.hw;
        let x_hat = x[at].sub(mean).mul(inv);
        acc = acc.add(go[at].mul(x_hat));
        t = t + 1;
    }
    acc
}

/// Batch normalisation backward: the gradients of input, gamma and beta.
pub fn batchnorm_backward<S: Scalar>(
    x: &Dense<S>,
    gamma: &Dense<S>,
    beta: &Dense<S>,
    running_mean: &Dense<S>,
    running_var: &Dense<S>,
    grad_out: &Dense<S>,
    training: bool,
    eps: S,
) -> (r: (Dense<S>, Dense<S>, Dense<S>))
    requires
        x.wf(),
        gamma.wf(),
        beta.wf(),
        running_mean.wf(),
        running_var.wf(),
        grad_out.wf(),
        batchnorm_ok(x@, gamma@, beta@, running_mean@, running_var@),
        grad_out@.data.len() == x@.data.len(),
    ensures
        r.0.wf() && r.1.wf() && r.2.wf(),
        (r.0@, r.1@, r.2@) == batchnorm_backward_value(
            x@,
            gamma@,
            beta@,
            running_mean@,
            running_var@,
            grad_out@,
            training,
            eps,
        ),
{
    let total = x.numel();
    let ghost want = batchnorm_backward_value(
        x@,
        gamma@,
        beta@,
        running_mean@,
        running_var@,
        grad_out@,
        training,
        eps,
    );
    if total == 0 {
        return (zeros(x.shape()), zeros(gamma.shape()), zeros(beta.shape()));
    }
    proof {
        lemma_channels(x@.dims);
        crate::cpu::norm::lemma_single(gamma@.dims, x@.dims[1]);
        crate::cpu::norm::lemma_single(beta@.dims, x@.dims[1]);
    }
    let n = x.shape().dim(0);
    let c = x.shape().dim(1);
    let h = x.shape().dim(2);
    let w = x.shape().dim(3);
    let gr = Groups { n, c, hw: h * w };
    let (means, vars) = channel_stats(x, running_mean, running_var, training, gr);
    let go = grad_out.data();
    let mut gw: Vec<S> = Vec::with_capacity(c);
    let mut gb: Vec<S> = Vec::with_capacity(c);
    let mut g: usize = 0;
    while g < c
        invariant
            g <= c == gr.c,
            x.wf(),
            gr == channel_groups(x@.dims),
            gr.covers(x@.data.len()),
            go@ == grad_out@.data,
            go@.len() == x@.data.len(),
            means@ == Seq::new(gr.c as nat, |g: int| channel_mean(x@, running_mean@, training, g)),
            vars@ == Seq::new(gr.c as nat, |g: int| channel_var(x@, running_var@, training, g)),
            want == batchnorm_backward_value(
                x@,
                gamma@,
                beta@,
                running_mean@,
                running_var@,
                grad_out@,
                training,
                eps,
            ),
            numel(x@.dims) > 0,
            gw@.len() == g,
            gb@.len() == g,
            forall|k: int| 0 <= k < g ==> gw@[k] == want.1.data[k],
            forall|k: int| 0 <= k < g ==> gb@[k] == want.2.data[k],
        decreases c - g,
    {
        let inv = inverse_std(vars[g], eps);
        gw.push(sum_dy_hat(x.data(), go, gr, g, means[g], inv));
        gb.push(sum_group(go, gr, g));
        g = g + 1;
    }
    let m = S::count(gr.n * gr.hw);
    let mut gx: Vec<S> = Vec::with_capacity(total);
    let mut i: usize = 0;
    while i < total
        invariant
            i <= total == x@.data.len(),
            x.wf(),
            gamma.wf(),
            gr == channel_groups(x@.dims),
            gr.covers(x@.data.len()),
            gamma@.data.len() == gr.c,
            go@ == grad_out@.data,
            go@.len() == x@.data.len(),
            m == S::count_spec(gr.len() as usize),
            means@ == Seq::new(gr.c as nat, |g: int| channel_mean(x@, running_mean@, training, g)),
            vars@ == Seq::new(gr.c as nat, |g: int| channel_var(x@, running_var@, training, g)),
            want == batchnorm_backward_value(
                x@,
                gamma@,
                beta@,
                running_mean@,
                running_var@,
                grad_out@,
                training,
                eps,
            ),
            numel(x@.dims) > 0,
            gw@ == want.1.data,
            gb@ == want.2.data,
            gw@.len() == gr.c,
            gb@.len() == gr.c,
            gx@.len() == i,
            forall|k: int| 0 <= k < i ==> gx@[k] == want.0.data[k],
        decreases total - i,
    {
        proof {
            lemma_group_of(gr, x@.data.len(), i as int);
        }
        let g: usize = (i / gr.hw) % gr.c;
        let inv = inverse_std(vars[g], eps);
        if training {
            let x_hat = x.data()[i].sub(means[g]).mul(inv);
            let scale = gamma.data()[g].mul(inv).div(m);
            gx.push(scale.mul(m.mul(go[i]).sub(gb[g]).sub(x_hat.mul(gw[g]))));
        } else {
            gx.push(go[i].mul(gamma.data()[g]).mul(inv));
        }
        i = i + 1;
    }
    assert(gx@ =~= want.0.data);
    (Dense::new(*x.shape(), gx), Dense::new(*gamma.shape(), gw), Dense::new(*beta.shape(), gb))
}

} // verus!
