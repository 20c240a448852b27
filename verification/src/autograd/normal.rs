//! What the normalisations are, and the gradients of their inputs.
use vstd::prelude::*;
use crate::autograd::centred::{
    lemma_normal_adjoint, mean_of, normal_back, normal_change,
};
use crate::autograd::exact::{
    exact, lemma_add, lemma_derived, lemma_fold_total, lemma_mul, lemma_total_eq, lemma_total_mul,
    lemma_total_runs, pairing, total,
};
use crate::autograd::adjoint_norm::lemma_groups;
use crate::autograd::ring::{
    cancels, invertible, lemma_cancel, lemma_inverse, lemma_mul3, lemma_mul_sub, lemma_sub4,
    rooted,
};
use crate::autograd::rules::rule_value;
use crate::cpu::batchnorm::{
    batchnorm_backward_value, batchnorm_gx, batchnorm_ok, batchnorm_value, channel_groups,
    dy_hat_step, lemma_channels, next_means, next_vars,
};
use crate::cpu::norm::{
    go_w_hat_step, go_w_step, group_mean, group_sq_step, group_sum, group_sum_step, group_var, hat,
    inv_std, layernorm_backward_value, layernorm_gx, layernorm_ok, layernorm_value,
    lemma_group_index, lemma_rows, row_groups, stretch_value, Groups,
};
use crate::dense::Value;
use crate::index::{lemma_bounded_fits, lemma_dims1, lemma_offset_of_coord, numel};
use crate::math::{lemma_index2, lemma_join2, lemma_split2};
use crate::mutate::replaced;
use crate::op::OpType;
use crate::ops::batchnorm::stats_step;
use crate::runtime::Runtime;
use crate::scalar::{one, zero, Scalar};
use crate::storage::Block;
use crate::tensor::Tensor;
use crate::training::lemma_shows;

verus! {

/// The mean of the squared distances from the mean.
pub open spec fn spread_of<S: Scalar>(n: nat, count: S, f: spec_fn(int) -> S) -> S {
    let mean = mean_of(n, count, f);
    mean_of(n, count, |t: int| S::mul_spec(S::sub_spec(f(t), mean), S::sub_spec(f(t), mean)))
}

/// The deviation, kept away from zero by `eps`.
pub open spec fn deviation<S: Scalar>(spread: S, eps: S) -> S {
    S::sqrt_spec(S::add_spec(spread, eps))
}

/// An entry less the mean, over the deviation.
pub open spec fn normal_at<S: Scalar>(x: S, mean: S, dev: S) -> S {
    S::div_spec(S::sub_spec(x, mean), dev)
}

/// The elements of a group.
pub open spec fn members<S>(x: Seq<S>, gr: Groups, q: int) -> spec_fn(int) -> S {
    |t: int| x[gr.at(q, t)]
}

/// How many elements a group has, as a number.
pub open spec fn group_count<S: Scalar>(gr: Groups) -> S {
    S::count_spec(gr.len() as usize)
}

/// The statistics of a group are its mean and its spread.
proof fn lemma_statistics<S: Scalar>(x: Seq<S>, gr: Groups, q: int)
    requires
        exact::<S>(),
    ensures
        group_sum(x, gr, q) == total(gr.len(), members(x, gr, q)),
        group_mean(x, gr, q) == mean_of(gr.len(), group_count(gr), members(x, gr, q)),
        group_var(x, gr, q) == spread_of(gr.len(), group_count(gr), members(x, gr, q)),
{
    let f = members(x, gr, q);
    let n = gr.len();
    lemma_fold_total(n, group_sum_step(x, gr, q), f);
    let mean = group_mean(x, gr, q);
    let sq = |t: int| S::mul_spec(S::sub_spec(f(t), mean), S::sub_spec(f(t), mean));
    lemma_fold_total(n, group_sq_step(x, gr, q, mean), sq);
}

/// `(x - mean) * (1 / dev)` is the normalised entry.
proof fn lemma_hat<S: Scalar>(x: S, mean: S, v: S, eps: S)
    requires
        exact::<S>(),
    ensures
        hat(x, mean, inv_std(v, eps)) == normal_at(x, mean, deviation(v, eps)),
{
    lemma_derived(S::sub_spec(x, mean), deviation(v, eps), zero());
}

/// The output of a normalisation with scale `w` and shift `b`, taken back to its input.
proof fn lemma_normalised<S: Scalar>(y: S, x: S, mean: S, dev: S, w: S, b: S)
    requires
        exact::<S>(),
        cancels::<S>(),
        invertible(dev),
        y == S::add_spec(S::mul_spec(normal_at(x, mean, dev), w), b),
    ensures
        S::mul_spec(S::sub_spec(y, b), dev) == S::mul_spec(S::sub_spec(x, mean), w),
{
    let z = S::sub_spec(x, mean);
    let h = normal_at(x, mean, dev);
    lemma_cancel(S::mul_spec(h, w), b);
    lemma_mul3(h, w, dev);
    lemma_inverse(z, dev);
}

/// Layer normalisation: every row, less its mean and over its deviation, is scaled by the weight
/// and shifted by the bias; the deviation squared is the row's spread and `eps`.
pub proof fn law_layernorm_normalises<S: Scalar>(
    x: Value<S>,
    weight: Value<S>,
    bias: Value<S>,
    eps: S,
    q: int,
    t: int,
)
    requires
        exact::<S>(),
        cancels::<S>(),
        x.wf(),
        layernorm_ok(x, weight, bias),
        numel(x.dims) > 0,
        0 <= q < numel(x.dims) / x.dims[x.dims.len() - 1] as nat,
        0 <= t < x.dims[x.dims.len() - 1],
        ({
            let len = x.dims[x.dims.len() - 1];
            let row = |k: int| x.data[q * len + k];
            let s = S::add_spec(spread_of(len as nat, S::count_spec(len), row), eps);
            rooted(s) && invertible(S::sqrt_spec(s))
        }),
    ensures
        ({
            let len = x.dims[x.dims.len() - 1];
            let count = S::count_spec(len);
            let row = |k: int| x.data[q * len + k];
            let mean = mean_of(len as nat, count, row);
            let spread = spread_of(len as nat, count, row);
            let y = layernorm_value(x, weight, bias, eps).data[q * len + t];
            exists|dev: S|
                #![trigger S::mul_spec(dev, dev)]
                S::mul_spec(dev, dev) == S::add_spec(spread, eps) && S::mul_spec(
                    S::sub_spec(y, bias.data[t]),
                    dev,
                ) == S::mul_spec(S::sub_spec(row(t), mean), weight.data[t])
        }),
{
    let len = x.dims[x.dims.len() - 1];
    let gr = row_groups(x.dims);
    lemma_rows(x.dims);
    let row = |k: int| x.data[q * len + k];
    let f = members(x.data, gr, q);
    lemma_statistics(x.data, gr, q);
    lemma_row_members(x, q);
    let i = q * len + t;
    lemma_join2(q, t, len as int);
    lemma_index2(q, gr.c as int, t, len as int);
    let v = group_var(x.data, gr, q);
    let mean = group_mean(x.data, gr, q);
    let dev = deviation(v, eps);
    lemma_hat(x.data[i], mean, v, eps);
    let y = layernorm_value(x, weight, bias, eps).data[i];
    lemma_normalised(y, x.data[i], mean, dev, weight.data[t], bias.data[t]);
    assert(S::mul_spec(dev, dev) == S::add_spec(v, eps));
}

/// The members of a row are its elements.
proof fn lemma_row_members<S: Scalar>(x: Value<S>, q: int)
    requires
        x.wf(),
        x.dims.len() >= 1,
        numel(x.dims) > 0,
        0 <= q < row_groups(x.dims).c,
    ensures
        ({
            let len = x.dims[x.dims.len() - 1];
            let gr = row_groups(x.dims);
            let row = |k: int| x.data[q * len + k];
            let f = members(x.data, gr, q);
            &&& gr.len() == len
            &&& forall|t: int| 0 <= t < len ==> #[trigger] f(t) == row(t)
            &&& mean_of(len as nat, S::count_spec(len), f) == mean_of(
                len as nat,
                S::count_spec(len),
                row,
            )
            &&& spread_of(len as nat, S::count_spec(len), f) == spread_of(
                len as nat,
                S::count_spec(len),
                row,
            )
        }),
{
    let len = x.dims[x.dims.len() - 1];
    let gr = row_groups(x.dims);
    lemma_rows(x.dims);
    let row = |k: int| x.data[q * len + k];
    let f = members(x.data, gr, q);
    assert forall|t: int| 0 <= t < len implies #[trigger] f(t) == row(t) by {
        assert(gr.at(q, t) == q * len + t);
    }
    lemma_total_eq(len as nat, f, row);
    let mean = mean_of(len as nat, S::count_spec(len), f);
    let a = |t: int| S::mul_spec(S::sub_spec(f(t), mean), S::sub_spec(f(t), mean));
    let b = |t: int| S::mul_spec(S::sub_spec(row(t), mean), S::sub_spec(row(t), mean));
    assert forall|t: int| 0 <= t < len implies #[trigger] a(t) == b(t) by {
        assert(f(t) == row(t));
    }
    lemma_total_eq(len as nat, a, b);
}

/// How the output of a layer normalisation changes when its input changes by `d`.
pub open spec fn layernorm_change<S: Scalar>(
    x: Value<S>,
    weight: Value<S>,
    eps: S,
    d: Value<S>,
) -> Value<S> {
    let gr = row_groups(x.dims);
    let len = x.dims[x.dims.len() - 1] as int;
    Value {
        dims: x.dims,
        data: Seq::new(
            x.data.len(),
            |i: int|
                S::mul_spec(
                    weight.data[i % len],
                    group_change(x.data, gr, i / len, eps, d.data, i % len),
                ),
        ),
    }
}

/// How entry `t` of a normalised group changes when the elements change by `d`.
pub open spec fn group_change<S: Scalar>(
    x: Seq<S>,
    gr: Groups,
    q: int,
    eps: S,
    d: Seq<S>,
    t: int,
) -> S {
    let n = gr.len();
    let count = group_count::<S>(gr);
    let f = members(x, gr, q);
    let mean = mean_of(n, count, f);
    let dev = deviation(spread_of(n, count, f), eps);
    normal_change(
        n,
        count,
        S::div_spec(one(), dev),
        |k: int| normal_at(f(k), mean, dev),
        members(d, gr, q),
        t,
    )
}

/// The gradient of layer normalisation's input: it weighs against every change of the input what
/// the output's gradient weighs against the change that this makes of the output.
#[verifier::rlimit(40)]
pub proof fn law_layernorm_input_adjoint<S: Scalar>(
    x: Value<S>,
    weight: Value<S>,
    bias: Value<S>,
    eps_bits: u32,
    d: Value<S>,
    g: Value<S>,
)
    requires
        exact::<S>(),
        x.wf(),
        g.wf(),
        d.wf(),
        layernorm_ok(x, weight, bias),
        numel(x.dims) > 0,
        g.dims == x.dims,
        d.dims == x.dims,
        invertible(S::count_spec(x.dims[x.dims.len() - 1])),
    ensures
        pairing(
            g.data,
            layernorm_change(x, weight, S::from_bits_spec(eps_bits), d).data,
        ) == pairing(
            rule_value(OpType::LayerNorm { eps_bits }, seq![x, weight, bias], g)[0].data,
            d.data,
        ),
{
    let eps = S::from_bits_spec(eps_bits);
    let gr = row_groups(x.dims);
    let len = x.dims[x.dims.len() - 1] as nat;
    let rows = gr.c as nat;
    let n = x.data.len();
    lemma_rows(x.dims);
    lemma_bounded_fits(x.dims);
    let r = layernorm_backward_value(x, weight, bias, g, eps).0;
    assert(rule_value(OpType::LayerNorm { eps_bits }, seq![x, weight, bias], g)[0] == r);
    let go = stretch_value(g, x.dims).data;
    assert forall|i: int| 0 <= i < n implies #[trigger] go[i] == g.data[i] by {
        lemma_offset_of_coord(i as nat, x.dims);
    }
    assert(go =~= g.data);
    let y = layernorm_change(x, weight, eps, d);
    let left = |i: int| S::mul_spec(g.data[i], y.data[i]);
    let right = |i: int| S::mul_spec(r.data[i], d.data[i]);
    lemma_total_runs(rows, len, left);
    lemma_total_runs(rows, len, right);
    let lr = |q: int| total(len, |t: int| left(q * len + t));
    let rr = |q: int| total(len, |t: int| right(q * len + t));
    assert forall|q: int| 0 <= q < rows implies #[trigger] lr(q) == rr(q) by {
        lemma_layernorm_row(x, weight, g, d, eps, q);
        let a = |t: int| left(q * len + t);
        let b = |t: int| right(q * len + t);
        let c = |t: int|
            S::mul_spec(
                S::mul_spec(g.data[q * len + t], weight.data[t]),
                group_change(x.data, gr, q, eps, d.data, t),
            );
        let e = |t: int|
            S::mul_spec(
                layernorm_gx(x.data, g.data, weight.data, gr, eps, q, t),
                d.data[q * len + t],
            );
        assert forall|t: int| 0 <= t < len implies #[trigger] a(t) == c(t) && b(t) == e(t) by {
            lemma_join2(q, t, len as int);
            lemma_index2(q, rows as int, t, len as int);
            lemma_mul(
                g.data[q * len + t],
                weight.data[t],
                group_change(x.data, gr, q, eps, d.data, t),
            );
        }
        assert forall|t: int| 0 <= t < len implies #[trigger] b(t) == e(t) by {
            assert(a(t) == c(t));
        }
        lemma_total_eq(len, a, c);
        lemma_total_eq(len, b, e);
    }
    lemma_total_eq(rows, lr, rr);
}

/// One row of the weights of both sides.
proof fn lemma_layernorm_row<S: Scalar>(
    x: Value<S>,
    weight: Value<S>,
    g: Value<S>,
    d: Value<S>,
    eps: S,
    q: int,
)
    requires
        exact::<S>(),
        x.wf(),
        x.dims.len() >= 1,
        numel(x.dims) > 0,
        0 <= q < row_groups(x.dims).c,
        invertible(S::count_spec(x.dims[x.dims.len() - 1])),
    ensures
        ({
            let gr = row_groups(x.dims);
            let len = x.dims[x.dims.len() - 1] as nat;
            total(
                len,
                |t: int|
                    S::mul_spec(
                        S::mul_spec(g.data[q * len + t], weight.data[t]),
                        group_change(x.data, gr, q, eps, d.data, t),
                    ),
            ) == total(
                len,
                |t: int|
                    S::mul_spec(
                        layernorm_gx(x.data, g.data, weight.data, gr, eps, q, t),
                        d.data[q * len + t],
                    ),
            )
        }),
{
    let gr = row_groups(x.dims);
    let len = x.dims[x.dims.len() - 1] as nat;
    lemma_rows(x.dims);
    lemma_statistics(x.data, gr, q);
    let count = S::count_spec(x.dims[x.dims.len() - 1]);
    let f = members(x.data, gr, q);
    let mean = group_mean(x.data, gr, q);
    let v = group_var(x.data, gr, q);
    let dev = deviation(v, eps);
    let inv = inv_std(v, eps);
    let h = |k: int| normal_at(f(k), mean, dev);
    let u = |t: int| S::mul_spec(g.data[gr.at(q, t)], weight.data[t]);
    let dm = members(d.data, gr, q);
    lemma_normal_adjoint(len, count, inv, h, u, dm);
    // the folds of the gradient are sums
    lemma_fold_total(len, go_w_step(g.data, weight.data, gr, q), u);
    let uh = |t: int| S::mul_spec(u(t), h(t));
    let step = go_w_hat_step(x.data, g.data, weight.data, gr, q, mean, inv);
    assert forall|t: int, acc: S| 0 <= t < len implies #[trigger] step(t, acc) == S::add_spec(
        acc,
        uh(t),
    ) by {
        lemma_hat(x.data[gr.at(q, t)], mean, v, eps);
    }
    lemma_fold_total(len, step, uh);
    let a = |t: int| S::mul_spec(u(t), normal_change(len, count, inv, h, dm, t));
    let b = |t: int| S::mul_spec(normal_back(len, count, inv, h, u, t), dm(t));
    let c = |t: int|
        S::mul_spec(
            S::mul_spec(g.data[q * len + t], weight.data[t]),
            group_change(x.data, gr, q, eps, d.data, t),
        );
    let e = |t: int|
        S::mul_spec(
            layernorm_gx(x.data, g.data, weight.data, gr, eps, q, t),
            d.data[q * len + t],
        );
    assert forall|t: int| 0 <= t < len implies #[trigger] a(t) == c(t) && b(t) == e(t) by {
        assert(gr.at(q, t) == q * len + t);
        lemma_hat(x.data[gr.at(q, t)], mean, v, eps);
        lemma_mul(count, g.data[gr.at(q, t)], weight.data[t]);
        assert(total(len, |k: int| S::mul_spec(u(k), h(k))) == total(len, uh)) by {
            lemma_total_eq(len, |k: int| S::mul_spec(u(k), h(k)), uh);
        }
        assert(layernorm_gx(x.data, g.data, weight.data, gr, eps, q, t) == normal_back(
            len,
            count,
            inv,
            h,
            u,
            t,
        ));
    }
    assert forall|t: int| 0 <= t < len implies #[trigger] b(t) == e(t) by {
        assert(a(t) == c(t));
    }
    lemma_total_eq(len, a, c);
    lemma_total_eq(len, b, e);
}

/// What channel `q` is normalised with: the statistics of the batch in training, and else the
/// running ones.
pub open spec fn channel_statistics<S: Scalar>(
    x: Value<S>,
    mean: Value<S>,
    var: Value<S>,
    training: bool,
    q: int,
) -> (S, S) {
    let gr = channel_groups(x.dims);
    if training {
        (
            mean_of(gr.len(), group_count(gr), members(x.data, gr, q)),
            spread_of(gr.len(), group_count(gr), members(x.data, gr, q)),
        )
    } else {
        (mean.data[q], var.data[q])
    }
}

/// Batch normalisation: every element, less the mean of its channel and over its deviation, is
/// scaled by gamma and shifted by beta; the deviation squared is the channel's variance and `eps`.
pub proof fn law_batchnorm_normalises<S: Scalar>(
    x: Value<S>,
    gamma: Value<S>,
    beta: Value<S>,
    mean: Value<S>,
    var: Value<S>,
    training: bool,
    eps: S,
    i: int,
)
    requires
        exact::<S>(),
        cancels::<S>(),
        x.wf(),
        batchnorm_ok(x, gamma, beta, mean, var),
        0 <= i < x.data.len(),
        ({
            let q = channel_groups(x.dims).group_of(i);
            let s = S::add_spec(channel_statistics(x, mean, var, training, q).1, eps);
            rooted(s) && invertible(S::sqrt_spec(s))
        }),
    ensures
        ({
            let q = channel_groups(x.dims).group_of(i);
            let (mu, v) = channel_statistics(x, mean, var, training, q);
            let y = batchnorm_value(x, gamma, beta, mean, var, training, eps).data[i];
            exists|dev: S|
                #![trigger S::mul_spec(dev, dev)]
                S::mul_spec(dev, dev) == S::add_spec(v, eps) && S::mul_spec(
                    S::sub_spec(y, beta.data[q]),
                    dev,
                ) == S::mul_spec(S::sub_spec(x.data[i], mu), gamma.data[q])
        }),
{
    let gr = channel_groups(x.dims);
    let q = gr.group_of(i);
    lemma_statistics(x.data, gr, q);
    let (mu, v) = channel_statistics(x, mean, var, training, q);
    let dev = deviation(v, eps);
    lemma_hat(x.data[i], mu, v, eps);
    let y = batchnorm_value(x, gamma, beta, mean, var, training, eps).data[i];
    lemma_normalised(y, x.data[i], mu, dev, gamma.data[q], beta.data[q]);
    assert(S::mul_spec(dev, dev) == S::add_spec(v, eps));
}

/// Outside training an element that equals the running mean of its channel becomes beta, and
/// inputs and means that lie as much higher give the same output.
pub proof fn law_batchnorm_evaluates<S: Scalar>(
    x: Value<S>,
    z: Value<S>,
    gamma: Value<S>,
    beta: Value<S>,
    mean: Value<S>,
    moved: Value<S>,
    var: Value<S>,
    eps: S,
    c: S,
    i: int,
)
    requires
        exact::<S>(),
        cancels::<S>(),
        z.dims == x.dims,
        z.data.len() == x.data.len(),
        0 <= i < x.data.len(),
        ({
            let q = channel_groups(x.dims).group_of(i);
            &&& z.data[i] == S::add_spec(x.data[i], c)
            &&& moved.data[q] == S::add_spec(mean.data[q], c)
        }),
    ensures
        ({
            let q = channel_groups(x.dims).group_of(i);
            let y = batchnorm_value(x, gamma, beta, mean, var, false, eps);
            &&& batchnorm_value(z, gamma, beta, moved, var, false, eps).data[i] == y.data[i]
            &&& x.data[i] == mean.data[q] ==> y.data[i] == beta.data[q]
        }),
{
    let q = channel_groups(x.dims).group_of(i);
    let (a, m) = (x.data[i], mean.data[q]);
    crate::autograd::ring::lemma_sub4(a, c, m, c);
    lemma_cancel(c, c);
    lemma_cancel(a, a);
    lemma_add(S::sub_spec(a, m), zero(), zero());
    let inv = inv_std(var.data[q], eps);
    lemma_mul(inv, zero(), zero());
    lemma_mul(gamma.data[q], zero(), zero());
    lemma_add(beta.data[q], zero(), zero());
}

/// How the output of a batch normalisation in training changes when its input changes by `d`.
pub open spec fn batchnorm_change<S: Scalar>(
    x: Value<S>,
    gamma: Value<S>,
    eps: S,
    d: Value<S>,
) -> Value<S> {
    let gr = channel_groups(x.dims);
    let hw = gr.hw as int;
    Value {
        dims: x.dims,
        data: Seq::new(
            x.data.len(),
            |i: int|
                S::mul_spec(
                    gamma.data[gr.group_of(i)],
                    group_change(
                        x.data,
                        gr,
                        gr.group_of(i),
                        eps,
                        d.data,
                        (i / hw / gr.c as int) * hw + i % hw,
                    ),
                ),
        ),
    }
}

/// A sum over all elements, group by group.
proof fn lemma_by_groups<S: Scalar>(gr: Groups, n: nat, f: spec_fn(int) -> S)
    requires
        exact::<S>(),
        gr.covers(n),
    ensures
        total(n, f) == total(gr.c as nat, |q: int| total(gr.len(), |t: int| f(gr.at(q, t)))),
{
    let unit = |q: int| one::<S>();
    lemma_groups(gr, n, f, unit);
    let a = |i: int| S::mul_spec(f(i), unit(gr.group_of(i)));
    assert forall|i: int| 0 <= i < n implies #[trigger] a(i) == f(i) by {
        lemma_mul(f(i), zero(), zero());
    }
    lemma_total_eq(n, a, f);
    let b = |q: int| S::mul_spec(total(gr.len(), |t: int| f(gr.at(q, t))), unit(q));
    let c = |q: int| total(gr.len(), |t: int| f(gr.at(q, t)));
    assert forall|q: int| 0 <= q < gr.c implies #[trigger] b(q) == c(q) by {
        lemma_mul(c(q), zero(), zero());
    }
    lemma_total_eq(gr.c as nat, b, c);
}

/// Where the elements of a group lie.
proof fn lemma_member<S: Scalar>(gr: Groups, n: nat, q: int, t: int)
    requires
        gr.covers(n),
        0 <= q < gr.c,
        0 <= t < gr.len(),
    ensures
        ({
            let i = gr.at(q, t);
            let hw = gr.hw as int;
            &&& 0 <= i < n
            &&& gr.group_of(i) == q
            &&& (i / hw / gr.c as int) * hw + i % hw == t
        }),
{
    let hw = gr.hw as int;
    let c = gr.c as int;
    lemma_group_index(gr, n, q, t);
    lemma_split2(t, gr.n as int, hw);
    lemma_join2((t / hw) * c + q, t % hw, hw);
    lemma_join2(t / hw, q, c);
}

/// The gradient of batch normalisation's input in training, where the statistics change with the
/// input: it weighs against every change of the input what the output's gradient weighs against
/// the change that this makes of the output.
pub proof fn law_batchnorm_training_adjoint<S: Scalar>(
    x: Value<S>,
    gamma: Value<S>,
    beta: Value<S>,
    mean: Value<S>,
    var: Value<S>,
    eps_bits: u32,
    d: Value<S>,
    g: Value<S>,
)
    requires
        exact::<S>(),
        x.wf(),
        g.wf(),
        d.wf(),
        batchnorm_ok(x, gamma, beta, mean, var),
        numel(x.dims) > 0,
        g.dims == x.dims,
        d.dims == x.dims,
        invertible(group_count::<S>(channel_groups(x.dims))),
    ensures
        ({
            let op = OpType::BatchNorm { training: true, eps_bits };
            pairing(
                g.data,
                batchnorm_change(x, gamma, S::from_bits_spec(eps_bits), d).data,
            ) == pairing(rule_value(op, seq![x, gamma, beta, mean, var], g)[0].data, d.data)
        }),
{
    let eps = S::from_bits_spec(eps_bits);
    let gr = channel_groups(x.dims);
    let n = x.data.len();
    lemma_channels(x.dims);
    let op = OpType::BatchNorm { training: true, eps_bits };
    let r = batchnorm_backward_value(x, gamma, beta, mean, var, g, true, eps).0;
    assert(rule_value(op, seq![x, gamma, beta, mean, var], g)[0] == r);
    let y = batchnorm_change(x, gamma, eps, d);
    let left = |i: int| S::mul_spec(g.data[i], y.data[i]);
    let right = |i: int| S::mul_spec(r.data[i], d.data[i]);
    lemma_by_groups(gr, n, left);
    lemma_by_groups(gr, n, right);
    let lr = |q: int| total(gr.len(), |t: int| left(gr.at(q, t)));
    let rr = |q: int| total(gr.len(), |t: int| right(gr.at(q, t)));
    assert forall|q: int| 0 <= q < gr.c implies #[trigger] lr(q) == rr(q) by {
        lemma_batchnorm_channel(x, gamma, mean, var, g, d, eps, q);
        let a = |t: int| left(gr.at(q, t));
        let b = |t: int| right(gr.at(q, t));
        let c = |t: int|
            S::mul_spec(
                gamma.data[q],
                S::mul_spec(
                    g.data[gr.at(q, t)],
                    group_change(x.data, gr, q, eps, d.data, t),
                ),
            );
        let e = |t: int|
            S::mul_spec(
                batchnorm_gx(x, gamma, mean, var, g.data, true, eps, gr.at(q, t)),
                d.data[gr.at(q, t)],
            );
        assert forall|t: int| 0 <= t < gr.len() implies #[trigger] a(t) == c(t) && b(t) == e(t) by {
            lemma_member::<S>(gr, n, q, t);
            lemma_mul3(
                g.data[gr.at(q, t)],
                gamma.data[q],
                group_change(x.data, gr, q, eps, d.data, t),
            );
        }
        assert forall|t: int| 0 <= t < gr.len() implies #[trigger] b(t) == e(t) by {
            assert(a(t) == c(t));
        }
        lemma_total_eq(gr.len(), a, c);
        lemma_total_eq(gr.len(), b, e);
    }
    lemma_total_eq(gr.c as nat, lr, rr);
}

/// One channel of the weights of both sides.
proof fn lemma_batchnorm_channel<S: Scalar>(
    x: Value<S>,
    gamma: Value<S>,
    mean: Value<S>,
    var: Value<S>,
    g: Value<S>,
    d: Value<S>,
    eps: S,
    q: int,
)
    requires
        exact::<S>(),
        channel_groups(x.dims).covers(x.data.len()),
        0 <= q < channel_groups(x.dims).c,
        invertible(group_count::<S>(channel_groups(x.dims))),
    ensures
        ({
            let gr = channel_groups(x.dims);
            total(
                gr.len(),
                |t: int|
                    S::mul_spec(
                        gamma.data[q],
                        S::mul_spec(
                            g.data[gr.at(q, t)],
                            group_change(x.data, gr, q, eps, d.data, t),
                        ),
                    ),
            ) == total(
                gr.len(),
                |t: int|
                    S::mul_spec(
                        batchnorm_gx(x, gamma, mean, var, g.data, true, eps, gr.at(q, t)),
                        d.data[gr.at(q, t)],
                    ),
            )
        }),
{
    let gr = channel_groups(x.dims);
    let len = gr.len();
    let n = x.data.len();
    lemma_statistics(x.data, gr, q);
    lemma_statistics(g.data, gr, q);
    let count = group_count::<S>(gr);
    let f = members(x.data, gr, q);
    let mu = group_mean(x.data, gr, q);
    let v = group_var(x.data, gr, q);
    let dev = deviation(v, eps);
    let inv = inv_std(v, eps);
    let w = gamma.data[q];
    let h = |k: int| normal_at(f(k), mu, dev);
    let u = members(g.data, gr, q);
    let dm = members(d.data, gr, q);
    lemma_normal_adjoint(len, count, inv, h, u, dm);
    let uh = |t: int| S::mul_spec(u(t), h(t));
    let step = dy_hat_step(x.data, g.data, gr, q, mu, inv);
    assert forall|t: int, acc: S| 0 <= t < len implies #[trigger] step(t, acc) == S::add_spec(
        acc,
        uh(t),
    ) by {
        lemma_hat(x.data[gr.at(q, t)], mu, v, eps);
    }
    lemma_fold_total(len, step, uh);
    let a = |t: int| S::mul_spec(u(t), normal_change(len, count, inv, h, dm, t));
    let b = |t: int| S::mul_spec(normal_back(len, count, inv, h, u, t), dm(t));
    lemma_total_mul(len, w, a);
    lemma_total_mul(len, w, b);
    lemma_total_eq(
        len,
        |t: int|
            S::mul_spec(
                w,
                S::mul_spec(g.data[gr.at(q, t)], group_change(x.data, gr, q, eps, d.data, t)),
            ),
        |t: int| S::mul_spec(w, a(t)),
    );
    let wb = |t: int| S::mul_spec(w, b(t));
    let e = |t: int|
        S::mul_spec(
            batchnorm_gx(x, gamma, mean, var, g.data, true, eps, gr.at(q, t)),
            d.data[gr.at(q, t)],
        );
    assert forall|t: int| 0 <= t < len implies #[trigger] wb(t) == e(t) by {
        lemma_member::<S>(gr, n, q, t);
        lemma_hat(x.data[gr.at(q, t)], mu, v, eps);
        lemma_total_eq(len, |k: int| S::mul_spec(u(k), h(k)), uh);
        let y = S::sub_spec(
            S::sub_spec(S::mul_spec(count, u(t)), total(len, u)),
            S::mul_spec(h(t), total(len, uh)),
        );
        let k = S::div_spec(S::mul_spec(w, inv), count);
        let rc = S::div_spec(one(), count);
        let back = normal_back(len, count, inv, h, u, t);
        lemma_derived(S::mul_spec(w, inv), count, zero());
        lemma_derived(S::mul_spec(y, inv), count, zero());
        lemma_mul(w, inv, rc);
        lemma_mul(y, inv, rc);
        let c = S::mul_spec(inv, rc);
        assert(k == S::mul_spec(w, c));
        assert(back == S::mul_spec(y, c));
        lemma_mul(w, c, y);
        lemma_mul(c, y, zero());
        assert(batchnorm_gx(x, gamma, mean, var, g.data, true, eps, gr.at(q, t)) == S::mul_spec(
            k,
            y,
        ));
        lemma_mul(w, back, dm(t));
    }
    lemma_total_eq(len, wb, e);
}

/// A training batch moves the running statistics toward those of the batch: the distance from the
/// mean of the batch, and from its unbiased variance, shrinks to `1 - momentum` of what it was.
pub proof fn law_running_statistics<S: Scalar>(
    x: Value<S>,
    mean: Seq<S>,
    var: Seq<S>,
    momentum: S,
    unbiased: S,
    q: int,
)
    requires
        exact::<S>(),
        cancels::<S>(),
        0 <= q < channel_groups(x.dims).c,
        S::gt_spec(group_count(channel_groups(x.dims)), one()),
        invertible(S::sub_spec(group_count::<S>(channel_groups(x.dims)), one())),
        invertible(group_count::<S>(channel_groups(x.dims))),
        ({
            let gr = channel_groups(x.dims);
            let f = members(x.data, gr, q);
            let mu = mean_of(gr.len(), group_count(gr), f);
            let squares = |t: int| S::mul_spec(S::sub_spec(f(t), mu), S::sub_spec(f(t), mu));
            S::mul_spec(unbiased, S::sub_spec(group_count(gr), one())) == total(gr.len(), squares)
        }),
    ensures
        ({
            let gr = channel_groups(x.dims);
            let mu = mean_of(gr.len(), group_count(gr), members(x.data, gr, q));
            let keep = S::sub_spec(one(), momentum);
            &&& S::sub_spec(next_means(x, mean, momentum)[q], mu) == S::mul_spec(
                keep,
                S::sub_spec(mean[q], mu),
            )
            &&& S::sub_spec(next_vars(x, var, momentum)[q], unbiased) == S::mul_spec(
                keep,
                S::sub_spec(var[q], unbiased),
            )
        }),
{
    let gr = channel_groups(x.dims);
    let f = members(x.data, gr, q);
    let count = group_count::<S>(gr);
    lemma_statistics(x.data, gr, q);
    let mu = mean_of(gr.len(), count, f);
    let squares = |t: int| S::mul_spec(S::sub_spec(f(t), mu), S::sub_spec(f(t), mu));
    let sum = total(gr.len(), squares);
    let v = group_var(x.data, gr, q);
    let less = S::sub_spec(count, one());
    assert(v == S::div_spec(sum, count));
    // v * (count / less) == unbiased
    lemma_inverse(sum, count);
    lemma_inverse(unbiased, less);
    lemma_derived(count, less, zero());
    lemma_derived(sum, less, zero());
    let rl = S::div_spec(one(), less);
    lemma_mul(v, count, rl);
    let b = S::div_spec(count, less);
    assert(S::mul_spec(v, b) == unbiased);
    lemma_mul(momentum, v, b);
    lemma_toward(mean[q], mu, momentum);
    lemma_toward(var[q], unbiased, momentum);
}

/// `((1 - m) * a + m * b) - b == (1 - m) * (a - b)`
proof fn lemma_toward<S: Scalar>(a: S, b: S, m: S)
    requires
        exact::<S>(),
        cancels::<S>(),
    ensures
        S::sub_spec(
            S::add_spec(S::mul_spec(S::sub_spec(one(), m), a), S::mul_spec(m, b)),
            b,
        ) == S::mul_spec(S::sub_spec(one(), m), S::sub_spec(a, b)),
{
    let keep = S::sub_spec(one(), m);
    let ka = S::mul_spec(keep, a);
    let kb = S::mul_spec(keep, b);
    let mb = S::mul_spec(m, b);
    lemma_mul_sub(a, b, keep);
    lemma_mul_sub(one(), m, b);
    lemma_mul(b, one(), zero());
    // kb == b - mb, so b == kb + mb
    lemma_cancel(b, mb);
    assert(S::add_spec(kb, mb) == b);
    lemma_sub4(ka, mb, kb, mb);
    lemma_cancel(mb, mb);
    lemma_add(S::sub_spec(ka, kb), zero(), zero());
}

/// Only training moves the running statistics, and a block that is run again does not move them a
/// second time.
pub proof fn law_statistics_advance<S: Scalar>(
    a: Runtime<S>,
    b: Runtime<S>,
    x: Tensor,
    mean: Tensor,
    var: Tensor,
    training: bool,
    momentum: S,
)
    requires
        stats_step(a, b, x, mean, var, training, momentum),
        mean.is_f32(a.mem),
        var.is_f32(a.mem),
        mean.contiguous_spec(),
        var.contiguous_spec(),
        mean.storage_id != var.storage_id,
        x.shape@.len() == 4,
        mean.shape@ == seq![x.shape@[1]],
        var.shape@ == seq![x.shape@[1]],
    ensures
        !training || a.mode.recomputing ==> b == a,
        training && !a.mode.recomputing && numel(x.shape@) > 0 ==> {
            &&& mean.value(b.mem).data == next_means(
                x.value(a.mem),
                mean.value(a.mem).data,
                momentum,
            )
            &&& var.value(b.mem).data == next_vars(x.value(a.mem), var.value(a.mem).data, momentum)
        },
{
    if training && !a.mode.recomputing && numel(x.shape@) > 0 {
        let means = next_means(x.value(a.mem), mean.value(a.mem).data, momentum);
        let vars = next_vars(x.value(a.mem), var.value(a.mem).data, momentum);
        let m = choose|m: Runtime<S>|
            #[trigger] replaced(a, m, mean, means) && replaced(m, b, var, vars);
        lemma_dims1(x.shape@[1]);
        assert(mean.block(b.mem) == Block::F32(means));
        assert(var.block(b.mem) == Block::F32(vars));
        lemma_shows(b, mean, means);
        lemma_shows(b, var, vars);
    }
}

} // verus!
