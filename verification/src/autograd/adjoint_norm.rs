//! The gradients of the normalisations with respect to what they are linear in.
use vstd::prelude::*;
use crate::autograd::exact::{
    exact, lemma_add, lemma_derived, lemma_distribute, lemma_fold_total, lemma_mul, lemma_scatter,
    lemma_total_add, lemma_total_eq, lemma_total_mul, lemma_total_runs, lemma_total_select,
    lemma_total_swap, pairing, total,
};
use crate::autograd::rules::rule_value;
use crate::cpu::batchnorm::{
    batchnorm_backward_value, batchnorm_ok, batchnorm_value, channel_groups,
    channel_mean, channel_var, dy_hat_step, lemma_channels,
};
use crate::cpu::norm::{
    gb_step, group_mean, group_sum_step, group_var, gw_step, hat, inv_std,
    layernorm_backward_value, layernorm_ok, layernorm_value, lemma_group_index, lemma_group_of,
    lemma_rows, row_groups, stretch_value, zeros_value, Groups,
};
use crate::dense::Value;
use crate::index::{lemma_bounded_fits, lemma_dims1, lemma_offset_of_coord, numel};
use crate::math::lemma_join2;
use crate::op::OpType;
use crate::scalar::{zero, Scalar};

verus! {

/// A sum over rows, taken column by column.
proof fn lemma_columns<S: Scalar>(
    rows: nat,
    len: nat,
    u: spec_fn(int) -> S,
    d: spec_fn(int) -> S,
)
    requires
        exact::<S>(),
    ensures
        total(rows * len, |i: int| S::mul_spec(u(i), d(i % len as int))) == total(
            len,
            |t: int| S::mul_spec(total(rows, |g: int| u(g * len + t)), d(t)),
        ),
{
    let f = |i: int| S::mul_spec(u(i), d(i % len as int));
    lemma_total_runs(rows, len, f);
    let cell = |g: int, t: int| S::mul_spec(u(g * len + t), d(t));
    let by_row = |g: int| total(len, |t: int| f(g * len + t));
    let cells = |g: int| total(len, |t: int| cell(g, t));
    assert forall|g: int| 0 <= g < rows implies #[trigger] by_row(g) == cells(g) by {
        let x = |t: int| f(g * len + t);
        let y = |t: int| cell(g, t);
        assert forall|t: int| 0 <= t < len implies #[trigger] x(t) == y(t) by {
            lemma_join2(g, t, len as int);
        }
        lemma_total_eq(len, x, y);
    }
    lemma_total_eq(rows, by_row, cells);
    lemma_total_swap(rows, len, cell);
    let columns = |t: int| total(rows, |g: int| cell(g, t));
    let want = |t: int| S::mul_spec(total(rows, |g: int| u(g * len + t)), d(t));
    assert forall|t: int| 0 <= t < len implies #[trigger] columns(t) == want(t) by {
        let w = |g: int| u(g * len + t);
        lemma_total_mul(rows, d(t), w);
        let x = |g: int| cell(g, t);
        let y = |g: int| S::mul_spec(d(t), w(g));
        assert forall|g: int| 0 <= g < rows implies #[trigger] x(g) == y(g) by {
            lemma_mul(d(t), w(g), zero());
        }
        lemma_total_eq(rows, x, y);
        lemma_mul(d(t), total(rows, w), zero());
    }
    lemma_total_eq(len, columns, want);
}

/// The gradients of layer normalisation's weight and bias: together they weigh against these what
/// the output's gradient weighs against the output.
pub proof fn law_layernorm_adjoint<S: Scalar>(
    x: Value<S>,
    weight: Value<S>,
    bias: Value<S>,
    eps_bits: u32,
    g: Value<S>,
)
    requires
        exact::<S>(),
        x.wf(),
        weight.wf(),
        bias.wf(),
        g.wf(),
        layernorm_ok(x, weight, bias),
        numel(x.dims) > 0,
        g.dims == x.dims,
    ensures
        ({
            let op = OpType::LayerNorm { eps_bits };
            let grads = rule_value(op, seq![x, weight, bias], g);
            pairing(
                g.data,
                layernorm_value(x, weight, bias, S::from_bits_spec(eps_bits)).data,
            ) == S::add_spec(
                pairing(grads[1].data, weight.data),
                pairing(grads[2].data, bias.data),
            )
        }),
{
    let eps = S::from_bits_spec(eps_bits);
    let gr = row_groups(x.dims);
    let len = x.dims[x.dims.len() - 1] as nat;
    let rows = gr.c as nat;
    let n = x.data.len();
    lemma_rows(x.dims);
    lemma_bounded_fits(x.dims);
    lemma_dims1(x.dims[x.dims.len() - 1]);
    let r = layernorm_backward_value(x, weight, bias, g, eps);
    let go = stretch_value(g, x.dims).data;
    assert forall|i: int| 0 <= i < n implies #[trigger] go[i] == g.data[i] by {
        lemma_offset_of_coord(i as nat, x.dims);
    }
    let y = layernorm_value(x, weight, bias, eps);
    let h = |i: int| hat(
        x.data[i],
        group_mean(x.data, gr, i / len as int),
        inv_std(group_var(x.data, gr, i / len as int), eps),
    );
    let u = |i: int| S::mul_spec(g.data[i], h(i));
    let v = |i: int| g.data[i];
    let w = |t: int| weight.data[t];
    let b = |t: int| bias.data[t];
    let scaled = |i: int| S::mul_spec(u(i), w(i % len as int));
    let shifted = |i: int| S::mul_spec(v(i), b(i % len as int));
    let both = |i: int| S::add_spec(scaled(i), shifted(i));
    let f = |i: int| S::mul_spec(g.data[i], y.data[i]);
    assert forall|i: int| 0 <= i < n implies #[trigger] f(i) == both(i) by {
        lemma_distribute(g.data[i], S::mul_spec(h(i), w(i % len as int)), b(i % len as int));
        lemma_mul(g.data[i], h(i), w(i % len as int));
    }
    lemma_total_eq(n, f, both);
    lemma_total_add(n, scaled, shifted);
    lemma_columns(rows, len, u, w);
    lemma_columns(rows, len, v, b);
    let left = |t: int| S::mul_spec(total(rows, |q: int| u(q * len + t)), w(t));
    let right = |t: int| S::mul_spec(total(rows, |q: int| v(q * len + t)), b(t));
    let gw = |t: int| S::mul_spec(r.1.data[t], weight.data[t]);
    let gb = |t: int| S::mul_spec(r.2.data[t], bias.data[t]);
    assert forall|t: int| 0 <= t < len implies #[trigger] left(t) == gw(t) by {
        let p = |q: int| u(q * len + t);
        let step = gw_step(x.data, go, gr, eps, t);
        assert forall|q: int, acc: S| 0 <= q < rows implies #[trigger] step(q, acc) == S::add_spec(
            acc,
            p(q),
        ) by {
            lemma_join2(q, t, len as int);
            assert(gr.at(q, t) == q * len + t);
            lemma_group_index(gr, n, q, t);
            assert(go[q * len + t] == g.data[q * len + t]);
        }
        lemma_fold_total(rows, step, p);
    }
    assert forall|t: int| 0 <= t < len implies #[trigger] right(t) == gb(t) by {
        let p = |q: int| v(q * len + t);
        let step = gb_step(go, gr, t);
        assert forall|q: int, acc: S| 0 <= q < rows implies #[trigger] step(q, acc) == S::add_spec(
            acc,
            p(q),
        ) by {
            assert(gr.at(q, t) == q * len + t);
            lemma_group_index(gr, n, q, t);
            assert(go[q * len + t] == g.data[q * len + t]);
        }
        lemma_fold_total(rows, step, p);
    }
    lemma_total_eq(len, left, gw);
    lemma_total_eq(len, right, gb);
}

/// A sum over all elements, taken group by group.
pub(crate) proof fn lemma_groups<S: Scalar>(
    gr: Groups,
    n: nat,
    u: spec_fn(int) -> S,
    d: spec_fn(int) -> S,
)
    requires
        exact::<S>(),
        gr.covers(n),
    ensures
        total(n, |i: int| S::mul_spec(u(i), d(gr.group_of(i)))) == total(
            gr.c as nat,
            |g: int| S::mul_spec(total(gr.len(), |t: int| u(gr.at(g, t))), d(g)),
        ),
{
    let land = |i: int| gr.group_of(i);
    assert forall|i: int| 0 <= i < n implies 0 <= #[trigger] land(i) < gr.c as nat by {
        lemma_group_of(gr, n, i);
    }
    lemma_scatter(n, gr.c as nat, land, u, d);
    let there = |j: int|
        S::mul_spec(
            total(
                n,
                |i: int|
                    if land(i) == j {
                        u(i)
                    } else {
                        zero()
                    },
            ),
            d(j),
        );
    let want = |g: int| S::mul_spec(total(gr.len(), |t: int| u(gr.at(g, t))), d(g));
    let hw = gr.hw as int;
    let c = gr.c as int;
    let entry = |i: int| (i / hw / c) * hw + i % hw;
    assert forall|g: int| 0 <= g < gr.c implies #[trigger] there(g) == want(g) by {
        let index = |t: int| gr.at(g, t);
        let selected = |i: int| land(i) == g;
        assert forall|t: int| 0 <= t < gr.len() implies 0 <= #[trigger] index(t) < n && selected(
            index(t),
        ) && entry(index(t)) == t by {
            lemma_group_index(gr, n, g, t);
            let q = (t / hw) * c + g;
            crate::math::lemma_split2(t, gr.n as int, hw);
            lemma_join2(q, t % hw, hw);
            lemma_join2(t / hw, g, c);
        }
        assert forall|i: int| 0 <= i < n && #[trigger] selected(i) implies 0 <= entry(i)
            < gr.len() && index(entry(i)) == i by {
            lemma_group_of(gr, n, i);
        }
        lemma_total_select(n, gr.len(), index, entry, selected, u);
        lemma_total_eq(
            n,
            |i: int|
                if selected(i) {
                    u(i)
                } else {
                    zero()
                },
            |i: int|
                if land(i) == g {
                    u(i)
                } else {
                    zero()
                },
        );
        lemma_total_eq(gr.len(), |t: int| u(index(t)), |t: int| u(gr.at(g, t)));
    }
    lemma_total_eq(gr.c as nat, there, want);
    lemma_total_eq(
        n,
        |i: int| S::mul_spec(u(i), d(land(i))),
        |i: int| S::mul_spec(u(i), d(gr.group_of(i))),
    );
}

/// The gradients of batch normalisation's gamma and beta, in training or not: together they weigh
/// against these what the output's gradient weighs against the output.
pub proof fn law_batchnorm_adjoint<S: Scalar>(
    x: Value<S>,
    gamma: Value<S>,
    beta: Value<S>,
    mean: Value<S>,
    var: Value<S>,
    training: bool,
    eps_bits: u32,
    g: Value<S>,
)
    requires
        exact::<S>(),
        x.wf(),
        gamma.wf(),
        beta.wf(),
        g.wf(),
        batchnorm_ok(x, gamma, beta, mean, var),
        numel(x.dims) > 0,
        g.dims == x.dims,
    ensures
        ({
            let op = OpType::BatchNorm { training, eps_bits };
            let grads = rule_value(op, seq![x, gamma, beta, mean, var], g);
            let eps = S::from_bits_spec(eps_bits);
            pairing(
                g.data,
                batchnorm_value(x, gamma, beta, mean, var, training, eps).data,
            ) == S::add_spec(
                pairing(grads[1].data, gamma.data),
                pairing(grads[2].data, beta.data),
            )
        }),
{
    let eps = S::from_bits_spec(eps_bits);
    let gr = channel_groups(x.dims);
    let n = x.data.len();
    let c = gr.c as nat;
    lemma_channels(x.dims);
    lemma_dims1(x.dims[1]);
    let r = batchnorm_backward_value(x, gamma, beta, mean, var, g, training, eps);
    let y = batchnorm_value(x, gamma, beta, mean, var, training, eps);
    let mu = |q: int| channel_mean(x, mean, training, q);
    let inv = |q: int| inv_std(channel_var(x, var, training, q), eps);
    let h = |i: int| hat(x.data[i], mu(gr.group_of(i)), inv(gr.group_of(i)));
    let u = |i: int| S::mul_spec(g.data[i], h(i));
    let v = |i: int| g.data[i];
    let w = |q: int| gamma.data[q];
    let b = |q: int| beta.data[q];
    let scaled = |i: int| S::mul_spec(u(i), w(gr.group_of(i)));
    let shifted = |i: int| S::mul_spec(v(i), b(gr.group_of(i)));
    let both = |i: int| S::add_spec(scaled(i), shifted(i));
    let f = |i: int| S::mul_spec(g.data[i], y.data[i]);
    assert forall|i: int| 0 <= i < n implies #[trigger] f(i) == both(i) by {
        let q = gr.group_of(i);
        lemma_distribute(g.data[i], S::mul_spec(h(i), w(q)), b(q));
        lemma_mul(g.data[i], h(i), w(q));
    }
    lemma_total_eq(n, f, both);
    lemma_total_add(n, scaled, shifted);
    lemma_groups(gr, n, u, w);
    lemma_groups(gr, n, v, b);
    let left = |q: int| S::mul_spec(total(gr.len(), |t: int| u(gr.at(q, t))), w(q));
    let right = |q: int| S::mul_spec(total(gr.len(), |t: int| v(gr.at(q, t))), b(q));
    let gw = |q: int| S::mul_spec(r.1.data[q], gamma.data[q]);
    let gb = |q: int| S::mul_spec(r.2.data[q], beta.data[q]);
    assert forall|q: int| 0 <= q < c implies #[trigger] left(q) == gw(q) by {
        let p = |t: int| u(gr.at(q, t));
        let step = dy_hat_step(x.data, g.data, gr, q, mu(q), inv(q));
        assert forall|t: int, acc: S| 0 <= t < gr.len() implies #[trigger] step(t, acc)
            == S::add_spec(acc, p(t)) by {
            lemma_group_index(gr, n, q, t);
            crate::math::lemma_split2(t, gr.n as int, gr.hw as int);
            lemma_join2((t / gr.hw as int) * gr.c + q, t % gr.hw as int, gr.hw as int);
            lemma_join2(t / gr.hw as int, q, gr.c as int);
            assert(gr.group_of(gr.at(q, t)) == q);
        }
        lemma_fold_total(gr.len(), step, p);
    }
    assert forall|q: int| 0 <= q < c implies #[trigger] right(q) == gb(q) by {
        let p = |t: int| v(gr.at(q, t));
        lemma_fold_total(gr.len(), group_sum_step(g.data, gr, q), p);
    }
    lemma_total_eq(c, left, gw);
    lemma_total_eq(c, right, gb);
}

/// The gradient of batch normalisation's input outside training, where the statistics are fixed:
/// it weighs against a change of the input what the output's gradient weighs against the change
/// that this makes of the output, which is the change normalised without a shift.
pub proof fn law_batchnorm_input_adjoint<S: Scalar>(
    x: Value<S>,
    gamma: Value<S>,
    beta: Value<S>,
    mean: Value<S>,
    var: Value<S>,
    eps_bits: u32,
    d: Value<S>,
    g: Value<S>,
)
    requires
        exact::<S>(),
        x.wf(),
        g.wf(),
        d.wf(),
        batchnorm_ok(x, gamma, beta, mean, var),
        numel(x.dims) > 0,
        g.dims == x.dims,
        d.dims == x.dims,
    ensures
        ({
            let op = OpType::BatchNorm { training: false, eps_bits };
            let grads = rule_value(op, seq![x, gamma, beta, mean, var], g);
            let eps = S::from_bits_spec(eps_bits);
            let still = zeros_value::<S>(seq![x.dims[1]]);
            pairing(
                g.data,
                batchnorm_value(d, gamma, still, still, var, false, eps).data,
            ) == pairing(grads[0].data, d.data)
        }),
{
    let eps = S::from_bits_spec(eps_bits);
    let gr = channel_groups(x.dims);
    let n = x.data.len();
    let still = zeros_value::<S>(seq![x.dims[1]]);
    lemma_channels(x.dims);
    lemma_dims1(x.dims[1]);
    let y = batchnorm_value(d, gamma, still, still, var, false, eps);
    let r = batchnorm_backward_value(x, gamma, beta, mean, var, g, false, eps);
    let f = |i: int| S::mul_spec(g.data[i], y.data[i]);
    let h = |i: int| S::mul_spec(r.0.data[i], d.data[i]);
    assert forall|i: int| 0 <= i < n implies #[trigger] f(i) == h(i) by {
        lemma_group_of(gr, n, i);
        let q = gr.group_of(i);
        let inv = inv_std(channel_var(d, var, false, q), eps);
        let (a, b, c) = (g.data[i], gamma.data[q], d.data[i]);
        let neg = S::constant_spec(crate::scalar::Constant::NegOne);
        lemma_derived(c, zero(), zero());
        lemma_mul(neg, zero(), zero());
        lemma_add(c, zero(), zero());
        assert(hat(c, zero(), inv) == S::mul_spec(c, inv));
        let z = S::mul_spec(S::mul_spec(c, inv), b);
        lemma_add(z, zero(), zero());
        assert(y.data[i] == z);
        assert(r.0.data[i] == S::mul_spec(S::mul_spec(a, b), inv));
        lemma_mul(c, inv, b);
        lemma_mul(inv, b, zero());
        lemma_mul(c, S::mul_spec(b, inv), zero());
        lemma_mul(a, S::mul_spec(b, inv), c);
        lemma_mul(a, b, inv);
    }
    lemma_total_eq(n, f, h);
}

} // verus!
