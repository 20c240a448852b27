//! Attention, and the gradients of its queries and keys, in exact arithmetic.
use vstd::prelude::*;
use crate::autograd::adjoint_attention::lemma_blocks;
use crate::autograd::exact::{
    exact, lemma_add, lemma_derived, lemma_distribute, lemma_fold_total, lemma_mul,
    lemma_total_add, lemma_total_eq, lemma_total_mul, lemma_total_swap, pairing, total,
};
use crate::autograd::logistic::{exponential, lemma_shifted, lemma_softmax_line};
use crate::autograd::ring::{cancels, invertible, lemma_inverse, lemma_mul3, lemma_total_times};
use crate::cpu::attention::{
    attention_of, attention_ok, attention_value, dot, dot_step, head_of, head_scale, mix_step,
    Attention, Heads,
};
use crate::cpu::attention_backward::attention_backward_value;
use crate::cpu::batchnorm::lemma_numel4;
use crate::dense::Value;
use crate::index::{offset, row_major};
use crate::math::{lemma_index2, lemma_join2};
use crate::scalar::{one, zero, Constant, Scalar};

verus! {

/// `sum_x a(x) * (sum_y f(x, y) * b(y)) == sum_y (sum_x a(x) * f(x, y)) * b(y)`
proof fn lemma_bilinear<S: Scalar>(
    n: nat,
    m: nat,
    a: spec_fn(int) -> S,
    f: spec_fn(int, int) -> S,
    b: spec_fn(int) -> S,
)
    requires
        exact::<S>(),
    ensures
        total(n, |x: int| S::mul_spec(a(x), total(m, |y: int| S::mul_spec(f(x, y), b(y)))))
            == total(m, |y: int| S::mul_spec(total(n, |x: int| S::mul_spec(a(x), f(x, y))), b(y))),
{
    let cell = |x: int, y: int| S::mul_spec(S::mul_spec(a(x), f(x, y)), b(y));
    let left = |x: int| S::mul_spec(a(x), total(m, |y: int| S::mul_spec(f(x, y), b(y))));
    let rows = |x: int| total(m, |y: int| cell(x, y));
    assert forall|x: int| 0 <= x < n implies #[trigger] left(x) == rows(x) by {
        let g = |y: int| S::mul_spec(f(x, y), b(y));
        lemma_total_mul(m, a(x), g);
        let p = |y: int| S::mul_spec(a(x), g(y));
        let q = |y: int| cell(x, y);
        assert forall|y: int| 0 <= y < m implies #[trigger] p(y) == q(y) by {
            lemma_mul(a(x), f(x, y), b(y));
        }
        lemma_total_eq(m, p, q);
    }
    lemma_total_eq(n, left, rows);
    lemma_total_swap(n, m, cell);
    let right = |y: int| S::mul_spec(total(n, |x: int| S::mul_spec(a(x), f(x, y))), b(y));
    let columns = |y: int| total(n, |x: int| cell(x, y));
    assert forall|y: int| 0 <= y < m implies #[trigger] right(y) == columns(y) by {
        let g = |x: int| S::mul_spec(a(x), f(x, y));
        lemma_total_times(n, g, b(y));
        lemma_total_eq(n, |x: int| S::mul_spec(g(x), b(y)), |x: int| cell(x, y));
    }
    lemma_total_eq(m, right, columns);
}

/// A dot product is a sum of products.
proof fn lemma_dot<S: Scalar>(x: Seq<S>, y: Seq<S>, hd: Heads, g: int, i: int, j: int)
    requires
        exact::<S>(),
    ensures
        dot(x, y, hd, g, i, j) == total(
            hd.d as nat,
            |e: int| S::mul_spec(x[hd.at(g, i, e)], y[hd.at(g, j, e)]),
        ),
{
    let f = |e: int| S::mul_spec(x[hd.at(g, i, e)], y[hd.at(g, j, e)]);
    let step = dot_step(x, y, hd, g, i, j);
    assert forall|e: int, acc: S| 0 <= e < hd.d implies #[trigger] step(e, acc) == S::add_spec(
        acc,
        f(e),
    ) by {
        lemma_derived(x[hd.at(g, i, e)], y[hd.at(g, j, e)], acc);
        lemma_add(acc, f(e), zero());
    }
    lemma_fold_total(hd.d as nat, step, f);
}

/// How the score of key `j` for query `i` changes when queries and keys change.
pub open spec fn score_change<S: Scalar>(
    a: Attention<S>,
    dq: Seq<S>,
    dk: Seq<S>,
    g: int,
    i: int,
    j: int,
) -> S {
    let hd = a.hd;
    S::mul_spec(
        S::add_spec(
            total(hd.d as nat, |e: int| S::mul_spec(a.k[hd.at(g, j, e)], dq[hd.at(g, i, e)])),
            total(hd.d as nat, |e: int| S::mul_spec(a.q[hd.at(g, i, e)], dk[hd.at(g, j, e)])),
        ),
        head_scale(hd),
    )
}

/// How the weight of key `j` changes: by itself times the change of its score, less the mean of
/// the changes of the scores under the weights.
pub open spec fn weight_change<S: Scalar>(
    a: Attention<S>,
    dq: Seq<S>,
    dk: Seq<S>,
    g: int,
    i: int,
    j: int,
) -> S {
    let mean = total(
        a.hd.s as nat,
        |l: int| S::mul_spec(a.prob(g, i, l), score_change(a, dq, dk, g, i, l)),
    );
    S::mul_spec(a.prob(g, i, j), S::sub_spec(score_change(a, dq, dk, g, i, j), mean))
}

/// How entry `e` of the output of query `i` changes.
pub open spec fn output_change<S: Scalar>(
    a: Attention<S>,
    dq: Seq<S>,
    dk: Seq<S>,
    g: int,
    i: int,
    e: int,
) -> S {
    total(
        a.hd.s as nat,
        |j: int| S::mul_spec(a.v[a.hd.at(g, j, e)], weight_change(a, dq, dk, g, i, j)),
    )
}

/// How the output of an attention changes when its queries and keys change.
pub open spec fn attention_change<S: Scalar>(
    q: Value<S>,
    k: Value<S>,
    v: Value<S>,
    mask: Option<Value<S>>,
    dq: Value<S>,
    dk: Value<S>,
) -> Value<S> {
    let a = attention_of(q, k, v, mask);
    Value {
        dims: q.dims,
        data: Seq::new(
            q.data.len(),
            |t: int|
                {
                    let (g, i, e) = head_of(a.hd, t);
                    output_change(a, dq.data, dk.data, g, i, e)
                },
        ),
    }
}

/// The gradient of a score, scaled.
spec fn scaled_ds<S: Scalar>(a: Attention<S>, go: Seq<S>, g: int, i: int, j: int) -> S {
    S::mul_spec(a.ds(go, g, i, j), head_scale(a.hd))
}

/// One query: the weight of the output's gradient against the change of the output is that of
/// the scores' gradients against the changes of the scores.
proof fn lemma_query<S: Scalar>(
    a: Attention<S>,
    go: Seq<S>,
    dq: Seq<S>,
    dk: Seq<S>,
    g: int,
    i: int,
)
    requires
        exact::<S>(),
    ensures
        ({
            let hd = a.hd;
            let (s, d) = (hd.s as nat, hd.d as nat);
            let along = |j: int|
                total(d, |e: int| S::mul_spec(a.k[hd.at(g, j, e)], dq[hd.at(g, i, e)]));
            let across = |j: int|
                total(d, |e: int| S::mul_spec(a.q[hd.at(g, i, e)], dk[hd.at(g, j, e)]));
            total(
                d,
                |e: int| S::mul_spec(go[hd.at(g, i, e)], output_change(a, dq, dk, g, i, e)),
            ) == S::add_spec(
                total(s, |j: int| S::mul_spec(scaled_ds(a, go, g, i, j), along(j))),
                total(s, |j: int| S::mul_spec(scaled_ds(a, go, g, i, j), across(j))),
            )
        }),
{
    let hd = a.hd;
    let (s, d) = (hd.s as nat, hd.d as nat);
    let along = |j: int|
        total(d, |e: int| S::mul_spec(a.k[hd.at(g, j, e)], dq[hd.at(g, i, e)]));
    let across = |j: int|
        total(d, |e: int| S::mul_spec(a.q[hd.at(g, i, e)], dk[hd.at(g, j, e)]));
    let fg = |e: int| go[hd.at(g, i, e)];
    let fv = |e: int, j: int| a.v[hd.at(g, j, e)];
    let wc = |j: int| weight_change(a, dq, dk, g, i, j);
    lemma_bilinear(d, s, fg, fv, wc);
    let oc = |e: int| S::mul_spec(go[hd.at(g, i, e)], output_change(a, dq, dk, g, i, e));
    let od = |e: int| S::mul_spec(fg(e), total(s, |j: int| S::mul_spec(fv(e, j), wc(j))));
    assert forall|e: int| 0 <= e < d implies #[trigger] oc(e) == od(e) by {
        lemma_total_eq(
            s,
            |j: int| S::mul_spec(a.v[hd.at(g, j, e)], weight_change(a, dq, dk, g, i, j)),
            |j: int| S::mul_spec(fv(e, j), wc(j)),
        );
    }
    lemma_total_eq(d, oc, od);
    // sums over the entries are the gradients of the weights
    let dp = |j: int| a.dp(go, g, i, j);
    let p = |j: int| a.prob(g, i, j);
    let sc = |j: int| score_change(a, dq, dk, g, i, j);
    let x = |j: int| S::mul_spec(total(d, |e: int| S::mul_spec(fg(e), fv(e, j))), wc(j));
    let ps = total(s, |l: int| S::mul_spec(p(l), sc(l)));
    let y = |j: int| S::mul_spec(dp(j), S::mul_spec(p(j), S::sub_spec(sc(j), ps)));
    assert forall|j: int| 0 <= j < s implies #[trigger] x(j) == y(j) by {
        lemma_dot(go, a.v, hd, g, i, j);
        lemma_total_eq(
            d,
            |e: int| S::mul_spec(fg(e), fv(e, j)),
            |e: int| S::mul_spec(go[hd.at(g, i, e)], a.v[hd.at(g, j, e)]),
        );
        lemma_total_eq(
            s,
            |l: int| S::mul_spec(a.prob(g, i, l), score_change(a, dq, dk, g, i, l)),
            |l: int| S::mul_spec(p(l), sc(l)),
        );
    }
    lemma_total_eq(s, x, y);
    lemma_softmax_line(s, p, dp, sc);
    // the sum of the gradients under the weights
    let gp = |l: int| S::mul_spec(dp(l), p(l));
    let step = a.dp_sum_step(go, g, i);
    assert forall|l: int, acc: S| 0 <= l < s implies #[trigger] step(l, acc) == S::add_spec(
        acc,
        gp(l),
    ) by {
        lemma_derived(dp(l), p(l), acc);
        lemma_add(acc, gp(l), zero());
    }
    lemma_fold_total(s, step, gp);
    let tgp = total(s, |l: int| S::mul_spec(dp(l), p(l)));
    lemma_total_eq(s, |l: int| S::mul_spec(dp(l), p(l)), gp);
    let z = |j: int| S::mul_spec(S::mul_spec(p(j), S::sub_spec(dp(j), tgp)), sc(j));
    let fa = |j: int| S::mul_spec(scaled_ds(a, go, g, i, j), along(j));
    let fb = |j: int| S::mul_spec(scaled_ds(a, go, g, i, j), across(j));
    let both = |j: int| S::add_spec(fa(j), fb(j));
    assert forall|j: int| 0 <= j < s implies #[trigger] z(j) == both(j) by {
        let ds = a.ds(go, g, i, j);
        let scale = head_scale::<S>(hd);
        assert(S::mul_spec(p(j), S::sub_spec(dp(j), tgp)) == ds);
        let sum = S::add_spec(along(j), across(j));
        assert(sc(j) == S::mul_spec(sum, scale));
        lemma_mul(ds, sum, scale);
        lemma_mul3(ds, sum, scale);
        lemma_distribute(S::mul_spec(ds, scale), along(j), across(j));
    }
    lemma_total_eq(s, z, both);
    lemma_total_add(s, fa, fb);
}

/// One head of the weights of both sides.
#[verifier::rlimit(30)]
proof fn lemma_head<S: Scalar>(
    a: Attention<S>,
    go: Seq<S>,
    dq: Seq<S>,
    dk: Seq<S>,
    g: int,
)
    requires
        exact::<S>(),
    ensures
        ({
            let hd = a.hd;
            let (s, d) = (hd.s as nat, hd.d as nat);
            total(
                s,
                |i: int|
                    total(
                        d,
                        |e: int|
                            S::mul_spec(go[hd.at(g, i, e)], output_change(a, dq, dk, g, i, e)),
                    ),
            ) == S::add_spec(
                total(
                    s,
                    |i: int|
                        total(d, |e: int| S::mul_spec(a.dq(go, g, i, e), dq[hd.at(g, i, e)])),
                ),
                total(
                    s,
                    |i: int|
                        total(d, |e: int| S::mul_spec(a.dk(go, g, i, e), dk[hd.at(g, i, e)])),
                ),
            )
        }),
{
    let hd = a.hd;
    let (s, d) = (hd.s as nat, hd.d as nat);
    let ds = |i: int, j: int| scaled_ds(a, go, g, i, j);
    let along = |i: int, j: int|
        total(d, |e: int| S::mul_spec(a.k[hd.at(g, j, e)], dq[hd.at(g, i, e)]));
    let across = |i: int, j: int|
        total(d, |e: int| S::mul_spec(a.q[hd.at(g, i, e)], dk[hd.at(g, j, e)]));
    let left = |i: int|
        total(d, |e: int| S::mul_spec(go[hd.at(g, i, e)], output_change(a, dq, dk, g, i, e)));
    let fa = |i: int| total(s, |j: int| S::mul_spec(ds(i, j), along(i, j)));
    let fb = |i: int| total(s, |j: int| S::mul_spec(ds(i, j), across(i, j)));
    let both = |i: int| S::add_spec(fa(i), fb(i));
    assert forall|i: int| 0 <= i < s implies #[trigger] left(i) == both(i) by {
        lemma_query(a, go, dq, dk, g, i);
        let x = |j: int|
            total(d, |e: int| S::mul_spec(a.k[hd.at(g, j, e)], dq[hd.at(g, i, e)]));
        let y = |j: int|
            total(d, |e: int| S::mul_spec(a.q[hd.at(g, i, e)], dk[hd.at(g, j, e)]));
        lemma_total_eq(
            s,
            |j: int| S::mul_spec(scaled_ds(a, go, g, i, j), x(j)),
            |j: int| S::mul_spec(ds(i, j), along(i, j)),
        );
        lemma_total_eq(
            s,
            |j: int| S::mul_spec(scaled_ds(a, go, g, i, j), y(j)),
            |j: int| S::mul_spec(ds(i, j), across(i, j)),
        );
    }
    lemma_total_eq(s, left, both);
    lemma_total_add(s, fa, fb);
    // queries
    let gq = |i: int| total(d, |e: int| S::mul_spec(a.dq(go, g, i, e), dq[hd.at(g, i, e)]));
    assert forall|i: int| 0 <= i < s implies #[trigger] fa(i) == gq(i) by {
        lemma_query_side(a, go, dq, g, i);
        lemma_total_eq(
            s,
            |j: int| S::mul_spec(ds(i, j), along(i, j)),
            |j: int|
                S::mul_spec(
                    scaled_ds(a, go, g, i, j),
                    total(d, |e: int| S::mul_spec(a.k[hd.at(g, j, e)], dq[hd.at(g, i, e)])),
                ),
        );
    }
    lemma_total_eq(s, fa, gq);
    // keys
    let cell = |i: int, j: int| S::mul_spec(ds(i, j), across(i, j));
    lemma_total_swap(s, s, cell);
    let rows = |i: int| total(s, |j: int| cell(i, j));
    let columns = |j: int| total(s, |i: int| cell(i, j));
    assert forall|i: int| 0 <= i < s implies #[trigger] fb(i) == rows(i) by {
        lemma_total_eq(
            s,
            |j: int| S::mul_spec(ds(i, j), across(i, j)),
            |j: int| cell(i, j),
        );
    }
    lemma_total_eq(s, fb, rows);
    let gk = |j: int| total(d, |e: int| S::mul_spec(a.dk(go, g, j, e), dk[hd.at(g, j, e)]));
    assert forall|j: int| 0 <= j < s implies #[trigger] columns(j) == gk(j) by {
        lemma_key_side(a, go, dk, g, j);
        lemma_total_eq(
            s,
            |i: int| cell(i, j),
            |i: int|
                S::mul_spec(
                    scaled_ds(a, go, g, i, j),
                    total(d, |e: int| S::mul_spec(a.q[hd.at(g, i, e)], dk[hd.at(g, j, e)])),
                ),
        );
    }
    lemma_total_eq(s, columns, gk);
}

proof fn lemma_query_side<S: Scalar>(a: Attention<S>, go: Seq<S>, dq: Seq<S>, g: int, i: int)
    requires
        exact::<S>(),
    ensures
        ({
            let hd = a.hd;
            let (s, d) = (hd.s as nat, hd.d as nat);
            total(
                s,
                |j: int|
                    S::mul_spec(
                        scaled_ds(a, go, g, i, j),
                        total(d, |e: int| S::mul_spec(a.k[hd.at(g, j, e)], dq[hd.at(g, i, e)])),
                    ),
            ) == total(d, |e: int| S::mul_spec(a.dq(go, g, i, e), dq[hd.at(g, i, e)]))
        }),
{
    let hd = a.hd;
    let (s, d) = (hd.s as nat, hd.d as nat);
    let f = |j: int| scaled_ds(a, go, g, i, j);
    let k = |j: int, e: int| a.k[hd.at(g, j, e)];
    let b = |e: int| dq[hd.at(g, i, e)];
    lemma_bilinear(s, d, f, k, b);
    let x = |e: int| S::mul_spec(total(s, |j: int| S::mul_spec(f(j), k(j, e))), b(e));
    let y = |e: int| S::mul_spec(a.dq(go, g, i, e), dq[hd.at(g, i, e)]);
    let scale = head_scale::<S>(hd);
    assert forall|e: int| 0 <= e < d implies #[trigger] x(e) == y(e) by {
        let row = a.ds_row(go, g, i);
        let h = |j: int| S::mul_spec(row[j], k(j, e));
        let step = mix_step(row, a.k, hd, g, e);
        assert forall|j: int, acc: S| 0 <= j < s implies #[trigger] step(j, acc) == S::add_spec(
            acc,
            h(j),
        ) by {
            lemma_derived(row[j], k(j, e), acc);
            lemma_add(acc, h(j), zero());
        }
        lemma_fold_total(s, step, h);
        lemma_total_times(s, h, scale);
        let p = |j: int| S::mul_spec(f(j), k(j, e));
        let q = |j: int| S::mul_spec(h(j), scale);
        assert forall|j: int| 0 <= j < s implies #[trigger] p(j) == q(j) by {
            lemma_mul3(a.ds(go, g, i, j), scale, k(j, e));
        }
        lemma_total_eq(s, p, q);
    }
    lemma_total_eq(d, x, y);
    let u = |j: int| S::mul_spec(f(j), total(d, |e: int| S::mul_spec(k(j, e), b(e))));
    let w = |j: int|
        S::mul_spec(
            scaled_ds(a, go, g, i, j),
            total(d, |e: int| S::mul_spec(a.k[hd.at(g, j, e)], dq[hd.at(g, i, e)])),
        );
    assert forall|j: int| 0 <= j < s implies #[trigger] u(j) == w(j) by {
        lemma_total_eq(
            d,
            |e: int| S::mul_spec(k(j, e), b(e)),
            |e: int| S::mul_spec(a.k[hd.at(g, j, e)], dq[hd.at(g, i, e)]),
        );
    }
    lemma_total_eq(s, u, w);
}

proof fn lemma_key_side<S: Scalar>(a: Attention<S>, go: Seq<S>, dk: Seq<S>, g: int, j: int)
    requires
        exact::<S>(),
    ensures
        ({
            let hd = a.hd;
            let (s, d) = (hd.s as nat, hd.d as nat);
            total(
                s,
                |i: int|
                    S::mul_spec(
                        scaled_ds(a, go, g, i, j),
                        total(d, |e: int| S::mul_spec(a.q[hd.at(g, i, e)], dk[hd.at(g, j, e)])),
                    ),
            ) == total(d, |e: int| S::mul_spec(a.dk(go, g, j, e), dk[hd.at(g, j, e)]))
        }),
{
    let hd = a.hd;
    let (s, d) = (hd.s as nat, hd.d as nat);
    let f = |i: int| scaled_ds(a, go, g, i, j);
    let q = |i: int, e: int| a.q[hd.at(g, i, e)];
    let b = |e: int| dk[hd.at(g, j, e)];
    lemma_bilinear(s, d, f, q, b);
    let x = |e: int| S::mul_spec(total(s, |i: int| S::mul_spec(f(i), q(i, e))), b(e));
    let y = |e: int| S::mul_spec(a.dk(go, g, j, e), dk[hd.at(g, j, e)]);
    assert forall|e: int| 0 <= e < d implies #[trigger] x(e) == y(e) by {
        let h = |i: int| S::mul_spec(f(i), q(i, e));
        let step = a.dk_step(go, g, j, e);
        assert forall|i: int, acc: S| 0 <= i < s implies #[trigger] step(i, acc) == S::add_spec(
            acc,
            h(i),
        ) by {
            lemma_derived(f(i), q(i, e), acc);
            lemma_add(acc, h(i), zero());
        }
        lemma_fold_total(s, step, h);
    }
    lemma_total_eq(d, x, y);
    let u = |i: int| S::mul_spec(f(i), total(d, |e: int| S::mul_spec(q(i, e), b(e))));
    let w = |i: int|
        S::mul_spec(
            scaled_ds(a, go, g, i, j),
            total(d, |e: int| S::mul_spec(a.q[hd.at(g, i, e)], dk[hd.at(g, j, e)])),
        );
    assert forall|i: int| 0 <= i < s implies #[trigger] u(i) == w(i) by {
        lemma_total_eq(
            d,
            |e: int| S::mul_spec(q(i, e), b(e)),
            |e: int| S::mul_spec(a.q[hd.at(g, i, e)], dk[hd.at(g, j, e)]),
        );
    }
    lemma_total_eq(s, u, w);
}

/// The gradients of an attention's queries and keys: together they weigh against the changes of
/// these what the output's gradient weighs against the change that they make of the output.
pub proof fn law_attention_scores_adjoint<S: Scalar>(
    q: Value<S>,
    k: Value<S>,
    v: Value<S>,
    mask: Option<Value<S>>,
    dq: Value<S>,
    dk: Value<S>,
    g: Value<S>,
)
    requires
        exact::<S>(),
        q.wf(),
        k.wf(),
        g.wf(),
        dq.wf(),
        dk.wf(),
        attention_ok(q, k, v, mask),
        g.dims == q.dims,
        dq.dims == q.dims,
        dk.dims == q.dims,
    ensures
        ({
            let r = attention_backward_value(q, k, v, mask, g);
            pairing(g.data, attention_change(q, k, v, mask, dq, dk).data) == S::add_spec(
                pairing(r.0.data, dq.data),
                pairing(r.1.data, dk.data),
            )
        }),
{
    let a = attention_of(q, k, v, mask);
    let hd = a.hd;
    let heads = (hd.b * hd.h) as nat;
    let (s, d) = (hd.s as nat, hd.d as nat);
    let go = g.data;
    lemma_numel4(q.dims);
    assert(q.data.len() == (heads * s) * d);
    let y = attention_change(q, k, v, mask, dq, dk);
    let r = attention_backward_value(q, k, v, mask, g);
    let f = |t: int| S::mul_spec(go[t], y.data[t]);
    let hq = |t: int| S::mul_spec(r.0.data[t], dq.data[t]);
    let hk = |t: int| S::mul_spec(r.1.data[t], dk.data[t]);
    lemma_blocks(heads, s, d, f);
    lemma_blocks(heads, s, d, hq);
    lemma_blocks(heads, s, d, hk);
    let pf = |p: int| total(s, |i: int| total(d, |e: int| f((p * s + i) * d + e)));
    let pq = |p: int| total(s, |i: int| total(d, |e: int| hq((p * s + i) * d + e)));
    let pk = |p: int| total(s, |i: int| total(d, |e: int| hk((p * s + i) * d + e)));
    let both = |p: int| S::add_spec(pq(p), pk(p));
    assert forall|p: int| 0 <= p < heads implies #[trigger] pf(p) == both(p) by {
        lemma_head(a, go, dq.data, dk.data, p);
        let xf = |i: int| total(d, |e: int| f((p * s + i) * d + e));
        let yf = |i: int|
            total(
                d,
                |e: int|
                    S::mul_spec(
                        go[hd.at(p, i, e)],
                        output_change(a, dq.data, dk.data, p, i, e),
                    ),
            );
        let xq = |i: int| total(d, |e: int| hq((p * s + i) * d + e));
        let yq = |i: int|
            total(d, |e: int| S::mul_spec(a.dq(go, p, i, e), dq.data[hd.at(p, i, e)]));
        let xk = |i: int| total(d, |e: int| hk((p * s + i) * d + e));
        let yk = |i: int|
            total(d, |e: int| S::mul_spec(a.dk(go, p, i, e), dk.data[hd.at(p, i, e)]));
        assert forall|i: int| 0 <= i < s implies #[trigger] xf(i) == yf(i) && xq(i) == yq(i)
            && xk(i) == yk(i) by {
            let f1 = |e: int| f((p * s + i) * d + e);
            let f2 = |e: int|
                S::mul_spec(go[hd.at(p, i, e)], output_change(a, dq.data, dk.data, p, i, e));
            let q1 = |e: int| hq((p * s + i) * d + e);
            let q2 = |e: int| S::mul_spec(a.dq(go, p, i, e), dq.data[hd.at(p, i, e)]);
            let k1 = |e: int| hk((p * s + i) * d + e);
            let k2 = |e: int| S::mul_spec(a.dk(go, p, i, e), dk.data[hd.at(p, i, e)]);
            assert forall|e: int| 0 <= e < d implies #[trigger] f1(e) == f2(e) && q1(e) == q2(e)
                && k1(e) == k2(e) by {
                let t = (p * s + i) * d + e;
                lemma_index2(p, heads as int, i, s as int);
                lemma_index2(p * s + i, (heads * s) as int, e, d as int);
                lemma_join2(p, i, s as int);
                lemma_join2(p * s + i, e, d as int);
                assert(head_of(hd, t) == (p, i, e));
                assert(hd.at(p, i, e) == t);
            }
            assert forall|e: int| 0 <= e < d implies #[trigger] q1(e) == q2(e) by {
                assert(f1(e) == f2(e));
            }
            assert forall|e: int| 0 <= e < d implies #[trigger] k1(e) == k2(e) by {
                assert(f1(e) == f2(e));
            }
            lemma_total_eq(d, f1, f2);
            lemma_total_eq(d, q1, q2);
            lemma_total_eq(d, k1, k2);
        }
        assert forall|i: int| 0 <= i < s implies #[trigger] xq(i) == yq(i) by {
            assert(xf(i) == yf(i));
        }
        assert forall|i: int| 0 <= i < s implies #[trigger] xk(i) == yk(i) by {
            assert(xf(i) == yf(i));
        }
        lemma_total_eq(s, xf, yf);
        lemma_total_eq(s, xq, yq);
        lemma_total_eq(s, xk, yk);
    }
    lemma_total_eq(heads, pf, both);
    lemma_total_add(heads, pq, pk);
}

/// The score of a key for a query: the sum of the products of their entries, over the root of the
/// width of a head; and the mask.
pub open spec fn plain_score<S: Scalar>(a: Attention<S>, g: int, i: int, j: int) -> S {
    let hd = a.hd;
    let root = S::sqrt_spec(S::count_spec(hd.d));
    let sum = total(
        hd.d as nat,
        |e: int| S::mul_spec(a.q[hd.at(g, i, e)], a.k[hd.at(g, j, e)]),
    );
    let scaled = S::div_spec(sum, root);
    match a.mask {
        Some(m) => S::add_spec(
            scaled,
            m.data[offset(hd.mask_coord(g, i, j), m.dims, row_major(m.dims)) as int],
        ),
        None => scaled,
    }
}

/// Attention: the values of a head, weighted by the exponentials of the scores, add up to the
/// output times the sum of these weights, raised by a small floor.
pub proof fn law_attention_output<S: Scalar>(
    q: Value<S>,
    k: Value<S>,
    v: Value<S>,
    mask: Option<Value<S>>,
    g: int,
    i: int,
    e: int,
)
    requires
        exact::<S>(),
        cancels::<S>(),
        exponential::<S>(),
        q.wf(),
        attention_ok(q, k, v, mask),
        0 <= g < q.dims[0] * q.dims[1],
        0 <= i < q.dims[2],
        0 <= e < q.dims[3],
        ({
            let a = attention_of(q, k, v, mask);
            let n = a.hd.s as nat;
            invertible(
                S::add_spec(
                    total(n, |j: int| a.weight(g, i, j)),
                    S::constant_spec(Constant::AttentionFloor),
                ),
            )
        }),
    ensures
        ({
            let a = attention_of(q, k, v, mask);
            let (s, d) = (q.dims[2] as int, q.dims[3] as int);
            let y = attention_value(q, k, v, mask);
            let power = |j: int| S::exp_spec(plain_score(a, g, i, j));
            let floor = S::mul_spec(
                S::constant_spec(Constant::AttentionFloor),
                S::exp_spec(a.max_score(g, i)),
            );
            &&& y.dims == q.dims
            &&& S::mul_spec(
                y.data[(g * s + i) * d + e],
                S::add_spec(total(s as nat, power), floor),
            ) == total(
                s as nat,
                |j: int| S::mul_spec(power(j), v.data[(g * s + j) * d + e]),
            )
        }),
{
    let a = attention_of(q, k, v, mask);
    let hd = a.hd;
    let (s, d) = (hd.s as nat, hd.d as nat);
    lemma_numel4(q.dims);
    let t = (g * s + i) * d + e;
    let heads = (hd.b * hd.h) as nat;
    lemma_index2(g, heads as int, i, s as int);
    lemma_index2(g * s + i, (heads * s) as int, e, d as int);
    lemma_join2(g, i, s as int);
    lemma_join2(g * s + i, e, d as int);
    assert(head_of(hd, t) == (g, i, e));
    let out = a.out(g, i, e);
    let m = a.max_score(g, i);
    let em = S::exp_spec(m);
    let w = |j: int| a.weight(g, i, j);
    let val = |j: int| v.data[(g * s + j) * d + e];
    lemma_fold_total(s, a.sum_step(g, i), w);
    let sum = total(s, w);
    let fl = S::constant_spec(Constant::AttentionFloor);
    let den = S::add_spec(sum, fl);
    lemma_total_eq(s, |j: int| a.weight(g, i, j), w);
    let inv = S::div_spec(one(), den);
    assert(a.inv_sum(g, i) == inv);
    // out == (sum of w * val) * inv
    let wv = |j: int| S::mul_spec(w(j), val(j));
    let term = |j: int| S::mul_spec(wv(j), inv);
    let step = a.out_step(g, i, e);
    assert forall|j: int, acc: S| 0 <= j < s implies #[trigger] step(j, acc) == S::add_spec(
        acc,
        term(j),
    ) by {
        lemma_derived(a.prob(g, i, j), val(j), acc);
        lemma_mul3(w(j), inv, val(j));
        lemma_add(acc, term(j), zero());
    }
    lemma_fold_total(s, step, term);
    lemma_total_times(s, wv, inv);
    let swv = total(s, wv);
    assert(out == S::mul_spec(swv, inv));
    lemma_derived(swv, den, zero());
    lemma_inverse(swv, den);
    assert(S::mul_spec(out, den) == swv);
    // times the exponential of the largest score
    lemma_mul(out, den, em);
    lemma_distribute(em, sum, fl);
    lemma_mul(den, em, zero());
    lemma_mul(sum, em, zero());
    lemma_mul(fl, em, zero());
    lemma_total_times(s, w, em);
    lemma_total_times(s, wv, em);
    let power = |j: int| S::exp_spec(plain_score(a, g, i, j));
    let p1 = |j: int| S::mul_spec(w(j), em);
    let v1 = |j: int| S::mul_spec(wv(j), em);
    let v2 = |j: int| S::mul_spec(power(j), val(j));
    assert forall|j: int| 0 <= j < s implies #[trigger] p1(j) == power(j) by {
        lemma_plain(a, g, i, j);
        lemma_shifted(a.score(g, i, j), m);
    }
    assert forall|j: int| 0 <= j < s implies #[trigger] v1(j) == v2(j) by {
        assert(p1(j) == power(j));
        lemma_mul3(w(j), val(j), em);
    }
    lemma_total_eq(s, p1, power);
    lemma_total_eq(s, v1, v2);
    lemma_total_eq(s, v2, |j: int| S::mul_spec(power(j), v.data[(g * s + j) * d + e]));
}

proof fn lemma_plain<S: Scalar>(a: Attention<S>, g: int, i: int, j: int)
    requires
        exact::<S>(),
    ensures
        a.score(g, i, j) == plain_score(a, g, i, j),
{
    lemma_dot(a.q, a.k, a.hd, g, i, j);
    lemma_derived(dot(a.q, a.k, a.hd, g, i, j), S::sqrt_spec(S::count_spec(a.hd.d)), zero());
}

} // verus!
