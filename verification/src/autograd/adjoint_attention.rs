//! The gradient of the values of an attention, in which it is linear.
use vstd::prelude::*;
use crate::autograd::exact::{
    exact, lemma_add, lemma_derived, lemma_fold_total, lemma_mul, lemma_total_eq, lemma_total_mul,
    lemma_total_runs, lemma_total_swap, pairing, total,
};
use crate::cpu::attention::{
    attention_of, attention_ok, attention_value, head_of, Attention,
};
use crate::cpu::attention_backward::attention_backward_value;
use crate::cpu::batchnorm::lemma_numel4;
use crate::dense::Value;
use crate::math::{lemma_index2, lemma_join2};
use crate::scalar::{zero, Scalar};

verus! {

/// What entry `e` of query `i` takes from value `j` of head `g`, times the gradient of the entry.
spec fn share<S: Scalar>(a: Attention<S>, go: Seq<S>, g: int, i: int, j: int, e: int) -> S {
    S::mul_spec(
        go[a.hd.at(g, i, e)],
        S::mul_spec(a.prob(g, i, j), a.v[a.hd.at(g, j, e)]),
    )
}

/// A sum over all entries of all positions of all heads.
pub(crate) proof fn lemma_blocks<S: Scalar>(heads: nat, s: nat, d: nat, f: spec_fn(int) -> S)
    requires
        exact::<S>(),
    ensures
        total((heads * s) * d, f) == total(
            heads,
            |g: int| total(s, |i: int| total(d, |e: int| f((g * s + i) * d + e))),
        ),
{
    lemma_total_runs(heads * s, d, f);
    let row = |r: int| total(d, |e: int| f(r * d + e));
    lemma_total_runs(heads, s, row);
    let x = |g: int| total(s, |i: int| row(g * s + i));
    let y = |g: int| total(s, |i: int| total(d, |e: int| f((g * s + i) * d + e)));
    assert forall|g: int| 0 <= g < heads implies #[trigger] x(g) == y(g) by {
        lemma_total_eq(
            s,
            |i: int| row(g * s + i),
            |i: int| total(d, |e: int| f((g * s + i) * d + e)),
        );
    }
    lemma_total_eq(heads, x, y);
}

/// The order of three sums.
proof fn lemma_turn<S: Scalar>(s: nat, d: nat, f: spec_fn(int, int, int) -> S)
    requires
        exact::<S>(),
    ensures
        total(s, |i: int| total(d, |e: int| total(s, |j: int| f(i, j, e)))) == total(
            s,
            |j: int| total(d, |e: int| total(s, |i: int| f(i, j, e))),
        ),
{
    let over_j = |i: int, e: int| total(s, |j: int| f(i, j, e));
    let over_i = |e: int, j: int| total(s, |i: int| f(i, j, e));
    lemma_total_swap(s, d, over_j);
    let a = |e: int| total(s, |i: int| over_j(i, e));
    let b = |e: int| total(s, |j: int| over_i(e, j));
    assert forall|e: int| 0 <= e < d implies #[trigger] a(e) == b(e) by {
        let g = |i: int, j: int| f(i, j, e);
        lemma_total_swap(s, s, g);
        let x = |i: int| over_j(i, e);
        let y = |i: int| total(s, |j: int| g(i, j));
        assert forall|i: int| 0 <= i < s implies #[trigger] x(i) == y(i) by {
            lemma_total_eq(s, |j: int| f(i, j, e), |j: int| g(i, j));
        }
        lemma_total_eq(s, x, y);
        let z = |j: int| over_i(e, j);
        let w = |j: int| total(s, |i: int| g(i, j));
        assert forall|j: int| 0 <= j < s implies #[trigger] z(j) == w(j) by {
            lemma_total_eq(s, |i: int| f(i, j, e), |i: int| g(i, j));
        }
        lemma_total_eq(s, z, w);
    }
    lemma_total_eq(d, a, b);
    lemma_total_swap(d, s, over_i);
    let x = |i: int| total(d, |e: int| total(s, |j: int| f(i, j, e)));
    let y = |i: int| total(d, |e: int| over_j(i, e));
    assert forall|i: int| 0 <= i < s implies #[trigger] x(i) == y(i) by {
        lemma_total_eq(d, |e: int| total(s, |j: int| f(i, j, e)), |e: int| over_j(i, e));
    }
    lemma_total_eq(s, x, y);
    let z = |j: int| total(d, |e: int| over_i(e, j));
    let w = |j: int| total(d, |e: int| total(s, |i: int| f(i, j, e)));
    assert forall|j: int| 0 <= j < s implies #[trigger] z(j) == w(j) by {
        lemma_total_eq(d, |e: int| over_i(e, j), |e: int| total(s, |i: int| f(i, j, e)));
    }
    lemma_total_eq(s, z, w);
}

/// An entry of the output, and an entry of the values' gradient, as sums of shares.
proof fn lemma_entries<S: Scalar>(a: Attention<S>, go: Seq<S>, g: int, p: int, e: int)
    requires
        exact::<S>(),
    ensures
        S::mul_spec(go[a.hd.at(g, p, e)], a.out(g, p, e)) == total(
            a.hd.s as nat,
            |j: int| share(a, go, g, p, j, e),
        ),
        S::mul_spec(a.dv(go, g, p, e), a.v[a.hd.at(g, p, e)]) == total(
            a.hd.s as nat,
            |i: int| share(a, go, g, i, p, e),
        ),
{
    let n = a.hd.s as nat;
    let w = go[a.hd.at(g, p, e)];
    let term = |j: int| S::mul_spec(a.prob(g, p, j), a.v[a.hd.at(g, j, e)]);
    let step = a.out_step(g, p, e);
    assert forall|j: int, acc: S| 0 <= j < n implies #[trigger] step(j, acc) == S::add_spec(
        acc,
        term(j),
    ) by {
        lemma_derived(a.prob(g, p, j), a.v[a.hd.at(g, j, e)], acc);
        lemma_add(acc, term(j), zero());
    }
    lemma_fold_total(n, step, term);
    lemma_total_mul(n, w, term);
    lemma_total_eq(n, |j: int| S::mul_spec(w, term(j)), |j: int| share(a, go, g, p, j, e));
    let v = a.v[a.hd.at(g, p, e)];
    let part = |i: int| S::mul_spec(a.prob(g, i, p), go[a.hd.at(g, i, e)]);
    let back = a.dv_step(go, g, p, e);
    assert forall|i: int, acc: S| 0 <= i < n implies #[trigger] back(i, acc) == S::add_spec(
        acc,
        part(i),
    ) by {
        lemma_derived(a.prob(g, i, p), go[a.hd.at(g, i, e)], acc);
        lemma_add(acc, part(i), zero());
    }
    lemma_fold_total(n, back, part);
    lemma_total_mul(n, v, part);
    lemma_mul(v, total(n, part), zero());
    let x = |i: int| S::mul_spec(v, part(i));
    let y = |i: int| share(a, go, g, i, p, e);
    assert forall|i: int| 0 <= i < n implies #[trigger] x(i) == y(i) by {
        let (b, c) = (a.prob(g, i, p), go[a.hd.at(g, i, e)]);
        lemma_mul(v, S::mul_spec(b, c), zero());
        lemma_mul(b, c, v);
        lemma_mul(b, S::mul_spec(c, v), zero());
        lemma_mul(c, v, b);
        lemma_mul(v, b, zero());
        lemma_mul(c, S::mul_spec(v, b), zero());
    }
    lemma_total_eq(n, x, y);
}

/// The gradient of an attention's values weighs against the values what the output's gradient
/// weighs against the output.
#[verifier::rlimit(30)]
pub proof fn law_attention_adjoint<S: Scalar>(
    q: Value<S>,
    k: Value<S>,
    v: Value<S>,
    mask: Option<Value<S>>,
    g: Value<S>,
)
    requires
        exact::<S>(),
        q.wf(),
        v.wf(),
        g.wf(),
        attention_ok(q, k, v, mask),
        g.dims == q.dims,
    ensures
        pairing(g.data, attention_value(q, k, v, mask).data) == pairing(
            attention_backward_value(q, k, v, mask, g).2.data,
            v.data,
        ),
{
    let a = attention_of(q, k, v, mask);
    let hd = a.hd;
    let heads = (hd.b * hd.h) as nat;
    let (s, d) = (hd.s as nat, hd.d as nat);
    let go = g.data;
    lemma_numel4(q.dims);
    assert(q.data.len() == (heads * s) * d);
    let y = attention_value(q, k, v, mask);
    let r = attention_backward_value(q, k, v, mask, g).2;
    let f = |t: int| S::mul_spec(go[t], y.data[t]);
    let h = |t: int| S::mul_spec(r.data[t], v.data[t]);
    lemma_blocks(heads, s, d, f);
    lemma_blocks(heads, s, d, h);
    let left = |p: int| total(s, |i: int| total(d, |e: int| f((p * s + i) * d + e)));
    let right = |p: int| total(s, |i: int| total(d, |e: int| h((p * s + i) * d + e)));
    assert forall|p: int| 0 <= p < heads implies #[trigger] left(p) == right(p) by {
        let part = |i: int, j: int, e: int| share(a, go, p, i, j, e);
        lemma_turn(s, d, part);
        let lf = |i: int| total(d, |e: int| f((p * s + i) * d + e));
        let ls = |i: int| total(d, |e: int| total(s, |j: int| part(i, j, e)));
        let rh = |j: int| total(d, |e: int| h((p * s + j) * d + e));
        let rs = |j: int| total(d, |e: int| total(s, |i: int| part(i, j, e)));
        assert forall|i: int| 0 <= i < s implies #[trigger] lf(i) == ls(i) && rh(i) == rs(i) by {
            let x = |e: int| f((p * s + i) * d + e);
            let z = |e: int| total(s, |j: int| part(i, j, e));
            let xb = |e: int| h((p * s + i) * d + e);
            let zb = |e: int| total(s, |j: int| part(j, i, e));
            assert forall|e: int| 0 <= e < d implies #[trigger] x(e) == z(e) && xb(e) == zb(e) by {
                let t = (p * s + i) * d + e;
                lemma_index2(p, heads as int, i, s as int);
                lemma_index2(p * s + i, (heads * s) as int, e, d as int);
                lemma_join2(p, i, s as int);
                lemma_join2(p * s + i, e, d as int);
                assert(head_of(hd, t) == (p, i, e));
                assert(hd.at(p, i, e) == t);
                lemma_entries(a, go, p, i, e);
                lemma_total_eq(
                    s,
                    |j: int| share(a, go, p, i, j, e),
                    |j: int| part(i, j, e),
                );
                lemma_total_eq(
                    s,
                    |j: int| share(a, go, p, j, i, e),
                    |j: int| part(j, i, e),
                );
            }
            assert forall|e: int| 0 <= e < d implies #[trigger] xb(e) == zb(e) by {
                assert(x(e) == z(e));
            }
            lemma_total_eq(d, x, z);
            lemma_total_eq(d, xb, zb);
        }
        assert forall|i: int| 0 <= i < s implies #[trigger] rh(i) == rs(i) by {
            assert(lf(i) == ls(i));
        }
        lemma_total_eq(s, lf, ls);
        lemma_total_eq(s, rh, rs);
    }
    lemma_total_eq(heads, left, right);
}

} // verus!
