//! Gradients of the fused attention.
use vstd::prelude::*;
use crate::cpu::attention::{
    attention_of, attention_ok, dot, dot_at, head_of, head_scale, heads_of, lemma_rows_fit,
    mask_view, mix, mix_at, probs_at, Attention, Heads,
};
use crate::cpu::batchnorm::lemma_numel4;
use crate::dense::{filled, Dense, Value};
use crate::index::{lemma_bounded_fits, lemma_numel_zero, numel};
use crate::math::{fold, lemma_index3, lemma_join2, lemma_split2};
use crate::scalar::{zero, Constant, Scalar};
use crate::shape::broadcasts_to;

verus! {

impl<S: Scalar> Attention<S> {
    /// The gradient of the probability of key `j`: the output gradient of query `i` times value
    /// `j`.
    pub open spec fn dp(self, go: Seq<S>, g: int, i: int, j: int) -> S {
        dot(go, self.v, self.hd, g, i, j)
    }

    pub open spec fn dp_sum_step(self, go: Seq<S>, g: int, i: int) -> spec_fn(int, S) -> S {
        |j: int, acc: S| S::mul_add_spec(self.dp(go, g, i, j), self.prob(g, i, j), acc)
    }

    pub open spec fn dp_sum(self, go: Seq<S>, g: int, i: int) -> S {
        fold(self.hd.s as nat, zero(), self.dp_sum_step(go, g, i))
    }

    /// The gradient of the score of key `j` for query `i`.
    pub open spec fn ds(self, go: Seq<S>, g: int, i: int, j: int) -> S {
        S::mul_spec(
            self.prob(g, i, j),
            S::sub_spec(self.dp(go, g, i, j), self.dp_sum(go, g, i)),
        )
    }

    /// The score gradients of query `i`.
    pub open spec fn ds_row(self, go: Seq<S>, g: int, i: int) -> Seq<S> {
        Seq::new(self.hd.s as nat, |j: int| self.ds(go, g, i, j))
    }

    /// The gradient of entry `e` of query `i`.
    pub open spec fn dq(self, go: Seq<S>, g: int, i: int, e: int) -> S {
        S::mul_spec(mix(self.ds_row(go, g, i), self.k, self.hd, g, e), head_scale(self.hd))
    }

    pub open spec fn dk_step(self, go: Seq<S>, g: int, j: int, e: int) -> spec_fn(int, S) -> S {
        |i: int, acc: S|
            S::mul_add_spec(
                S::mul_spec(self.ds(go, g, i, j), head_scale(self.hd)),
                self.q[self.hd.at(g, i, e)],
                acc,
            )
    }

    /// The gradient of entry `e` of key `j`.
    pub open spec fn dk(self, go: Seq<S>, g: int, j: int, e: int) -> S {
        fold(self.hd.s as nat, zero(), self.dk_step(go, g, j, e))
    }

    pub open spec fn dv_step(self, go: Seq<S>, g: int, j: int, e: int) -> spec_fn(int, S) -> S {
        |i: int, acc: S|
            S::mul_add_spec(self.prob(g, i, j), go[self.hd.at(g, i, e)], acc)
    }

    /// The gradient of entry `e` of value `j`.
    pub open spec fn dv(self, go: Seq<S>, g: int, j: int, e: int) -> S {
        fold(self.hd.s as nat, zero(), self.dv_step(go, g, j, e))
    }
}

/// The gradients of an attention with respect to queries, keys and values.
pub open spec fn attention_backward_value<S: Scalar>(
    q: Value<S>,
    k: Value<S>,
    v: Value<S>,
    mask: Option<Value<S>>,
    grad_out: Value<S>,
) -> (Value<S>, Value<S>, Value<S>) {
    let at = attention_of(q, k, v, mask);
    let go = grad_out.data;
    (
        Value {
            dims: q.dims,
            data: Seq::new(
                q.data.len(),
                |t: int|
                    {
                        let (g, i, e) = head_of(at.hd, t);
                        at.dq(go, g, i, e)
                    },
            ),
        },
        Value {
            dims: q.dims,
            data: Seq::new(
                q.data.len(),
                |t: int|
                    {
                        let (g, i, e) = head_of(at.hd, t);
                        at.dk(go, g, i, e)
                    },
            ),
        },
        Value {
            dims: q.dims,
            data: Seq::new(
                q.data.len(),
                |t: int|
                    {
                        let (g, i, e) = head_of(at.hd, t);
                        at.dv(go, g, i, e)
                    },
            ),
        },
    )
}

/// The score gradients of one query, from its attention row.
fn ds_at<S: Scalar>(
    p: &Vec<S>,
    v: &Vec<S>,
    go: &Vec<S>,
    hd: Heads,
    g: usize,
    i: usize,
    Ghost(at): Ghost<Attention<S>>,
) -> (r: Vec<S>)
    requires
        at.hd == hd,
        at.v == v@,
        v@.len() == hd.len(),
        go@.len() == hd.len(),
        hd.len() <= usize::MAX,
        g < hd.b * hd.h,
        i < hd.s,
        p@ == at.probs(g as int, i as int),
    ensures
        r@ == at.ds_row(go@, g as int, i as int),
{
    let ghost step = at.dp_sum_step(go@, g as int, i as int);
    let mut dp: Vec<S> = Vec::with_capacity(hd.s);
    let mut sum = S::constant(Constant::Zero);
    let mut j: usize = 0;
    while j < hd.s
        invariant
            j <= hd.s,
            at.hd == hd,
            at.v == v@,
            v@.len() == hd.len(),
            go@.len() == hd.len(),
            hd.len() <= usize::MAX,
            g < hd.b * hd.h,
            i < hd.s,
            p@ == at.probs(g as int, i as int),
            step == at.dp_sum_step(go@, g as int, i as int),
            dp@.len() == j,
            forall|t: int| 0 <= t < j ==> dp@[t] == at.dp(go@, g as int, i as int, t),
            sum == fold(j as nat, zero::<S>(), step),
        decreases hd.s - j,
    {
        let x = dot_at(go, v, hd, g, i, j);
        dp.push(x);
        sum = x.mul_add(p[j], sum);
        j = j + 1;
    }
    let mut ds: Vec<S> = Vec::with_capacity(hd.s);
    j = 0;
    while j < hd.s
        invariant
            j <= hd.s,
            at.hd == hd,
            p@ == at.probs(g as int, i as int),
            dp@.len() == hd.s,
            forall|t: int| 0 <= t < hd.s ==> dp@[t] == at.dp(go@, g as int, i as int, t),
            sum == at.dp_sum(go@, g as int, i as int),
            ds@.len() == j,
            forall|t: int| 0 <= t < j ==> ds@[t] == at.ds(go@, g as int, i as int, t),
        decreases hd.s - j,
    {
        ds.push(p[j].mul(dp[j].sub(sum)));
        j = j + 1;
    }
    assert(ds@ =~= at.ds_row(go@, g as int, i as int));
    ds
}

/// Adds what one query contributes to the key and value gradients of its head.
fn add_query<S: Scalar>(
    dk: &mut Vec<S>,
    dv: &mut Vec<S>,
    q: &Vec<S>,
    go: &Vec<S>,
    p: &Vec<S>,
    ds: &Vec<S>,
    hd: Heads,
    scale: S,
    g: usize,
    i: usize,
    Ghost(at): Ghost<Attention<S>>,
)
    requires
        at.hd == hd,
        at.q == q@,
        q@.len() == hd.len(),
        go@.len() == hd.len(),
        hd.len() <= usize::MAX,
        g < hd.b * hd.h,
        i < hd.s,
        scale == head_scale::<S>(hd),
        p@ == at.probs(g as int, i as int),
        ds@ == at.ds_row(go@, g as int, i as int),
        old(dk)@.len() == hd.s * hd.d,
        old(dv)@.len() == hd.s * hd.d,
        forall|t: int|
            0 <= t < hd.s * hd.d ==> #[trigger] old(dk)@[t] == fold(
                i as nat,
                zero::<S>(),
                at.dk_step(go@, g as int, t / hd.d as int, t % hd.d as int),
            ),
        forall|t: int|
            0 <= t < hd.s * hd.d ==> #[trigger] old(dv)@[t] == fold(
                i as nat,
                zero::<S>(),
                at.dv_step(go@, g as int, t / hd.d as int, t % hd.d as int),
            ),
    ensures
        final(dk)@.len() == hd.s * hd.d,
        final(dv)@.len() == hd.s * hd.d,
        forall|t: int|
            0 <= t < hd.s * hd.d ==> #[trigger] final(dk)@[t] == fold(
                (i + 1) as nat,
                zero::<S>(),
                at.dk_step(go@, g as int, t / hd.d as int, t % hd.d as int),
            ),
        forall|t: int|
            0 <= t < hd.s * hd.d ==> #[trigger] final(dv)@[t] == fold(
                (i + 1) as nat,
                zero::<S>(),
                at.dv_step(go@, g as int, t / hd.d as int, t % hd.d as int),
            ),
{
    let len: usize = dk.len();
    let ghost dk0 = dk@;
    let ghost dv0 = dv@;
    let mut t: usize = 0;
    while t < len
        invariant
            t <= len == hd.s * hd.d,
            at.hd == hd,
            at.q == q@,
            q@.len() == hd.len(),
            go@.len() == hd.len(),
            hd.len() <= usize::MAX,
            g < hd.b * hd.h,
            i < hd.s,
            scale == head_scale::<S>(hd),
            p@ == at.probs(g as int, i as int),
            ds@ == at.ds_row(go@, g as int, i as int),
            dk@.len() == len,
            dv@.len() == len,
            dk0.len() == len,
            dv0.len() == len,
            forall|u: int|
                0 <= u < len ==> #[trigger] dk0[u] == fold(
                    i as nat,
                    zero::<S>(),
                    at.dk_step(go@, g as int, u / hd.d as int, u % hd.d as int),
                ),
            forall|u: int|
                0 <= u < len ==> #[trigger] dv0[u] == fold(
                    i as nat,
                    zero::<S>(),
                    at.dv_step(go@, g as int, u / hd.d as int, u % hd.d as int),
                ),
            forall|u: int| t <= u < len ==> #[trigger] dk@[u] == dk0[u],
            forall|u: int| t <= u < len ==> #[trigger] dv@[u] == dv0[u],
            forall|u: int|
                0 <= u < t ==> #[trigger] dk@[u] == fold(
                    (i + 1) as nat,
                    zero::<S>(),
                    at.dk_step(go@, g as int, u / hd.d as int, u % hd.d as int),
                ),
            forall|u: int|
                0 <= u < t ==> #[trigger] dv@[u] == fold(
                    (i + 1) as nat,
                    zero::<S>(),
                    at.dv_step(go@, g as int, u / hd.d as int, u % hd.d as int),
                ),
        decreases len - t,
    {
        proof {
            lemma_split2(t as int, hd.s as int, hd.d as int);
            lemma_index3(
                g as int,
                hd.b * hd.h,
                i as int,
                hd.s as int,
                t as int % hd.d as int,
                hd.d as int,
            );
            assert(dk0[t as int] == dk@[t as int]);
            assert(dv0[t as int] == dv@[t as int]);
        }
        let j: usize = t / hd.d;
        let e: usize = t % hd.d;
        let src: usize = (g * hd.s + i) * hd.d + e;
        let a = p[j].mul_add(go[src], dv[t]);
        dv[t] = a;
        let b = ds[j].mul(scale).mul_add(q[src], dk[t]);
        dk[t] = b;
        t = t + 1;
    }
}

/// The gradients of queries, keys and values of one head.
fn head_grads<S: Scalar>(
    q: &Dense<S>,
    k: &Dense<S>,
    v: &Dense<S>,
    mask: Option<&Dense<S>>,
    go: &Vec<S>,
    hd: Heads,
    scale: S,
    g: usize,
    Ghost(at): Ghost<Attention<S>>,
) -> (r: (Vec<S>, Vec<S>, Vec<S>))
    requires
        q.wf(),
        k.wf(),
        v.wf(),
        at.hd == hd,
        at.q == q@.data,
        at.k == k@.data,
        at.v == v@.data,
        at.mask == mask_view(mask),
        q@.data.len() == hd.len(),
        k@.data.len() == hd.len(),
        v@.data.len() == hd.len(),
        go@.len() == hd.len(),
        hd.len() <= usize::MAX,
        hd.s * hd.d <= usize::MAX,
        g < hd.b * hd.h,
        scale == head_scale::<S>(hd),
        mask matches Some(m) ==> m.wf() && broadcasts_to(m@.dims, hd.mask_dims()),
    ensures
        r.0@ == Seq::new(
            (hd.s * hd.d) as nat,
            |t: int| at.dq(go@, g as int, t / hd.d as int, t % hd.d as int),
        ),
        r.1@ == Seq::new(
            (hd.s * hd.d) as nat,
            |t: int| at.dk(go@, g as int, t / hd.d as int, t % hd.d as int),
        ),
        r.2@ == Seq::new(
            (hd.s * hd.d) as nat,
            |t: int| at.dv(go@, g as int, t / hd.d as int, t % hd.d as int),
        ),
{
    let len: usize = hd.s * hd.d;
    let mut dq: Vec<S> = Vec::with_capacity(len);
    let mut dk: Vec<S> = filled(len, S::constant(Constant::Zero));
    let mut dv: Vec<S> = filled(len, S::constant(Constant::Zero));
    let mut i: usize = 0;
    proof {
        assert(0 * hd.d == 0) by (nonlinear_arith);
    }
    while i < hd.s
        invariant
            i <= hd.s,
            len == hd.s * hd.d,
            q.wf(),
            k.wf(),
            v.wf(),
            at.hd == hd,
            at.q == q@.data,
            at.k == k@.data,
            at.v == v@.data,
            at.mask == mask_view(mask),
            q@.data.len() == hd.len(),
            k@.data.len() == hd.len(),
            v@.data.len() == hd.len(),
            go@.len() == hd.len(),
            hd.len() <= usize::MAX,
            g < hd.b * hd.h,
            scale == head_scale::<S>(hd),
            mask matches Some(m) ==> m.wf() && broadcasts_to(m@.dims, hd.mask_dims()),
            dq@.len() == i * hd.d,
            dk@.len() == len,
            dv@.len() == len,
            forall|t: int|
                0 <= t < i * hd.d ==> #[trigger] dq@[t] == at.dq(
                    go@,
                    g as int,
                    t / hd.d as int,
                    t % hd.d as int,
                ),
            forall|t: int|
                0 <= t < hd.s * hd.d ==> #[trigger] dk@[t] == fold(
                    i as nat,
                    zero::<S>(),
                    at.dk_step(go@, g as int, t / hd.d as int, t % hd.d as int),
                ),
            forall|t: int|
                0 <= t < hd.s * hd.d ==> #[trigger] dv@[t] == fold(
                    i as nat,
                    zero::<S>(),
                    at.dv_step(go@, g as int, t / hd.d as int, t % hd.d as int),
                ),
        decreases hd.s - i,
    {
        let p = probs_at(q, k, mask, hd, scale, g, i, Ghost(at));
        let ds = ds_at(&p, v.data(), go, hd, g, i, Ghost(at));
        let mut e: usize = 0;
        while e < hd.d
            invariant
                e <= hd.d,
                i < hd.s,
                k.wf(),
                at.hd == hd,
                at.k == k@.data,
                k@.data.len() == hd.len(),
                hd.len() <= usize::MAX,
                g < hd.b * hd.h,
                scale == head_scale::<S>(hd),
                ds@ == at.ds_row(go@, g as int, i as int),
                dq@.len() == i * hd.d + e,
                forall|t: int|
                    0 <= t < i * hd.d + e ==> #[trigger] dq@[t] == at.dq(
                        go@,
                        g as int,
                        t / hd.d as int,
                        t % hd.d as int,
                    ),
            decreases hd.d - e,
        {
            proof {
                lemma_join2(i as int, e as int, hd.d as int);
            }
            dq.push(mix_at(&ds, k.data(), hd, g, e).mul(scale));
            e = e + 1;
        }
        add_query(&mut dk, &mut dv, q.data(), go, &p, &ds, hd, scale, g, i, Ghost(at));
        i = i + 1;
        proof {
            assert((i - 1) * hd.d + hd.d == i * hd.d) by (nonlinear_arith);
        }
    }
    assert(dq@ =~= Seq::new(
        (hd.s * hd.d) as nat,
        |t: int| at.dq(go@, g as int, t / hd.d as int, t % hd.d as int),
    ));
    assert(dk@ =~= Seq::new(
        (hd.s * hd.d) as nat,
        |t: int| at.dk(go@, g as int, t / hd.d as int, t % hd.d as int),
    ));
    assert(dv@ =~= Seq::new(
        (hd.s * hd.d) as nat,
        |t: int| at.dv(go@, g as int, t / hd.d as int, t % hd.d as int),
    ));
    (dq, dk, dv)
}

/// Element `t` of head `g`, split again.
proof fn lemma_in_head(hd: Heads, g: int, t: int)
    requires
        0 <= g < hd.b * hd.h,
        0 <= t < hd.s * hd.d,
    ensures
        head_of(hd, g * (hd.s * hd.d) + t) == (g, t / hd.d as int, t % hd.d as int),
        0 <= g * (hd.s * hd.d),
        g * (hd.s * hd.d) + t < hd.len(),
{
    let s = hd.s as int;
    let d = hd.d as int;
    lemma_split2(t, s, d);
    lemma_index3(g, hd.b * hd.h, t / d, s, t % d, d);
    assert(g * (s * d) + ((t / d) * d + t % d) == (g * s + t / d) * d + t % d)
        by (nonlinear_arith);
    lemma_join2(g * s + t / d, t % d, d);
    lemma_join2(g, t / d, s);
    assert(0 <= g * (s * d)) by (nonlinear_arith)
        requires
            0 <= g,
            0 < s,
            0 < d,
    ;
}

/// Fused scaled dot-product attention backward: the gradients of queries, keys and values.
pub fn fused_attention_backward<S: Scalar>(
    q: &Dense<S>,
    k: &Dense<S>,
    v: &Dense<S>,
    mask: Option<&Dense<S>>,
    grad_out: &Dense<S>,
) -> (r: (Dense<S>, Dense<S>, Dense<S>))
    requires
        q.wf(),
        k.wf(),
        v.wf(),
        grad_out.wf(),
        mask matches Some(m) ==> m.wf(),
        attention_ok(q@, k@, v@, mask_view(mask)),
        grad_out@.data.len() == q@.data.len(),
    ensures
        r.0.wf() && r.1.wf() && r.2.wf(),
        (r.0@, r.1@, r.2@) == attention_backward_value(
            q@,
            k@,
            v@,
            mask_view(mask),
            grad_out@,
        ),
{
    let sh = q.shape();
    let hd = Heads { b: sh.dim(0), h: sh.dim(1), s: sh.dim(2), d: sh.dim(3) };
    let ghost at = attention_of(q@, k@, v@, mask_view(mask));
    let ghost want = attention_backward_value(q@, k@, v@, mask_view(mask), grad_out@);
    let ghost go = grad_out@.data;
    let total = q.numel();
    let mut dq: Vec<S> = Vec::new();
    let mut dk: Vec<S> = Vec::new();
    let mut dv: Vec<S> = Vec::new();
    if total == 0 {
        assert(dq@ =~= want.0.data);
        assert(dk@ =~= want.1.data);
        assert(dv@ =~= want.2.data);
        return (
            Dense::new(*q.shape(), dq),
            Dense::new(*q.shape(), dk),
            Dense::new(*q.shape(), dv),
        );
    }
    proof {
        lemma_numel4(q@.dims);
        lemma_bounded_fits(q@.dims);
        lemma_numel_zero(q@.dims);
        crate::cpu::conv::lemma_planes(hd.b as int, hd.h as int, hd.s as int, hd.d as int);
        lemma_rows_fit(hd);
        let n = hd.s * hd.d;
        assert(0 * n == 0) by (nonlinear_arith);
    }
    let scale = S::constant(Constant::One).div(S::count(hd.d).sqrt());
    let heads: usize = hd.b * hd.h;
    let ghost n = hd.s * hd.d;
    let mut g: usize = 0;
    while g < heads
        invariant
            g <= heads == hd.b * hd.h,
            n == hd.s * hd.d,
            n <= usize::MAX,
            0 <= n,
            total == heads * n,
            q.wf(),
            k.wf(),
            v.wf(),
            grad_out.wf(),
            go == grad_out@.data,
            hd == heads_of(q@.dims),
            q@.data.len() == hd.len(),
            k@.data.len() == hd.len(),
            v@.data.len() == hd.len(),
            go.len() == hd.len(),
            hd.len() == total,
            hd.len() <= usize::MAX,
            scale == head_scale::<S>(hd),
            at == attention_of(q@, k@, v@, mask_view(mask)),
            mask matches Some(m) ==> m.wf() && broadcasts_to(m@.dims, hd.mask_dims()),
            want == attention_backward_value(q@, k@, v@, mask_view(mask), grad_out@),
            0 <= g * n <= total,
            dq@ == want.0.data.subrange(0, g * n),
            dk@ == want.1.data.subrange(0, g * n),
            dv@ == want.2.data.subrange(0, g * n),
        decreases heads - g,
    {
        let (mut a, mut b, mut c) = head_grads(
            q,
            k,
            v,
            mask,
            grad_out.data(),
            hd,
            scale,
            g,
            Ghost(at),
        );
        proof {
            assert((g + 1) * n == g * n + n) by (nonlinear_arith);
            assert((g + 1) * n <= heads * n) by (nonlinear_arith)
                requires
                    g + 1 <= heads,
                    0 <= n,
            ;
            assert forall|t: int| 0 <= t < n implies a@[t] == want.0.data[g * n + t] && b@[t]
                == want.1.data[g * n + t] && c@[t] == want.2.data[g * n + t] by {
                lemma_in_head(hd, g as int, t);
            }
        }
        dq.append(&mut a);
        dk.append(&mut b);
        dv.append(&mut c);
        g = g + 1;
        assert(dq@ =~= want.0.data.subrange(0, g * n));
        assert(dk@ =~= want.1.data.subrange(0, g * n));
        assert(dv@ =~= want.2.data.subrange(0, g * n));
    }
    assert(dq@ =~= want.0.data);
    assert(dk@ =~= want.1.data);
    assert(dv@ =~= want.2.data);
    (Dense::new(*q.shape(), dq), Dense::new(*q.shape(), dk), Dense::new(*q.shape(), dv))
}

} // verus!
