//! Normalisation of a list, and its derivative, in exact arithmetic.
use vstd::prelude::*;
use crate::autograd::exact::{
    exact, lemma_derived, lemma_mul, lemma_total_eq, lemma_total_mul, total,
};
use crate::autograd::ring::{
    invertible, lemma_inverse, lemma_mul3, lemma_mul_sub, lemma_total_sub, lemma_total_times,
};
use crate::scalar::{one, zero, Scalar};

verus! {

/// The mean of `f(0)` to `f(n - 1)`, where `count` is `n` as a number.
pub open spec fn mean_of<S: Scalar>(n: nat, count: S, f: spec_fn(int) -> S) -> S {
    S::div_spec(total(n, f), count)
}

/// How the normalised entry `h(t)` of a list changes when the list changes by `d`: by the change
/// without its mean and without its share along `h`, over the deviation, whose reciprocal is
/// `inv`.
pub open spec fn normal_change<S: Scalar>(
    n: nat,
    count: S,
    inv: S,
    h: spec_fn(int) -> S,
    d: spec_fn(int) -> S,
    t: int,
) -> S {
    S::mul_spec(
        inv,
        S::sub_spec(
            S::sub_spec(d(t), mean_of(n, count, d)),
            S::mul_spec(h(t), mean_of(n, count, |k: int| S::mul_spec(h(k), d(k)))),
        ),
    )
}

/// The other side of `normal_change`.
pub open spec fn normal_back<S: Scalar>(
    n: nat,
    count: S,
    inv: S,
    h: spec_fn(int) -> S,
    u: spec_fn(int) -> S,
    t: int,
) -> S {
    S::div_spec(
        S::mul_spec(
            S::sub_spec(
                S::sub_spec(S::mul_spec(count, u(t)), total(n, u)),
                S::mul_spec(h(t), total(n, |k: int| S::mul_spec(u(k), h(k)))),
            ),
            inv,
        ),
        count,
    )
}

/// The sums of `x * y - x * a - (x * z) * b`.
proof fn lemma_three<S: Scalar>(
    n: nat,
    p: spec_fn(int) -> S,
    q: spec_fn(int) -> S,
    a: S,
    r: spec_fn(int) -> S,
    b: S,
)
    requires
        exact::<S>(),
    ensures
        total(
            n,
            |t: int|
                S::sub_spec(S::sub_spec(p(t), S::mul_spec(q(t), a)), S::mul_spec(r(t), b)),
        ) == S::sub_spec(
            S::sub_spec(total(n, p), S::mul_spec(total(n, q), a)),
            S::mul_spec(total(n, r), b),
        ),
{
    let qa = |t: int| S::mul_spec(q(t), a);
    let rb = |t: int| S::mul_spec(r(t), b);
    let pq = |t: int| S::sub_spec(p(t), qa(t));
    lemma_total_sub(n, p, qa);
    lemma_total_sub(n, pq, rb);
    lemma_total_times(n, q, a);
    lemma_total_times(n, r, b);
    lemma_total_eq(
        n,
        |t: int| S::sub_spec(pq(t), rb(t)),
        |t: int| S::sub_spec(S::sub_spec(p(t), S::mul_spec(q(t), a)), S::mul_spec(r(t), b)),
    );
}

/// A weight against the change of a normalised list is the weight of what goes back against the
/// change of the list.
pub proof fn lemma_normal_adjoint<S: Scalar>(
    n: nat,
    count: S,
    inv: S,
    h: spec_fn(int) -> S,
    u: spec_fn(int) -> S,
    d: spec_fn(int) -> S,
)
    requires
        exact::<S>(),
        invertible(count),
    ensures
        total(n, |t: int| S::mul_spec(u(t), normal_change(n, count, inv, h, d, t))) == total(
            n,
            |t: int| S::mul_spec(normal_back(n, count, inv, h, u, t), d(t)),
        ),
{
    let r = S::div_spec(one(), count);
    let ud = |t: int| S::mul_spec(u(t), d(t));
    let uh = |t: int| S::mul_spec(u(t), h(t));
    let hd = |t: int| S::mul_spec(h(t), d(t));
    let (su, sd, sud, suh, shd) = (
        total(n, u),
        total(n, d),
        total(n, ud),
        total(n, uh),
        total(n, hd),
    );
    let md = S::div_spec(sd, count);
    let mh = S::div_spec(shd, count);
    lemma_derived(sd, count, zero());
    lemma_derived(shd, count, zero());
    lemma_inverse(one(), count);
    // forth
    let left = |t: int| S::mul_spec(u(t), normal_change(n, count, inv, h, d, t));
    let lx = |t: int|
        S::sub_spec(S::sub_spec(ud(t), S::mul_spec(u(t), md)), S::mul_spec(uh(t), mh));
    let li = |t: int| S::mul_spec(inv, lx(t));
    assert forall|t: int| 0 <= t < n implies #[trigger] left(t) == li(t) by {
        let x = S::sub_spec(d(t), md);
        let y = S::mul_spec(h(t), mh);
        lemma_mul3(u(t), inv, S::sub_spec(x, y));
        lemma_mul_sub(x, y, u(t));
        lemma_mul_sub(d(t), md, u(t));
        lemma_mul(u(t), h(t), mh);
    }
    lemma_total_eq(n, left, li);
    lemma_total_mul(n, inv, lx);
    lemma_three(n, ud, u, md, uh, mh);
    lemma_total_eq(
        n,
        lx,
        |t: int|
            S::sub_spec(S::sub_spec(ud(t), S::mul_spec(u(t), md)), S::mul_spec(uh(t), mh)),
    );
    let want = S::sub_spec(S::sub_spec(sud, S::mul_spec(su, md)), S::mul_spec(suh, mh));
    assert(total(n, left) == S::mul_spec(inv, want));
    // back
    let right = |t: int| S::mul_spec(normal_back(n, count, inv, h, u, t), d(t));
    let cud = |t: int| S::mul_spec(count, ud(t));
    let rx = |t: int|
        S::sub_spec(S::sub_spec(cud(t), S::mul_spec(d(t), su)), S::mul_spec(hd(t), suh));
    let c = S::mul_spec(inv, r);
    let ri = |t: int| S::mul_spec(c, rx(t));
    assert forall|t: int| 0 <= t < n implies #[trigger] right(t) == ri(t) by {
        let p = S::mul_spec(count, u(t));
        let q = S::mul_spec(h(t), suh);
        let y = S::sub_spec(S::sub_spec(p, su), q);
        lemma_derived(S::mul_spec(y, inv), count, zero());
        lemma_mul(y, inv, r);
        assert(normal_back(n, count, inv, h, u, t) == S::mul_spec(y, c));
        lemma_mul3(y, c, d(t));
        lemma_mul(S::mul_spec(y, d(t)), c, zero());
        lemma_mul_sub(S::sub_spec(p, su), q, d(t));
        lemma_mul_sub(p, su, d(t));
        lemma_mul(count, u(t), d(t));
        lemma_mul(su, d(t), zero());
        lemma_mul3(h(t), suh, d(t));
        assert(S::mul_spec(y, d(t)) == rx(t));
    }
    lemma_total_eq(n, right, ri);
    lemma_total_mul(n, c, rx);
    lemma_three(n, cud, d, su, hd, suh);
    lemma_total_eq(
        n,
        rx,
        |t: int|
            S::sub_spec(S::sub_spec(cud(t), S::mul_spec(d(t), su)), S::mul_spec(hd(t), suh)),
    );
    lemma_total_mul(n, count, ud);
    let csud = S::mul_spec(count, sud);
    let got = S::sub_spec(S::sub_spec(csud, S::mul_spec(sd, su)), S::mul_spec(shd, suh));
    assert(total(n, right) == S::mul_spec(c, got));
    // r * got == want
    lemma_mul(inv, r, got);
    lemma_mul_sub(S::sub_spec(csud, S::mul_spec(sd, su)), S::mul_spec(shd, suh), r);
    lemma_mul_sub(csud, S::mul_spec(sd, su), r);
    lemma_mul(r, count, sud);
    lemma_mul(sud, one(), zero());
    lemma_mul3(r, sd, su);
    lemma_mul(sd, r, zero());
    lemma_mul(su, md, zero());
    lemma_mul(S::mul_spec(r, sd), su, zero());
    lemma_mul(r, sd, su);
    lemma_mul(r, shd, suh);
    lemma_mul(shd, r, zero());
    lemma_mul(suh, mh, zero());
    lemma_mul(r, sd, zero());
    lemma_mul(r, shd, zero());
    assert(S::mul_spec(r, got) == want);
}

} // verus!
