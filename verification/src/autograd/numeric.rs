//! Numerical differentiation.
use vstd::prelude::*;
use crate::autograd::exact::{exact, lemma_add, lemma_distribute, lemma_mul};
use crate::autograd::ring::{
    cancels, invertible, lemma_cancel, lemma_inverse, lemma_mul3, lemma_mul_sub, lemma_sub4,
};
use crate::scalar::{one, zero, Constant, Scalar};

verus! {

/// `x` with a step in one element.
pub open spec fn nudged<S: Scalar>(x: Seq<S>, i: int, to: S) -> Seq<S> {
    x.update(i, to)
}

/// A central difference.
pub open spec fn central<S: Scalar>(plus: S, minus: S, eps: S) -> S {
    S::div_spec(
        S::sub_spec(plus, minus),
        S::mul_spec(S::constant_spec(Constant::Two), eps),
    )
}

/// Element `i` of a numerical gradient: a difference of what `f` returns a step up and a step
/// down.
pub open spec fn differs<S: Scalar, F: Fn(&Vec<S>) -> S>(
    f: F,
    x: Seq<S>,
    i: int,
    eps: S,
    g: S,
) -> bool {
    exists|up: Vec<S>, down: Vec<S>, a: S, b: S|
        {
            &&& up@ == nudged(x, i, S::add_spec(x[i], eps))
            &&& down@ == nudged(x, i, S::sub_spec(x[i], eps))
            &&& #[trigger] f.ensures((&up,), a)
            &&& #[trigger] f.ensures((&down,), b)
            &&& g == central(a, b, eps)
        }
}

/// Computes the numerical gradient of a scalar-valued function `f` with respect to the elements
/// `x`, by central differences.
pub fn numerical_grad<S: Scalar, F: Fn(&Vec<S>) -> S>(f: F, x: &Vec<S>, eps: S) -> (r: Vec<S>)
    requires
        forall|v: Vec<S>| v@.len() == x@.len() ==> #[trigger] f.requires((&v,)),
    ensures
        r@.len() == x@.len(),
        forall|i: int| 0 <= i < r@.len() ==> differs(f, x@, i, eps, #[trigger] r@[i]),
{
    let two_eps = S::constant(Constant::Two).mul(eps);
    let mut grad: Vec<S> = Vec::with_capacity(x.len());
    let mut i: usize = 0;
    while i < x.len()
        invariant
            i <= x@.len(),
            two_eps == S::mul_spec(S::constant_spec(Constant::Two), eps),
            forall|v: Vec<S>| v@.len() == x@.len() ==> #[trigger] f.requires((&v,)),
            grad@.len() == i,
            forall|k: int| 0 <= k < i ==> differs(f, x@, k, eps, #[trigger] grad@[k]),
        decreases x@.len() - i,
    {
        let orig = x[i];
        let mut up = crate::dense::copied(x.as_slice());
        up[i] = orig.add(eps);
        let plus = f(&up);
        let mut down = crate::dense::copied(x.as_slice());
        down[i] = orig.sub(eps);
        let minus = f(&down);
        let g = plus.sub(minus).div(two_eps);
        proof {
            assert(up@ =~= nudged(x@, i as int, S::add_spec(x@[i as int], eps)));
            assert(down@ =~= nudged(x@, i as int, S::sub_spec(x@[i as int], eps)));
            assert(f.ensures((&up,), plus));
            assert(f.ensures((&down,), minus));
            assert(differs(f, x@, i as int, eps, g));
        }
        grad.push(g);
        i = i + 1;
    }
    grad
}

/// A central difference is exact on what is quadratic in the element: for
/// `f(u) = a + (b * u + c * u * u)` it is `b + 2 * c * x`.
pub proof fn law_central_quadratic<S: Scalar>(a: S, b: S, c: S, x: S, eps: S)
    requires
        exact::<S>(),
        cancels::<S>(),
        S::constant_spec(Constant::Two) == S::add_spec(one(), one()),
        invertible(S::mul_spec(S::constant_spec(Constant::Two), eps)),
    ensures
        central(
            quadratic(a, b, c, S::add_spec(x, eps)),
            quadratic(a, b, c, S::sub_spec(x, eps)),
            eps,
        ) == S::add_spec(b, S::mul_spec(c, S::add_spec(x, x))),
{
    let (u, w) = (S::add_spec(x, eps), S::sub_spec(x, eps));
    let d = S::sub_spec(u, w);
    let (uu, ww) = (S::mul_spec(u, u), S::mul_spec(w, w));
    let (bu, bw) = (S::mul_spec(b, u), S::mul_spec(b, w));
    let (cu, cw) = (S::mul_spec(c, uu), S::mul_spec(c, ww));
    // the difference of the values
    lemma_sub4(a, S::add_spec(bu, cu), a, S::add_spec(bw, cw));
    lemma_cancel(a, a);
    lemma_sub4(bu, cu, bw, cw);
    lemma_add(zero(), S::add_spec(S::sub_spec(bu, bw), S::sub_spec(cu, cw)), zero());
    lemma_add(S::add_spec(S::sub_spec(bu, bw), S::sub_spec(cu, cw)), zero(), zero());
    lemma_mul_sub(u, w, b);
    lemma_mul_sub(uu, ww, c);
    // uu - ww == d * (u + w)
    let sum = S::add_spec(u, w);
    lemma_mul_sub(u, w, sum);
    lemma_distribute(u, u, w);
    lemma_distribute(w, u, w);
    lemma_mul(u, w, zero());
    let uw = S::mul_spec(u, w);
    lemma_add(uw, ww, zero());
    lemma_add(ww, uw, zero());
    lemma_sub4(uu, uw, ww, uw);
    lemma_cancel(uw, uw);
    lemma_add(S::sub_spec(uu, ww), zero(), zero());
    // u + w == x + x and u - w == 2 * eps
    let two = S::constant_spec(Constant::Two);
    let neg = S::constant_spec(Constant::NegOne);
    lemma_add(w, eps, zero());
    lemma_cancel(x, eps);
    lemma_add(x, eps, w);
    lemma_add(eps, w, zero());
    assert(sum == S::add_spec(x, x));
    lemma_add(eps, eps, zero());
    let ee = S::add_spec(eps, eps);
    lemma_add(w, eps, eps);
    assert(u == S::add_spec(w, ee));
    lemma_add(ee, w, zero());
    lemma_cancel(ee, w);
    assert(d == ee);
    lemma_distribute(eps, one(), one());
    lemma_mul(eps, one(), zero());
    assert(d == S::mul_spec(two, eps));
    // b * d + c * (d * sum) == (b + c * sum) * d
    lemma_mul(c, d, sum);
    lemma_mul3(c, d, sum);
    let cs = S::mul_spec(c, sum);
    lemma_distribute(d, b, cs);
    lemma_inverse(S::add_spec(b, cs), d);
}

/// `a + (b * u + c * (u * u))`
pub open spec fn quadratic<S: Scalar>(a: S, b: S, c: S, u: S) -> S {
    S::add_spec(a, S::add_spec(S::mul_spec(b, u), S::mul_spec(c, S::mul_spec(u, u))))
}

/// The numerical gradient of a function that is quadratic in an element is its derivative there.
pub proof fn law_numerical_gradient<S: Scalar, F: Fn(&Vec<S>) -> S>(
    f: F,
    x: Seq<S>,
    i: int,
    eps: S,
    g: S,
    a: S,
    b: S,
    c: S,
)
    requires
        exact::<S>(),
        cancels::<S>(),
        S::constant_spec(Constant::Two) == S::add_spec(one(), one()),
        invertible(S::mul_spec(S::constant_spec(Constant::Two), eps)),
        0 <= i < x.len(),
        forall|v: Vec<S>, y: S| #[trigger]
            f.ensures((&v,), y) && v@ == x.update(i, v@[i]) ==> y == quadratic(a, b, c, v@[i]),
        differs(f, x, i, eps, g),
    ensures
        g == S::add_spec(b, S::mul_spec(c, S::add_spec(x[i], x[i]))),
{
    let (up, down, p, q) = choose|up: Vec<S>, down: Vec<S>, p: S, q: S|
        {
            &&& up@ == nudged(x, i, S::add_spec(x[i], eps))
            &&& down@ == nudged(x, i, S::sub_spec(x[i], eps))
            &&& #[trigger] f.ensures((&up,), p)
            &&& #[trigger] f.ensures((&down,), q)
            &&& g == central(p, q, eps)
        };
    assert(up@ =~= x.update(i, up@[i]));
    assert(down@ =~= x.update(i, down@[i]));
    assert(up@[i] == S::add_spec(x[i], eps));
    assert(down@[i] == S::sub_spec(x[i], eps));
    assert(p == quadratic(a, b, c, up@[i]));
    assert(q == quadratic(a, b, c, down@[i]));
    law_central_quadratic(a, b, c, x[i], eps);
}

} // verus!
