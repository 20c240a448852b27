//! Identities of exact arithmetic.
use vstd::prelude::*;
use crate::autograd::exact::{
    exact, lemma_add, lemma_add4, lemma_derived, lemma_distribute, lemma_mul, lemma_total_add,
    lemma_total_eq, lemma_total_mul, total,
};
use crate::scalar::{one, zero, Constant, Scalar};

verus! {

/// A number and its negative add up to zero.
pub open spec fn cancels<S: Scalar>() -> bool {
    S::add_spec(one(), S::constant_spec(Constant::NegOne)) == zero::<S>()
}

/// A number can be divided by.
pub open spec fn invertible<S: Scalar>(a: S) -> bool {
    S::div_spec(a, a) == one::<S>()
}

/// The square root of a number is one.
pub open spec fn rooted<S: Scalar>(a: S) -> bool {
    S::mul_spec(S::sqrt_spec(a), S::sqrt_spec(a)) == a
}

/// `a * b / b == a`, `a / b * b == a`, and `b * (1 / b) == 1`
pub proof fn lemma_inverse<S: Scalar>(a: S, b: S)
    requires
        exact::<S>(),
        invertible(b),
    ensures
        S::mul_spec(b, S::div_spec(one(), b)) == one::<S>(),
        S::mul_spec(S::div_spec(one(), b), b) == one::<S>(),
        S::div_spec(S::mul_spec(a, b), b) == a,
        S::mul_spec(S::div_spec(a, b), b) == a,
{
    let r = S::div_spec(one(), b);
    lemma_derived(b, b, zero());
    lemma_mul(b, r, zero());
    lemma_derived(S::mul_spec(a, b), b, zero());
    lemma_mul(a, b, r);
    lemma_derived(a, b, zero());
    lemma_mul(a, r, b);
    lemma_mul(a, one(), zero());
}

/// `(a * b) * (c * d) == (a * c) * (b * d)`
pub proof fn lemma_mul4<S: Scalar>(a: S, b: S, c: S, d: S)
    requires
        exact::<S>(),
    ensures
        S::mul_spec(S::mul_spec(a, b), S::mul_spec(c, d)) == S::mul_spec(
            S::mul_spec(a, c),
            S::mul_spec(b, d),
        ),
{
    lemma_mul(a, b, S::mul_spec(c, d));
    lemma_mul(b, c, d);
    lemma_mul(c, b, d);
    lemma_mul(a, c, S::mul_spec(b, d));
}

/// `(a * b) * c == (a * c) * b == (c * b) * a` and `a * (b * c) == b * (a * c)`
pub proof fn lemma_mul3<S: Scalar>(a: S, b: S, c: S)
    requires
        exact::<S>(),
    ensures
        S::mul_spec(S::mul_spec(a, b), c) == S::mul_spec(S::mul_spec(a, c), b),
        S::mul_spec(S::mul_spec(a, b), c) == S::mul_spec(S::mul_spec(c, b), a),
        S::mul_spec(S::mul_spec(a, b), c) == S::mul_spec(a, S::mul_spec(b, c)),
        S::mul_spec(a, S::mul_spec(b, c)) == S::mul_spec(b, S::mul_spec(a, c)),
{
    lemma_mul(a, b, c);
    lemma_mul(a, c, b);
    lemma_mul(c, b, a);
    lemma_mul(b, c, a);
    lemma_mul(b, a, c);
    lemma_mul(S::mul_spec(b, c), a, a);
}

/// `(a - b) * c == a * c - b * c` and `c * (a - b) == c * a - c * b`
pub proof fn lemma_mul_sub<S: Scalar>(a: S, b: S, c: S)
    requires
        exact::<S>(),
    ensures
        S::mul_spec(S::sub_spec(a, b), c) == S::sub_spec(S::mul_spec(a, c), S::mul_spec(b, c)),
        S::mul_spec(c, S::sub_spec(a, b)) == S::sub_spec(S::mul_spec(c, a), S::mul_spec(c, b)),
{
    let neg = S::constant_spec(Constant::NegOne);
    lemma_derived(a, b, zero());
    lemma_derived(S::mul_spec(a, c), S::mul_spec(b, c), zero());
    lemma_derived(S::mul_spec(c, a), S::mul_spec(c, b), zero());
    lemma_distribute(c, a, S::mul_spec(b, neg));
    lemma_mul3(b, neg, c);
    lemma_mul3(c, b, neg);
    lemma_mul(c, a, zero());
    lemma_mul(c, b, zero());
}

/// Sums and differences cancel.
pub proof fn lemma_cancel<S: Scalar>(a: S, b: S)
    requires
        exact::<S>(),
        cancels::<S>(),
    ensures
        S::sub_spec(a, a) == zero::<S>(),
        S::add_spec(S::sub_spec(a, b), b) == a,
        S::sub_spec(S::add_spec(a, b), b) == a,
        S::sub_spec(a, zero()) == a,
        S::sub_spec(a, b) == zero::<S>() ==> a == b,
        S::sub_spec(a, S::sub_spec(a, b)) == b,
{
    let neg = S::constant_spec(Constant::NegOne);
    let (na, nb) = (S::mul_spec(a, neg), S::mul_spec(b, neg));
    lemma_derived(a, a, zero());
    lemma_derived(a, b, zero());
    lemma_derived(S::add_spec(a, b), b, zero());
    lemma_distribute(a, one(), neg);
    lemma_distribute(b, one(), neg);
    lemma_mul(a, zero(), zero());
    lemma_mul(b, zero(), zero());
    assert(S::add_spec(a, na) == zero::<S>());
    assert(S::add_spec(b, nb) == zero::<S>());
    lemma_add(a, nb, b);
    lemma_add(nb, b, zero());
    lemma_add(b, nb, zero());
    lemma_add(a, b, nb);
    lemma_add(a, zero(), zero());
    lemma_derived(a, zero(), zero());
    lemma_mul(neg, zero(), zero());
    lemma_add(b, zero(), zero());
    let d = S::sub_spec(a, b);
    lemma_derived(a, d, zero());
    // d * neg == na + b
    lemma_distribute(neg, a, nb);
    lemma_mul(neg, a, zero());
    lemma_mul(b, neg, neg);
    lemma_mul(neg, nb, zero());
    lemma_distribute(neg, one(), neg);
    lemma_mul(neg, one(), zero());
    lemma_mul(neg, neg, zero());
    // neg + neg * neg == 0, so neg * neg == 1
    let q = S::mul_spec(neg, neg);
    assert(S::add_spec(neg, q) == zero::<S>());
    lemma_add(one(), neg, q);
    lemma_add(q, zero(), zero());
    lemma_add(one::<S>(), zero(), zero());
    assert(q == one::<S>());
    lemma_mul(b, one(), zero());
    lemma_mul(d, neg, zero());
    assert(S::mul_spec(d, neg) == S::add_spec(na, b));
    lemma_add(a, na, b);
}

/// `(a + b) - (c + d) == (a - c) + (b - d)`
pub proof fn lemma_sub4<S: Scalar>(a: S, b: S, c: S, d: S)
    requires
        exact::<S>(),
    ensures
        S::sub_spec(S::add_spec(a, b), S::add_spec(c, d)) == S::add_spec(
            S::sub_spec(a, c),
            S::sub_spec(b, d),
        ),
{
    let neg = S::constant_spec(Constant::NegOne);
    lemma_derived(S::add_spec(a, b), S::add_spec(c, d), zero());
    lemma_derived(a, c, zero());
    lemma_derived(b, d, zero());
    lemma_distribute(neg, c, d);
    lemma_add4(a, b, S::mul_spec(c, neg), S::mul_spec(d, neg));
}

/// The sum of differences.
pub proof fn lemma_total_sub<S: Scalar>(n: nat, f: spec_fn(int) -> S, g: spec_fn(int) -> S)
    requires
        exact::<S>(),
    ensures
        total(n, |i: int| S::sub_spec(f(i), g(i))) == S::sub_spec(total(n, f), total(n, g)),
{
    let neg = S::constant_spec(Constant::NegOne);
    let h = |i: int| S::mul_spec(neg, g(i));
    let x = |i: int| S::sub_spec(f(i), g(i));
    let y = |i: int| S::add_spec(f(i), h(i));
    assert forall|i: int| 0 <= i < n implies #[trigger] x(i) == y(i) by {
        lemma_derived(f(i), g(i), zero());
        lemma_mul(g(i), neg, zero());
    }
    lemma_total_eq(n, x, y);
    lemma_total_add(n, f, h);
    lemma_total_mul(n, neg, g);
    lemma_mul(neg, total(n, g), zero());
    lemma_derived(total(n, f), total(n, g), zero());
}

/// The sum of products with a factor behind.
pub proof fn lemma_total_times<S: Scalar>(n: nat, f: spec_fn(int) -> S, c: S)
    requires
        exact::<S>(),
    ensures
        total(n, |i: int| S::mul_spec(f(i), c)) == S::mul_spec(total(n, f), c),
{
    lemma_total_mul(n, c, f);
    let x = |i: int| S::mul_spec(f(i), c);
    let y = |i: int| S::mul_spec(c, f(i));
    assert forall|i: int| 0 <= i < n implies #[trigger] x(i) == y(i) by {
        lemma_mul(f(i), c, zero());
    }
    lemma_total_eq(n, x, y);
    lemma_mul(c, total(n, f), zero());
}

} // verus!
