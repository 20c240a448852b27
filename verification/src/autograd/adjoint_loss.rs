//! The rows of the cross-entropy gradient.
use vstd::prelude::*;
use crate::autograd::exact::{
    exact, lemma_derived, lemma_fold_total, lemma_mul,
    lemma_total_add, lemma_total_eq, lemma_total_mul, lemma_total_pick, total,
};
use crate::cpu::loss::{class_of, cross_entropy_grad, cross_entropy_ok};
use crate::cpu::reduce::{exp_step, line_exp, line_exp_sum};
use crate::dense::Value;
use crate::index::lemma_dims1;
use crate::scalar::{one, zero, Constant, Scalar};

verus! {

/// Where arithmetic is exact and the row's sum of exponentials has a reciprocal, the
/// cross-entropy gradient of a row of logits adds up to zero.
pub proof fn law_cross_entropy_rows<S: Scalar>(
    logits: Value<S>,
    targets: Value<S>,
    g: S,
    b: int,
)
    requires
        exact::<S>(),
        S::add_spec(one(), S::constant_spec(Constant::NegOne)) == zero::<S>(),
        logits.wf(),
        targets.wf(),
        cross_entropy_ok(logits, targets),
        0 <= b < logits.dims[0],
        S::div_spec(line_exp_sum(logits, 1, b), line_exp_sum(logits, 1, b)) == one::<S>(),
    ensures
        total(
            logits.dims[1] as nat,
            |c: int| cross_entropy_grad(logits, targets, g, b, c),
        ) == zero::<S>(),
{
    let n = logits.dims[1] as nat;
    let t = class_of(targets.data[b]) as int;
    let s = line_exp_sum(logits, 1, b);
    let w = S::div_spec(one(), s);
    let neg = S::constant_spec(Constant::NegOne);
    lemma_dims1(logits.dims[0]);
    assert(class_of(targets.data[b]) < logits.dims[1]);
    let e = |c: int| line_exp(logits, 1, b, c);
    lemma_fold_total(n, exp_step(logits, 1, b), e);
    let p = |c: int| S::mul_spec(w, e(c));
    lemma_total_mul(n, w, e);
    lemma_derived(s, s, zero());
    lemma_mul(s, w, zero());
    assert(total(n, p) == one::<S>());
    let hit = |c: int|
        if c == t {
            neg
        } else {
            zero()
        };
    lemma_total_pick(n, t, hit);
    let both = |c: int| S::add_spec(p(c), hit(c));
    lemma_total_add(n, p, hit);
    let count = S::div_spec(one(), S::count_spec(logits.dims[0]));
    let k = S::mul_spec(g, count);
    lemma_total_mul(n, k, both);
    lemma_mul(k, zero(), zero());
    let scaled = |c: int| S::mul_spec(k, both(c));
    let grad = |c: int| cross_entropy_grad(logits, targets, g, b, c);
    assert forall|c: int| 0 <= c < n implies #[trigger] grad(c) == scaled(c) by {
        lemma_derived(e(c), s, zero());
        lemma_mul(e(c), w, zero());
        let x = S::div_spec(e(c), s);
        let h = if c == t {
            one::<S>()
        } else {
            zero::<S>()
        };
        lemma_derived(x, h, zero());
        lemma_mul(neg, one(), zero());
        lemma_mul(neg, zero(), zero());
        assert(S::mul_spec(h, neg) == hit(c)) by {
            lemma_mul(h, neg, zero());
        }
        assert(S::sub_spec(x, h) == both(c));
        let y = S::mul_spec(g, both(c));
        lemma_derived(y, S::count_spec(logits.dims[0]), zero());
        lemma_mul(g, both(c), count);
        lemma_mul(both(c), count, g);
        lemma_mul(g, count, both(c));
    }
    lemma_total_eq(n, grad, scaled);
}

} // verus!
