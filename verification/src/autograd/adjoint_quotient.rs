//! The gradient of a quotient's divisor.
use vstd::prelude::*;
use crate::autograd::exact::{exact, lemma_derived, lemma_mul, lemma_total_eq, pairing};
use crate::autograd::local::reduce_value;
use crate::autograd::ring::{invertible, lemma_inverse, lemma_mul3, lemma_mul_sub};
use crate::autograd::rules::{neg_one, over, rule_value, times};
use crate::cpu::elementwise::BinaryOp;
use crate::cpu::entries::law_zip_entry;
use crate::dense::Value;
use crate::index::{lemma_dims1, numel};
use crate::nn::entries::lemma_single_scale;
use crate::op::OpType;
use crate::scalar::{one, zero, Constant, Scalar};

verus! {

/// Quotients of one dividend: `a / w - a / v`, times `w * v`, is `a * (v - w)`. So the quotient
/// changes by `-a / (v * v)` times a small change of the divisor.
pub proof fn law_quotient_difference<S: Scalar>(a: S, w: S, v: S)
    requires
        exact::<S>(),
        invertible(w),
        invertible(v),
    ensures
        S::mul_spec(
            S::sub_spec(S::div_spec(a, w), S::div_spec(a, v)),
            S::mul_spec(w, v),
        ) == S::mul_spec(a, S::sub_spec(v, w)),
{
    let (x, y) = (S::div_spec(a, w), S::div_spec(a, v));
    let wv = S::mul_spec(w, v);
    lemma_mul_sub(x, y, wv);
    lemma_mul(x, w, v);
    lemma_inverse(a, w);
    lemma_mul(w, v, zero());
    lemma_mul(y, v, w);
    lemma_inverse(a, v);
    lemma_mul_sub(v, w, a);
}

/// How a quotient of two values of one shape changes when its divisor changes by `d`.
pub open spec fn divisor_change<S: Scalar>(a: Value<S>, b: Value<S>, d: Value<S>) -> Value<S> {
    let neg = S::constant_spec(Constant::NegOne);
    Value {
        dims: a.dims,
        data: Seq::new(
            a.data.len(),
            |i: int|
                S::mul_spec(
                    neg,
                    S::div_spec(
                        S::mul_spec(a.data[i], d.data[i]),
                        S::mul_spec(b.data[i], b.data[i]),
                    ),
                ),
        ),
    }
}

/// The gradient of a quotient's divisor: it weighs against every change of the divisor what the
/// output's gradient weighs against the change that this makes of the quotient.
pub proof fn law_divisor_adjoint<S: Scalar>(a: Value<S>, b: Value<S>, d: Value<S>, g: Value<S>)
    requires
        exact::<S>(),
        a.wf(),
        b.wf(),
        d.wf(),
        g.wf(),
        a.dims.len() > 0,
        b.dims == a.dims,
        d.dims == a.dims,
        g.dims == a.dims,
    ensures
        pairing(g.data, divisor_change(a, b, d).data) == pairing(
            rule_value(OpType::Div, seq![a, b], g)[1].data,
            d.data,
        ),
{
    let neg = S::constant_spec(Constant::NegOne);
    let minus = neg_one::<S>();
    let turned = times(g, minus);
    let top = times(turned, a);
    let square = times(b, b);
    let r = over(top, square);
    let n = g.data.len();
    lemma_dims1(1);
    assert(minus.wf());
    let y = divisor_change(a, b, d);
    let left = |i: int| S::mul_spec(g.data[i], y.data[i]);
    let right = |i: int| S::mul_spec(r.data[i], d.data[i]);
    crate::broadcast::law_broadcast_self(a.dims);
    assert(crate::shape::stretches_at(minus.dims, g.dims, 0));
    assert(crate::shape::broadcasts_to(minus.dims, g.dims));
    crate::broadcast::law_broadcast_absorbs(minus.dims, g.dims);
    assert(turned.wf() && turned.dims == a.dims);
    assert(top.wf() && top.dims == a.dims);
    assert(square.wf() && square.dims == a.dims);
    assert(r.wf() && r.dims == a.dims);
    assert(rule_value(OpType::Div, seq![a, b], g)[1] == reduce_value(r, b.dims));
    assert(reduce_value(r, b.dims).data == r.data);
    assert forall|i: int| 0 <= i < n implies #[trigger] left(i) == right(i) by {
        lemma_single_scale(g, minus, i);
        law_zip_entry(turned, a, BinaryOp::Mul, i);
        law_zip_entry(b, b, BinaryOp::Mul, i);
        law_zip_entry(top, square, BinaryOp::Div, i);
        vstd::arithmetic::div_mod::lemma_small_mod(i as nat, numel(a.dims));
        let (gi, ai, di) = (g.data[i], a.data[i], d.data[i]);
        let bb = S::mul_spec(b.data[i], b.data[i]);
        let w = S::div_spec(one(), bb);
        lemma_derived(S::mul_spec(ai, di), bb, zero());
        let gn = S::mul_spec(gi, neg);
        let gna = S::mul_spec(gn, ai);
        lemma_derived(gna, bb, zero());
        assert(r.data[i] == S::mul_spec(gna, w));
        assert(y.data[i] == S::mul_spec(neg, S::mul_spec(S::mul_spec(ai, di), w)));
        // g * (neg * ((a * d) * w)) == ((g * neg) * a) * w * d
        lemma_mul(gi, neg, S::mul_spec(S::mul_spec(ai, di), w));
        lemma_mul(gn, S::mul_spec(ai, di), w);
        lemma_mul(gn, ai, di);
        lemma_mul3(gna, w, di);
        lemma_mul3(gna, di, w);
    }
    lemma_total_eq(n, left, right);
}

} // verus!
