//! What the activations compute: GELU and its slope, and ReLU.
use vstd::prelude::*;
use crate::autograd::exact::{exact, lemma_add, lemma_distribute, lemma_mul};
use crate::autograd::ring::{cancels, lemma_cancel, lemma_mul3, lemma_mul_sub, lemma_sub4};
use crate::cpu::elementwise::{gelu_at, gelu_inner, gelu_inner_slope, map_value, UnaryOp};
use crate::dense::Value;
use crate::fixed::{law_exp_order, law_exp_range, product, quotient, Fixed};
use crate::scalar::{one, zero, Constant, Scalar};

verus! {

/// The number of the same size with the other sign.
pub open spec fn negated(x: Fixed) -> Fixed {
    Fixed { raw: (-x.raw) as i32 }
}

/// The hyperbolic tangent lies between -1 and 1, has the sign of its argument, and changes its
/// sign with it.
pub proof fn law_tanh_odd(x: Fixed)
    requires
        x.raw > i32::MIN,
    ensures
        -65536 <= x.tangent().raw <= 65536,
        x.raw >= 0 ==> x.tangent().raw >= 0,
        negated(x).tangent() == negated(x.tangent()),
{
    let y = negated(x);
    if -524288 <= x.raw <= 524288 {
        let e = x.exponential();
        let f = y.exponential();
        assert(Fixed { raw: 0 }.minus(x) == y);
        assert(Fixed { raw: 0 }.minus(y) == x);
        law_exp_range(x);
        law_exp_range(y);
        law_exp_order(x, x);
        law_exp_order(y, y);
        if x.raw >= 0 {
            law_exp_order(y, x);
        } else {
            law_exp_order(x, y);
        }
        let s = e.plus(f);
        assert(f.plus(e) == s);
        assert(s.raw > 0);
        let a = e.minus(f);
        let b = f.minus(e);
        assert(b.raw == -a.raw);
        let n = if a.raw < 0 {
            -a.raw * 65536
        } else {
            a.raw * 65536
        };
        let d = s.raw as int;
        assert(0 <= n / d <= 65536) by (nonlinear_arith)
            requires
                0 <= n <= d * 65536,
                d > 0,
        ;
        assert(quotient(b, s) == -quotient(a, s));
    }
}

/// A product with a number that is not negative.
proof fn lemma_scaled(a: Fixed, b: Fixed)
    requires
        a.raw >= 0,
    ensures
        b.raw >= 0 ==> product(a, b) == a.raw * b.raw / 65536 && product(a, b) >= 0,
        b.raw <= 0 ==> product(a, b) == -(a.raw * (-b.raw) / 65536) && product(a, b) <= 0,
{
    let x = a.raw as int;
    let y = if b.raw < 0 {
        -b.raw
    } else {
        b.raw as int
    };
    assert(0 <= x * y) by (nonlinear_arith)
        requires
            x >= 0,
            y >= 0,
    ;
    if b.raw == 0 {
        assert(x * 0 == 0);
    }
}

/// A number and its negative have inner values with the same hyperbolic tangent but for the sign.
proof fn lemma_inner_odd(v: Fixed)
    requires
        v.raw >= 0,
    ensures
        0 <= gelu_inner(v).tangent().raw <= 65536,
        gelu_inner(negated(v)).tangent() == negated(gelu_inner(v).tangent()),
{
    let w = negated(v);
    let n = v.raw as int;
    let scale = Fixed { raw: 52290 };
    let cubic = Fixed { raw: 2930 };
    let sq = v.times(v);
    assert(w.times(w) == sq);
    let m = sq.raw as int;
    lemma_scaled(v, v);
    lemma_scaled(sq, v);
    lemma_scaled(sq, w);
    let up = sq.times(v);
    let down = sq.times(w);
    assert(up.raw >= 0 && down.raw <= 0);
    lemma_scaled(cubic, up);
    lemma_scaled(cubic, down);
    let cu = cubic.times(up);
    let cd = cubic.times(down);
    assert(cu.raw >= 0 && cd.raw <= 0);
    let su = v.plus(cu);
    let sd = w.plus(cd);
    lemma_scaled(scale, su);
    lemma_scaled(scale, sd);
    assert(gelu_inner(v) == scale.times(su));
    assert(gelu_inner(w) == scale.times(sd));
    if n > 30 * 65536 {
        assert(su.raw >= n && sd.raw <= -n);
        assert(gelu_inner(v).raw > 524288);
        assert(gelu_inner(w).raw < -524288);
    } else {
        assert(n * n <= 1966080 * 1966080) by (nonlinear_arith)
            requires
                0 <= n <= 1966080,
        ;
        assert(m == n * n / 65536);
        assert(0 <= m * n <= 58982400 * 1966080) by (nonlinear_arith)
            requires
                0 <= n <= 1966080,
                0 <= m <= 58982400,
        ;
        assert(up.raw == m * n / 65536);
        assert(down.raw == -up.raw);
        assert(cd.raw == -cu.raw);
        assert(sd.raw == -su.raw);
        assert(gelu_inner(w).raw == -gelu_inner(v).raw);
        assert(gelu_inner(w) == negated(gelu_inner(v)));
    }
    law_tanh_odd(gelu_inner(v));
}

/// GELU lies between 0 and its argument, and `gelu(v) - gelu(-v)` is `v` but for two steps of
/// rounding.
pub proof fn law_gelu(v: Fixed)
    requires
        v.raw >= 0,
    ensures
        0 <= gelu_at(v).raw <= v.raw,
        -v.raw <= gelu_at(negated(v)).raw <= 0,
        v.raw - 2 <= gelu_at(v).raw - gelu_at(negated(v)).raw <= v.raw,
{
    lemma_inner_odd(v);
    let w = negated(v);
    let t = gelu_inner(v).tangent().raw as int;
    let half = Fixed { raw: 32768 };
    let n = v.raw as int;
    let h = n / 2;
    let one = Fixed { raw: 65536 };
    lemma_scaled(half, v);
    lemma_scaled(half, w);
    assert(half.times(v).raw == h);
    assert(half.times(w).raw == -h);
    let a = one.plus(gelu_inner(v).tangent());
    let b = one.plus(gelu_inner(w).tangent());
    assert(a.raw == 65536 + t && b.raw == 65536 - t);
    let x = h * a.raw;
    let y = h * b.raw;
    assert(0 <= x <= h * 131072 && 0 <= y <= h * 65536 && x + y == h * 131072) by (nonlinear_arith)
        requires
            h >= 0,
            x == h * (65536 + t),
            y == h * (65536 - t),
            0 <= t <= 65536,
    ;
    lemma_scaled(a, half.times(v));
    lemma_scaled(b, half.times(w));
    assert(a.raw * h == x && b.raw * h == y) by (nonlinear_arith)
        requires
            x == h * a.raw,
            y == h * b.raw,
    ;
    assert(product(half.times(v), a) == product(a, half.times(v))) by (nonlinear_arith);
    assert(product(half.times(w), b) == product(b, half.times(w))) by (nonlinear_arith);
    assert(gelu_at(v).raw == x / 65536);
    assert(gelu_at(w).raw == -(y / 65536));
}

/// What is stated of one number holds of every element.
pub proof fn law_gelu_values(x: Value<Fixed>, i: int)
    requires
        0 <= i < x.data.len(),
        x.data[i].raw > i32::MIN,
    ensures
        map_value(x, UnaryOp::Gelu).dims == x.dims,
        ({
            let v = x.data[i].raw;
            let y = map_value(x, UnaryOp::Gelu).data[i].raw;
            let z = gelu_at(negated(x.data[i])).raw;
            &&& v >= 0 ==> 0 <= y <= v
            &&& v <= 0 ==> v <= y <= 0
            &&& -2 <= y - z - v <= 2
        }),
{
    let v = x.data[i];
    if v.raw >= 0 {
        law_gelu(v);
    } else {
        law_gelu(negated(v));
        assert(negated(negated(v)) == v);
    }
}

/// `sqrt(2 / pi) * (1 + 0.044715 * (w * w + w * v + v * v))`: how steep the inner polynomial of
/// GELU is between `v` and `w`.
pub open spec fn inner_quotient<S: Scalar>(w: S, v: S) -> S {
    let cubic = S::constant_spec(Constant::GeluCubic);
    let squares = S::add_spec(S::add_spec(S::mul_spec(w, w), S::mul_spec(w, v)), S::mul_spec(v, v));
    S::mul_spec(
        S::constant_spec(Constant::GeluScale),
        S::add_spec(one(), S::mul_spec(cubic, squares)),
    )
}

/// `(w - v) * (w * w + w * v + v * v) == w^3 - v^3`
proof fn lemma_cubes<S: Scalar>(w: S, v: S)
    requires
        exact::<S>(),
        cancels::<S>(),
    ensures
        S::mul_spec(
            S::sub_spec(w, v),
            S::add_spec(S::add_spec(S::mul_spec(w, w), S::mul_spec(w, v)), S::mul_spec(v, v)),
        ) == S::sub_spec(
            S::mul_spec(S::mul_spec(w, w), w),
            S::mul_spec(S::mul_spec(v, v), v),
        ),
{
    let (a, b, c) = (S::mul_spec(w, w), S::mul_spec(w, v), S::mul_spec(v, v));
    let x = S::add_spec(S::add_spec(a, b), c);
    lemma_mul_sub(w, v, x);
    lemma_distribute(w, S::add_spec(a, b), c);
    lemma_distribute(w, a, b);
    lemma_distribute(v, S::add_spec(a, b), c);
    lemma_distribute(v, a, b);
    let (va, vb) = (S::mul_spec(v, a), S::mul_spec(v, b));
    let p = S::add_spec(va, vb);
    // w * b == v * a and w * c == v * b
    lemma_mul3(w, w, v);
    lemma_mul(v, a, zero());
    lemma_mul3(w, v, v);
    lemma_mul(a, w, zero());
    lemma_mul(c, v, zero());
    lemma_mul(b, v, zero());
    assert(S::mul_spec(w, b) == va);
    assert(S::mul_spec(w, c) == vb);
    let big = S::mul_spec(a, w);
    let small = S::mul_spec(c, v);
    assert(S::mul_spec(w, a) == big && S::mul_spec(v, c) == small);
    lemma_add(big, va, vb);
    lemma_add(p, small, zero());
    lemma_sub4(big, p, small, p);
    lemma_cancel(p, p);
    lemma_add(S::sub_spec(big, small), zero(), zero());
}

/// The inner polynomial of GELU rises from `v` to `w` by its steepness between them; where the
/// two meet, that is its slope.
pub proof fn law_gelu_inner<S: Scalar>(w: S, v: S)
    requires
        exact::<S>(),
        cancels::<S>(),
    ensures
        S::sub_spec(gelu_inner(w), gelu_inner(v)) == S::mul_spec(
            S::sub_spec(w, v),
            inner_quotient(w, v),
        ),
        ({
            let c = S::constant_spec(Constant::GeluCubic);
            S::constant_spec(Constant::GeluSlope) == S::add_spec(S::add_spec(c, c), c)
        }) ==> inner_quotient(v, v) == gelu_inner_slope(v),
{
    let scale = S::constant_spec(Constant::GeluScale);
    let c = S::constant_spec(Constant::GeluCubic);
    let (ww, vv) = (S::mul_spec(w, w), S::mul_spec(v, v));
    let (big, small) = (S::mul_spec(ww, w), S::mul_spec(vv, v));
    let (cb, cs) = (S::mul_spec(c, big), S::mul_spec(c, small));
    let q = S::add_spec(S::add_spec(ww, S::mul_spec(w, v)), vv);
    let d = S::sub_spec(w, v);
    lemma_mul_sub(S::add_spec(w, cb), S::add_spec(v, cs), scale);
    lemma_sub4(w, cb, v, cs);
    lemma_mul_sub(big, small, c);
    lemma_cubes(w, v);
    // d + c * (d * q) == d * (1 + c * q)
    lemma_mul3(c, d, q);
    lemma_distribute(d, one(), S::mul_spec(c, q));
    lemma_mul(d, one(), zero());
    lemma_mul3(scale, d, S::add_spec(one(), S::mul_spec(c, q)));
    // where they meet
    let k = S::constant_spec(Constant::GeluSlope);
    if k == S::add_spec(S::add_spec(c, c), c) {
        let three = S::add_spec(S::add_spec(vv, vv), vv);
        lemma_distribute(c, S::add_spec(vv, vv), vv);
        lemma_distribute(c, vv, vv);
        lemma_distribute(vv, S::add_spec(c, c), c);
        lemma_distribute(vv, c, c);
        lemma_mul(vv, c, zero());
        lemma_mul(k, v, v);
        lemma_mul(vv, k, zero());
    }
}

/// GELU rises from `v` to `w` as its inner polynomial and the hyperbolic tangent make it: with
/// `t` the steepness of the tangent between the inner values, by the step times
/// `half * (1 + tanh) + half * v * t * inner`. Where the two meet, and the tangent is as steep as
/// its derivative `1 - tanh^2`, that is the slope that gradients use.
pub proof fn law_gelu_slope<S: Scalar>(w: S, v: S, t: S)
    requires
        exact::<S>(),
        cancels::<S>(),
        S::tanh_spec(gelu_inner(w)) == S::add_spec(
            S::tanh_spec(gelu_inner(v)),
            S::mul_spec(S::sub_spec(gelu_inner(w), gelu_inner(v)), t),
        ),
    ensures
        S::sub_spec(
            UnaryOp::Gelu.apply_spec(w),
            UnaryOp::Gelu.apply_spec(v),
        ) == S::mul_spec(S::sub_spec(w, v), gelu_quotient(w, v, t)),
        ({
            let c = S::constant_spec(Constant::GeluCubic);
            let th = S::tanh_spec(gelu_inner(v));
            S::constant_spec(Constant::GeluSlope) == S::add_spec(S::add_spec(c, c), c)
                ==> gelu_quotient(v, v, S::sub_spec(one(), S::mul_spec(th, th)))
                == UnaryOp::GeluSlope.apply_spec(v)
        }),
{
    let half = S::constant_spec(Constant::Half);
    let (tw, tv) = (S::tanh_spec(gelu_inner(w)), S::tanh_spec(gelu_inner(v)));
    let (p, r) = (S::add_spec(one(), tw), S::add_spec(one(), tv));
    let d = S::sub_spec(w, v);
    let q = inner_quotient(w, v);
    let hv = S::mul_spec(half, v);
    law_gelu_inner(w, v);
    law_gelu_inner(v, v);
    // half * w == half * d + half * v
    lemma_cancel(w, v);
    lemma_distribute(half, d, v);
    let hd = S::mul_spec(half, d);
    lemma_distribute(p, hd, hv);
    let d1 = S::mul_spec(hd, p);
    let vp = S::mul_spec(hv, p);
    let vr = S::mul_spec(hv, r);
    assert(UnaryOp::Gelu.apply_spec(w) == S::add_spec(d1, vp));
    assert(UnaryOp::Gelu.apply_spec(v) == vr);
    // (d1 + vp) - vr == d1 + (vp - vr)
    lemma_cancel(d1, zero());
    lemma_add(zero(), vr, zero());
    lemma_add(vr, zero(), zero());
    lemma_sub4(d1, vp, zero(), vr);
    lemma_mul_sub(p, r, hv);
    // p - r == (d * q) * t
    let rise = S::mul_spec(S::mul_spec(d, q), t);
    lemma_sub4(one(), tw, one(), tv);
    lemma_cancel(one::<S>(), one());
    lemma_add(tv, rise, zero());
    lemma_cancel(rise, tv);
    lemma_add(rise, zero(), zero());
    assert(S::sub_spec(p, r) == rise);
    lemma_mul(d, q, t);
    let qt = S::mul_spec(q, t);
    lemma_mul3(hv, d, qt);
    lemma_mul3(half, d, p);
    lemma_mul(d, half, p);
    lemma_mul(d, half, zero());
    lemma_distribute(d, S::mul_spec(half, p), S::mul_spec(hv, qt));
    // where they meet
    let slope = S::sub_spec(one(), S::mul_spec(tv, tv));
    let i = gelu_inner_slope(v);
    lemma_mul(hv, slope, i);
    lemma_mul(i, slope, zero());
}

/// How steep GELU is between `v` and `w`, where the hyperbolic tangent is `t` steep between the
/// inner values.
pub open spec fn gelu_quotient<S: Scalar>(w: S, v: S, t: S) -> S {
    let half = S::constant_spec(Constant::Half);
    S::add_spec(
        S::mul_spec(half, S::add_spec(one(), S::tanh_spec(gelu_inner(w)))),
        S::mul_spec(S::mul_spec(half, v), S::mul_spec(inner_quotient(w, v), t)),
    )
}

/// The constants of GELU on fixed-point numbers: the scale, squared, times pi is 2, and the slope
/// of the cubic term is three times its factor, each but for rounding.
pub proof fn law_gelu_constants()
    ensures
        ({
            let scale = Fixed::constant_spec(Constant::GeluScale).raw;
            let pi = Fixed::constant_spec(Constant::Pi).raw;
            let cubic = Fixed::constant_spec(Constant::GeluCubic).raw;
            let slope = Fixed::constant_spec(Constant::GeluSlope).raw;
            let half = Fixed::constant_spec(Constant::Half).raw;
            &&& 0 <= 0x2_0000_0000_0000 - scale * scale * pi <= 0x100_0000_0000
            &&& 0 <= slope - 3 * cubic <= 3
            &&& half + half == 65536
            &&& 0 <= cubic * 1000000 - 44690 * 65536 <= 30 * 65536
        }),
{
}

/// The rectifier keeps what is positive and makes the rest zero, and it is its input times the
/// slope that gradients use, which is 1 above zero and 0 from there on down.
pub proof fn law_relu(x: Value<Fixed>, i: int)
    requires
        0 <= i < x.data.len(),
    ensures
        ({
            let v = x.data[i].raw;
            let y = map_value(x, UnaryOp::Relu).data[i].raw;
            let slope = map_value(x, UnaryOp::ReluSlope).data[i].raw;
            &&& map_value(x, UnaryOp::Relu).dims == x.dims
            &&& y >= 0 && y >= v && (y == 0 || y == v)
            &&& y * 65536 == v * slope
            &&& slope == 0 || slope == 65536
            &&& v > 0 <==> slope == 65536
        }),
{
    let v = x.data[i].raw as int;
    let slope = map_value(x, UnaryOp::ReluSlope).data[i].raw as int;
    if x.data[i].raw > 0 {
        assert(slope == 65536);
    } else {
        assert(slope == 0);
        assert(v * 0 == 0);
    }
}

} // verus!
