//! What the optimizers do, in exact arithmetic.
use vstd::prelude::*;
use crate::autograd::exact::{
    exact, lemma_add, lemma_derived, lemma_distribute, lemma_mul, lemma_total_eq, lemma_total_mul,
    total,
};
use crate::autograd::ring::{
    cancels, invertible, lemma_cancel, lemma_inverse, lemma_mul3, lemma_mul4, lemma_mul_sub,
    rooted,
};
use crate::index::numel;
use crate::mutate::{
    adam_m, adam_params, adam_v, decayed_grad, scaled_sum, sgd_params, sgd_velocity, AdamSettings,
};
use crate::optim::{
    clip_scale, grad_data, grad_norm, has_grad, rescaled, rows_are_zero, square_sum, total_square, CosineSchedule,
};
use crate::runtime::Runtime;
use crate::scalar::{one, zero, Constant, Scalar};
use crate::tensor::Tensor;

verus! {

/// A product of `n` equal factors.
pub open spec fn power<S: Scalar>(a: S, n: nat) -> S
    decreases n,
{
    if n == 0 {
        one()
    } else {
        S::mul_spec(a, power(a, (n - 1) as nat))
    }
}

/// A step of SGD: the velocity keeps `momentum` times what it was and takes on the gradient and
/// the decay of the parameter, and the parameter goes against the velocity.
pub proof fn law_sgd_step<S: Scalar>(
    p: Seq<S>,
    g: Seq<S>,
    v: Seq<S>,
    lr: S,
    momentum: S,
    weight_decay: S,
    i: int,
)
    requires
        exact::<S>(),
        cancels::<S>(),
        p.len() == g.len() == v.len(),
        0 <= i < p.len(),
    ensures
        ({
            let q = sgd_params(p, g, v, lr, momentum, weight_decay);
            let w = sgd_velocity(p, g, v, momentum, weight_decay);
            &&& q.len() == p.len() && w.len() == p.len()
            &&& S::sub_spec(w[i], S::mul_spec(momentum, v[i])) == S::add_spec(
                g[i],
                S::mul_spec(weight_decay, p[i]),
            )
            &&& S::sub_spec(p[i], q[i]) == S::mul_spec(lr, w[i])
        }),
{
    let a = S::mul_spec(momentum, v[i]);
    let b = decayed_grad(p[i], g[i], weight_decay);
    lemma_derived(weight_decay, zero(), zero());
    lemma_mul(p[i], zero(), zero());
    lemma_add(g[i], zero(), zero());
    assert(b == S::add_spec(g[i], S::mul_spec(weight_decay, p[i])));
    lemma_add(a, b, zero());
    lemma_cancel(b, a);
    lemma_cancel(p[i], S::mul_spec(lr, S::add_spec(a, b)));
}

/// Parameters and velocities after `n` steps of SGD with the same gradient.
pub open spec fn descended<S: Scalar>(
    p: Seq<S>,
    g: Seq<S>,
    v: Seq<S>,
    lr: S,
    momentum: S,
    weight_decay: S,
    n: nat,
) -> (Seq<S>, Seq<S>)
    decreases n,
{
    if n == 0 {
        (p, v)
    } else {
        let (q, w) = descended(p, g, v, lr, momentum, weight_decay, (n - 1) as nat);
        (
            sgd_params(q, g, w, lr, momentum, weight_decay),
            sgd_velocity(q, g, w, momentum, weight_decay),
        )
    }
}

/// Momentum adds up: after `n` steps with one gradient, from rest and without decay, the velocity
/// is the gradient times `1 + momentum + ... + momentum^(n - 1)`.
pub proof fn law_sgd_momentum<S: Scalar>(
    p: Seq<S>,
    g: Seq<S>,
    v: Seq<S>,
    lr: S,
    momentum: S,
    n: nat,
    i: int,
)
    requires
        exact::<S>(),
        cancels::<S>(),
        p.len() == g.len() == v.len(),
        0 <= i < p.len(),
        v[i] == zero::<S>(),
    ensures
        ({
            let (q, w) = descended(p, g, v, lr, momentum, zero(), n);
            &&& q.len() == p.len() && w.len() == p.len()
            &&& w[i] == S::mul_spec(g[i], total(n, |k: int| power(momentum, k as nat)))
        }),
    decreases n,
{
    let f = |k: int| power(momentum, k as nat);
    lemma_mul(g[i], zero(), zero());
    if n > 0 {
        let m = (n - 1) as nat;
        law_sgd_momentum(p, g, v, lr, momentum, m, i);
        let (q, w) = descended(p, g, v, lr, momentum, zero(), m);
        let t = total(m, f);
        law_sgd_step(q, g, w, lr, momentum, zero(), i);
        lemma_mul(zero(), q[i], zero());
        lemma_mul(q[i], zero(), zero());
        lemma_add(g[i], zero(), zero());
        let next = sgd_velocity(q, g, w, momentum, zero())[i];
        let a = S::mul_spec(momentum, w[i]);
        assert(S::sub_spec(next, a) == g[i]);
        lemma_cancel(next, a);
        assert(next == S::add_spec(g[i], a));
        // momentum * (g * t) == g * (momentum * t)
        lemma_mul3(momentum, g[i], t);
        lemma_distribute(g[i], one(), S::mul_spec(momentum, t));
        lemma_mul(g[i], one(), zero());
        lemma_geometric(momentum, m);
    }
}

/// `1 + a * (1 + a + ... + a^(n - 1)) == 1 + a + ... + a^n`
proof fn lemma_geometric<S: Scalar>(a: S, n: nat)
    requires
        exact::<S>(),
    ensures
        S::add_spec(one(), S::mul_spec(a, total(n, |k: int| power(a, k as nat)))) == total(
            (n + 1) as nat,
            |k: int| power(a, k as nat),
        ),
    decreases n,
{
    let f = |k: int| power(a, k as nat);
    let t = total(n, f);
    assert(total((n + 1) as nat, f) == S::add_spec(t, f(n as int)));
    if n == 0 {
        lemma_mul(a, zero(), zero());
        lemma_add(one::<S>(), zero(), zero());
    } else {
        let m = (n - 1) as nat;
        lemma_geometric(a, m);
        let u = total(m, f);
        assert(t == S::add_spec(u, f(m as int)));
        assert(t == S::add_spec(one(), S::mul_spec(a, u)));
        // a * t == a * u + a^n
        lemma_distribute(a, u, f(m as int));
        lemma_add(one(), S::mul_spec(a, u), S::mul_spec(a, f(m as int)));
    }
}

/// A step of AdamW: each moment stays as far from the new gradient, or its square, as the decay
/// rate keeps of the old distance.
pub proof fn law_adam_moments<S: Scalar>(
    g: Seq<S>,
    m: Seq<S>,
    v: Seq<S>,
    s: AdamSettings<S>,
    i: int,
)
    requires
        exact::<S>(),
        cancels::<S>(),
        g.len() == m.len() == v.len(),
        0 <= i < g.len(),
    ensures
        ({
            let square = S::mul_spec(g[i], g[i]);
            &&& S::sub_spec(adam_m(g, m, s)[i], g[i]) == S::mul_spec(
                s.beta1,
                S::sub_spec(m[i], g[i]),
            )
            &&& S::sub_spec(adam_v(g, v, s)[i], square) == S::mul_spec(
                s.beta2,
                S::sub_spec(v[i], square),
            )
        }),
{
    lemma_average(m[i], g[i], s.beta1);
    lemma_average(v[i], S::mul_spec(g[i], g[i]), s.beta2);
    lemma_mul(S::sub_spec(one(), s.beta2), g[i], g[i]);
}

/// `(b * m + (1 - b) * g) - g == b * (m - g)`
proof fn lemma_average<S: Scalar>(m: S, g: S, b: S)
    requires
        exact::<S>(),
        cancels::<S>(),
    ensures
        S::sub_spec(
            S::add_spec(S::mul_spec(b, m), S::mul_spec(S::sub_spec(one(), b), g)),
            g,
        ) == S::mul_spec(b, S::sub_spec(m, g)),
{
    let bm = S::mul_spec(b, m);
    let bg = S::mul_spec(b, g);
    let neg = S::constant_spec(Constant::NegOne);
    lemma_mul_sub(one(), b, g);
    lemma_mul(g, one(), zero());
    lemma_mul_sub(m, g, b);
    // (bm + (g - bg)) - g == bm - bg
    lemma_derived(g, bg, zero());
    lemma_derived(bm, bg, zero());
    let nb = S::mul_spec(bg, neg);
    lemma_add(bm, g, nb);
    lemma_add(g, nb, zero());
    lemma_add(bm, nb, g);
    lemma_cancel(S::add_spec(bm, nb), g);
}

/// Moments after `n` steps with the same gradient.
pub open spec fn averaged<S: Scalar>(
    g: Seq<S>,
    m: Seq<S>,
    v: Seq<S>,
    s: AdamSettings<S>,
    n: nat,
) -> (Seq<S>, Seq<S>)
    decreases n,
{
    if n == 0 {
        (m, v)
    } else {
        let (a, b) = averaged(g, m, v, s, (n - 1) as nat);
        (adam_m(g, a, s), adam_v(g, b, s))
    }
}

/// The bias correction undoes the start from zero: after `n` steps with one gradient the moments
/// are `1 - beta^n` times the gradient and its square.
pub proof fn law_adam_bias<S: Scalar>(
    g: Seq<S>,
    m: Seq<S>,
    v: Seq<S>,
    s: AdamSettings<S>,
    n: nat,
    i: int,
)
    requires
        exact::<S>(),
        cancels::<S>(),
        g.len() == m.len() == v.len(),
        0 <= i < g.len(),
        m[i] == zero::<S>(),
        v[i] == zero::<S>(),
    ensures
        ({
            let (a, b) = averaged(g, m, v, s, n);
            let square = S::mul_spec(g[i], g[i]);
            &&& a.len() == g.len() && b.len() == g.len()
            &&& a[i] == S::mul_spec(S::sub_spec(one(), power(s.beta1, n)), g[i])
            &&& b[i] == S::mul_spec(S::sub_spec(one(), power(s.beta2, n)), square)
        }),
    decreases n,
{
    let square = S::mul_spec(g[i], g[i]);
    if n == 0 {
        lemma_cancel(one::<S>(), one());
        lemma_mul(g[i], zero(), zero());
        lemma_mul(square, zero(), zero());
    } else {
        let k = (n - 1) as nat;
        law_adam_bias(g, m, v, s, k, i);
        let (a, b) = averaged(g, m, v, s, k);
        law_adam_moments(g, a, b, s, i);
        lemma_bias(s.beta1, g[i], a[i], adam_m(g, a, s)[i], k);
        lemma_bias(s.beta2, square, b[i], adam_v(g, b, s)[i], k);
    }
}

proof fn lemma_bias<S: Scalar>(b: S, g: S, old: S, new: S, k: nat)
    requires
        exact::<S>(),
        cancels::<S>(),
        old == S::mul_spec(S::sub_spec(one(), power(b, k)), g),
        S::sub_spec(new, g) == S::mul_spec(b, S::sub_spec(old, g)),
    ensures
        new == S::mul_spec(S::sub_spec(one(), power(b, (k + 1) as nat)), g),
{
    let q = power(b, k);
    let qg = S::mul_spec(q, g);
    let neg = S::constant_spec(Constant::NegOne);
    assert(power(b, (k + 1) as nat) == S::mul_spec(b, q));
    lemma_mul_sub(one(), q, g);
    lemma_mul(g, one(), zero());
    // old - g == (g - qg) - g == qg * neg
    lemma_derived(g, qg, zero());
    lemma_add(g, S::mul_spec(qg, neg), zero());
    lemma_cancel(S::mul_spec(qg, neg), g);
    assert(S::sub_spec(old, g) == S::mul_spec(qg, neg));
    // new == b * (qg * neg) + g
    lemma_cancel(new, g);
    lemma_mul(b, qg, neg);
    lemma_mul(b, q, g);
    let bqg = S::mul_spec(S::mul_spec(b, q), g);
    lemma_add(S::mul_spec(bqg, neg), g, zero());
    lemma_derived(g, bqg, zero());
    lemma_mul_sub(one(), S::mul_spec(b, q), g);
}

/// The move of AdamW: apart from its decay by `lr * weight_decay`, a parameter goes against its
/// first moment by `lr`, over the root of its second moment and `epsilon`; both moments are taken
/// over `1 - beta^t`.
pub proof fn law_adam_move<S: Scalar>(
    p: Seq<S>,
    g: Seq<S>,
    m: Seq<S>,
    v: Seq<S>,
    t: u32,
    s: AdamSettings<S>,
    mean: S,
    square: S,
    i: int,
)
    requires
        exact::<S>(),
        cancels::<S>(),
        p.len() == g.len() == m.len() == v.len(),
        0 <= i < p.len(),
        t <= i32::MAX,
        S::powi_spec(s.beta1, t as i32) == power(s.beta1, t as nat),
        S::powi_spec(s.beta2, t as i32) == power(s.beta2, t as nat),
        invertible(S::sub_spec(one(), power(s.beta1, t as nat))),
        invertible(S::sub_spec(one(), power(s.beta2, t as nat))),
        S::mul_spec(mean, S::sub_spec(one(), power(s.beta1, t as nat))) == adam_m(g, m, s)[i],
        S::mul_spec(square, S::sub_spec(one(), power(s.beta2, t as nat))) == adam_v(g, v, s)[i],
        invertible(S::add_spec(S::sqrt_spec(square), s.epsilon)),
    ensures
        ({
            let decayed = S::sub_spec(p[i], S::mul_spec(S::mul_spec(s.lr, s.weight_decay), p[i]));
            S::mul_spec(
                S::sub_spec(decayed, adam_params(p, g, m, v, t, s)[i]),
                S::add_spec(S::sqrt_spec(square), s.epsilon),
            ) == S::mul_spec(s.lr, mean)
        }),
{
    let b1 = S::sub_spec(one(), power(s.beta1, t as nat));
    let b2 = S::sub_spec(one(), power(s.beta2, t as nat));
    lemma_inverse(mean, b1);
    lemma_inverse(square, b2);
    let den = S::add_spec(S::sqrt_spec(square), s.epsilon);
    let top = S::mul_spec(s.lr, mean);
    let decayed = S::sub_spec(p[i], S::mul_spec(S::mul_spec(s.lr, s.weight_decay), p[i]));
    lemma_inverse(top, den);
    lemma_cancel(decayed, S::div_spec(top, den));
}

/// The warmup rises in equal steps: `warmup_steps + 1` of them make up the base rate.
pub proof fn law_warmup<S: Scalar>(c: CosineSchedule<S>, step: u32)
    requires
        exact::<S>(),
        invertible(S::add_spec(S::count_spec(c.warmup_steps as usize), one())),
    ensures
        S::mul_spec(
            c.warmup_lr(step),
            S::add_spec(S::count_spec(c.warmup_steps as usize), one()),
        ) == S::mul_spec(c.base_lr, S::add_spec(S::count_spec(step as usize), one())),
{
    lemma_inverse(
        S::mul_spec(c.base_lr, S::add_spec(S::count_spec(step as usize), one())),
        S::add_spec(S::count_spec(c.warmup_steps as usize), one()),
    );
}

/// The decay follows half a wave of the cosine from the base rate to the smallest rate: where
/// `progress` is the part of the decay that is over, the rate lies `1 + cos(pi * progress)` halves
/// of the range above the smallest; it starts at the base rate and ends at the smallest.
pub proof fn law_cosine_decay<S: Scalar>(c: CosineSchedule<S>, step: u32, progress: S)
    requires
        exact::<S>(),
        cancels::<S>(),
        c.warmup_steps <= step <= c.total_steps,
        c.warmup_steps < c.total_steps,
        invertible(S::count_spec((c.total_steps - c.warmup_steps) as usize)),
        S::add_spec(S::constant_spec(Constant::Half), S::constant_spec(Constant::Half)) == one::<
            S,
        >(),
        S::mul_spec(progress, S::count_spec((c.total_steps - c.warmup_steps) as usize))
            == S::count_spec((step - c.warmup_steps) as usize),
    ensures
        ({
            let wave = S::cos_spec(S::mul_spec(S::constant_spec(Constant::Pi), progress));
            let above = S::sub_spec(c.decay_lr(step), c.min_lr);
            &&& S::add_spec(above, above) == S::mul_spec(
                S::add_spec(one(), wave),
                S::sub_spec(c.base_lr, c.min_lr),
            )
            &&& wave == one::<S>() ==> c.decay_lr(step) == c.base_lr
            &&& wave == S::constant_spec(Constant::NegOne) ==> c.decay_lr(step) == c.min_lr
        }),
{
    let half = S::constant_spec(Constant::Half);
    let n = S::count_spec((c.total_steps - c.warmup_steps) as usize);
    lemma_inverse(progress, n);
    let wave = S::cos_spec(S::mul_spec(S::constant_spec(Constant::Pi), progress));
    let w = S::add_spec(one(), wave);
    let range = S::sub_spec(c.base_lr, c.min_lr);
    let coeff = S::mul_spec(half, w);
    let part = S::mul_spec(coeff, range);
    assert(c.decay_lr(step) == S::add_spec(c.min_lr, part));
    lemma_add(c.min_lr, part, zero());
    lemma_cancel(part, c.min_lr);
    // part + part == w * range
    lemma_mul(half, w, range);
    let wr = S::mul_spec(w, range);
    lemma_distribute(wr, half, half);
    lemma_mul(half, wr, zero());
    lemma_mul(wr, one(), zero());
    // the ends
    if wave == one::<S>() {
        lemma_distribute(half, one(), one());
        lemma_mul(half, one(), zero());
        assert(coeff == one::<S>());
        lemma_mul(range, one(), zero());
        lemma_cancel(c.base_lr, c.min_lr);
        lemma_add(c.min_lr, range, zero());
    }
    if wave == S::constant_spec(Constant::NegOne) {
        lemma_mul(half, zero(), zero());
        lemma_mul(range, zero(), zero());
        lemma_add(c.min_lr, zero(), zero());
    }
}

/// The sum of squares of a list is what it says.
pub proof fn law_square_sum<S: Scalar>(data: Seq<S>, n: nat, init: S)
    requires
        exact::<S>(),
        n <= data.len(),
    ensures
        square_sum(data, n, init) == S::add_spec(
            init,
            total(n, |i: int| S::mul_spec(data[i], data[i])),
        ),
    decreases n,
{
    let f = |i: int| S::mul_spec(data[i], data[i]);
    lemma_add(init, zero(), zero());
    if n > 0 {
        let m = (n - 1) as nat;
        law_square_sum(data, m, init);
        let v = data[n - 1];
        lemma_derived(v, v, square_sum(data, m, init));
        lemma_add(f(n - 1), square_sum(data, m, init), zero());
        lemma_add(init, total(m, f), f(n - 1));
    }
}

/// The squares of the gradient of parameter `k`, added up; 0 where it has none.
pub open spec fn own_square<S: Scalar>(rt: Runtime<S>, params: Seq<Tensor>, k: int) -> S {
    let p = params[k];
    if has_grad(rt, p) {
        let g = grad_data(rt, p);
        total(g.len(), |i: int| S::mul_spec(g[i], g[i]))
    } else {
        zero()
    }
}

proof fn lemma_total_square<S: Scalar>(rt: Runtime<S>, params: Seq<Tensor>, n: nat)
    requires
        exact::<S>(),
        n <= params.len(),
    ensures
        total_square(rt, params, n) == total(n, |k: int| own_square(rt, params, k)),
    decreases n,
{
    if n > 0 {
        let m = (n - 1) as nat;
        lemma_total_square(rt, params, m);
        let before = total_square(rt, params, m);
        let p = params[n - 1];
        if has_grad(rt, p) {
            let g = grad_data(rt, p);
            law_square_sum(g, g.len(), before);
        } else {
            lemma_add(before, zero(), zero());
        }
    }
}

/// The norm of the gradients, squared, is the sum of the squares of all their elements.
pub proof fn law_grad_norm<S: Scalar>(rt: Runtime<S>, params: Seq<Tensor>)
    requires
        exact::<S>(),
        rooted(total(params.len(), |k: int| own_square(rt, params, k))),
    ensures
        S::mul_spec(grad_norm(rt, params), grad_norm(rt, params)) == total(
            params.len(),
            |k: int| own_square(rt, params, k),
        ),
{
    lemma_total_square(rt, params, params.len());
}

/// Clipping brings the norm, raised by a small floor, down to the limit, and the squares of a
/// clipped gradient add up to the square of the factor times what they added up to.
pub proof fn law_clip<S: Scalar>(norm: S, max_norm: S, g: Seq<S>, scale: S)
    requires
        exact::<S>(),
        invertible(S::add_spec(norm, S::constant_spec(Constant::ClipFloor))),
    ensures
        S::mul_spec(
            clip_scale(norm, max_norm),
            S::add_spec(norm, S::constant_spec(Constant::ClipFloor)),
        ) == max_norm,
        rescaled(g, scale).len() == g.len(),
        total(
            g.len(),
            |i: int| S::mul_spec(rescaled(g, scale)[i], rescaled(g, scale)[i]),
        ) == S::mul_spec(
            S::mul_spec(scale, scale),
            total(g.len(), |i: int| S::mul_spec(g[i], g[i])),
        ),
{
    lemma_inverse(max_norm, S::add_spec(norm, S::constant_spec(Constant::ClipFloor)));
    let f = |i: int| S::mul_spec(g[i], g[i]);
    let c = S::mul_spec(scale, scale);
    let x = |i: int| S::mul_spec(rescaled(g, scale)[i], rescaled(g, scale)[i]);
    let y = |i: int| S::mul_spec(c, f(i));
    assert forall|i: int| 0 <= i < g.len() implies #[trigger] x(i) == y(i) by {
        lemma_mul4(g[i], scale, g[i], scale);
        lemma_mul(f(i), c, zero());
    }
    lemma_total_eq(g.len(), x, y);
    lemma_total_mul(g.len(), c, f);
}

/// The schedule: the base rate at the end of the warmup, the smallest rate behind the last step,
/// and in between and before what the laws of warmup and decay say.
pub proof fn law_schedule<S: Scalar>(c: CosineSchedule<S>, step: u32)
    requires
        exact::<S>(),
        cancels::<S>(),
        c.warmup_steps < c.total_steps,
        S::count_spec(0) == zero::<S>(),
        S::cos_spec(zero()) == one::<S>(),
        invertible(S::count_spec((c.total_steps - c.warmup_steps) as usize)),
        S::add_spec(S::constant_spec(Constant::Half), S::constant_spec(Constant::Half)) == one::<
            S,
        >(),
    ensures
        c.rate(c.warmup_steps) == c.base_lr,
        step > c.total_steps ==> c.rate(step) == c.min_lr,
        step < c.warmup_steps ==> c.rate(step) == c.warmup_lr(step),
        c.warmup_steps <= step <= c.total_steps ==> c.rate(step) == c.decay_lr(step),
{
    let n = S::count_spec((c.total_steps - c.warmup_steps) as usize);
    lemma_mul(n, zero(), zero());
    lemma_mul(S::constant_spec(Constant::Pi), zero(), zero());
    law_cosine_decay(c, c.warmup_steps, zero());
}

/// The optimizers start at rest: the velocities and moments of every parameter are zero, one for
/// each of its elements.
pub proof fn law_start_at_rest<S: Scalar>(
    params: Seq<Tensor>,
    rows: Seq<Vec<S>>,
    k: int,
    i: int,
)
    requires
        rows_are_zero(params, rows),
        0 <= k < params.len(),
        0 <= i < numel(params[k].shape@),
    ensures
        rows.len() == params.len(),
        rows[k]@.len() == numel(params[k].shape@),
        rows[k]@[i] == zero::<S>(),
{
}

/// Adding a scaled list moves every element by its share.
pub proof fn law_scaled_sum<S: Scalar>(x: Seq<S>, y: Seq<S>, scale: S, i: int)
    requires
        exact::<S>(),
        cancels::<S>(),
        x.len() == y.len(),
        0 <= i < x.len(),
    ensures
        scaled_sum(x, y, scale).len() == x.len(),
        S::sub_spec(scaled_sum(x, y, scale)[i], x[i]) == S::mul_spec(scale, y[i]),
{
    lemma_add(x[i], S::mul_spec(scale, y[i]), zero());
    lemma_cancel(S::mul_spec(scale, y[i]), x[i]);
}

} // verus!
