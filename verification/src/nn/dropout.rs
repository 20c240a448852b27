//! Dropout.
use vstd::prelude::*;
use crate::autograd::exact::exact;
use crate::autograd::ring::{invertible, lemma_inverse};
use crate::cpu::elementwise::{zip_ok, zip_value, BinaryOp};
use crate::create::shared;
use crate::dense::Value;
use crate::fixed::{quotient, Fixed};
use crate::forward::values;
use crate::handle::undisturbed;
use crate::index::{lemma_bounded_fits, numel};
use crate::nn::module::{lemma_first, lemma_next, lemma_ready, mine, plain, settle, yields};
use crate::nn::rng::{fraction, law_draw_in_unit, seeded, state_after, SimpleRng};
use crate::op::OpType;
use crate::runtime::{Mode, Runtime};
use crate::scalar::{one, zero, Constant, Scalar};
use crate::scope::{
    affords, lemma_affords, lemma_affords_less, lemma_affords_one, lemma_spent_trans,
};
use crate::switches::{after_draw, next_rng_counter, switched};
use crate::tensor::{Key, Tensor};
use crate::trail::{
    drops, law_move, lemma_join, lemma_move, lemma_once, lemma_tracks, walked, wants, Move,
};

verus! {

/// An odd number that spreads neighbouring counters over all seeds.
pub const SPREAD: u64 = 0x9E37_79B9_7F4A_7C15;

/// The seed of the mask that is drawn at a randomness counter.
pub open spec fn mask_seed(seed: u64, counter: u64) -> u64 {
    ((seed + counter * SPREAD) % 0x1_0000_0000_0000_0000) as u64
}

/// One factor of a mask: 0 with probability `p`, and else what keeps the mean.
pub open spec fn mask_at<S: Scalar>(p: S, u: S) -> S {
    if S::gt_spec(p, u) {
        zero::<S>()
    } else {
        S::div_spec(one::<S>(), S::sub_spec(one::<S>(), p))
    }
}

/// The mask that is drawn for `n` elements at a randomness counter.
pub open spec fn mask_data<S: Scalar>(p: S, seed: u64, counter: u64, n: nat) -> Seq<S> {
    let start = seeded(mask_seed(seed, counter));
    Seq::new(n, |i: int| mask_at(p, fraction(state_after(start, (i + 1) as nat))))
}

/// Draws a mask.
fn draw_mask<S: Scalar>(p: S, seed: u64, counter: u64, n: usize) -> (r: Vec<S>)
    ensures
        r@ == mask_data(p, seed, counter, n as nat),
{
    let mixed: u64 = seed.wrapping_add(counter.wrapping_mul(SPREAD));
    proof {
        lemma_mixed(seed, counter);
    }
    let mut rng = SimpleRng::new(mixed);
    let ghost start = rng@;
    let one_s = S::constant(Constant::One);
    let scale = one_s.div(one_s.sub(p));
    let mut out: Vec<S> = Vec::with_capacity(n);
    let mut i: usize = 0;
    while i < n
        invariant
            i <= n,
            start == seeded(mask_seed(seed, counter)),
            rng@ == state_after(start, i as nat),
            scale == S::div_spec(one::<S>(), S::sub_spec(one::<S>(), p)),
            out@.len() == i,
            forall|k: int|
                0 <= k < i ==> #[trigger] out@[k] == mask_data(p, seed, counter, n as nat)[k],
        decreases n - i,
    {
        let u: S = rng.next_f32();
        if p.gt(u) {
            out.push(S::constant(Constant::Zero));
        } else {
            out.push(scale);
        }
        i = i + 1;
    }
    assert(out@ =~= mask_data(p, seed, counter, n as nat));
    out
}

proof fn lemma_mixed(seed: u64, counter: u64)
    ensures
        seed.wrapping_add(counter.wrapping_mul(SPREAD)) == mask_seed(seed, counter),
{
    let m = 0x1_0000_0000_0000_0000int;
    let c = counter * SPREAD;
    let w = counter.wrapping_mul(SPREAD) as int;
    assert(w == c % m);
    vstd::arithmetic::div_mod::lemma_add_mod_noop_right(seed as int, c, m);
    assert((seed + w) % m == (seed + c) % m);
}

/// Dropout: in training every element is dropped with probability `p`, and those that stay are
/// scaled by `1 / (1 - p)`.
///
/// The mask is drawn from the randomness counter, so that a checkpointed block that is replayed
/// from the same counter drops the same elements.
#[derive(Debug, Clone, Copy)]
pub struct Dropout<S> {
    /// The probability that an element is dropped.
    pub p: S,
    /// What masks are drawn from, with the randomness counter.
    pub seed: u64,
}

impl<S: Scalar> Dropout<S> {
    /// Creates a new layer.
    #[must_use]
    pub fn new(p: S, seed: u64) -> (r: Self)
        ensures
            r == (Dropout { p, seed }),
    {
        Dropout { p, seed }
    }

    /// The mask for a value at a randomness counter.
    pub open spec fn mask(self, counter: u64, dims: Seq<usize>) -> Value<S> {
        Value { dims, data: mask_data(self.p, self.seed, counter, numel(dims)) }
    }

    /// The computation in training: the mask of a randomness counter, and the product with it.
    pub open spec fn moves(self, x: Tensor, counter: u64, outs: Seq<Tensor>) -> Seq<Move<S>> {
        seq![
            Move::New { value: self.mask(counter, x.shape@), out: outs[0] },
            Move::Op { op: OpType::Mul, ins: seq![x, outs[0]], out: outs[1] },
        ] + drops(seq![outs[0]])
    }

    /// Forward pass: the identity in evaluation mode, and a fresh mask in training mode.
    #[must_use]
    pub fn forward(&self, x: &Tensor, rt: &mut Runtime<S>) -> (r: Tensor)
        requires
            old(rt).wf(),
            old(rt).hooks.cpu_ops,
            affords(*old(rt), 2),
            mine(*old(rt), *x),
            zip_ok(x.value(old(rt).mem), self.mask(old(rt).mode.rng_counter, x.shape@)),
        ensures
            final(rt).wf(),
            mine(*final(rt), r),
            undisturbed(*old(rt), *final(rt)),
            !old(rt).mode.training ==> {
                &&& shared(*old(rt), *final(rt), *x, r, x.shape, x.strides)
                &&& r.value(final(rt).mem) == x.value(old(rt).mem)
            },
            old(rt).mode.training ==> exists|m: Runtime<S>|
                #[trigger] switched(*old(rt), m, after_draw(old(rt).mode)) && yields(
                    m,
                    *final(rt),
                    2,
                    r,
                    zip_value(
                        x.value(old(rt).mem),
                        self.mask(old(rt).mode.rng_counter, x.shape@),
                        BinaryOp::Mul,
                    ),
                ) && exists|outs: Seq<Tensor>|
                    walked(
                        m,
                        *final(rt),
                        #[trigger] self.moves(*x, old(rt).mode.rng_counter, outs),
                        outs,
                        2,
                        r,
                    ),
            wants(*final(rt), r) == (wants(*old(rt), *x) && (old(rt).mode.training
                ==> old(rt).mode.autograd_enabled)),
    {
        let ghost a = *rt;
        if !rt.mode.training {
            proof {
                lemma_affords_less(a, 2, 1);
                lemma_affords_one(a);
                assert(a.mem.refs(x.key()) + 6 <= usize::MAX);
            }
            return x.clone(rt);
        }
        let counter = next_rng_counter(rt);
        let ghost m = *rt;
        proof {
            reveal(affords);
            assert(m.holds() == a.holds());
            assert forall|k: Key| #[trigger] m.owners(k) == a.owners(k) by {}
            assert(affords(m, 2));
            assert(mine(m, *x));
            assert(x.value(m.mem) == x.value(a.mem));
            assert forall|u: Tensor| #[trigger] u.owned(a) implies u.owned(m) && u.block(m.mem)
                == u.block(a.mem) by {}
        }
        let r = self.apply(x, counter, rt);
        proof {
            assert(switched(a, m, after_draw(a.mode)));
            assert forall|u: Tensor| #[trigger] u.owned(a) implies u.owned(*rt) && (
            u.device is Cpu ==> u.block(rt.mem) == u.block(a.mem)) by {
                assert(u.owned(m));
                crate::scope::lemma_grown_owned(m, *rt, seq![r], u);
            }
            assert forall|u: Tensor| #[trigger] u.owned(*rt) && u.owned(a) implies (
            u.device is Cpu ==> u.block(rt.mem) == u.block(a.mem)) by {
                assert(u.owned(m));
                crate::scope::lemma_grown_owned(m, *rt, seq![r], u);
            }
        }
        r
    }

    /// Multiplies a tensor by the mask of a randomness counter.
    #[verifier::rlimit(60)]
    fn apply(&self, x: &Tensor, counter: u64, rt: &mut Runtime<S>) -> (r: Tensor)
        requires
            old(rt).wf(),
            old(rt).hooks.cpu_ops,
            affords(*old(rt), 2),
            mine(*old(rt), *x),
            zip_ok(x.value(old(rt).mem), self.mask(counter, x.shape@)),
        ensures
            final(rt).wf(),
            yields(
                *old(rt),
                *final(rt),
                2,
                r,
                zip_value(
                    x.value(old(rt).mem),
                    self.mask(counter, x.shape@),
                    BinaryOp::Mul,
                ),
            ),
            exists|outs: Seq<Tensor>|
                walked(
                    *old(rt),
                    *final(rt),
                    #[trigger] self.moves(*x, counter, outs),
                    outs,
                    2,
                    r,
                ),
            wants(*final(rt), r) == (old(rt).mode.autograd_enabled && wants(*old(rt), *x)),
    {
        let ghost a = *rt;
        proof {
            lemma_bounded_fits(x.shape@);
        }
        let shape = *x.shape();
        let n = shape.numel();
        let data = draw_mask(self.p, self.seed, counter, n);
        proof {
            lemma_affords_less(a, 2, 1);
        }
        let mask = plain(data, shape, rt);
        let ghost b = *rt;
        let ghost t1 = Seq::empty().push(mask);
        proof {
            lemma_first(a, b, mask);
            lemma_affords(a, b, 1, 1);
            crate::nn::module::lemma_mine(a, b, t1, *x);
            assert(values(seq![*x, mask], b.mem) =~= seq![x.value(b.mem), mask.value(b.mem)]);
            lemma_ready(b, OpType::Mul, seq![*x, mask]);
        }
        let r = x.mul(&mask, rt);
        let ghost c = *rt;
        let ghost m1 = Move::New { value: self.mask(counter, x.shape@), out: mask };
        let ghost m2 = Move::Op { op: OpType::Mul, ins: seq![*x, mask], out: r };
        proof {
            lemma_next(a, b, c, t1, r, 1, 1);
            lemma_once(a, b, m1);
            law_move(a, m1, b);
            lemma_move(a, b, c, seq![m1], m2);
            law_move(b, m2, c);
            lemma_tracks(b, OpType::Mul, seq![*x, mask]);
        }
        let mut used: Vec<Tensor> = Vec::new();
        used.push(mask);
        assert(used@ =~= seq![mask]);
        settle(used, &r, rt, Ghost(a));
        proof {
            lemma_spent_trans(a, c, *rt, 2, 0);
            lemma_join(a, c, *rt, seq![m1].push(m2), drops(seq![mask]));
            let outs = seq![mask, r];
            assert(self.moves(*x, counter, outs) =~= seq![m1].push(m2) + drops(seq![mask]));
            assert(walked(a, *rt, self.moves(*x, counter, outs), outs, 2, r));
        }
        r
    }
}

/// Replayed from the same randomness counter, a dropout layer draws the same mask, and the next
/// layer draws its own.
pub proof fn law_dropout_replay<S: Scalar>(
    layer: Dropout<S>,
    a: Runtime<S>,
    b: Runtime<S>,
    dims: Seq<usize>,
)
    requires
        b.mode.rng_counter == a.mode.rng_counter,
    ensures
        layer.mask(b.mode.rng_counter, dims) == layer.mask(a.mode.rng_counter, dims),
        after_draw(b.mode).rng_counter == after_draw(a.mode).rng_counter,
        after_draw(a.mode).rng_counter != a.mode.rng_counter,
{
}

/// Dropout keeps the mean: an element is dropped, or scaled by what is 1 when it is taken `1 - p`
/// times, so that a factor of `1 - p` kept elements and 0 for the others average to 1.
pub proof fn law_dropout_mean<S: Scalar>(layer: Dropout<S>, counter: u64, dims: Seq<usize>, i: int)
    requires
        exact::<S>(),
        invertible(S::sub_spec(one(), layer.p)),
        0 <= i < numel(dims),
    ensures
        ({
            let f = layer.mask(counter, dims).data[i];
            f == zero::<S>() || S::mul_spec(f, S::sub_spec(one(), layer.p)) == one::<S>()
        }),
{
    lemma_inverse(one(), S::sub_spec(one(), layer.p));
}

/// Which elements are dropped: with probability 0 none, with probability 1 all, and with a higher
/// probability at least those of a lower one. Those that stay are scaled by a factor that, taken
/// `1 - p` times, is 1 but for rounding, as far as that factor is a number.
pub proof fn law_dropout_drops(
    low: Dropout<Fixed>,
    high: Dropout<Fixed>,
    counter: u64,
    dims: Seq<usize>,
    i: int,
)
    requires
        low.seed == high.seed,
        0 <= low.p.raw <= high.p.raw,
        0 <= i < numel(dims),
    ensures
        ({
            let a = low.mask(counter, dims).data[i];
            let b = high.mask(counter, dims).data[i];
            &&& low.p.raw == 0 ==> a.raw == 65536
            &&& low.p.raw >= 65536 ==> a.raw == 0
            &&& a.raw == 0 && low.p.raw < 65536 ==> b.raw == 0
            &&& low.p.raw < 65534 && a.raw != 0 ==> a.raw * (65536 - low.p.raw) <= 0x1_0000_0000
                && 0x1_0000_0000 < (a.raw + 1) * (65536 - low.p.raw)
        }),
{
    let start = seeded(mask_seed(low.seed, counter));
    let draw = state_after(start, (i + 1) as nat);
    law_draw_in_unit(draw);
    let u = fraction::<Fixed>(draw);
    let p = low.p.raw as int;
    if p < 65536 {
        let d = 65536 - p;
        let q = 0x1_0000_0000int / d;
        assert(q * d <= 0x1_0000_0000 && 0x1_0000_0000 < (q + 1) * d && 65536 <= q) by (
            nonlinear_arith)
            requires
                0 < d <= 65536,
                q == 0x1_0000_0000int / d,
        ;
        if d >= 3 {
            assert(q <= 0x5555_5556) by (nonlinear_arith)
                requires
                    q * d <= 0x1_0000_0000,
                    d >= 3,
            ;
        }
        let one = Fixed { raw: 65536 };
        let f = one.over(one.minus(low.p));
        assert(one.minus(low.p).raw == d);
        assert(quotient(one, one.minus(low.p)) == q);
        assert(f.raw > 0);
    }
}

/// Different randomness counters draw from different seeds, so that masks do not repeat from one
/// layer or step to the next.
pub proof fn law_masks_differ(seed: u64, a: u64, b: u64)
    requires
        a != b,
    ensures
        mask_seed(seed, a) != mask_seed(seed, b),
{
    if mask_seed(seed, a) == mask_seed(seed, b) {
        let m = 0x1_0000_0000_0000_0000int;
        let spread = SPREAD as int;
        let (x, y) = (a as int, b as int);
        let (p, q) = (seed + x * spread, seed + y * spread);
        assert(p % m == q % m);
        let t = p / m - q / m;
        vstd::arithmetic::div_mod::lemma_fundamental_div_mod(p, m);
        vstd::arithmetic::div_mod::lemma_fundamental_div_mod(q, m);
        assert(m * (p / m) - m * (q / m) == m * t) by (nonlinear_arith)
            requires
                t == p / m - q / m,
        ;
        assert(x * spread - y * spread == m * t);
        let d = x - y;
        assert(d * spread == m * t) by (nonlinear_arith)
            requires
                d == x - y,
                x * spread - y * spread == m * t,
        ;
        // the spread has an inverse
        let inv = 0xf1de83e19937733dint;
        let k = 0x957bbf35006ed677int;
        assert(spread * inv == 1 + k * m);
        assert(d * (spread * inv) == (d * spread) * inv) by (nonlinear_arith);
        assert(d * (1 + k * m) == d + m * (d * k)) by (nonlinear_arith);
        assert((m * t) * inv == m * (t * inv)) by (nonlinear_arith);
        let r = t * inv - d * k;
        assert(m * (t * inv) - m * (d * k) == m * r) by (nonlinear_arith)
            requires
                r == t * inv - d * k,
        ;
        assert(d == m * r);
        assert(r == 0) by (nonlinear_arith)
            requires
                d == m * r,
                -m < d < m,
                m > 0,
        ;
    }
}

/// Every mask takes a new randomness counter.
pub proof fn law_counter_advances(mode: Mode)
    requires
        mode.rng_counter < u64::MAX,
    ensures
        after_draw(mode).rng_counter == mode.rng_counter + 1,
        after_draw(mode).training == mode.training,
        after_draw(mode).autograd_enabled == mode.autograd_enabled,
{
}

/// In fixed point an element is dropped for the share `p` of the draws: those below `p * 2^64`.
pub proof fn law_dropped_share(p: Fixed, draw: u64)
    requires
        0 <= p.raw <= 65534,
    ensures
        mask_at(p, fraction::<Fixed>(draw)).raw == 0 <==> draw < p.raw * 0x1_0000_0000_0000,
{
    law_draw_in_unit(draw);
    let d = 65536 - p.raw;
    let one = Fixed { raw: 65536 };
    assert(one.minus(p).raw == d);
    let q = 0x1_0000_0000int / d;
    assert(q >= 65536) by (nonlinear_arith)
        requires
            0 < d <= 65536,
            q == 0x1_0000_0000int / d,
    ;
    assert(quotient(one, one.minus(p)) == q);
}

} // verus!
