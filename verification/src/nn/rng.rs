//! A small deterministic random number generator.
use vstd::prelude::*;
use crate::autograd::exact::{exact, lemma_add};
use crate::autograd::ring::{cancels, lemma_cancel};
use crate::fixed::Fixed;
use crate::scalar::{zero, Scalar};

verus! {

/// The state that follows a state.
pub open spec fn xorshift(x: u64) -> u64 {
    let a = x ^ (x << 13);
    let b = a ^ (a >> 7);
    b ^ (b << 17)
}

/// The state after `n` draws.
pub open spec fn state_after(state: u64, n: nat) -> u64
    decreases n,
{
    if n == 0 {
        state
    } else {
        xorshift(state_after(state, (n - 1) as nat))
    }
}

/// The state that a seed starts from: a seed of 0 would stay 0 forever.
pub open spec fn seeded(seed: u64) -> u64 {
    if seed == 0 {
        0x1234_5678_9ABC_DEF0
    } else {
        seed
    }
}

/// The largest draw whose fraction is below 1 after rounding.
pub const LARGEST_DRAW: u64 = 0xFFFF_FF00_0000_0000;

/// A draw as a fraction of `2^64`. Draws that would round up to 1 are lowered.
pub open spec fn fraction<S: Scalar>(draw: u64) -> S {
    S::fraction_spec(
        if draw < LARGEST_DRAW {
            draw
        } else {
            LARGEST_DRAW
        },
    )
}

/// `low + (high - low) * u`
pub open spec fn between<S: Scalar>(low: S, high: S, u: S) -> S {
    S::add_spec(low, S::mul_spec(S::sub_spec(high, low), u))
}

/// `n` numbers between two bounds, drawn one after the other.
pub open spec fn uniform<S: Scalar>(state: u64, n: nat, low: S, high: S) -> Seq<S> {
    Seq::new(n, |i: int| between(low, high, fraction(state_after(state, (i + 1) as nat))))
}

/// The generator never gets stuck at 0.
pub proof fn law_state_nonzero(state: u64, n: nat)
    requires
        state != 0,
    ensures
        state_after(state, n) != 0,
    decreases n,
{
    if n > 0 {
        law_state_nonzero(state, (n - 1) as nat);
        lemma_xorshift_nonzero(state_after(state, (n - 1) as nat));
    }
}

proof fn lemma_xorshift_nonzero(x: u64)
    requires
        x != 0,
    ensures
        xorshift(x) != 0,
{
    let a = x ^ (x << 13);
    assert(a != 0) by (bit_vector)
        requires
            x != 0,
            a == x ^ (x << 13),
    ;
    let b = a ^ (a >> 7);
    assert(b != 0) by (bit_vector)
        requires
            a != 0,
            b == a ^ (a >> 7),
    ;
    assert(b ^ (b << 17) != 0) by (bit_vector)
        requires
            b != 0,
    ;
}

/// Draws can be counted on from any point.
pub proof fn lemma_state_after_add(state: u64, m: nat, n: nat)
    ensures
        state_after(state_after(state, m), n) == state_after(state, m + n),
    decreases n,
{
    if n > 0 {
        lemma_state_after_add(state, m, (n - 1) as nat);
    }
}

/// A simple deterministic random number generator.
#[derive(Debug, Clone, Copy)]
pub struct SimpleRng {
    state: u64,
}

impl SimpleRng {
    pub closed spec fn view(self) -> u64 {
        self.state
    }

    /// A generator with the given seed.
    #[must_use]
    pub fn new(seed: u64) -> (r: Self)
        ensures
            r@ == seeded(seed),
            r@ != 0,
    {
        let state: u64 = if seed == 0 {
            0x1234_5678_9ABC_DEF0
        } else {
            seed
        };
        SimpleRng { state }
    }

    /// The next random integer.
    pub fn next_u64(&mut self) -> (r: u64)
        ensures
            final(self)@ == xorshift(old(self)@),
            r == final(self)@,
    {
        let mut x: u64 = self.state;
        x = x ^ (x << 13);
        x = x ^ (x >> 7);
        x = x ^ (x << 17);
        self.state = x;
        x
    }

    /// The next random number in `[0, 1)`.
    pub fn next_f32<S: Scalar>(&mut self) -> (r: S)
        ensures
            final(self)@ == xorshift(old(self)@),
            r == fraction::<S>(final(self)@),
    {
        let draw = self.next_u64();
        if draw < LARGEST_DRAW {
            S::fraction(draw)
        } else {
            S::fraction(LARGEST_DRAW)
        }
    }

    /// The next random number in `[low, high)`.
    pub fn next_uniform<S: Scalar>(&mut self, low: S, high: S) -> (r: S)
        ensures
            final(self)@ == xorshift(old(self)@),
            r == between(low, high, fraction::<S>(final(self)@)),
    {
        let u: S = self.next_f32();
        low.add(high.sub(low).mul(u))
    }

    /// `n` random numbers in `[low, high)`.
    pub fn fill<S: Scalar>(&mut self, n: usize, low: S, high: S) -> (r: Vec<S>)
        ensures
            r@ == uniform(old(self)@, n as nat, low, high),
            final(self)@ == state_after(old(self)@, n as nat),
    {
        let ghost start = self@;
        let mut out: Vec<S> = Vec::with_capacity(n);
        let mut i: usize = 0;
        while i < n
            invariant
                i <= n,
                start == old(self)@,
                self@ == state_after(start, i as nat),
                out@.len() == i,
                forall|k: int|
                    0 <= k < i ==> #[trigger] out@[k] == uniform(start, n as nat, low, high)[k],
            decreases n - i,
        {
            let x = self.next_uniform(low, high);
            out.push(x);
            i = i + 1;
        }
        assert(out@ =~= uniform(start, n as nat, low, high));
        out
    }
}

/// In fixed point a draw lies in `[0, 1)`, as far up as the draw lies below `2^64`.
pub proof fn law_draw_in_unit(draw: u64)
    ensures
        0 <= fraction::<Fixed>(draw).raw < 65536,
        ({
            let u = fraction::<Fixed>(draw);
            u.raw * 0x1_0000_0000_0000 <= draw < (u.raw + 1) * 0x1_0000_0000_0000
        }),
{
}

/// In fixed point a number drawn between `-b` and `b` lies there.
pub proof fn law_draw_in_bounds(b: Fixed, draw: u64)
    requires
        0 <= b.raw <= 0x2000_0000,
    ensures
        -b.raw <= between(Fixed { raw: (-b.raw) as i32 }, b, fraction(draw)).raw <= b.raw,
{
    let u = fraction::<Fixed>(draw);
    let w = Fixed { raw: (2 * b.raw) as i32 };
    law_draw_in_unit(draw);
    assert(0 <= (w.raw as int * u.raw as int) / 65536 <= w.raw) by (nonlinear_arith)
        requires
            0 <= w.raw,
            0 <= u.raw < 65536,
    ;
}

/// A number drawn between two bounds lies as far from the lower one as the draw says of the way to
/// the upper one.
pub proof fn law_between<S: Scalar>(low: S, high: S, u: S)
    requires
        exact::<S>(),
        cancels::<S>(),
    ensures
        S::sub_spec(between(low, high, u), low) == S::mul_spec(S::sub_spec(high, low), u),
{
    let part = S::mul_spec(S::sub_spec(high, low), u);
    lemma_add(low, part, zero());
    lemma_cancel(part, low);
}

/// Different states are followed by different states: the generator does not run into itself.
pub proof fn law_states_differ(x: u64, y: u64)
    requires
        x != y,
    ensures
        xorshift(x) != xorshift(y),
{
    lemma_left(x, y);
    let (a, b) = (x ^ (x << 13), y ^ (y << 13));
    lemma_right(a, b);
    let (c, d) = (a ^ (a >> 7), b ^ (b >> 7));
    lemma_left_again(c, d);
}

proof fn lemma_left(x: u64, y: u64)
    requires
        x != y,
    ensures
        x ^ (x << 13) != y ^ (y << 13),
{
    assert(x != y ==> x ^ (x << 13) != y ^ (y << 13)) by (bit_vector);
}

proof fn lemma_right(x: u64, y: u64)
    requires
        x != y,
    ensures
        x ^ (x >> 7) != y ^ (y >> 7),
{
    assert(x != y ==> x ^ (x >> 7) != y ^ (y >> 7)) by (bit_vector);
}

proof fn lemma_left_again(x: u64, y: u64)
    requires
        x != y,
    ensures
        x ^ (x << 17) != y ^ (y << 17),
{
    assert(x != y ==> x ^ (x << 17) != y ^ (y << 17)) by (bit_vector);
}

} // verus!
