//! Whole numbers modulo 2^32, whose arithmetic is exact.
use vstd::arithmetic::div_mod::{
    lemma_add_mod_noop, lemma_mul_mod_noop_left, lemma_mul_mod_noop_right,
};
use vstd::prelude::*;
use crate::autograd::exact::exact;
use crate::autograd::logistic::exponential;
use crate::autograd::ring::cancels;
use crate::scalar::{one, zero, Constant, Scalar};

verus! {

/// A whole number modulo 2^32.
///
/// Sums and products are never rounded. The exponential is that of the base 65537. Only 1 and -1
/// are divided by; a quotient by another number is 0, and so are fractions and functions that
/// whole numbers lack.
#[derive(Debug, Clone, Copy, PartialEq, Eq, Structural)]
pub struct Residue {
    pub raw: u32,
}

/// The residue of a number.
#[verifier::opaque]
pub open spec fn residue(x: int) -> Residue {
    Residue { raw: (x % 0x1_0000_0000) as u32 }
}

/// What a quotient by `b` multiplies with.
pub open spec fn reciprocal(b: Residue) -> Residue {
    if b.raw == 1 || b.raw == u32::MAX {
        b
    } else {
        Residue { raw: 0 }
    }
}

/// A power, one factor after the other.
pub open spec fn power(a: Residue, n: nat) -> Residue
    decreases n,
{
    if n == 0 {
        Residue { raw: 1 }
    } else {
        residue(power(a, (n - 1) as nat).raw * a.raw)
    }
}

fn times(a: Residue, b: Residue) -> (r: Residue)
    ensures
        r == residue(a.raw * b.raw),
{
    let x: u64 = a.raw as u64;
    let y: u64 = b.raw as u64;
    assert(x * y <= 0xffff_ffff * 0xffff_ffff) by (nonlinear_arith)
        requires
            0 <= x <= 0xffff_ffff,
            0 <= y <= 0xffff_ffff,
    ;
    proof {
        reveal(residue);
    }
    Residue { raw: (x * y % 0x1_0000_0000) as u32 }
}

fn plus(a: Residue, b: Residue) -> (r: Residue)
    ensures
        r == residue(a.raw + b.raw),
{
    proof {
        reveal(residue);
    }
    Residue { raw: ((a.raw as u64 + b.raw as u64) % 0x1_0000_0000) as u32 }
}

impl Scalar for Residue {
    open spec fn constant_spec(c: Constant) -> Self {
        match c {
            Constant::One => Residue { raw: 1 },
            Constant::NegOne => Residue { raw: u32::MAX },
            Constant::Two => Residue { raw: 2 },
            Constant::Six => Residue { raw: 6 },
            Constant::Infinity => Residue { raw: u32::MAX },
            Constant::MaskFloor => Residue { raw: 3294967296 },
            _ => Residue { raw: 0 },
        }
    }

    open spec fn add_spec(a: Self, b: Self) -> Self {
        residue(a.raw + b.raw)
    }

    open spec fn sub_spec(a: Self, b: Self) -> Self {
        residue(a.raw + residue(b.raw * 0xffff_ffff).raw)
    }

    open spec fn mul_spec(a: Self, b: Self) -> Self {
        residue(a.raw * b.raw)
    }

    open spec fn div_spec(a: Self, b: Self) -> Self {
        residue(a.raw * reciprocal(b).raw)
    }

    open spec fn mul_add_spec(a: Self, b: Self, c: Self) -> Self {
        residue(residue(a.raw * b.raw).raw + c.raw)
    }

    open spec fn gt_spec(a: Self, b: Self) -> bool {
        a.raw > b.raw
    }

    open spec fn eq_zero_spec(a: Self) -> bool {
        a.raw == 0
    }

    open spec fn exp_spec(a: Self) -> Self {
        residue(1 + a.raw * 65536)
    }

    open spec fn ln_spec(a: Self) -> Self {
        Residue { raw: 0 }
    }

    open spec fn sqrt_spec(a: Self) -> Self {
        Residue { raw: 0 }
    }

    open spec fn tanh_spec(a: Self) -> Self {
        Residue { raw: 0 }
    }

    open spec fn cos_spec(a: Self) -> Self {
        Residue { raw: 0 }
    }

    open spec fn powi_spec(a: Self, n: i32) -> Self {
        if n < 0 {
            power(reciprocal(a), (-n) as nat)
        } else {
            power(a, n as nat)
        }
    }

    open spec fn count_spec(n: usize) -> Self {
        residue(n as int)
    }

    open spec fn fraction_spec(n: u64) -> Self {
        Residue { raw: 0 }
    }

    open spec fn index_spec(a: Self) -> Option<usize> {
        Some(a.raw as usize)
    }

    open spec fn bits_spec(a: Self) -> u32 {
        a.raw
    }

    open spec fn from_bits_spec(b: u32) -> Self {
        Residue { raw: b }
    }

    fn constant(c: Constant) -> (r: Self) {
        match c {
            Constant::One => Residue { raw: 1 },
            Constant::NegOne => Residue { raw: u32::MAX },
            Constant::Two => Residue { raw: 2 },
            Constant::Six => Residue { raw: 6 },
            Constant::Infinity => Residue { raw: u32::MAX },
            Constant::MaskFloor => Residue { raw: 3294967296 },
            _ => Residue { raw: 0 },
        }
    }

    fn add(self, b: Self) -> (r: Self) {
        plus(self, b)
    }

    fn sub(self, b: Self) -> (r: Self) {
        plus(self, times(b, Residue { raw: u32::MAX }))
    }

    fn mul(self, b: Self) -> (r: Self) {
        times(self, b)
    }

    fn div(self, b: Self) -> (r: Self) {
        if b.raw == 1 || b.raw == u32::MAX {
            times(self, b)
        } else {
            times(self, Residue { raw: 0 })
        }
    }

    fn mul_add(self, b: Self, c: Self) -> (r: Self) {
        plus(times(self, b), c)
    }

    fn gt(self, b: Self) -> (r: bool) {
        self.raw > b.raw
    }

    fn eq_zero(self) -> (r: bool) {
        self.raw == 0
    }

    fn exp(self) -> (r: Self) {
        proof {
            lemma_sum(1, self.raw * 65536);
        }
        plus(Residue { raw: 1 }, times(self, Residue { raw: 65536 }))
    }

    fn ln(self) -> (r: Self) {
        Residue { raw: 0 }
    }

    fn sqrt(self) -> (r: Self) {
        Residue { raw: 0 }
    }

    fn tanh(self) -> (r: Self) {
        Residue { raw: 0 }
    }

    fn cos(self) -> (r: Self) {
        Residue { raw: 0 }
    }

    fn powi(self, n: i32) -> (r: Self) {
        let base = if n >= 0 || self.raw == 1 || self.raw == u32::MAX {
            self
        } else {
            Residue { raw: 0 }
        };
        let count: u64 = if n < 0 {
            (-(n as i64)) as u64
        } else {
            n as u64
        };
        let mut r = Residue { raw: 1 };
        let mut i: u64 = 0;
        while i < count
            invariant
                i <= count,
                r == power(base, i as nat),
            decreases count - i,
        {
            r = times(r, base);
            i = i + 1;
        }
        r
    }

    fn count(n: usize) -> (r: Self) {
        proof {
            reveal(residue);
        }
        Residue { raw: (n as u128 % 0x1_0000_0000) as u32 }
    }

    fn fraction(n: u64) -> (r: Self) {
        Residue { raw: 0 }
    }

    fn index(self) -> (r: Option<usize>) {
        Some(self.raw as usize)
    }

    fn bits(self) -> (r: u32) {
        self.raw
    }

    fn from_bits(b: u32) -> (r: Self) {
        Residue { raw: b }
    }

    proof fn lemma_bits(a: Self) {
    }
}

/// Residues may be taken before or after adding.
proof fn lemma_sum(x: int, y: int)
    ensures
        residue(residue(x).raw + y) == residue(x + y),
        residue(x + residue(y).raw) == residue(x + y),
{
    reveal(residue);
    lemma_add_mod_noop(x, y, 0x1_0000_0000);
    lemma_add_mod_noop(x % 0x1_0000_0000, y, 0x1_0000_0000);
    lemma_add_mod_noop(x, y % 0x1_0000_0000, 0x1_0000_0000);
}

/// Residues may be taken before or after multiplying.
proof fn lemma_product(x: int, y: int)
    ensures
        residue(residue(x).raw * y) == residue(x * y),
        residue(x * residue(y).raw) == residue(x * y),
{
    reveal(residue);
    lemma_mul_mod_noop_left(x, y, 0x1_0000_0000);
    lemma_mul_mod_noop_right(x, y, 0x1_0000_0000);
}

/// A number that is a residue is its own.
proof fn lemma_small(a: Residue)
    ensures
        residue(a.raw as int) == a,
        residue(0) == (Residue { raw: 0 }),
{
    reveal(residue);
}

proof fn lemma_assoc(a: Residue, b: Residue, c: Residue)
    ensures
        Residue::mul_spec(Residue::mul_spec(a, b), c) == Residue::mul_spec(
            a,
            Residue::mul_spec(b, c),
        ),
        Residue::mul_spec(a, b) == Residue::mul_spec(b, a),
{
    let (x, y, z) = (a.raw as int, b.raw as int, c.raw as int);
    lemma_product(x * y, z);
    lemma_product(x, y * z);
    assert((x * y) * z == x * (y * z) && x * y == y * x) by (nonlinear_arith);
}

proof fn lemma_spread(a: Residue, b: Residue, c: Residue)
    ensures
        Residue::mul_spec(a, Residue::add_spec(b, c)) == Residue::add_spec(
            Residue::mul_spec(a, b),
            Residue::mul_spec(a, c),
        ),
{
    let (x, y, z) = (a.raw as int, b.raw as int, c.raw as int);
    let (p, q) = (x * y, x * z);
    lemma_product(x, y + z);
    lemma_sum(p, residue(q).raw as int);
    lemma_sum(p, q);
    assert(x * (y + z) == x * y + x * z) by (nonlinear_arith);
}

/// The arithmetic of residues is exact.
pub proof fn law_residues_exact()
    ensures
        exact::<Residue>(),
{
    assert forall|a: Residue, b: Residue| #[trigger]
        Residue::mul_spec(a, b) == Residue::mul_spec(b, a) by {
        lemma_assoc(a, b, b);
    }
    assert forall|a: Residue, b: Residue, c: Residue| #[trigger]
        Residue::add_spec(Residue::add_spec(a, b), c) == Residue::add_spec(
        a,
        Residue::add_spec(b, c),
    ) by {
        lemma_sum(a.raw + b.raw, c.raw as int);
        lemma_sum(a.raw as int, b.raw + c.raw);
    }
    assert forall|a: Residue, b: Residue, c: Residue| #[trigger]
        Residue::mul_spec(Residue::mul_spec(a, b), c) == Residue::mul_spec(
        a,
        Residue::mul_spec(b, c),
    ) by {
        lemma_assoc(a, b, c);
    }
    assert forall|a: Residue, b: Residue, c: Residue| #[trigger]
        Residue::mul_spec(a, Residue::add_spec(b, c)) == Residue::add_spec(
        Residue::mul_spec(a, b),
        Residue::mul_spec(a, c),
    ) by {
        lemma_spread(a, b, c);
    }
    assert forall|a: Residue| #[trigger] Residue::add_spec(a, zero()) == a by {
        lemma_small(a);
    }
    assert forall|a: Residue| #[trigger] Residue::mul_spec(a, one()) == a by {
        lemma_small(a);
    }
    assert forall|a: Residue| #[trigger] Residue::mul_spec(a, zero()) == zero::<Residue>() by {
        lemma_small(a);
    }
    assert forall|a: Residue, b: Residue| #[trigger]
        Residue::div_spec(a, b) == Residue::mul_spec(a, Residue::div_spec(one(), b)) by {
        lemma_small(reciprocal(b));
        assert(1 * reciprocal(b).raw == reciprocal(b).raw);
        assert(Residue::div_spec(one(), b) == reciprocal(b));
    }
    reveal(exact);
}

/// The exponential of a sum of residues is the product of their exponentials, and a residue and
/// its negative add up to zero.
pub proof fn law_residues_exponential()
    ensures
        exponential::<Residue>(),
        cancels::<Residue>(),
{
    assert forall|a: Residue, b: Residue| #[trigger]
        Residue::exp_spec(Residue::add_spec(a, b)) == Residue::mul_spec(
        Residue::exp_spec(a),
        Residue::exp_spec(b),
    ) by {
        lemma_exp(a.raw as int, b.raw as int);
    }
    reveal(exponential);
    lemma_wrap();
}

proof fn lemma_wrap()
    ensures
        residue(0x1_0000_0000) == (Residue { raw: 0 }),
{
    reveal(residue);
}

proof fn lemma_exp(x: int, y: int)
    ensures
        residue(1 + residue(x + y).raw * 65536) == residue(
            residue(1 + x * 65536).raw * residue(1 + y * 65536).raw,
        ),
{
    let k = 65536int;
    lemma_product(x + y, k);
    lemma_sum(1, residue(x + y).raw * k);
    lemma_sum(1, (x + y) * k);
    let (p, q) = (1 + x * k, 1 + y * k);
    lemma_product(p, residue(q).raw as int);
    lemma_product(p, q);
    assert(p * q == 1 + (x + y) * k + 0x1_0000_0000 * (x * y)) by (nonlinear_arith)
        requires
            p == 1 + x * k,
            q == 1 + y * k,
            k == 65536,
    ;
    lemma_turns(1 + (x + y) * k, x * y);
}

/// Whole turns do not change a residue.
proof fn lemma_turns(x: int, n: int)
    ensures
        residue(x + 0x1_0000_0000 * n) == residue(x),
{
    reveal(residue);
    vstd::arithmetic::div_mod::lemma_mod_multiples_vanish(n, x, 0x1_0000_0000);
}

} // verus!
