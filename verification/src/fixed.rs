//! Fixed-point numbers: 16 bits before the point and 16 behind it.
//!
//! Results that do not fit are the largest or the smallest number.
use vstd::prelude::*;
use crate::scalar::{Constant, Scalar};

verus! {

/// A fixed-point number: `raw / 65536`.
#[derive(Debug, Clone, Copy, PartialEq, Eq, Structural)]
pub struct Fixed {
    pub raw: i32,
}

/// The nearest number that fits.
pub open spec fn clamp(x: int) -> Fixed {
    Fixed {
        raw: if x > i32::MAX {
            i32::MAX
        } else if x < i32::MIN {
            i32::MIN
        } else {
            x as i32
        },
    }
}

/// The size of a number.
pub open spec fn size(x: int) -> int {
    if x < 0 {
        -x
    } else {
        x
    }
}

/// A size with the sign of a product.
pub open spec fn signed(n: int, negative: bool) -> int {
    if negative {
        -n
    } else {
        n
    }
}

/// `a * b / 65536`, toward zero.
pub open spec fn product(a: Fixed, b: Fixed) -> int {
    signed(size(a.raw as int) * size(b.raw as int) / 65536, (a.raw < 0) != (b.raw < 0))
}

/// `a * 65536 / b`, toward zero. Dividing by zero gives the number farthest in the direction of
/// the dividend.
pub open spec fn quotient(a: Fixed, b: Fixed) -> int {
    if b.raw == 0 {
        if a.raw < 0 {
            i32::MIN as int
        } else if a.raw == 0 {
            0
        } else {
            i32::MAX as int
        }
    } else {
        signed(size(a.raw as int) * 65536 / size(b.raw as int), (a.raw < 0) != (b.raw < 0))
    }
}

fn fit(x: i64) -> (r: Fixed)
    ensures
        r == clamp(x as int),
{
    if x > i32::MAX as i64 {
        Fixed { raw: i32::MAX }
    } else if x < i32::MIN as i64 {
        Fixed { raw: i32::MIN }
    } else {
        Fixed { raw: x as i32 }
    }
}

fn magnitude(x: i32) -> (r: u64)
    ensures
        r == size(x as int),
        r <= 0x8000_0000,
{
    if x < 0 {
        (-(x as i64)) as u64
    } else {
        x as u64
    }
}

fn with_sign(n: u64, negative: bool) -> (r: i64)
    requires
        n <= 0x7fff_ffff_ffff_ffff,
    ensures
        r == signed(n as int, negative),
{
    if negative {
        -(n as i64)
    } else {
        n as i64
    }
}

/// `1 + x / 2^30`, squared `n` times, with 48 bits behind the point, for the number with the given
/// raw value. What goes beyond the largest number stays at its limit.
pub open spec fn growth(raw: int, n: nat) -> int
    decreases n,
{
    if n == 0 {
        0x1_0000_0000_0000 + 4 * raw
    } else {
        let s = growth(raw, (n - 1) as nat);
        let q = s * s / 0x1_0000_0000_0000;
        if q > 0x8000_0000_0000_0000 {
            0x8000_0000_0000_0000
        } else {
            q
        }
    }
}

/// A larger number has the larger exponential, which is never negative and keeps within its limit.
proof fn lemma_growth_order(a: int, b: int, n: nat)
    requires
        i32::MIN <= a <= b <= i32::MAX,
    ensures
        0 <= growth(a, n) <= growth(b, n) <= 0x8000_0000_0000_0000,
    decreases n,
{
    if n > 0 {
        lemma_growth_order(a, b, (n - 1) as nat);
        let s = growth(a, (n - 1) as nat);
        let t = growth(b, (n - 1) as nat);
        assert(0 <= s * s <= t * t) by (nonlinear_arith)
            requires
                0 <= s <= t,
        ;
    }
}

/// At zero nothing grows.
proof fn lemma_growth_zero(n: nat)
    ensures
        growth(0, n) == 0x1_0000_0000_0000,
    decreases n,
{
    if n > 0 {
        lemma_growth_zero((n - 1) as nat);
    }
}

/// One squaring.
proof fn lemma_growth_step(x: int, n: nat, s: int, q: int)
    requires
        growth(x, n) == s,
        q == s * s / 0x1_0000_0000_0000,
    ensures
        growth(x, n + 1) == if q > 0x8000_0000_0000_0000 {
            0x8000_0000_0000_0000
        } else {
            q
        },
{
}

/// The exponential of -16 is below the smallest positive number.
proof fn lemma_growth_low()
    ensures
        growth(-1048576, 30) < 0x1_0000_0000,
{
    let x: int = -1048576;
    lemma_growth_step(x, 0, 281474972516352, 281474968322048);
    lemma_growth_step(x, 1, 281474968322048, 281474959933440);
    lemma_growth_step(x, 2, 281474959933440, 281474943156225);
    lemma_growth_step(x, 3, 281474943156225, 281474909601797);
    lemma_growth_step(x, 4, 281474909601797, 281474842492953);
    lemma_growth_step(x, 5, 281474842492953, 281474708275313);
    lemma_growth_step(x, 6, 281474708275313, 281474439840225);
    lemma_growth_step(x, 7, 281474439840225, 281473902970817);
    lemma_growth_step(x, 8, 281473902970817, 281472829235073);
    lemma_growth_step(x, 9, 281472829235073, 281470681775873);
    lemma_growth_step(x, 10, 281470681775873, 281466386906625);
    lemma_growth_step(x, 11, 281466386906625, 281457797364730);
    lemma_growth_step(x, 12, 281457797364730, 281440619067316);
    lemma_growth_step(x, 13, 281440619067316, 281406265617768);
    lemma_growth_step(x, 14, 281406265617768, 281337571298002);
    lemma_growth_step(x, 15, 281337571298002, 281200232961461);
    lemma_growth_step(x, 16, 281200232961461, 280925757385759);
    lemma_growth_step(x, 17, 280925757385759, 280377609708048);
    lemma_growth_step(x, 18, 280377609708048, 279284520934192);
    lemma_growth_step(x, 19, 279284520934192, 277111111420826);
    lemma_growth_step(x, 20, 277111111420826, 272814901595401);
    lemma_growth_step(x, 21, 272814901595401, 264421268996202);
    lemma_growth_step(x, 22, 264421268996202, 248400793259271);
    lemma_growth_step(x, 23, 248400793259271, 219212929024461);
    lemma_growth_step(x, 24, 219212929024461, 170723198250340);
    lemma_growth_step(x, 25, 170723198250340, 103548850989998);
    lemma_growth_step(x, 26, 103548850989998, 38093491175135);
    lemma_growth_step(x, 27, 38093491175135, 5155392805669);
    lemma_growth_step(x, 28, 5155392805669, 94424290540);
    lemma_growth_step(x, 29, 94424290540, 31675805);
}

/// The exponential of -12 is below half of the smallest positive number.
proof fn lemma_growth_vanishes()
    ensures
        growth(-786432, 30) < 0x8000_0000,
{
    let x: int = -786432;
    lemma_growth_step(x, 0, 281474973564928, 281474970419200);
    lemma_growth_step(x, 1, 281474970419200, 281474964127744);
    lemma_growth_step(x, 2, 281474964127744, 281474951544832);
    lemma_growth_step(x, 3, 281474951544832, 281474926379010);
    lemma_growth_step(x, 4, 281474926379010, 281474876047372);
    lemma_growth_step(x, 5, 281474876047372, 281474775384123);
    lemma_growth_step(x, 6, 281474775384123, 281474574057733);
    lemma_growth_step(x, 7, 281474574057733, 281474171405385);
    lemma_growth_step(x, 8, 281474171405385, 281473366102417);
    lemma_growth_step(x, 9, 281473366102417, 281471755503393);
    lemma_growth_step(x, 10, 281471755503393, 281468534332993);
    lemma_growth_step(x, 11, 281468534332993, 281462092102782);
    lemma_growth_step(x, 12, 281462092102782, 281449208084705);
    lemma_growth_step(x, 13, 281449208084705, 281423441817834);
    lemma_growth_step(x, 14, 281423441817834, 281371916360469);
    lemma_growth_step(x, 15, 281371916360469, 281268893745202);
    lemma_growth_step(x, 16, 281268893745202, 281062961664168);
    lemma_growth_step(x, 17, 281062961664168, 280651549713559);
    lemma_growth_step(x, 18, 280651549713559, 279830531570092);
    lemma_growth_step(x, 19, 279830531570092, 278195693677219);
    lemma_growth_step(x, 20, 278195693677219, 274954615450969);
    lemma_growth_step(x, 21, 274954615450969, 268585298207534);
    lemma_growth_step(x, 22, 268585298207534, 256285881097646);
    lemma_growth_step(x, 23, 256285881097646, 233350948697352);
    lemma_growth_step(x, 24, 233350948697352, 193454728709078);
    lemma_growth_step(x, 25, 193454728709078, 132959357514660);
    lemma_growth_step(x, 26, 132959357514660, 62805550096496);
    lemma_growth_step(x, 27, 62805550096496, 14013810993146);
    lemma_growth_step(x, 28, 14013810993146, 697706420821);
    lemma_growth_step(x, 29, 697706420821, 1729440589);
}

/// The exponential of 16 is beyond the largest number.
proof fn lemma_growth_high()
    ensures
        growth(1048576, 30) == 0x8000_0000_0000_0000,
{
    let x: int = 1048576;
    lemma_growth_step(x, 0, 281474980904960, 281474985099264);
    lemma_growth_step(x, 1, 281474985099264, 281474993487872);
    lemma_growth_step(x, 2, 281474993487872, 281475010265089);
    lemma_growth_step(x, 3, 281475010265089, 281475043819526);
    lemma_growth_step(x, 4, 281475043819526, 281475110928412);
    lemma_growth_step(x, 5, 281475110928412, 281475245146232);
    lemma_growth_step(x, 6, 281475245146232, 281475513582064);
    lemma_growth_step(x, 7, 281475513582064, 281476050454496);
    lemma_growth_step(x, 8, 281476050454496, 281477124202432);
    lemma_growth_step(x, 9, 281477124202432, 281479271710592);
    lemma_growth_step(x, 10, 281479271710592, 281483566776064);
    lemma_growth_step(x, 11, 281483566776064, 281492157103623);
    lemma_growth_step(x, 12, 281492157103623, 281509338545229);
    lemma_growth_step(x, 13, 281509338545229, 281543704574617);
    lemma_growth_step(x, 14, 281543704574617, 281612449219889);
    lemma_growth_step(x, 15, 281612449219889, 281749988870759);
    lemma_growth_step(x, 16, 281749988870759, 282025269728595);
    lemma_growth_step(x, 17, 282025269728595, 282576638587836);
    lemma_growth_step(x, 18, 282576638587836, 283682612247561);
    lemma_growth_step(x, 19, 283682612247561, 285907562484055);
    lemma_growth_step(x, 20, 285907562484055, 290409951324384);
    lemma_growth_step(x, 21, 290409951324384, 299628552469610);
    lemma_growth_step(x, 22, 299628552469610, 318952933238257);
    lemma_growth_step(x, 23, 318952933238257, 361421021542042);
    lemma_growth_step(x, 24, 361421021542042, 464073774297777);
    lemma_growth_step(x, 25, 464073774297777, 765128291359161);
    lemma_growth_step(x, 26, 765128291359161, 2079834268322816);
    lemma_growth_step(x, 27, 2079834268322816, 15368011161207218);
    lemma_growth_step(x, 28, 15368011161207218, 839064878203251485);
    lemma_growth_step(x, 29, 839064878203251485, 2501216548844230832212);
}

impl Fixed {
    /// A whole number.
    pub open spec fn whole(n: int) -> Fixed {
        clamp(n * 65536)
    }

    pub open spec fn plus(self, b: Fixed) -> Fixed {
        clamp(self.raw + b.raw)
    }

    pub open spec fn minus(self, b: Fixed) -> Fixed {
        clamp(self.raw - b.raw)
    }

    pub open spec fn times(self, b: Fixed) -> Fixed {
        clamp(product(self, b))
    }

    pub open spec fn over(self, b: Fixed) -> Fixed {
        clamp(quotient(self, b))
    }

    fn add_fixed(self, b: Fixed) -> (r: Fixed)
        ensures
            r == self.plus(b),
    {
        fit(self.raw as i64 + b.raw as i64)
    }

    fn sub_fixed(self, b: Fixed) -> (r: Fixed)
        ensures
            r == self.minus(b),
    {
        fit(self.raw as i64 - b.raw as i64)
    }

    fn scaled_product(self, b: Fixed) -> (r: i64)
        ensures
            r == product(self, b),
            -0x4000_0000_0000 <= r <= 0x4000_0000_0000,
    {
        let x = magnitude(self.raw);
        let y = magnitude(b.raw);
        assert(x * y <= 0x4000_0000_0000_0000) by (nonlinear_arith)
            requires
                x <= 0x8000_0000,
                y <= 0x8000_0000,
        ;
        with_sign(x * y / 65536, (self.raw < 0) != (b.raw < 0))
    }

    fn mul_fixed(self, b: Fixed) -> (r: Fixed)
        ensures
            r == self.times(b),
    {
        fit(self.scaled_product(b))
    }

    fn div_fixed(self, b: Fixed) -> (r: Fixed)
        ensures
            r == self.over(b),
    {
        if b.raw == 0 {
            if self.raw < 0 {
                Fixed { raw: i32::MIN }
            } else if self.raw == 0 {
                Fixed { raw: 0 }
            } else {
                Fixed { raw: i32::MAX }
            }
        } else {
            let x = magnitude(self.raw);
            let y = magnitude(b.raw);
            let q: u64 = x * 65536 / y;
            assert(q <= x * 65536) by (nonlinear_arith)
                requires
                    q == x * 65536 / (y as int),
                    y >= 1,
            ;
            fit(with_sign(q, (self.raw < 0) != (b.raw < 0)))
        }
    }

    /// The exponential, `(1 + x / 2^30)^(2^30)`, to the nearest number.
    pub open spec fn exponential(self) -> Fixed {
        clamp((growth(self.raw as int, 30) + 0x8000_0000) / 0x1_0000_0000)
    }

    fn grow(self) -> (r: u64)
        ensures
            r == growth(self.raw as int, 30),
    {
        let mut s: u128 = (0x1_0000_0000_0000 + 4 * self.raw as i64) as u128;
        let mut n: u32 = 0;
        while n < 30
            invariant
                n <= 30,
                s <= 0x8000_0000_0000_0000,
                s == growth(self.raw as int, n as nat),
            decreases 30 - n,
        {
            assert(s * s <= 0x8000_0000_0000_0000 * 0x8000_0000_0000_0000) by (nonlinear_arith)
                requires
                    0 <= s <= 0x8000_0000_0000_0000,
            ;
            let q: u128 = s * s / 0x1_0000_0000_0000;
            s = if q > 0x8000_0000_0000_0000 {
                0x8000_0000_0000_0000
            } else {
                q
            };
            n = n + 1;
        }
        s as u64
    }

    fn exp_fixed(self) -> (r: Fixed)
        ensures
            r == self.exponential(),
    {
        let s: u64 = self.grow();
        proof {
            lemma_growth_order(self.raw as int, self.raw as int, 30);
        }
        fit(((s + 0x8000_0000) / 0x1_0000_0000) as i64)
    }

    /// The greatest number whose exponential is not above this one has `r` for its raw value.
    pub open spec fn is_log(self, r: int) -> bool {
        &&& i32::MIN <= r < i32::MAX
        &&& growth(r, 30) <= self.raw * 0x1_0000_0000
        &&& self.raw * 0x1_0000_0000 < growth(r + 1, 30)
    }

    /// The logarithm; the smallest number for what has none.
    pub open spec fn logarithm(self) -> Fixed {
        if self.raw <= 0 {
            Fixed { raw: i32::MIN }
        } else {
            clamp(choose|r: int| self.is_log(r))
        }
    }

    fn ln_fixed(self) -> (r: Fixed)
        ensures
            r == self.logarithm(),
    {
        if self.raw <= 0 {
            return Fixed { raw: i32::MIN };
        }
        let x: u64 = self.raw as u64 * 0x1_0000_0000;
        let mut lo: i64 = -0x10_0000;
        let mut hi: i64 = 0x10_0000;
        proof {
            lemma_growth_low();
            lemma_growth_high();
        }
        while hi - lo > 1
            invariant
                self.raw > 0,
                x == self.raw * 0x1_0000_0000,
                -0x10_0000 <= lo < hi <= 0x10_0000,
                growth(lo as int, 30) <= x,
                x < growth(hi as int, 30),
            decreases hi - lo,
        {
            let mid: i64 = lo + (hi - lo) / 2;
            if (Fixed { raw: mid as i32 }).grow() <= x {
                lo = mid;
            } else {
                hi = mid;
            }
        }
        proof {
            assert(self.is_log(lo as int)) by {
                assert(hi == lo + 1);
            }
            let c = choose|r: int| self.is_log(r);
            if c < lo {
                lemma_growth_order(c + 1, lo as int, 30);
            }
            if lo < c {
                lemma_growth_order(lo + 1, c, 30);
            }
        }
        fit(lo)
    }

    /// The square root of a number with a real one.
    pub open spec fn is_root(self, r: int) -> bool {
        0 <= r && r * r <= self.raw * 65536 && self.raw * 65536 < (r + 1) * (r + 1)
    }

    /// The square root; 0 for what has none.
    pub open spec fn root(self) -> Fixed {
        if self.raw <= 0 {
            Fixed { raw: 0 }
        } else {
            clamp(choose|r: int| self.is_root(r))
        }
    }

    fn sqrt_fixed(self) -> (r: Fixed)
        ensures
            r == self.root(),
    {
        if self.raw <= 0 {
            return Fixed { raw: 0 };
        }
        let n: u64 = self.raw as u64 * 65536;
        let mut lo: u64 = 0;
        let mut hi: u64 = 0x0200_0000;
        assert(n < 0x0200_0000 * 0x0200_0000);
        while hi - lo > 1
            invariant
                self.raw > 0,
                n == self.raw * 65536,
                lo < hi <= 0x0200_0000,
                lo * lo <= n,
                n < hi * hi,
            decreases hi - lo,
        {
            let mid: u64 = lo + (hi - lo) / 2;
            assert(mid * mid <= 0x0200_0000 * 0x0200_0000) by (nonlinear_arith)
                requires
                    0 <= mid <= 0x0200_0000,
            ;
            if mid * mid <= n {
                lo = mid;
            } else {
                hi = mid;
            }
        }
        proof {
            assert(self.is_root(lo as int)) by {
                assert(hi == lo + 1);
            }
            let c = choose|r: int| self.is_root(r);
            assert(c == lo) by (nonlinear_arith)
                requires
                    0 <= c,
                    0 <= lo,
                    c * c <= n,
                    n < (c + 1) * (c + 1),
                    lo * lo <= n,
                    n < (lo + 1) * (lo + 1),
            ;
        }
        fit(lo as i64)
    }

    /// The hyperbolic tangent, 1 in size from 8 on.
    pub open spec fn tangent(self) -> Fixed {
        if self.raw > 524288 {
            Fixed::whole(1)
        } else if self.raw < -524288 {
            Fixed::whole(-1)
        } else {
            let e = self.exponential();
            let f = Fixed { raw: 0 }.minus(self).exponential();
            e.minus(f).over(e.plus(f))
        }
    }

    fn tanh_fixed(self) -> (r: Fixed)
        ensures
            r == self.tangent(),
    {
        if self.raw > 524288 {
            Fixed { raw: 65536 }
        } else if self.raw < -524288 {
            Fixed { raw: -65536 }
        } else {
            let e = self.exp_fixed();
            let f = Fixed { raw: 0 }.sub_fixed(self).exp_fixed();
            e.sub_fixed(f).div_fixed(e.add_fixed(f))
        }
    }

    /// The first `n` terms of the cosine series in the square of the angle, with the next one.
    pub open spec fn waves(self, n: nat) -> (Fixed, Fixed)
        decreases n,
    {
        if n == 0 {
            (Fixed { raw: 0 }, Fixed::whole(1))
        } else {
            let (sum, term) = self.waves((n - 1) as nat);
            (
                sum.plus(term),
                Fixed { raw: 0 }.minus(term.times(self)).over(
                    Fixed::whole(2 * n * (2 * n - 1)),
                ),
            )
        }
    }

    /// The size of an angle within half a turn.
    pub open spec fn folded(self) -> int {
        let turn = size(self.raw as int) % 411775;
        if turn > 205887 {
            411775 - turn
        } else {
            turn
        }
    }

    /// The cosine.
    pub open spec fn cosine(self) -> Fixed {
        let x = Fixed { raw: self.folded() as i32 };
        x.times(x).waves(10).0
    }

    fn cos_fixed(self) -> (r: Fixed)
        ensures
            r == self.cosine(),
    {
        let turn: u64 = magnitude(self.raw) % 411775;
        let folded: u64 = if turn > 205887 {
            411775 - turn
        } else {
            turn
        };
        let x = Fixed { raw: folded as i32 };
        let sq = x.mul_fixed(x);
        let mut sum = Fixed { raw: 0 };
        let mut term = Fixed { raw: 65536 };
        let mut n: u32 = 0;
        while n < 10
            invariant
                n <= 10,
                (sum, term) == sq.waves(n as nat),
            decreases 10 - n,
        {
            n = n + 1;
            sum = sum.add_fixed(term);
            let ghost m = n as int;
            assert(0 <= 2 * m * (2 * m - 1) <= 380) by (nonlinear_arith)
                requires
                    1 <= m <= 10,
            ;
            let d: u32 = 2 * n * (2 * n - 1);
            term = Fixed { raw: 0 }.sub_fixed(term.mul_fixed(sq)).div_fixed(
                Fixed { raw: d as i32 * 65536 },
            );
        }
        sum
    }

    /// A power, by squaring.
    pub open spec fn power(self, n: nat) -> Fixed
        decreases n,
    {
        if n == 0 {
            Fixed::whole(1)
        } else if n % 2 == 0 {
            self.times(self).power(n / 2)
        } else {
            self.times(self.times(self).power(n / 2))
        }
    }

    fn pow_fixed(self, n: u64) -> (r: Fixed)
        ensures
            r == self.power(n as nat),
        decreases n,
    {
        if n == 0 {
            Fixed { raw: 65536 }
        } else {
            let rest = self.mul_fixed(self).pow_fixed(n / 2);
            if n % 2 == 0 {
                rest
            } else {
                self.mul_fixed(rest)
            }
        }
    }
}

/// Just above zero the exponential is above 1.
proof fn lemma_growth_one(n: nat)
    ensures
        growth(1, n) > 0x1_0000_0000_0000,
    decreases n,
{
    if n > 0 {
        lemma_growth_one((n - 1) as nat);
        let s = growth(1, (n - 1) as nat);
        assert(s * s >= s * 0x1_0000_0000_0000) by (nonlinear_arith)
            requires
                s >= 0x1_0000_0000_0000,
        ;
        let p = s * s;
        assert(p / 0x1_0000_0000_0000 >= s) by (nonlinear_arith)
            requires
                p >= s * 0x1_0000_0000_0000,
        ;
    }
}

/// Between a number whose exponential is not above `x` and one whose exponential is, there is the
/// logarithm.
proof fn lemma_log_exists(x: Fixed, lo: int, hi: int)
    requires
        i32::MIN <= lo < hi <= i32::MAX,
        growth(lo, 30) <= x.raw * 0x1_0000_0000,
        x.raw * 0x1_0000_0000 < growth(hi, 30),
    ensures
        exists|r: int| x.is_log(r),
    decreases hi - lo,
{
    if hi == lo + 1 {
        assert(x.is_log(lo));
    } else if growth(lo + 1, 30) <= x.raw * 0x1_0000_0000 {
        lemma_log_exists(x, lo + 1, hi);
    } else {
        assert(x.is_log(lo));
    }
}

/// The exponential of a number that is not positive lies between 0 and 1; that of 0 is 1.
pub proof fn law_exp_range(x: Fixed)
    ensures
        x.raw <= 0 ==> 0 <= x.exponential().raw <= 65536,
        x.raw == 0 ==> x.exponential().raw == 65536,
        x.raw >= 0 ==> x.exponential().raw >= 65536,
{
    lemma_growth_zero(30);
    if x.raw <= 0 {
        lemma_growth_order(x.raw as int, 0, 30);
    }
    if x.raw >= 0 {
        lemma_growth_order(0, x.raw as int, 30);
    }
}

/// The larger of two numbers has the larger exponential, or one that rounds to the same.
pub proof fn law_exp_order(a: Fixed, b: Fixed)
    requires
        a.raw <= b.raw,
    ensures
        0 <= a.exponential().raw <= b.exponential().raw,
{
    lemma_growth_order(a.raw as int, b.raw as int, 30);
}

/// From -12 down the exponential rounds to 0.
pub proof fn law_exp_vanishes(x: Fixed)
    requires
        x.raw <= -786432,
    ensures
        x.exponential().raw == 0,
{
    lemma_growth_vanishes();
    lemma_growth_order(x.raw as int, -786432, 30);
}

/// The logarithm undoes the exponential to within one step, and that of 1 is 0.
pub proof fn law_ln_bounds(x: Fixed)
    requires
        x.raw > 0,
    ensures
        x.is_log(x.logarithm().raw as int),
        x.raw == 65536 ==> x.logarithm().raw == 0,
{
    lemma_growth_low();
    lemma_growth_high();
    lemma_log_exists(x, -0x10_0000, 0x10_0000);
    assert(x.is_log(choose|r: int| x.is_log(r)));
    if x.raw == 65536 {
        lemma_growth_zero(30);
        let r = x.logarithm().raw as int;
        if r < 0 {
            lemma_growth_order(r + 1, 0, 30);
        }
        if r > 0 {
            lemma_growth_one(30);
            lemma_growth_order(1, r, 30);
        }
    }
}

/// The larger of two positive numbers has the larger logarithm.
pub proof fn law_ln_order(a: Fixed, b: Fixed)
    requires
        0 < a.raw <= b.raw,
    ensures
        a.logarithm().raw <= b.logarithm().raw,
{
    law_ln_bounds(a);
    law_ln_bounds(b);
    let x = a.logarithm().raw as int;
    let y = b.logarithm().raw as int;
    if y < x {
        lemma_growth_order(y + 1, x, 30);
    }
}

impl Scalar for Fixed {
    open spec fn constant_spec(c: Constant) -> Self {
        match c {
            Constant::Zero => Fixed { raw: 0 },
            Constant::One => Fixed { raw: 65536 },
            Constant::NegOne => Fixed { raw: (-65536) as i32 },
            Constant::Half => Fixed { raw: 32768 },
            Constant::Two => Fixed { raw: 131072 },
            Constant::Six => Fixed { raw: 393216 },
            Constant::Pi => Fixed { raw: 205887 },
            Constant::NegInfinity => Fixed { raw: i32::MIN },
            Constant::Infinity => Fixed { raw: i32::MAX },
            Constant::Epsilon => Fixed { raw: 1 },
            Constant::MaskFloor => Fixed { raw: i32::MIN },
            Constant::SparkHeight => Fixed { raw: 75366 },
            Constant::GeluScale => Fixed { raw: 52290 },
            Constant::GeluCubic => Fixed { raw: 2930 },
            Constant::GeluSlope => Fixed { raw: 8791 },
            Constant::AttentionFloor => Fixed { raw: 1 },
            Constant::ClipFloor => Fixed { raw: 1 },
            Constant::NormFloor => Fixed { raw: 1 },
        }
    }

    open spec fn add_spec(a: Self, b: Self) -> Self {
        a.plus(b)
    }

    open spec fn sub_spec(a: Self, b: Self) -> Self {
        a.minus(b)
    }

    open spec fn mul_spec(a: Self, b: Self) -> Self {
        a.times(b)
    }

    open spec fn div_spec(a: Self, b: Self) -> Self {
        a.over(b)
    }

    open spec fn mul_add_spec(a: Self, b: Self, c: Self) -> Self {
        clamp(product(a, b) + c.raw)
    }

    open spec fn gt_spec(a: Self, b: Self) -> bool {
        a.raw > b.raw
    }

    open spec fn eq_zero_spec(a: Self) -> bool {
        a.raw == 0
    }

    open spec fn exp_spec(a: Self) -> Self {
        a.exponential()
    }

    open spec fn ln_spec(a: Self) -> Self {
        a.logarithm()
    }

    open spec fn sqrt_spec(a: Self) -> Self {
        a.root()
    }

    open spec fn tanh_spec(a: Self) -> Self {
        a.tangent()
    }

    open spec fn cos_spec(a: Self) -> Self {
        a.cosine()
    }

    open spec fn powi_spec(a: Self, n: i32) -> Self {
        if n < 0 {
            Fixed::whole(1).over(a.power((-n) as nat))
        } else {
            a.power(n as nat)
        }
    }

    open spec fn count_spec(n: usize) -> Self {
        Fixed::whole(n as int)
    }

    open spec fn fraction_spec(n: u64) -> Self {
        Fixed { raw: (n / 0x1_0000_0000_0000) as i32 }
    }

    open spec fn index_spec(a: Self) -> Option<usize> {
        if a.raw < 0 {
            None
        } else {
            Some(((a.raw + 32768) / 65536) as usize)
        }
    }

    open spec fn bits_spec(a: Self) -> u32 {
        a.raw as u32
    }

    open spec fn from_bits_spec(b: u32) -> Self {
        Fixed { raw: b as i32 }
    }

    fn constant(c: Constant) -> (r: Self) {
        match c {
            Constant::Zero => Fixed { raw: 0 },
            Constant::One => Fixed { raw: 65536 },
            Constant::NegOne => Fixed { raw: -65536 },
            Constant::Half => Fixed { raw: 32768 },
            Constant::Two => Fixed { raw: 131072 },
            Constant::Six => Fixed { raw: 393216 },
            Constant::Pi => Fixed { raw: 205887 },
            Constant::NegInfinity => Fixed { raw: i32::MIN },
            Constant::Infinity => Fixed { raw: i32::MAX },
            Constant::Epsilon => Fixed { raw: 1 },
            Constant::MaskFloor => Fixed { raw: i32::MIN },
            Constant::SparkHeight => Fixed { raw: 75366 },
            Constant::GeluScale => Fixed { raw: 52290 },
            Constant::GeluCubic => Fixed { raw: 2930 },
            Constant::GeluSlope => Fixed { raw: 8791 },
            Constant::AttentionFloor => Fixed { raw: 1 },
            Constant::ClipFloor => Fixed { raw: 1 },
            Constant::NormFloor => Fixed { raw: 1 },
        }
    }

    fn add(self, b: Self) -> (r: Self) {
        self.add_fixed(b)
    }

    fn sub(self, b: Self) -> (r: Self) {
        self.sub_fixed(b)
    }

    fn mul(self, b: Self) -> (r: Self) {
        self.mul_fixed(b)
    }

    fn div(self, b: Self) -> (r: Self) {
        self.div_fixed(b)
    }

    fn mul_add(self, b: Self, c: Self) -> (r: Self) {
        fit(self.scaled_product(b) + c.raw as i64)
    }

    fn gt(self, b: Self) -> (r: bool) {
        self.raw > b.raw
    }

    fn eq_zero(self) -> (r: bool) {
        self.raw == 0
    }

    fn exp(self) -> (r: Self) {
        self.exp_fixed()
    }

    fn ln(self) -> (r: Self) {
        self.ln_fixed()
    }

    fn sqrt(self) -> (r: Self) {
        self.sqrt_fixed()
    }

    fn tanh(self) -> (r: Self) {
        self.tanh_fixed()
    }

    fn cos(self) -> (r: Self) {
        self.cos_fixed()
    }

    fn powi(self, n: i32) -> (r: Self) {
        if n < 0 {
            Fixed { raw: 65536 }.div_fixed(self.pow_fixed((-(n as i64)) as u64))
        } else {
            self.pow_fixed(n as u64)
        }
    }

    fn count(n: usize) -> (r: Self) {
        if n > 32768 {
            Fixed { raw: i32::MAX }
        } else {
            fit(n as i64 * 65536)
        }
    }

    fn fraction(n: u64) -> (r: Self) {
        Fixed { raw: (n / 0x1_0000_0000_0000) as i32 }
    }

    fn index(self) -> (r: Option<usize>) {
        if self.raw < 0 {
            None
        } else {
            Some(((self.raw as i64 + 32768) / 65536) as usize)
        }
    }

    fn bits(self) -> (r: u32) {
        #[verifier::truncate]
        (self.raw as u32)
    }

    fn from_bits(b: u32) -> (r: Self) {
        Fixed { raw: #[verifier::truncate] (b as i32) }
    }

    proof fn lemma_bits(a: Self) {
        let x = a.raw;
        assert((x as u32) as i32 == x) by (bit_vector);
    }
}

/// The square root is the largest number whose square is not above the number.
pub proof fn law_root(x: Fixed)
    requires
        x.raw > 0,
    ensures
        ({
            let r = x.root().raw;
            &&& 0 < r
            &&& r * r <= x.raw * 65536
            &&& x.raw * 65536 < (r + 1) * (r + 1)
        }),
{
    let n = x.raw * 65536;
    lemma_root_exists(x, 0, 0x0200_0000);
    let c = choose|r: int| x.is_root(r);
    assert(x.is_root(c));
    assert(c < 0x0200_0000) by (nonlinear_arith)
        requires
            0 <= c,
            c * c <= n,
            n < 0x0200_0000 * 0x0200_0000,
    ;
    assert(c > 0) by (nonlinear_arith)
        requires
            0 <= c,
            n < (c + 1) * (c + 1),
            n >= 65536,
    ;
}

proof fn lemma_root_exists(x: Fixed, lo: int, hi: int)
    requires
        0 <= lo < hi,
        lo * lo <= x.raw * 65536,
        x.raw * 65536 < hi * hi,
    ensures
        exists|r: int| x.is_root(r),
    decreases hi - lo,
{
    if hi == lo + 1 {
        assert(x.is_root(lo));
    } else if (lo + 1) * (lo + 1) <= x.raw * 65536 {
        lemma_root_exists(x, lo + 1, hi);
    } else {
        assert(x.is_root(lo));
    }
}

/// One more term of the cosine series.
proof fn lemma_wave(
    q: int,
    n: nat,
    sum: int,
    t: int,
    negative: bool,
    a: int,
    b: int,
    d: int,
    u: int,
)
    requires
        0 <= q <= i32::MAX,
        0 <= t <= i32::MAX,
        (Fixed { raw: q as i32 }).waves(n).0.raw == sum,
        (Fixed { raw: q as i32 }).waves(n).1.raw == signed(t, negative),
        a == 2 * n + 2,
        b == 2 * n + 1,
        d == a * b,
        0 < d < 32768,
        0 <= t * q / 65536 <= i32::MAX,
        u == (t * q / 65536) * 65536 / (d * 65536),
        0 <= u <= i32::MAX,
        i32::MIN <= sum + signed(t, negative) <= i32::MAX,
    ensures
        (Fixed { raw: q as i32 }).waves(n + 1).0.raw == sum + signed(t, negative),
        (Fixed { raw: q as i32 }).waves(n + 1).1.raw == signed(u, !negative),
{
    let sq = Fixed { raw: q as i32 };
    let s = Fixed { raw: sum as i32 };
    let term = Fixed { raw: signed(t, negative) as i32 };
    assert(sq.waves(n) == (s, term));
    let p = t * q / 65536;
    assert(size(term.raw as int) == t && size(sq.raw as int) == q);
    if t == 0 {
        assert(t * q == 0) by (nonlinear_arith)
            requires
                t == 0,
        ;
    }
    let m = Fixed { raw: 0 }.minus(term.times(sq));
    assert(m.raw == signed(p, !negative));
    let k = n + 1;
    assert(2 * k * (2 * k - 1) == a * b) by (nonlinear_arith)
        requires
            2 * k == a,
            2 * k - 1 == b,
    ;
    let whole = Fixed::whole(d);
    assert(whole.raw == d * 65536);
    assert(size(m.raw as int) == p);
    assert(sq.waves(n + 1) == (s.plus(term), m.over(whole)));
}

proof fn lemma_wave_zero(n: nat)
    ensures
        n > 0 ==> (Fixed { raw: 0 }).waves(n).0.raw == 65536,
        n > 0 ==> (Fixed { raw: 0 }).waves(n).1.raw == 0,
    decreases n,
{
    let o = Fixed { raw: 0 };
    if n > 0 {
        let m = (n - 1) as nat;
        lemma_wave_zero(m);
        let term = o.waves(m).1;
        assert(term.times(o).raw == 0) by {
            assert(size(term.raw as int) * 0 == 0);
        }
        let d = Fixed::whole(2 * n * (2 * n - 1));
        assert(2 * n * (2 * n - 1) >= 1) by (nonlinear_arith)
            requires
                n >= 1,
        ;
        assert(d.raw > 0);
        let k = d.raw as int;
        assert(0int / k == 0) by (nonlinear_arith)
            requires
                k > 0,
        ;
    }
}

/// The cosine is 1 at 0 and -1 at half a turn but for rounding; it is the same on both sides of 0,
/// and after a whole turn.
pub proof fn law_cosine(x: Fixed)
    requires
        0 <= x.raw <= i32::MAX - 411775,
    ensures
        (Fixed { raw: 0 }).cosine().raw == 65536,
        -65540 <= (Fixed { raw: 205887 }).cosine().raw <= -65532,
        (Fixed { raw: (-x.raw) as i32 }).cosine() == x.cosine(),
        (Fixed { raw: (x.raw + 411775) as i32 }).cosine() == x.cosine(),
{
    let o = Fixed { raw: 0 };
    assert(size(0) * size(0) == 0 * 0);
    assert(o.times(o) == o);
    lemma_wave_zero(10);
    let pi = Fixed { raw: 205887 };
    let sq = Fixed { raw: 646811 };
    assert(size(205887) * size(205887) == 205887 * 205887);
    assert(pi.times(pi) == sq);
    lemma_wave(646811, 0, 0, 65536, false, 2, 1, 2, 323405);
    lemma_wave(646811, 1, 65536, 323405, true, 4, 3, 12, 265988);
    lemma_wave(646811, 2, -257869, 265988, false, 6, 5, 30, 87506);
    lemma_wave(646811, 3, 8119, 87506, true, 8, 7, 56, 15422);
    lemma_wave(646811, 4, -79387, 15422, false, 10, 9, 90, 1691);
    lemma_wave(646811, 5, -63965, 1691, true, 12, 11, 132, 126);
    lemma_wave(646811, 6, -65656, 126, false, 14, 13, 182, 6);
    lemma_wave(646811, 7, -65530, 6, true, 16, 15, 240, 0);
    lemma_wave(646811, 8, -65536, 0, false, 18, 17, 306, 0);
    lemma_wave(646811, 9, -65536, 0, false, 20, 19, 380, 0);
    let turned = Fixed { raw: (x.raw + 411775) as i32 };
    assert((x.raw + 411775) % 411775 == x.raw % 411775);
}

} // verus!
