//! The arithmetic that the kernels are written against.
use vstd::prelude::*;

verus! {

/// Fixed numbers that the kernels use.
#[derive(Debug, Clone, Copy, PartialEq, Eq, Hash, Structural)]
pub enum Constant {
    /// 0
    Zero,
    /// 1
    One,
    /// -1
    NegOne,
    /// 1/2
    Half,
    /// 2
    Two,
    /// 6
    Six,
    /// pi
    Pi,
    /// The value below every other.
    NegInfinity,
    /// The value above every other.
    Infinity,
    /// 2^-23, the distance from 1 to the next number
    Epsilon,
    /// -1e9, added to the scores of hidden positions
    MaskFloor,
    /// 1.15, the height of a sparkline over its largest value
    SparkHeight,
    /// sqrt(2 / pi), in the tanh approximation of GELU
    GeluScale,
    /// 0.044715, in the tanh approximation of GELU
    GeluCubic,
    /// 0.134145, three times the cubic coefficient
    GeluSlope,
    /// 1e-9, the floor of an attention row's normaliser
    AttentionFloor,
    /// 1e-6, the floor of a gradient norm
    ClipFloor,
    /// 1e-5, the stabiliser of layer normalisation
    NormFloor,
}

/// A real-number type with the operations of 32-bit floating point.
///
/// Each operation has a specification twin: kernels are specified by the exact expression that
/// they evaluate, in the exact order of its operations, and hold for every such type.
pub trait Scalar: Copy {
    spec fn constant_spec(c: Constant) -> Self;

    spec fn add_spec(a: Self, b: Self) -> Self;

    spec fn sub_spec(a: Self, b: Self) -> Self;

    spec fn mul_spec(a: Self, b: Self) -> Self;

    spec fn div_spec(a: Self, b: Self) -> Self;

    spec fn mul_add_spec(a: Self, b: Self, c: Self) -> Self;

    spec fn gt_spec(a: Self, b: Self) -> bool;

    spec fn eq_zero_spec(a: Self) -> bool;

    spec fn exp_spec(a: Self) -> Self;

    spec fn ln_spec(a: Self) -> Self;

    spec fn sqrt_spec(a: Self) -> Self;

    spec fn tanh_spec(a: Self) -> Self;

    spec fn cos_spec(a: Self) -> Self;

    spec fn powi_spec(a: Self, n: i32) -> Self;

    spec fn count_spec(n: usize) -> Self;

    spec fn fraction_spec(n: u64) -> Self;

    spec fn index_spec(a: Self) -> Option<usize>;

    spec fn bits_spec(a: Self) -> u32;

    spec fn from_bits_spec(b: u32) -> Self;

    /// A fixed number.
    fn constant(c: Constant) -> (r: Self)
        ensures
            r == Self::constant_spec(c),
    ;

    /// `self + b`
    fn add(self, b: Self) -> (r: Self)
        ensures
            r == Self::add_spec(self, b),
    ;

    /// `self - b`
    fn sub(self, b: Self) -> (r: Self)
        ensures
            r == Self::sub_spec(self, b),
    ;

    /// `self * b`
    fn mul(self, b: Self) -> (r: Self)
        ensures
            r == Self::mul_spec(self, b),
    ;

    /// `self / b`
    fn div(self, b: Self) -> (r: Self)
        ensures
            r == Self::div_spec(self, b),
    ;

    /// `self * b + c`, rounded once.
    fn mul_add(self, b: Self, c: Self) -> (r: Self)
        ensures
            r == Self::mul_add_spec(self, b, c),
    ;

    /// `self > b`
    fn gt(self, b: Self) -> (r: bool)
        ensures
            r == Self::gt_spec(self, b),
    ;

    /// `self == 0`
    fn eq_zero(self) -> (r: bool)
        ensures
            r == Self::eq_zero_spec(self),
    ;

    /// The exponential.
    fn exp(self) -> (r: Self)
        ensures
            r == Self::exp_spec(self),
    ;

    /// The natural logarithm.
    fn ln(self) -> (r: Self)
        ensures
            r == Self::ln_spec(self),
    ;

    /// The square root.
    fn sqrt(self) -> (r: Self)
        ensures
            r == Self::sqrt_spec(self),
    ;

    /// The hyperbolic tangent.
    fn tanh(self) -> (r: Self)
        ensures
            r == Self::tanh_spec(self),
    ;

    /// The cosine.
    fn cos(self) -> (r: Self)
        ensures
            r == Self::cos_spec(self),
    ;

    /// `self` to an integer power.
    fn powi(self, n: i32) -> (r: Self)
        ensures
            r == Self::powi_spec(self, n),
    ;

    /// A count as a number.
    fn count(n: usize) -> (r: Self)
        ensures
            r == Self::count_spec(n),
    ;

    /// `n / 2^64`, for an `n` that does not round up to `2^64`.
    fn fraction(n: u64) -> (r: Self)
        requires
            n <= 0xFFFF_FF00_0000_0000,
        ensures
            r == Self::fraction_spec(n),
    ;

    /// The nearest index, or `None` when the number is not at least zero.
    fn index(self) -> (r: Option<usize>)
        ensures
            r == Self::index_spec(self),
    ;

    /// The 32-bit pattern of the number.
    fn bits(self) -> (r: u32)
        ensures
            r == Self::bits_spec(self),
    ;

    /// The number with the given 32-bit pattern.
    fn from_bits(b: u32) -> (r: Self)
        ensures
            r == Self::from_bits_spec(b),
    ;

    /// A number is recovered from its bits.
    proof fn lemma_bits(a: Self)
        ensures
            Self::from_bits_spec(Self::bits_spec(a)) == a,
    ;
}

pub open spec fn zero<S: Scalar>() -> S {
    S::constant_spec(Constant::Zero)
}

pub open spec fn one<S: Scalar>() -> S {
    S::constant_spec(Constant::One)
}

} // verus!
