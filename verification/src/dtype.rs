//! Element types.
use vstd::prelude::*;

verus! {

/// What kind of numbers are inside the tensor.
#[derive(Debug, Clone, Copy, PartialEq, Eq, Hash, Structural)]
pub enum DType {
    /// standard float
    F32,
    /// half float
    F16,
    /// bfloat16
    BF16,
    /// standard int
    I32,
    /// big int
    I64,
    /// boolean
    Bool,
}

impl DType {
    /// How many bytes one element takes up.
    #[must_use]
    pub fn size_bytes(self) -> (n: usize)
        ensures
            n == match self {
                DType::F32 => 4usize,
                DType::F16 => 2usize,
                DType::BF16 => 2usize,
                DType::I32 => 4usize,
                DType::I64 => 8usize,
                DType::Bool => 1usize,
            },
    {
        match self {
            Self::F32 | Self::I32 => 4,
            Self::F16 | Self::BF16 => 2,
            Self::I64 => 8,
            Self::Bool => 1,
        }
    }

    /// Whether it is a float type that can hold gradients.
    #[must_use]
    pub fn is_float(self) -> (r: bool)
        ensures
            r == (self == DType::F32 || self == DType::F16 || self == DType::BF16),
    {
        matches!(self, Self::F32 | Self::F16 | Self::BF16)
    }
}

} // verus!
