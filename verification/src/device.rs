//! Where tensor memory lives.
use vstd::prelude::*;

verus! {

/// Number of distinct compute backends that ops are dispatched over.
///
/// Registry index per backend: 0 = CPU, 1 = CUDA, 2 = Vulkan (reserved),
/// 3 = oneAPI (reserved). See [`Device::backend_idx`].
pub const NUM_BACKENDS: usize = 4;

/// Where the tensor memory actually lives.
#[derive(Debug, Clone, Copy, PartialEq, Eq, Hash, Structural)]
pub enum Device {
    /// Just the normal CPU.
    Cpu,
    /// A CUDA GPU with its index.
    Cuda(usize),
}

impl Default for Device {
    fn default() -> (d: Self)
        ensures
            d == Device::Cpu,
    {
        Device::Cpu
    }
}

impl Device {
    /// The registry index of a device's backend; every CUDA ordinal shares one backend.
    pub open spec fn backend(self) -> int {
        match self {
            Device::Cpu => 0,
            Device::Cuda(_) => 1,
        }
    }

    /// Is this a CPU?
    #[must_use]
    pub fn is_cpu(self) -> (r: bool)
        ensures
            r == (self is Cpu),
    {
        matches!(self, Self::Cpu)
    }

    /// Is this a CUDA GPU?
    #[must_use]
    pub fn is_cuda(self) -> (r: bool)
        ensures
            r == (self is Cuda),
    {
        matches!(self, Self::Cuda(_))
    }

    /// Index into the per-backend op registry for this device's backend.
    ///
    /// The CUDA ordinal is irrelevant here - every CUDA device shares one
    /// backend implementation.
    #[must_use]
    pub fn backend_idx(self) -> (i: usize)
        ensures
            i == self.backend(),
            i < NUM_BACKENDS,
    {
        match self {
            Self::Cpu => 0,
            Self::Cuda(_) => 1,
        }
    }
}

} // verus!
