//! The CPU kernels.
use vstd::prelude::*;
use crate::device::Device;
use crate::runtime::Runtime;
use crate::switches::{register_backend_ops, registered, with_cpu};

pub mod elementwise;
pub mod matmul;
pub mod reduce;
pub mod norm;
pub mod batchnorm;
pub mod conv;
pub mod conv_backward;
pub mod im2col;
pub mod pool;
pub mod avgpool;
pub mod loss;
pub mod attention;
pub mod attention_backward;
pub mod weights;
pub mod entries;
pub mod windows;
pub mod activation;
pub mod shards;

verus! {

/// Registers the CPU backend's operations.
///
/// Idempotent: safe to call more than once.
pub fn init<S>(rt: &mut Runtime<S>)
    requires
        old(rt).wf(),
    ensures
        final(rt).wf(),
        registered(*old(rt), *final(rt), with_cpu(old(rt).hooks)),
{
    register_backend_ops(Device::Cpu, rt);
}

} // verus!
