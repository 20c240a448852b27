//! The CUDA backend: which device buffers exist, and what is launched on them.
use vstd::prelude::*;
use crate::device::Device;
use crate::runtime::Runtime;
use crate::switches::{
    register_backend_ops, register_cuda_hooks, register_refcount_dec, register_refcount_inc,
    registered, with_cuda,
};

pub mod slots;
pub mod command;
pub mod plan;
pub mod forward;
pub mod matmul;
pub mod images;
pub mod norms;
pub mod attention;
pub mod dispatch;
pub mod cover;
pub mod steps;

verus! {

/// Registers the CUDA backend's memory and operations.
///
/// Idempotent: safe to call more than once.
pub fn init<S>(rt: &mut Runtime<S>)
    requires
        old(rt).wf(),
    ensures
        final(rt).wf(),
        registered(*old(rt), *final(rt), with_cuda(old(rt).hooks)),
{
    register_refcount_inc(rt);
    register_refcount_dec(rt);
    register_cuda_hooks(rt);
    register_backend_ops(Device::Cuda(0), rt);
}

} // verus!
