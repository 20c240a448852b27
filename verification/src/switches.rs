//! Modes and registrations.
use vstd::prelude::*;
use crate::device::Device;
use crate::runtime::{Hooks, Mode, Runtime};

verus! {

/// Only the switches changed.
pub open spec fn switched<S>(a: Runtime<S>, b: Runtime<S>, mode: Mode) -> bool {
    b == (Runtime { mode, ..a })
}

/// Only the registrations changed.
pub open spec fn registered<S>(a: Runtime<S>, b: Runtime<S>, hooks: Hooks) -> bool {
    b == (Runtime { hooks, ..a })
}

/// Switches change nothing that tensors rest on.
pub proof fn lemma_switched<S>(a: Runtime<S>, b: Runtime<S>)
    requires
        a.wf(),
        b == (Runtime { mode: b.mode, hooks: b.hooks, ..a }),
    ensures
        b.wf(),
        b.holds() == a.holds(),
{
    assert(b.holds() == a.holds());
}

/// Sets whether operations are recorded.
pub fn set_autograd_enabled<S>(enabled: bool, rt: &mut Runtime<S>)
    requires
        old(rt).wf(),
    ensures
        final(rt).wf(),
        switched(*old(rt), *final(rt), Mode { autograd_enabled: enabled, ..old(rt).mode }),
{
    let ghost a = *rt;
    rt.mode.autograd_enabled = enabled;
    proof {
        lemma_switched(a, *rt);
    }
}

/// Whether operations are recorded.
#[must_use]
pub fn is_autograd_enabled<S>(rt: &Runtime<S>) -> (r: bool)
    ensures
        r == rt.mode.autograd_enabled,
{
    rt.mode.autograd_enabled
}

/// Sets whether layers behave as in training.
pub fn set_training<S>(training: bool, rt: &mut Runtime<S>)
    requires
        old(rt).wf(),
    ensures
        final(rt).wf(),
        switched(*old(rt), *final(rt), Mode { training, ..old(rt).mode }),
{
    let ghost a = *rt;
    rt.mode.training = training;
    proof {
        lemma_switched(a, *rt);
    }
}

/// Whether layers behave as in training.
#[must_use]
pub fn is_training<S>(rt: &Runtime<S>) -> (r: bool)
    ensures
        r == rt.mode.training,
{
    rt.mode.training
}

/// Sets whether a checkpointed block is being replayed.
pub fn set_recomputing<S>(recomputing: bool, rt: &mut Runtime<S>)
    requires
        old(rt).wf(),
    ensures
        final(rt).wf(),
        switched(*old(rt), *final(rt), Mode { recomputing, ..old(rt).mode }),
{
    let ghost a = *rt;
    rt.mode.recomputing = recomputing;
    proof {
        lemma_switched(a, *rt);
    }
}

/// Whether a checkpointed block is being replayed.
#[must_use]
pub fn is_recomputing<S>(rt: &Runtime<S>) -> (r: bool)
    ensures
        r == rt.mode.recomputing,
{
    rt.mode.recomputing
}

/// The randomness counter.
#[must_use]
pub fn rng_counter<S>(rt: &Runtime<S>) -> (r: u64)
    ensures
        r == rt.mode.rng_counter,
{
    rt.mode.rng_counter
}

/// Sets the randomness counter.
pub fn set_rng_counter<S>(counter: u64, rt: &mut Runtime<S>)
    requires
        old(rt).wf(),
    ensures
        final(rt).wf(),
        switched(*old(rt), *final(rt), Mode { rng_counter: counter, ..old(rt).mode }),
{
    let ghost a = *rt;
    rt.mode.rng_counter = counter;
    proof {
        lemma_switched(a, *rt);
    }
}

/// The switches after one random draw.
pub open spec fn after_draw(mode: Mode) -> Mode {
    Mode {
        rng_counter: if mode.rng_counter < u64::MAX {
            (mode.rng_counter + 1) as u64
        } else {
            0
        },
        ..mode
    }
}

/// Takes the randomness counter and moves it on by one, round to 0 at the end of its range.
pub fn next_rng_counter<S>(rt: &mut Runtime<S>) -> (r: u64)
    requires
        old(rt).wf(),
    ensures
        final(rt).wf(),
        r == old(rt).mode.rng_counter,
        switched(*old(rt), *final(rt), after_draw(old(rt).mode)),
{
    let ghost a = *rt;
    let counter: u64 = rt.mode.rng_counter;
    let next: u64 = if counter < u64::MAX {
        counter + 1
    } else {
        0
    };
    rt.mode.rng_counter = next;
    proof {
        lemma_switched(a, *rt);
    }
    counter
}

/// Registers the operations of a backend.
pub fn register_backend_ops<S>(device: Device, rt: &mut Runtime<S>)
    requires
        old(rt).wf(),
    ensures
        final(rt).wf(),
        registered(
            *old(rt),
            *final(rt),
            match device {
                Device::Cpu => Hooks { cpu_ops: true, ..old(rt).hooks },
                Device::Cuda(_) => Hooks { cuda_ops: true, ..old(rt).hooks },
            },
        ),
{
    let ghost a = *rt;
    match device {
        Device::Cpu => {
            rt.hooks.cpu_ops = true;
        },
        Device::Cuda(_) => {
            rt.hooks.cuda_ops = true;
        },
    }
    proof {
        lemma_switched(a, *rt);
    }
}

/// Registers the recording of operations.
pub fn register_record_op<S>(rt: &mut Runtime<S>)
    requires
        old(rt).wf(),
    ensures
        final(rt).wf(),
        registered(*old(rt), *final(rt), Hooks { record_op: true, ..old(rt).hooks }),
{
    let ghost a = *rt;
    rt.hooks.record_op = true;
    proof {
        lemma_switched(a, *rt);
    }
}

/// Registers the backward pass.
pub fn register_backward_hook<S>(rt: &mut Runtime<S>)
    requires
        old(rt).wf(),
    ensures
        final(rt).wf(),
        registered(*old(rt), *final(rt), Hooks { backward: true, ..old(rt).hooks }),
{
    let ghost a = *rt;
    rt.hooks.backward = true;
    proof {
        lemma_switched(a, *rt);
    }
}

/// Registers the lookup of gradients.
pub fn register_grad_hook<S>(rt: &mut Runtime<S>)
    requires
        old(rt).wf(),
    ensures
        final(rt).wf(),
        registered(*old(rt), *final(rt), Hooks { grad: true, ..old(rt).hooks }),
{
    let ghost a = *rt;
    rt.hooks.grad = true;
    proof {
        lemma_switched(a, *rt);
    }
}

/// Registers the dropping of gradients with their tensors.
pub fn register_drop_hook<S>(rt: &mut Runtime<S>)
    requires
        old(rt).wf(),
    ensures
        final(rt).wf(),
        registered(*old(rt), *final(rt), Hooks { drop: true, ..old(rt).hooks }),
{
    let ghost a = *rt;
    rt.hooks.drop = true;
    proof {
        lemma_switched(a, *rt);
    }
}

/// Registers the counting of references to device buffers.
pub fn register_refcount_inc<S>(rt: &mut Runtime<S>)
    requires
        old(rt).wf(),
    ensures
        final(rt).wf(),
        registered(*old(rt), *final(rt), Hooks { refcount_inc: true, ..old(rt).hooks }),
{
    let ghost a = *rt;
    rt.hooks.refcount_inc = true;
    proof {
        lemma_switched(a, *rt);
    }
}

/// Registers the counting down of references to device buffers.
pub fn register_refcount_dec<S>(rt: &mut Runtime<S>)
    requires
        old(rt).wf(),
    ensures
        final(rt).wf(),
        registered(*old(rt), *final(rt), Hooks { refcount_dec: true, ..old(rt).hooks }),
{
    let ghost a = *rt;
    rt.hooks.refcount_dec = true;
    proof {
        lemma_switched(a, *rt);
    }
}

/// Registers the reading, writing and allocating of device memory.
pub fn register_cuda_hooks<S>(rt: &mut Runtime<S>)
    requires
        old(rt).wf(),
    ensures
        final(rt).wf(),
        registered(*old(rt), *final(rt), Hooks { cuda_memory: true, ..old(rt).hooks }),
{
    let ghost a = *rt;
    rt.hooks.cuda_memory = true;
    proof {
        lemma_switched(a, *rt);
    }
}

/// The registrations after the CPU backend's.
pub open spec fn with_cpu(h: Hooks) -> Hooks {
    Hooks { cpu_ops: true, ..h }
}

/// The registrations after the CUDA backend's.
pub open spec fn with_cuda(h: Hooks) -> Hooks {
    Hooks { refcount_inc: true, refcount_dec: true, cuda_memory: true, cuda_ops: true, ..h }
}

/// The registrations after the autograd engine's.
pub open spec fn with_autograd(h: Hooks) -> Hooks {
    Hooks { record_op: true, backward: true, grad: true, drop: true, ..h }
}

/// The registrations after all of them.
pub open spec fn with_all(h: Hooks) -> Hooks {
    let h = with_cpu(h);
    with_autograd(
        if CUDA_BACKEND {
            with_cuda(h)
        } else {
            h
        },
    )
}

/// The CUDA backend is part of the library.
pub const CUDA_BACKEND: bool = true;

/// Initialising twice is the same as initialising once.
pub proof fn law_init_idempotent(h: Hooks)
    ensures
        with_cpu(with_cpu(h)) == with_cpu(h),
        with_cuda(with_cuda(h)) == with_cuda(h),
        with_autograd(with_autograd(h)) == with_autograd(h),
        with_all(with_all(h)) == with_all(h),
{
}

/// Backends and the autograd engine can be initialised in any order.
pub proof fn law_init_order(h: Hooks)
    ensures
        with_cpu(with_autograd(h)) == with_autograd(with_cpu(h)),
        with_cuda(with_autograd(h)) == with_autograd(with_cuda(h)),
        with_cuda(with_cpu(h)) == with_cpu(with_cuda(h)),
{
}

/// Initialises the backends and the autograd engine.
///
/// Idempotent: safe to call more than once.
pub fn init<S>(rt: &mut Runtime<S>)
    requires
        old(rt).wf(),
    ensures
        final(rt).wf(),
        registered(*old(rt), *final(rt), with_all(old(rt).hooks)),
{
    crate::cpu::init(rt);
    if cuda_available() {
        crate::cuda::init(rt);
    }
    crate::autograd::init(rt);
}

/// Returns whether the library has the CUDA backend.
#[must_use]
pub fn cuda_available() -> (r: bool)
    ensures
        r == CUDA_BACKEND,
{
    CUDA_BACKEND
}

} // verus!
