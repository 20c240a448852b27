//! Reverse-mode differentiation.
use vstd::prelude::*;
use crate::runtime::Runtime;
use crate::switches::{
    register_backward_hook, register_drop_hook, register_grad_hook, register_record_op, registered,
    with_autograd,
};

pub mod launch;
pub mod launch_rules;
pub mod layout;
pub mod local;
pub mod rules;
pub mod sweep;
pub mod store;
pub mod grads;
pub mod collect;
pub mod backward;
pub mod blocks;
pub mod checkpoint;
pub mod replay;
pub mod numeric;
pub mod totality;
pub mod growth;
pub mod device_pass;
pub mod device_choice;
pub mod device_finish;
pub mod exact;
pub mod ring;
pub mod centred;
pub mod normal;
pub mod logistic;
pub mod leaf;
pub mod adjoint_quotient;
pub mod adjoint_scores;
pub mod adjoint;
pub mod adjoint_reduce;
pub mod adjoint_loss;
pub mod adjoint_norm;
pub mod adjoint_attention;
pub mod chain;
pub mod tangent;
pub mod alone;
pub mod adjoint_matmul;
pub mod adjoint_conv;
pub mod adjoint_pool;

verus! {

/// Registers the autograd engine.
///
/// Idempotent: safe to call more than once.
pub fn init<S>(rt: &mut Runtime<S>)
    requires
        old(rt).wf(),
    ensures
        final(rt).wf(),
        registered(*old(rt), *final(rt), with_autograd(old(rt).hooks)),
{
    register_record_op(rt);
    register_backward_hook(rt);
    register_grad_hook(rt);
    register_drop_hook(rt);
}

} // verus!
