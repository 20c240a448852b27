//! Fused attention for CUDA tensors.
//!
//! The operands are brought to the host, the host kernel runs, and the results are sent back.
use vstd::prelude::*;
use crate::cpu::attention::{attention_ok, attention_value, mask_view};
use crate::cpu::attention_backward::attention_backward_value;
use crate::create::{device_filled, device_room, device_roomy};
use crate::dense::{Dense, Value};
use crate::device::Device;
use crate::handle::{no_meta, undisturbed};
use crate::index::numel;
use crate::runtime::Runtime;
use crate::scalar::Scalar;
use crate::tensor::Tensor;

verus! {

/// Sends an array to the first device.
fn send<S: Scalar>(d: Dense<S>, rt: &mut Runtime<S>) -> (t: Tensor)
    requires
        old(rt).wf(),
        old(rt).hooks.cuda_memory,
        d.wf(),
        old(rt).mem.cells.room() > 0,
        device_room(*old(rt), numel(d@.dims) as usize),
    ensures
        final(rt).wf(),
        t.owned(*final(rt)),
        undisturbed(*old(rt), *final(rt)),
        t.shape@ == d@.dims,
        t.contiguous_spec(),
        t.device == Device::Cuda(0),
        device_filled(*old(rt), *final(rt), t, no_meta(), d@.data),
{
    Tensor::from_f32_cuda(d.data(), *d.shape(), Device::Cuda(0), rt)
}

/// Scaled dot-product attention on operands that were read from the device.
pub fn fused_attention<S: Scalar>(
    q: &Dense<S>,
    k: &Dense<S>,
    v: &Dense<S>,
    mask: Option<&Dense<S>>,
    rt: &mut Runtime<S>,
) -> (r: Tensor)
    requires
        old(rt).wf(),
        old(rt).hooks.cuda_memory,
        q.wf(),
        k.wf(),
        v.wf(),
        mask matches Some(m) ==> m.wf(),
        attention_ok(q@, k@, v@, mask_view(mask)),
        old(rt).mem.cells.room() > 0,
        device_room(
            *old(rt),
            numel(attention_value(q@, k@, v@, mask_view(mask)).dims) as usize,
        ),
    ensures
        final(rt).wf(),
        r.owned(*final(rt)),
        undisturbed(*old(rt), *final(rt)),
        r.shape@ == attention_value(q@, k@, v@, mask_view(mask)).dims,
        r.contiguous_spec(),
        r.device == Device::Cuda(0),
        device_filled(
            *old(rt),
            *final(rt),
            r,
            no_meta(),
            attention_value(q@, k@, v@, mask_view(mask)).data,
        ),
{
    let out = crate::cpu::attention::fused_attention(q, k, v, mask);
    send(out, rt)
}

/// Three arrays on the device, made one after the other.
pub open spec fn sent3<S>(
    a: Runtime<S>,
    b: Runtime<S>,
    ts: (Tensor, Tensor, Tensor),
    vs: (Value<S>, Value<S>, Value<S>),
) -> bool {
    exists|m1: Runtime<S>, m2: Runtime<S>|
        #[trigger] device_filled(a, m1, ts.0, no_meta(), vs.0.data) && #[trigger] device_filled(
            m1,
            m2,
            ts.1,
            no_meta(),
            vs.1.data,
        ) && device_filled(m2, b, ts.2, no_meta(), vs.2.data)
}

/// The gradients of an attention on operands that were read from the device.
pub fn fused_attention_backward<S: Scalar>(
    q: &Dense<S>,
    k: &Dense<S>,
    v: &Dense<S>,
    mask: Option<&Dense<S>>,
    grad_out: &Dense<S>,
    rt: &mut Runtime<S>,
) -> (r: (Tensor, Tensor, Tensor))
    requires
        old(rt).wf(),
        old(rt).hooks.cuda_memory,
        q.wf(),
        k.wf(),
        v.wf(),
        grad_out.wf(),
        mask matches Some(m) ==> m.wf(),
        attention_ok(q@, k@, v@, mask_view(mask)),
        grad_out@.data.len() == q@.data.len(),
        old(rt).mem.cells.room() >= 3,
        ({
            let g = attention_backward_value(q@, k@, v@, mask_view(mask), grad_out@);
            device_roomy(
                *old(rt),
                3,
                (numel(g.0.dims) + numel(g.1.dims) + numel(g.2.dims)) as int,
            )
        }),
    ensures
        final(rt).wf(),
        r.0.owned(*final(rt)),
        r.1.owned(*final(rt)),
        r.2.owned(*final(rt)),
        undisturbed(*old(rt), *final(rt)),
        ({
            let g = attention_backward_value(q@, k@, v@, mask_view(mask), grad_out@);
            &&& r.0.shape@ == g.0.dims
            &&& r.1.shape@ == g.1.dims
            &&& r.2.shape@ == g.2.dims
            &&& sent3(*old(rt), *final(rt), r, g)
        }),
{
    let ghost first = *rt;
    let (dq, dk, dv) = crate::cpu::attention_backward::fused_attention_backward(
        q,
        k,
        v,
        mask,
        grad_out,
    );
    let ghost g = attention_backward_value(q@, k@, v@, mask_view(mask), grad_out@);
    let tq = send(dq, rt);
    let ghost m1 = *rt;
    let tk = send(dk, rt);
    let ghost m2 = *rt;
    let tv = send(dv, rt);
    proof {
        let ts = (tq, tk, tv);
        assert(device_filled(first, m1, ts.0, no_meta(), g.0.data));
        assert(device_filled(m1, m2, ts.1, no_meta(), g.1.data));
        assert(device_filled(m2, *rt, ts.2, no_meta(), g.2.data));
        assert(sent3(first, *rt, ts, g));
        assert forall|u: Tensor| #[trigger] u.owned(first) implies {
            &&& u.owned(*rt)
            &&& u.device is Cpu ==> u.block(rt.mem) == u.block(first.mem)
        } by {
            assert(u.owned(m1));
            assert(u.owned(m2));
        }
        assert(tq.owned(m2));
        assert(tq.owned(*rt));
        assert(tk.owned(*rt));
    }
    (tq, tk, tv)
}

} // verus!
