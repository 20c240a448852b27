//! Steps in place on device tensors, from the elements that were read from their buffers.
use vstd::prelude::*;
use crate::cuda::command::{requests, Request};
use crate::handle::same_state;
use crate::index::numel;
use crate::mutate::{
    adam_m, adam_params, adam_v, adamw_update, add_scaled, scaled_sum, sgd_params, sgd_update,
    sgd_velocity, AdamSettings,
};
use crate::runtime::Runtime;
use crate::scalar::Scalar;
use crate::tensor::Tensor;

verus! {

/// The device was asked to replace the elements of a tensor's buffer, and nothing else changed.
pub open spec fn rewritten<S>(a: Runtime<S>, b: Runtime<S>, t: Tensor, data: Seq<S>) -> bool {
    &&& same_state(a, b)
    &&& b.mem == a.mem
    &&& requests(b.queue@) == requests(a.queue@).push(
        Request::Write { slot: t.storage_id.slot_idx, data },
    )
}

/// A row-major tensor on the device.
pub open spec fn rewritable<S>(rt: Runtime<S>, t: Tensor) -> bool {
    &&& rt.wf()
    &&& t.valid(rt.mem)
    &&& t.device is Cuda
    &&& t.contiguous_spec()
}

/// Asks for the write; the runtime stays in order.
pub(crate) fn rewrite<S>(t: &Tensor, data: Vec<S>, rt: &mut Runtime<S>)
    requires
        rewritable(*old(rt), *t),
    ensures
        final(rt).wf(),
        rewritten(*old(rt), *final(rt), *t, data@),
{
    let ghost before = *rt;
    rt.write_cuda(t, data);
    proof {
        assert(rt.holds() == before.holds());
    }
}

impl Tensor {
    /// Modifies a value at a flat index, given the elements of the buffer.
    pub fn set_f32_cuda<S: Scalar>(
        &self,
        index: usize,
        value: S,
        data: Vec<S>,
        rt: &mut Runtime<S>,
    )
        requires
            rewritable(*old(rt), *self),
            data@.len() == numel(self.shape@),
            index < data@.len(),
        ensures
            final(rt).wf(),
            rewritten(*old(rt), *final(rt), *self, data@.update(index as int, value)),
    {
        let mut data = data;
        data[index] = value;
        rewrite(self, data, rt);
    }

    /// In-place scaled addition: `self += scale * other`, given the elements of both.
    pub fn add_assign_scaled_cuda<S: Scalar>(
        &self,
        data: Vec<S>,
        other: &[S],
        scale: S,
        rt: &mut Runtime<S>,
    )
        requires
            rewritable(*old(rt), *self),
            data@.len() == numel(self.shape@),
            other@.len() == data@.len(),
        ensures
            final(rt).wf(),
            rewritten(*old(rt), *final(rt), *self, scaled_sum(data@, other@, scale)),
    {
        let mut data = data;
        add_scaled(&mut data, other, scale);
        rewrite(self, data, rt);
    }

    /// An in-place SGD step with momentum and weight decay, given the elements of the tensor and
    /// of its gradient.
    pub fn sgd_step_cuda<S: Scalar>(
        &self,
        data: Vec<S>,
        grad: &[S],
        velocity: &mut Vec<S>,
        lr: S,
        momentum: S,
        weight_decay: S,
        rt: &mut Runtime<S>,
    )
        requires
            rewritable(*old(rt), *self),
            data@.len() == numel(self.shape@),
            grad@.len() == data@.len(),
            old(velocity)@.len() == data@.len(),
        ensures
            final(rt).wf(),
            rewritten(
                *old(rt),
                *final(rt),
                *self,
                sgd_params(data@, grad@, old(velocity)@, lr, momentum, weight_decay),
            ),
            final(velocity)@ == sgd_velocity(
                data@,
                grad@,
                old(velocity)@,
                momentum,
                weight_decay,
            ),
    {
        let mut data = data;
        sgd_update(&mut data, grad, velocity, lr, momentum, weight_decay);
        rewrite(self, data, rt);
    }

    /// An in-place AdamW step, given the elements of the tensor and of its gradient.
    pub fn adamw_step_cuda<S: Scalar>(
        &self,
        data: Vec<S>,
        grad: &[S],
        m: &mut Vec<S>,
        v: &mut Vec<S>,
        t: u32,
        settings: AdamSettings<S>,
        rt: &mut Runtime<S>,
    )
        requires
            rewritable(*old(rt), *self),
            data@.len() == numel(self.shape@),
            grad@.len() == data@.len(),
            old(m)@.len() == data@.len(),
            old(v)@.len() == data@.len(),
            t <= i32::MAX,
        ensures
            final(rt).wf(),
            rewritten(
                *old(rt),
                *final(rt),
                *self,
                adam_params(data@, grad@, old(m)@, old(v)@, t, settings),
            ),
            final(m)@ == adam_m(grad@, old(m)@, settings),
            final(v)@ == adam_v(grad@, old(v)@, settings),
    {
        let mut data = data;
        adamw_update(&mut data, grad, m, v, t, settings);
        rewrite(self, data, rt);
    }
}

} // verus!
