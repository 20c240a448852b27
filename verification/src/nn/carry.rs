//! Moving layers to another device.
use vstd::prelude::*;
use crate::cells::Meta;
use crate::create::{device_filled, device_roomy, shared};
use crate::device::Device;
use crate::dtype::DType;
use crate::handle::{same_meta, undisturbed};
use crate::index::{lemma_sized_fits, numel};
use crate::nn::conv::Conv2d;
use crate::nn::linear::{listed, Linear};
use crate::runtime::Runtime;
use crate::scalar::Scalar;
use crate::tape::{lemma_retained, lemma_valid_refs};
use crate::tensor::Tensor;

verus! {

/// The elements of two tensors.
pub open spec fn elements(ts: Seq<Tensor>) -> nat
    decreases ts.len(),
{
    if ts.len() == 0 {
        0
    } else {
        elements(ts.drop_last()) + numel(ts.last().shape@)
    }
}

/// Tensors of one device can be moved to another, or shared on their own.
pub open spec fn portable<S>(rt: Runtime<S>, ts: Seq<Tensor>, device: Device) -> bool {
    &&& rt.mem.cells.room() >= ts.len()
    &&& forall|i: int|
        0 <= i < ts.len() ==> {
            &&& (#[trigger] ts[i]).owned(rt)
            &&& ts[i].device == ts[0].device
            &&& rt.mem.refs(ts[i].key()) + ts.len() <= usize::MAX
            &&& ts[i].device != device ==> ts[i].is_f32(rt.mem) && ts[i].contiguous_spec()
        }
    &&& ts.len() > 0 && ts[0].device != device ==> {
        &&& rt.hooks.cuda_memory
        &&& device_roomy(rt, ts.len() as int, elements(ts) as int)
    }
}

/// `r` is `t` on a device: another handle where `t` is already there, or else a copy that
/// requires gradients if `t` does.
pub open spec fn carried<S: Scalar>(
    a: Runtime<S>,
    b: Runtime<S>,
    t: Tensor,
    r: Tensor,
    device: Device,
) -> bool {
    &&& r.owned(b)
    &&& undisturbed(a, b)
    &&& same_meta(a, b)
    &&& r.shape == t.shape
    &&& r.device == device
    &&& t.device == device ==> shared(a, b, t, r, t.shape, t.strides)
    &&& t.device != device ==> r.contiguous_spec() && r.dtype == DType::F32
    &&& t.device != device ==> device_filled(
        a,
        b,
        r,
        Meta { node_id: None, requires_grad: t.meta(a.mem).requires_grad },
        t.value(a.mem).data,
    )
}

/// The optional tensor on a device.
pub open spec fn carried_option<S: Scalar>(
    a: Runtime<S>,
    b: Runtime<S>,
    t: Option<Tensor>,
    r: Option<Tensor>,
    device: Device,
) -> bool {
    match t {
        Some(t) => r is Some && carried(a, b, t, r->0, device),
        None => r is None && b == a,
    }
}

/// Moves a weight and a bias.
fn carry<S: Scalar>(
    weight: &Tensor,
    bias: &Option<Tensor>,
    device: Device,
    rt: &mut Runtime<S>,
) -> (r: (Tensor, Option<Tensor>))
    requires
        old(rt).wf(),
        portable(*old(rt), seq![*weight] + listed(*bias), device),
    ensures
        final(rt).wf(),
        exists|m: Runtime<S>|
            #[trigger] carried(*old(rt), m, *weight, r.0, device) && carried_option(
                m,
                *final(rt),
                *bias,
                r.1,
                device,
            ),
{
    let ghost a = *rt;
    let ghost ts = seq![*weight] + listed(*bias);
    proof {
        reveal_with_fuel(elements, 3);
        assert(ts[0] == *weight);
        assert(numel(weight.shape@) <= usize::MAX) by {
            lemma_sized_fits(weight.shape@);
        }
        if bias is Some {
            assert(ts[1] == bias->0);
            assert(ts.drop_last() =~= seq![*weight]);
            assert(ts.drop_last().drop_last() =~= Seq::<Tensor>::empty());
            lemma_sized_fits(bias->0.shape@);
        } else {
            assert(ts =~= seq![*weight]);
            assert(ts.drop_last() =~= Seq::<Tensor>::empty());
        }
    }
    let w = weight.to(device, rt);
    let ghost m = *rt;
    proof {
        assert(carried(a, m, *weight, w, device));
    }
    match bias {
        Some(b) => {
            proof {
                assert(b.owned(m));
                if weight.device == device {
                    lemma_valid_refs(a.mem, *weight);
                    lemma_retained(a.mem, m.mem, weight.key());
                }
            }
            let moved = b.to(device, rt);
            let r = (w, Some(moved));
            proof {
                assert(carried(a, m, *weight, r.0, device));
                assert(carried_option(m, *rt, *bias, r.1, device));
            }
            r
        },
        None => {
            let r = (w, None);
            proof {
                assert(carried(a, m, *weight, r.0, device));
                assert(carried_option(m, *rt, *bias, r.1, device));
            }
            r
        },
    }
}

impl Linear {
    /// Move the layer parameters to a different device.
    #[must_use]
    pub fn to<S: Scalar>(&self, device: Device, rt: &mut Runtime<S>) -> (r: Linear)
        requires
            old(rt).wf(),
            portable(*old(rt), self.tensors(), device),
        ensures
            final(rt).wf(),
            exists|m: Runtime<S>|
                #[trigger] carried(*old(rt), m, self.weight, r.weight, device) && carried_option(
                    m,
                    *final(rt),
                    self.bias,
                    r.bias,
                    device,
                ),
    {
        let (weight, bias) = carry(&self.weight, &self.bias, device, rt);
        Linear { weight, bias }
    }
}

impl Conv2d {
    /// Move the layer parameters to a different device.
    #[must_use]
    pub fn to<S: Scalar>(&self, device: Device, rt: &mut Runtime<S>) -> (r: Conv2d)
        requires
            old(rt).wf(),
            portable(*old(rt), self.tensors(), device),
        ensures
            final(rt).wf(),
            r.stride == self.stride,
            r.padding == self.padding,
            exists|m: Runtime<S>|
                #[trigger] carried(*old(rt), m, self.weight, r.weight, device) && carried_option(
                    m,
                    *final(rt),
                    self.bias,
                    r.bias,
                    device,
                ),
    {
        let (weight, bias) = carry(&self.weight, &self.bias, device, rt);
        Conv2d { weight, bias, stride: self.stride, padding: self.padding }
    }
}

} // verus!
