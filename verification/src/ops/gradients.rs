//! Gradients of single operations, as tensors.
use vstd::prelude::*;
use crate::cells::Meta;
use crate::cpu::attention::attention_ok;
use crate::cpu::attention_backward::attention_backward_value;
use crate::cpu::avgpool::avgpool_backward_value;
use crate::cpu::batchnorm::{batchnorm_backward_value, batchnorm_ok};
use crate::cpu::conv_backward::{conv_backward_ok, conv_backward_value};
use crate::cpu::loss::{
    cross_entropy_backward_value, cross_entropy_ok, embedding_backward_value, embedding_ok,
};
use crate::cpu::norm::{layernorm_backward_value, layernorm_ok};
use crate::cpu::pool::{maxpool_backward_value, pool_backward_ok};
use crate::cuda::command::launchable;
use crate::cuda::forward::{on_cuda, packed, room_for};
use crate::cuda::images::{
    avgpool_backward_launch, conv_backward_launch, maxpool_backward_launch, room_for3,
};
use crate::cuda::norms::{
    batchnorm_backward_launch, batchnorm_ready, cross_entropy_backward_launch,
    embedding_backward_launch, layernorm_backward_launch,
};
use crate::cuda::plan::{planned, planned3};
use crate::dense::{Dense, Value};
use crate::device::Device;
use crate::dtype::DType;
use crate::handle::{added, has_room, no_meta, same_meta, undisturbed};
use crate::index::{lemma_bounded_fits, numel};
use crate::perm::lemma_strided_row_major;
use crate::runtime::Runtime;
use crate::scalar::Scalar;
use crate::shape::broadcasts_to;
use crate::storage::{Block, CpuStorage};
use crate::tensor::Tensor;

verus! {

/// `t` is a new row-major CPU tensor that holds `v`.
pub open spec fn placed_at<S>(a: Runtime<S>, b: Runtime<S>, t: Tensor, v: Value<S>) -> bool {
    &&& added(a, b, t, Block::F32(v.data), no_meta())
    &&& t.shape@ == v.dims
    &&& t.contiguous_spec()
    &&& t.dtype == DType::F32
    &&& t.device == Device::Cpu
}

/// Makes a CPU tensor out of an array.
pub(crate) fn place<S: Scalar>(d: Dense<S>, rt: &mut Runtime<S>) -> (t: Tensor)
    requires
        old(rt).wf(),
        d.wf(),
        has_room(*old(rt), 1, 1),
    ensures
        final(rt).wf(),
        placed_at(*old(rt), *final(rt), t, d@),
        t.owned(*final(rt)),
        t.value(final(rt).mem) == d@,
        undisturbed(*old(rt), *final(rt)),
        same_meta(*old(rt), *final(rt)),
        final(rt).holds() == old(rt).holds(),
{
    let ghost v = d@;
    let shape = *d.shape();
    let storage = CpuStorage::F32(d.into_data());
    let meta = Meta { node_id: None, requires_grad: false };
    let t = rt.adopt(storage, shape, DType::F32, meta);
    proof {
        lemma_bounded_fits(shape@);
        lemma_strided_row_major(v.data, shape@);
    }
    t
}

/// Three new tensors, made one after the other.
pub open spec fn placed3<S>(
    a: Runtime<S>,
    b: Runtime<S>,
    ts: (Tensor, Tensor, Tensor),
    vs: (Value<S>, Value<S>, Value<S>),
) -> bool {
    exists|m1: Runtime<S>, m2: Runtime<S>|
        #[trigger] placed_at(a, m1, ts.0, vs.0) && #[trigger] placed_at(m1, m2, ts.1, vs.1)
            && placed_at(m2, b, ts.2, vs.2)
}

/// All three tensors are the caller's.
pub open spec fn owned3<S>(rt: Runtime<S>, ts: (Tensor, Tensor, Tensor)) -> bool {
    ts.0.owned(rt) && ts.1.owned(rt) && ts.2.owned(rt)
}

/// The values of three tensors.
pub open spec fn values3<S>(rt: Runtime<S>, ts: (Tensor, Tensor, Tensor)) -> (
    Value<S>,
    Value<S>,
    Value<S>,
) {
    (ts.0.value(rt.mem), ts.1.value(rt.mem), ts.2.value(rt.mem))
}

/// Makes three CPU tensors out of arrays.
fn place3<S: Scalar>(ds: (Dense<S>, Dense<S>, Dense<S>), rt: &mut Runtime<S>) -> (r: (
    Tensor,
    Tensor,
    Tensor,
))
    requires
        old(rt).wf(),
        ds.0.wf(),
        ds.1.wf(),
        ds.2.wf(),
        has_room(*old(rt), 3, 3),
    ensures
        final(rt).wf(),
        placed3(*old(rt), *final(rt), r, (ds.0@, ds.1@, ds.2@)),
        owned3(*final(rt), r),
        values3(*final(rt), r) == (ds.0@, ds.1@, ds.2@),
        undisturbed(*old(rt), *final(rt)),
{
    let ghost vs = (ds.0@, ds.1@, ds.2@);
    let ghost first = *rt;
    let ta = place(ds.0, rt);
    let ghost m1 = *rt;
    let tb = place(ds.1, rt);
    let ghost m2 = *rt;
    let tc = place(ds.2, rt);
    proof {
        let ts = (ta, tb, tc);
        assert(placed_at(first, m1, ts.0, vs.0));
        assert(placed_at(m1, m2, ts.1, vs.1));
        assert(placed_at(m2, *rt, ts.2, vs.2));
        assert(placed3(first, *rt, ts, vs));
        assert forall|u: Tensor| #[trigger] u.owned(first) implies {
            &&& u.owned(*rt)
            &&& u.device is Cpu ==> u.block(rt.mem) == u.block(first.mem)
        } by {
            assert(u.owned(m1));
            assert(u.owned(m2));
        }
        assert(ta.owned(m2));
        assert(ta.owned(*rt));
        assert(tb.owned(*rt));
    }
    (ta, tb, tc)
}

impl Tensor {
    /// The gradient of an embedding with respect to its weight.
    #[must_use]
    pub fn embedding_backward<S: Scalar>(
        &self,
        weight: &Tensor,
        grad_out: &Tensor,
        rt: &mut Runtime<S>,
    ) -> (r: Tensor)
        requires
            old(rt).wf(),
            self.device is Cpu ==> {
                &&& old(rt).hooks.cpu_ops
                &&& self.is_f32(old(rt).mem)
                &&& weight.is_f32(old(rt).mem)
                &&& grad_out.is_f32(old(rt).mem)
                &&& embedding_ok(self.value(old(rt).mem), weight.value(old(rt).mem))
                &&& grad_out.shape@ == self.shape@.push(weight.shape@[1])
                &&& has_room(*old(rt), 1, 1)
            },
            self.device is Cuda ==> {
                &&& old(rt).hooks.cuda_ops
                &&& packed(*old(rt), *self)
                &&& packed(*old(rt), *grad_out)
                &&& on_cuda(*old(rt), *weight)
                &&& weight.shape@.len() >= 2
                &&& launchable(numel(self.shape@))
                &&& room_for(*old(rt), numel(weight.shape@))
            },
        ensures
            final(rt).wf(),
            r.owned(*final(rt)),
            undisturbed(*old(rt), *final(rt)),
            self.device is Cpu ==> r.value(final(rt).mem) == embedding_backward_value(
                self.value(old(rt).mem),
                weight.value(old(rt).mem),
                grad_out.value(old(rt).mem),
            ),
            self.device is Cpu ==> placed_at(
                *old(rt),
                *final(rt),
                r,
                embedding_backward_value(
                    self.value(old(rt).mem),
                    weight.value(old(rt).mem),
                    grad_out.value(old(rt).mem),
                ),
            ),
            self.device is Cuda ==> planned(
                *old(rt),
                *final(rt),
                r,
                embedding_backward_launch(*self, *weight, *grad_out, r),
            ),
    {
        match self.device {
            Device::Cpu => {
                let own_d = self.read(rt);
                let weight_d = weight.read(rt);
                let grad_out_d = grad_out.read(rt);
                let g = crate::cpu::loss::embedding_backward(&own_d, &weight_d, &grad_out_d);
                place(g, rt)
            },
            Device::Cuda(_) => crate::cuda::norms::embedding_backward(self, weight, grad_out, rt),
        }
    }

    /// The gradient of the cross-entropy loss with respect to the logits.
    #[must_use]
    pub fn cross_entropy_backward<S: Scalar>(
        &self,
        targets: &Tensor,
        grad_out: &Tensor,
        rt: &mut Runtime<S>,
    ) -> (r: Tensor)
        requires
            old(rt).wf(),
            self.device is Cpu ==> {
                &&& old(rt).hooks.cpu_ops
                &&& self.is_f32(old(rt).mem)
                &&& targets.is_f32(old(rt).mem)
                &&& grad_out.is_f32(old(rt).mem)
                &&& cross_entropy_ok(self.value(old(rt).mem), targets.value(old(rt).mem))
                &&& numel(grad_out.shape@) == 1
                &&& has_room(*old(rt), 1, 1)
            },
            self.device is Cuda ==> {
                &&& old(rt).hooks.cuda_ops
                &&& packed(*old(rt), *self)
                &&& packed(*old(rt), *grad_out)
                &&& on_cuda(*old(rt), *targets)
                &&& self.shape@.len() >= 2
                &&& launchable(self.shape@[0] as nat)
                &&& room_for(*old(rt), numel(self.shape@))
            },
        ensures
            final(rt).wf(),
            r.owned(*final(rt)),
            undisturbed(*old(rt), *final(rt)),
            self.device is Cpu ==> r.value(final(rt).mem) == cross_entropy_backward_value(
                self.value(old(rt).mem),
                targets.value(old(rt).mem),
                grad_out.value(old(rt).mem),
            ),
            self.device is Cpu ==> placed_at(
                *old(rt),
                *final(rt),
                r,
                cross_entropy_backward_value(
                    self.value(old(rt).mem),
                    targets.value(old(rt).mem),
                    grad_out.value(old(rt).mem),
                ),
            ),
            self.device is Cuda ==> planned(
                *old(rt),
                *final(rt),
                r,
                cross_entropy_backward_launch(*self, *targets, *grad_out, r),
            ),
    {
        match self.device {
            Device::Cpu => {
                let own_d = self.read(rt);
                let targets_d = targets.read(rt);
                let grad_out_d = grad_out.read(rt);
                let g = crate::cpu::loss::cross_entropy_backward(&own_d, &targets_d, &grad_out_d);
                place(g, rt)
            },
            Device::Cuda(_) => crate::cuda::norms::cross_entropy_backward(
                self,
                targets,
                grad_out,
                rt,
            ),
        }
    }

    /// The gradient of max pooling with respect to its input.
    #[must_use]
    pub fn maxpool2d_backward<S: Scalar>(
        &self,
        grad_out: &Tensor,
        kernel_size: usize,
        stride: usize,
        padding: usize,
        rt: &mut Runtime<S>,
    ) -> (r: Tensor)
        requires
            old(rt).wf(),
            self.device is Cpu ==> {
                &&& old(rt).hooks.cpu_ops
                &&& self.is_f32(old(rt).mem)
                &&& grad_out.is_f32(old(rt).mem)
                &&& pool_backward_ok(
                    self.value(old(rt).mem),
                    grad_out.value(old(rt).mem),
                    kernel_size,
                    stride,
                    padding,
                )
                &&& has_room(*old(rt), 1, 1)
            },
            self.device is Cuda ==> {
                &&& old(rt).hooks.cuda_ops
                &&& packed(*old(rt), *self)
                &&& packed(*old(rt), *grad_out)
                &&& self.shape@.len() == 4
                &&& grad_out.shape@.len() == 4
                &&& room_for(*old(rt), numel(self.shape@))
            },
        ensures
            final(rt).wf(),
            r.owned(*final(rt)),
            undisturbed(*old(rt), *final(rt)),
            self.device is Cpu ==> r.value(final(rt).mem) == maxpool_backward_value(
                self.value(old(rt).mem),
                grad_out.value(old(rt).mem),
                kernel_size,
                stride,
                padding,
            ),
            self.device is Cpu ==> placed_at(
                *old(rt),
                *final(rt),
                r,
                maxpool_backward_value(
                    self.value(old(rt).mem),
                    grad_out.value(old(rt).mem),
                    kernel_size,
                    stride,
                    padding,
                ),
            ),
            self.device is Cuda ==> planned(
                *old(rt),
                *final(rt),
                r,
                maxpool_backward_launch(*self, *grad_out, r, kernel_size, stride, padding),
            ),
    {
        match self.device {
            Device::Cpu => {
                let own_d = self.read(rt);
                let grad_out_d = grad_out.read(rt);
                let g = crate::cpu::pool::maxpool2d_backward(
                    &own_d,
                    &grad_out_d,
                    kernel_size,
                    stride,
                    padding,
                );
                place(g, rt)
            },
            Device::Cuda(_) => crate::cuda::images::maxpool2d_backward(
                self,
                grad_out,
                kernel_size,
                stride,
                padding,
                rt,
            ),
        }
    }

    /// The gradient of average pooling with respect to its input.
    #[must_use]
    pub fn avgpool2d_backward<S: Scalar>(
        &self,
        grad_out: &Tensor,
        kernel_size: usize,
        stride: usize,
        padding: usize,
        rt: &mut Runtime<S>,
    ) -> (r: Tensor)
        requires
            old(rt).wf(),
            self.device is Cpu ==> {
                &&& old(rt).hooks.cpu_ops
                &&& self.is_f32(old(rt).mem)
                &&& grad_out.is_f32(old(rt).mem)
                &&& pool_backward_ok(
                    self.value(old(rt).mem),
                    grad_out.value(old(rt).mem),
                    kernel_size,
                    stride,
                    padding,
                )
                &&& has_room(*old(rt), 1, 1)
            },
            self.device is Cuda ==> {
                &&& old(rt).hooks.cuda_ops
                &&& on_cuda(*old(rt), *self)
                &&& packed(*old(rt), *grad_out)
                &&& self.shape@.len() == 4
                &&& grad_out.shape@.len() == 4
                &&& room_for(*old(rt), numel(self.shape@))
            },
        ensures
            final(rt).wf(),
            r.owned(*final(rt)),
            undisturbed(*old(rt), *final(rt)),
            self.device is Cpu ==> r.value(final(rt).mem) == avgpool_backward_value(
                self.value(old(rt).mem),
                grad_out.value(old(rt).mem),
                kernel_size,
                stride,
                padding,
            ),
            self.device is Cpu ==> placed_at(
                *old(rt),
                *final(rt),
                r,
                avgpool_backward_value(
                    self.value(old(rt).mem),
                    grad_out.value(old(rt).mem),
                    kernel_size,
                    stride,
                    padding,
                ),
            ),
            self.device is Cuda ==> planned(
                *old(rt),
                *final(rt),
                r,
                avgpool_backward_launch(*self, *grad_out, r, kernel_size, stride, padding),
            ),
    {
        match self.device {
            Device::Cpu => {
                let own_d = self.read(rt);
                let grad_out_d = grad_out.read(rt);
                let g = crate::cpu::avgpool::avgpool2d_backward(
                    &own_d,
                    &grad_out_d,
                    kernel_size,
                    stride,
                    padding,
                );
                place(g, rt)
            },
            Device::Cuda(_) => crate::cuda::images::avgpool2d_backward(
                self,
                grad_out,
                kernel_size,
                stride,
                padding,
                rt,
            ),
        }
    }

    /// The gradients of a convolution: input, weight, bias.
    #[must_use]
    pub fn conv2d_backward<S: Scalar>(
        &self,
        weight: &Tensor,
        grad_out: &Tensor,
        stride: usize,
        padding: usize,
        rt: &mut Runtime<S>,
    ) -> (r: (Tensor, Tensor, Tensor))
        requires
            old(rt).wf(),
            self.device is Cpu ==> {
                &&& old(rt).hooks.cpu_ops
                &&& self.is_f32(old(rt).mem)
                &&& weight.is_f32(old(rt).mem)
                &&& grad_out.is_f32(old(rt).mem)
                &&& conv_backward_ok(
                    self.value(old(rt).mem),
                    weight.value(old(rt).mem),
                    grad_out.value(old(rt).mem),
                    stride,
                    padding,
                )
                &&& has_room(*old(rt), 3, 3)
            },
            self.device is Cuda ==> {
                &&& old(rt).hooks.cuda_ops
                &&& packed(*old(rt), *self)
                &&& packed(*old(rt), *weight)
                &&& packed(*old(rt), *grad_out)
                &&& self.shape@.len() == 4
                &&& weight.shape@.len() == 4
                &&& grad_out.shape@.len() == 4
                &&& launchable(numel(self.shape@))
                &&& launchable(numel(weight.shape@))
                &&& launchable(weight.shape@[0] as nat)
                &&& room_for3(
                    *old(rt),
                    numel(self.shape@) + numel(weight.shape@) + numel(seq![weight.shape@[0]]),
                )
            },
        ensures
            final(rt).wf(),
            owned3(*final(rt), r),
            undisturbed(*old(rt), *final(rt)),
            self.device is Cpu ==> values3(*final(rt), r) == conv_backward_value(
                self.value(old(rt).mem),
                weight.value(old(rt).mem),
                grad_out.value(old(rt).mem),
                stride,
                padding,
            ),
            self.device is Cpu ==> placed3(
                *old(rt),
                *final(rt),
                r,
                conv_backward_value(
                    self.value(old(rt).mem),
                    weight.value(old(rt).mem),
                    grad_out.value(old(rt).mem),
                    stride,
                    padding,
                ),
            ),
            self.device is Cuda ==> planned3(
                *old(rt),
                *final(rt),
                r,
                conv_backward_launch(*self, *weight, *grad_out, r, stride, padding),
            ),
    {
        match self.device {
            Device::Cpu => {
                let own_d = self.read(rt);
                let weight_d = weight.read(rt);
                let grad_out_d = grad_out.read(rt);
                let g = crate::cpu::conv_backward::conv2d_backward(
                    &own_d,
                    &weight_d,
                    &grad_out_d,
                    stride,
                    padding,
                );
                place3(g, rt)
            },
            Device::Cuda(_) => crate::cuda::images::conv2d_backward(
                self,
                weight,
                grad_out,
                stride,
                padding,
                rt,
            ),
        }
    }

    /// The gradients of a layer normalization: input, weight, bias.
    #[must_use]
    pub fn layernorm_backward<S: Scalar>(
        &self,
        weight: &Tensor,
        bias: &Tensor,
        grad_out: &Tensor,
        eps: S,
        rt: &mut Runtime<S>,
    ) -> (r: (Tensor, Tensor, Tensor))
        requires
            old(rt).wf(),
            self.device is Cpu ==> {
                &&& old(rt).hooks.cpu_ops
                &&& self.is_f32(old(rt).mem)
                &&& weight.is_f32(old(rt).mem)
                &&& bias.is_f32(old(rt).mem)
                &&& grad_out.is_f32(old(rt).mem)
                &&& layernorm_ok(
                    self.value(old(rt).mem),
                    weight.value(old(rt).mem),
                    bias.value(old(rt).mem),
                )
                &&& numel(self.shape@) > 0 ==> broadcasts_to(grad_out.shape@, self.shape@)
                &&& has_room(*old(rt), 3, 3)
            },
            self.device is Cuda ==> {
                &&& old(rt).hooks.cuda_ops
                &&& packed(*old(rt), *self)
                &&& packed(*old(rt), *grad_out)
                &&& on_cuda(*old(rt), *weight)
                &&& on_cuda(*old(rt), *bias)
                &&& numel(self.shape@) > 0 ==> self.shape@.len() > 0
                &&& launchable(numel(self.shape@))
                &&& room_for3(
                    *old(rt),
                    numel(self.shape@) + numel(weight.shape@) + numel(bias.shape@),
                )
            },
        ensures
            final(rt).wf(),
            owned3(*final(rt), r),
            undisturbed(*old(rt), *final(rt)),
            self.device is Cpu ==> values3(*final(rt), r) == layernorm_backward_value(
                self.value(old(rt).mem),
                weight.value(old(rt).mem),
                bias.value(old(rt).mem),
                grad_out.value(old(rt).mem),
                eps,
            ),
            self.device is Cpu ==> placed3(
                *old(rt),
                *final(rt),
                r,
                layernorm_backward_value(
                    self.value(old(rt).mem),
                    weight.value(old(rt).mem),
                    bias.value(old(rt).mem),
                    grad_out.value(old(rt).mem),
                    eps,
                ),
            ),
            self.device is Cuda ==> planned3(
                *old(rt),
                *final(rt),
                r,
                layernorm_backward_launch(*self, *weight, *bias, *grad_out, r, eps),
            ),
    {
        match self.device {
            Device::Cpu => {
                let own_d = self.read(rt);
                let weight_d = weight.read(rt);
                let bias_d = bias.read(rt);
                let grad_out_d = grad_out.read(rt);
                let g = crate::cpu::norm::layernorm_backward(
                    &own_d,
                    &weight_d,
                    &bias_d,
                    &grad_out_d,
                    eps,
                );
                place3(g, rt)
            },
            Device::Cuda(_) => crate::cuda::norms::layernorm_backward(
                self,
                weight,
                bias,
                grad_out,
                eps,
                rt,
            ),
        }
    }

    /// The gradients of a batch normalization: input, weight, bias.
    #[must_use]
    pub fn batchnorm_backward<S: Scalar>(
        &self,
        gamma: &Tensor,
        beta: &Tensor,
        running_mean: &Tensor,
        running_var: &Tensor,
        grad_out: &Tensor,
        training: bool,
        eps: S,
        rt: &mut Runtime<S>,
    ) -> (r: (Tensor, Tensor, Tensor))
        requires
            old(rt).wf(),
            self.device is Cpu ==> {
                &&& old(rt).hooks.cpu_ops
                &&& self.is_f32(old(rt).mem)
                &&& gamma.is_f32(old(rt).mem)
                &&& beta.is_f32(old(rt).mem)
                &&& running_mean.is_f32(old(rt).mem)
                &&& running_var.is_f32(old(rt).mem)
                &&& grad_out.is_f32(old(rt).mem)
                &&& batchnorm_ok(
                    self.value(old(rt).mem),
                    gamma.value(old(rt).mem),
                    beta.value(old(rt).mem),
                    running_mean.value(old(rt).mem),
                    running_var.value(old(rt).mem),
                )
                &&& numel(grad_out.shape@) == numel(self.shape@)
                &&& has_room(*old(rt), 3, 3)
            },
            self.device is Cuda ==> {
                &&& old(rt).hooks.cuda_ops
                &&& batchnorm_ready(*old(rt), *self, *gamma, *beta, *running_mean, *running_var)
                &&& packed(*old(rt), *grad_out)
                &&& room_for3(
                    *old(rt),
                    numel(self.shape@) + numel(seq![self.shape@[1]]) + numel(seq![self.shape@[1]]),
                )
            },
        ensures
            final(rt).wf(),
            owned3(*final(rt), r),
            undisturbed(*old(rt), *final(rt)),
            self.device is Cpu ==> values3(*final(rt), r) == batchnorm_backward_value(
                self.value(old(rt).mem),
                gamma.value(old(rt).mem),
                beta.value(old(rt).mem),
                running_mean.value(old(rt).mem),
                running_var.value(old(rt).mem),
                grad_out.value(old(rt).mem),
                training,
                eps,
            ),
            self.device is Cpu ==> placed3(
                *old(rt),
                *final(rt),
                r,
                batchnorm_backward_value(
                    self.value(old(rt).mem),
                    gamma.value(old(rt).mem),
                    beta.value(old(rt).mem),
                    running_mean.value(old(rt).mem),
                    running_var.value(old(rt).mem),
                    grad_out.value(old(rt).mem),
                    training,
                    eps,
                ),
            ),
            self.device is Cuda ==> planned3(
                *old(rt),
                *final(rt),
                r,
                batchnorm_backward_launch(
                    *self,
                    (*gamma, *beta, *running_mean, *running_var),
                    *grad_out,
                    r,
                    training,
                    eps,
                ),
            ),
    {
        match self.device {
            Device::Cpu => {
                let own_d = self.read(rt);
                let gamma_d = gamma.read(rt);
                let beta_d = beta.read(rt);
                let running_mean_d = running_mean.read(rt);
                let running_var_d = running_var.read(rt);
                let grad_out_d = grad_out.read(rt);
                let g = crate::cpu::batchnorm::batchnorm_backward(
                    &own_d,
                    &gamma_d,
                    &beta_d,
                    &running_mean_d,
                    &running_var_d,
                    &grad_out_d,
                    training,
                    eps,
                );
                place3(g, rt)
            },
            Device::Cuda(_) => crate::cuda::norms::batchnorm_backward(
                self,
                gamma,
                beta,
                running_mean,
                running_var,
                grad_out,
                training,
                eps,
                rt,
            ),
        }
    }

    /// The gradients of an attention: query, key, value.
    #[must_use]
    pub fn fused_attention_backward<S: Scalar>(
        &self,
        k: &Tensor,
        v: &Tensor,
        mask: Option<&Tensor>,
        grad_out: &Tensor,
        rt: &mut Runtime<S>,
    ) -> (r: (Tensor, Tensor, Tensor))
        requires
            old(rt).wf(),
            old(rt).hooks.cpu_ops,
            self.is_f32(old(rt).mem),
            k.is_f32(old(rt).mem),
            v.is_f32(old(rt).mem),
            grad_out.is_f32(old(rt).mem),
            mask matches Some(m) ==> m.is_f32(old(rt).mem),
            attention_ok(
                self.value(old(rt).mem),
                k.value(old(rt).mem),
                v.value(old(rt).mem),
                mask_value(mask, *old(rt)),
            ),
            numel(grad_out.shape@) == numel(self.shape@),
            has_room(*old(rt), 3, 3),
        ensures
            final(rt).wf(),
            owned3(*final(rt), r),
            undisturbed(*old(rt), *final(rt)),
            ({
                let g = attention_backward_value(
                    self.value(old(rt).mem),
                    k.value(old(rt).mem),
                    v.value(old(rt).mem),
                    mask_value(mask, *old(rt)),
                    grad_out.value(old(rt).mem),
                );
                &&& values3(*final(rt), r) == g
                &&& placed3(*old(rt), *final(rt), r, g)
            }),
    {
        let q_d = self.read(rt);
        let k_d = k.read(rt);
        let v_d = v.read(rt);
        let go_d = grad_out.read(rt);
        let ds = match mask {
            Some(m) => {
                let m_d = m.read(rt);
                let md: Option<&Dense<S>> = Some(&m_d);
                crate::cpu::attention_backward::fused_attention_backward(
                    &q_d,
                    &k_d,
                    &v_d,
                    md,
                    &go_d,
                )
            },
            None => crate::cpu::attention_backward::fused_attention_backward(
                &q_d,
                &k_d,
                &v_d,
                None,
                &go_d,
            ),
        };
        place3(ds, rt)
    }
}

/// The value of an optional mask.
pub open spec fn mask_value<S>(mask: Option<&Tensor>, rt: Runtime<S>) -> Option<Value<S>> {
    match mask {
        Some(m) => Some(m.value(rt.mem)),
        None => None,
    }
}

} // verus!
