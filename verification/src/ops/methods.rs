//! The operations on tensors.
use vstd::prelude::*;
use crate::cpu::attention::attention_value;
use crate::cpu::avgpool::avgpool_value;
use crate::cpu::conv::conv_value;
use crate::cpu::elementwise::{map_value, zip_value, BinaryOp, UnaryOp};
use crate::cpu::loss::{cross_entropy_value, embedding_value};
use crate::cpu::matmul::matmul_value;
use crate::cpu::norm::layernorm_value;
use crate::cpu::pool::maxpool_value;
use crate::cpu::reduce::{mean_value, softmax_value, sum_value};
use crate::cuda::dispatch::{cuda_computed, cuda_ready, dispatch_cuda};
use crate::device::Device;
use crate::forward::{computed, dispatch, op_ready, values};
use crate::handle::undisturbed;
use crate::op::OpType;
use crate::runtime::Runtime;
use crate::scalar::Scalar;
use crate::scope::{grown, spent};
use crate::tape::derefs;
use crate::tensor::Tensor;

verus! {

/// Everything that an operation needs; the device of the first input decides where it runs.
pub open spec fn ready<S: Scalar>(rt: Runtime<S>, op: OpType, ins: Seq<Tensor>) -> bool {
    match ins[0].device {
        Device::Cpu => op_ready(rt, op, ins),
        Device::Cuda(_) => cuda_ready(rt, op, ins),
    }
}

/// `r` is the output of an operation.
pub open spec fn done<S: Scalar>(
    a: Runtime<S>,
    b: Runtime<S>,
    op: OpType,
    ins: Seq<Tensor>,
    r: Tensor,
) -> bool {
    match ins[0].device {
        Device::Cpu => computed(a, b, op, ins, r),
        Device::Cuda(_) => cuda_computed(a, b, op, ins, r),
    }
}

/// Runs an operation on the device of its inputs.
pub(crate) fn apply<S: Scalar>(op: OpType, inputs: &[&Tensor], rt: &mut Runtime<S>) -> (r: Tensor)
    requires
        old(rt).wf(),
        inputs@.len() > 0,
        ready(*old(rt), op, derefs(inputs@)),
    ensures
        final(rt).wf(),
        r.owned(*final(rt)),
        undisturbed(*old(rt), *final(rt)),
        done(*old(rt), *final(rt), op, derefs(inputs@), r),
        inputs@[0].device is Cpu || !(op is CrossEntropy) ==> grown(
            *old(rt),
            *final(rt),
            seq![r],
        ),
        inputs@[0].device is Cpu || !(op is CrossEntropy) ==> spent(*old(rt), *final(rt), 1),
{
    assert(derefs(inputs@)[0] == *inputs@[0]);
    let first: &Tensor = inputs[0];
    match first.device {
        Device::Cpu => dispatch(op, inputs, rt),
        Device::Cuda(_) => dispatch_cuda(op, inputs, rt),
    }
}

impl Tensor {
    /// Elementwise addition.
    #[must_use]
    pub fn add<S: Scalar>(
        &self,
        other: &Tensor,
        rt: &mut Runtime<S>,
    ) -> (r: Tensor)
        requires
            old(rt).wf(),
            ready(*old(rt), OpType::Add, seq![*self, *other]),
        ensures
            final(rt).wf(),
            r.owned(*final(rt)),
            undisturbed(*old(rt), *final(rt)),
            done(*old(rt), *final(rt), OpType::Add, seq![*self, *other], r),
            self.device is Cpu ==> r.value(final(rt).mem) == zip_value(
                self.value(old(rt).mem),
                other.value(old(rt).mem),
                BinaryOp::Add,
            ),
            grown(*old(rt), *final(rt), seq![r]),
            spent(*old(rt), *final(rt), 1),
    {
        let inputs: [&Tensor; 2] = [self, other];
        proof {
            assert(derefs(inputs@) =~= seq![*self, *other]);
        }
        apply(OpType::Add, inputs.as_slice(), rt)
    }

    /// Elementwise subtraction.
    #[must_use]
    pub fn sub<S: Scalar>(
        &self,
        other: &Tensor,
        rt: &mut Runtime<S>,
    ) -> (r: Tensor)
        requires
            old(rt).wf(),
            ready(*old(rt), OpType::Sub, seq![*self, *other]),
        ensures
            final(rt).wf(),
            r.owned(*final(rt)),
            undisturbed(*old(rt), *final(rt)),
            done(*old(rt), *final(rt), OpType::Sub, seq![*self, *other], r),
            self.device is Cpu ==> r.value(final(rt).mem) == zip_value(
                self.value(old(rt).mem),
                other.value(old(rt).mem),
                BinaryOp::Sub,
            ),
            grown(*old(rt), *final(rt), seq![r]),
            spent(*old(rt), *final(rt), 1),
    {
        let inputs: [&Tensor; 2] = [self, other];
        proof {
            assert(derefs(inputs@) =~= seq![*self, *other]);
        }
        apply(OpType::Sub, inputs.as_slice(), rt)
    }

    /// Elementwise multiplication.
    #[must_use]
    pub fn mul<S: Scalar>(
        &self,
        other: &Tensor,
        rt: &mut Runtime<S>,
    ) -> (r: Tensor)
        requires
            old(rt).wf(),
            ready(*old(rt), OpType::Mul, seq![*self, *other]),
        ensures
            final(rt).wf(),
            r.owned(*final(rt)),
            undisturbed(*old(rt), *final(rt)),
            done(*old(rt), *final(rt), OpType::Mul, seq![*self, *other], r),
            self.device is Cpu ==> r.value(final(rt).mem) == zip_value(
                self.value(old(rt).mem),
                other.value(old(rt).mem),
                BinaryOp::Mul,
            ),
            grown(*old(rt), *final(rt), seq![r]),
            spent(*old(rt), *final(rt), 1),
    {
        let inputs: [&Tensor; 2] = [self, other];
        proof {
            assert(derefs(inputs@) =~= seq![*self, *other]);
        }
        apply(OpType::Mul, inputs.as_slice(), rt)
    }

    /// Elementwise division.
    #[must_use]
    pub fn div<S: Scalar>(
        &self,
        other: &Tensor,
        rt: &mut Runtime<S>,
    ) -> (r: Tensor)
        requires
            old(rt).wf(),
            ready(*old(rt), OpType::Div, seq![*self, *other]),
        ensures
            final(rt).wf(),
            r.owned(*final(rt)),
            undisturbed(*old(rt), *final(rt)),
            done(*old(rt), *final(rt), OpType::Div, seq![*self, *other], r),
            self.device is Cpu ==> r.value(final(rt).mem) == zip_value(
                self.value(old(rt).mem),
                other.value(old(rt).mem),
                BinaryOp::Div,
            ),
            grown(*old(rt), *final(rt), seq![r]),
            spent(*old(rt), *final(rt), 1),
    {
        let inputs: [&Tensor; 2] = [self, other];
        proof {
            assert(derefs(inputs@) =~= seq![*self, *other]);
        }
        apply(OpType::Div, inputs.as_slice(), rt)
    }

    /// Matrix multiplication.
    #[must_use]
    pub fn matmul<S: Scalar>(
        &self,
        other: &Tensor,
        rt: &mut Runtime<S>,
    ) -> (r: Tensor)
        requires
            old(rt).wf(),
            ready(*old(rt), OpType::Matmul, seq![*self, *other]),
        ensures
            final(rt).wf(),
            r.owned(*final(rt)),
            undisturbed(*old(rt), *final(rt)),
            done(*old(rt), *final(rt), OpType::Matmul, seq![*self, *other], r),
            self.device is Cpu ==> r.value(final(rt).mem) == matmul_value(
                self.value(old(rt).mem),
                other.value(old(rt).mem),
            ),
            grown(*old(rt), *final(rt), seq![r]),
            spent(*old(rt), *final(rt), 1),
    {
        let inputs: [&Tensor; 2] = [self, other];
        proof {
            assert(derefs(inputs@) =~= seq![*self, *other]);
        }
        apply(OpType::Matmul, inputs.as_slice(), rt)
    }

    /// Elementwise `ReLU`: `max(0, x)`.
    #[must_use]
    pub fn relu<S: Scalar>(
        &self,
        rt: &mut Runtime<S>,
    ) -> (r: Tensor)
        requires
            old(rt).wf(),
            ready(*old(rt), OpType::Relu, seq![*self]),
        ensures
            final(rt).wf(),
            r.owned(*final(rt)),
            undisturbed(*old(rt), *final(rt)),
            done(*old(rt), *final(rt), OpType::Relu, seq![*self], r),
            self.device is Cpu ==> r.value(final(rt).mem) == map_value(
                self.value(old(rt).mem),
                UnaryOp::Relu,
            ),
            grown(*old(rt), *final(rt), seq![r]),
            spent(*old(rt), *final(rt), 1),
    {
        let inputs: [&Tensor; 1] = [self];
        proof {
            assert(derefs(inputs@) =~= seq![*self]);
        }
        apply(OpType::Relu, inputs.as_slice(), rt)
    }

    /// Elementwise `GELU` activation.
    #[must_use]
    pub fn gelu<S: Scalar>(
        &self,
        rt: &mut Runtime<S>,
    ) -> (r: Tensor)
        requires
            old(rt).wf(),
            ready(*old(rt), OpType::Gelu, seq![*self]),
        ensures
            final(rt).wf(),
            r.owned(*final(rt)),
            undisturbed(*old(rt), *final(rt)),
            done(*old(rt), *final(rt), OpType::Gelu, seq![*self], r),
            self.device is Cpu ==> r.value(final(rt).mem) == map_value(
                self.value(old(rt).mem),
                UnaryOp::Gelu,
            ),
            grown(*old(rt), *final(rt), seq![r]),
            spent(*old(rt), *final(rt), 1),
    {
        let inputs: [&Tensor; 1] = [self];
        proof {
            assert(derefs(inputs@) =~= seq![*self]);
        }
        apply(OpType::Gelu, inputs.as_slice(), rt)
    }

    /// Sum over a single axis. With `keep_dim`, the reduced axis is kept as size 1.
    #[must_use]
    pub fn sum<S: Scalar>(
        &self,
        dim: usize,
        keep_dim: bool,
        rt: &mut Runtime<S>,
    ) -> (r: Tensor)
        requires
            old(rt).wf(),
            ready(*old(rt), (OpType::Sum { dim, keep_dim }), seq![*self]),
        ensures
            final(rt).wf(),
            r.owned(*final(rt)),
            undisturbed(*old(rt), *final(rt)),
            done(*old(rt), *final(rt), (OpType::Sum { dim, keep_dim }), seq![*self], r),
            self.device is Cpu ==> r.value(final(rt).mem) == sum_value(
                self.value(old(rt).mem),
                dim as int,
                keep_dim,
            ),
            grown(*old(rt), *final(rt), seq![r]),
            spent(*old(rt), *final(rt), 1),
    {
        let inputs: [&Tensor; 1] = [self];
        proof {
            assert(derefs(inputs@) =~= seq![*self]);
        }
        apply(OpType::Sum { dim, keep_dim }, inputs.as_slice(), rt)
    }

    /// Mean over a single axis. With `keep_dim`, the reduced axis is kept as size 1.
    #[must_use]
    pub fn mean<S: Scalar>(
        &self,
        dim: usize,
        keep_dim: bool,
        rt: &mut Runtime<S>,
    ) -> (r: Tensor)
        requires
            old(rt).wf(),
            ready(*old(rt), (OpType::Mean { dim, keep_dim }), seq![*self]),
        ensures
            final(rt).wf(),
            r.owned(*final(rt)),
            undisturbed(*old(rt), *final(rt)),
            done(*old(rt), *final(rt), (OpType::Mean { dim, keep_dim }), seq![*self], r),
            self.device is Cpu ==> r.value(final(rt).mem) == mean_value(
                self.value(old(rt).mem),
                dim as int,
                keep_dim,
            ),
            grown(*old(rt), *final(rt), seq![r]),
            spent(*old(rt), *final(rt), 1),
    {
        let inputs: [&Tensor; 1] = [self];
        proof {
            assert(derefs(inputs@) =~= seq![*self]);
        }
        apply(OpType::Mean { dim, keep_dim }, inputs.as_slice(), rt)
    }

    /// Softmax along a single axis.
    #[must_use]
    pub fn softmax<S: Scalar>(
        &self,
        dim: usize,
        rt: &mut Runtime<S>,
    ) -> (r: Tensor)
        requires
            old(rt).wf(),
            ready(*old(rt), (OpType::Softmax { dim }), seq![*self]),
        ensures
            final(rt).wf(),
            r.owned(*final(rt)),
            undisturbed(*old(rt), *final(rt)),
            done(*old(rt), *final(rt), (OpType::Softmax { dim }), seq![*self], r),
            self.device is Cpu ==> r.value(final(rt).mem) == softmax_value(
                self.value(old(rt).mem),
                dim as int,
            ),
            grown(*old(rt), *final(rt), seq![r]),
            spent(*old(rt), *final(rt), 1),
    {
        let inputs: [&Tensor; 1] = [self];
        proof {
            assert(derefs(inputs@) =~= seq![*self]);
        }
        apply(OpType::Softmax { dim }, inputs.as_slice(), rt)
    }

    /// Embedding lookup.
    #[must_use]
    pub fn embedding<S: Scalar>(
        &self,
        weight: &Tensor,
        rt: &mut Runtime<S>,
    ) -> (r: Tensor)
        requires
            old(rt).wf(),
            ready(*old(rt), OpType::Embedding, seq![*self, *weight]),
        ensures
            final(rt).wf(),
            r.owned(*final(rt)),
            undisturbed(*old(rt), *final(rt)),
            done(*old(rt), *final(rt), OpType::Embedding, seq![*self, *weight], r),
            self.device is Cpu ==> r.value(final(rt).mem) == embedding_value(
                self.value(old(rt).mem),
                weight.value(old(rt).mem),
            ),
            grown(*old(rt), *final(rt), seq![r]),
            spent(*old(rt), *final(rt), 1),
    {
        let inputs: [&Tensor; 2] = [self, weight];
        proof {
            assert(derefs(inputs@) =~= seq![*self, *weight]);
        }
        apply(OpType::Embedding, inputs.as_slice(), rt)
    }

    /// Categorical cross-entropy loss.
    #[must_use]
    pub fn cross_entropy<S: Scalar>(
        &self,
        targets: &Tensor,
        rt: &mut Runtime<S>,
    ) -> (r: Tensor)
        requires
            old(rt).wf(),
            ready(*old(rt), OpType::CrossEntropy, seq![*self, *targets]),
        ensures
            final(rt).wf(),
            r.owned(*final(rt)),
            undisturbed(*old(rt), *final(rt)),
            done(*old(rt), *final(rt), OpType::CrossEntropy, seq![*self, *targets], r),
            self.device is Cpu ==> r.value(final(rt).mem) == cross_entropy_value(
                self.value(old(rt).mem),
                targets.value(old(rt).mem),
            ),
            self.device is Cpu ==> grown(*old(rt), *final(rt), seq![r]),
            self.device is Cpu ==> spent(*old(rt), *final(rt), 1),
    {
        let inputs: [&Tensor; 2] = [self, targets];
        proof {
            assert(derefs(inputs@) =~= seq![*self, *targets]);
        }
        apply(OpType::CrossEntropy, inputs.as_slice(), rt)
    }

    /// Two-dimensional convolution (self=input, plus weight, bias, stride, padding).
    #[must_use]
    pub fn conv2d<S: Scalar>(
        &self,
        weight: &Tensor,
        bias: &Tensor,
        stride: usize,
        padding: usize,
        rt: &mut Runtime<S>,
    ) -> (r: Tensor)
        requires
            old(rt).wf(),
            ready(*old(rt), (OpType::Conv2d { stride, padding }), seq![*self, *weight, *bias]),
        ensures
            final(rt).wf(),
            r.owned(*final(rt)),
            undisturbed(*old(rt), *final(rt)),
            done(
                *old(rt),
                *final(rt),
                (OpType::Conv2d { stride, padding }),
                seq![*self, *weight, *bias],
                r,
            ),
            self.device is Cpu ==> r.value(final(rt).mem) == conv_value(
                self.value(old(rt).mem),
                weight.value(old(rt).mem),
                bias.value(old(rt).mem),
                stride,
                padding,
            ),
            grown(*old(rt), *final(rt), seq![r]),
            spent(*old(rt), *final(rt), 1),
    {
        let inputs: [&Tensor; 3] = [self, weight, bias];
        proof {
            assert(derefs(inputs@) =~= seq![*self, *weight, *bias]);
        }
        apply(OpType::Conv2d { stride, padding }, inputs.as_slice(), rt)
    }

    /// Two-dimensional max pooling over the spatial dimensions of a 4D tensor.
    #[must_use]
    pub fn maxpool2d<S: Scalar>(
        &self,
        kernel_size: usize,
        stride: usize,
        padding: usize,
        rt: &mut Runtime<S>,
    ) -> (r: Tensor)
        requires
            old(rt).wf(),
            ready(*old(rt), (OpType::MaxPool2d { kernel_size, stride, padding }), seq![*self]),
        ensures
            final(rt).wf(),
            r.owned(*final(rt)),
            undisturbed(*old(rt), *final(rt)),
            done(
                *old(rt),
                *final(rt),
                (OpType::MaxPool2d { kernel_size, stride, padding }),
                seq![*self],
                r,
            ),
            self.device is Cpu ==> r.value(final(rt).mem) == maxpool_value(
                self.value(old(rt).mem),
                kernel_size,
                stride,
                padding,
            ),
            grown(*old(rt), *final(rt), seq![r]),
            spent(*old(rt), *final(rt), 1),
    {
        let inputs: [&Tensor; 1] = [self];
        proof {
            assert(derefs(inputs@) =~= seq![*self]);
        }
        apply(OpType::MaxPool2d { kernel_size, stride, padding }, inputs.as_slice(), rt)
    }

    /// Two-dimensional average pooling over the spatial dimensions of a 4D tensor.
    #[must_use]
    pub fn avgpool2d<S: Scalar>(
        &self,
        kernel_size: usize,
        stride: usize,
        padding: usize,
        rt: &mut Runtime<S>,
    ) -> (r: Tensor)
        requires
            old(rt).wf(),
            ready(*old(rt), (OpType::AvgPool2d { kernel_size, stride, padding }), seq![*self]),
        ensures
            final(rt).wf(),
            r.owned(*final(rt)),
            undisturbed(*old(rt), *final(rt)),
            done(
                *old(rt),
                *final(rt),
                (OpType::AvgPool2d { kernel_size, stride, padding }),
                seq![*self],
                r,
            ),
            self.device is Cpu ==> r.value(final(rt).mem) == avgpool_value(
                self.value(old(rt).mem),
                kernel_size,
                stride,
                padding,
            ),
            grown(*old(rt), *final(rt), seq![r]),
            spent(*old(rt), *final(rt), 1),
    {
        let inputs: [&Tensor; 1] = [self];
        proof {
            assert(derefs(inputs@) =~= seq![*self]);
        }
        apply(OpType::AvgPool2d { kernel_size, stride, padding }, inputs.as_slice(), rt)
    }

    /// Layer normalization.
    #[must_use]
    pub fn layernorm<S: Scalar>(
        &self,
        weight: &Tensor,
        bias: &Tensor,
        eps: S,
        rt: &mut Runtime<S>,
    ) -> (r: Tensor)
        requires
            old(rt).wf(),
            ready(
                *old(rt),
                (OpType::LayerNorm { eps_bits: S::bits_spec(eps) }),
                seq![*self, *weight, *bias],
            ),
        ensures
            final(rt).wf(),
            r.owned(*final(rt)),
            undisturbed(*old(rt), *final(rt)),
            done(
                *old(rt),
                *final(rt),
                (OpType::LayerNorm { eps_bits: S::bits_spec(eps) }),
                seq![*self, *weight, *bias],
                r,
            ),
            self.device is Cpu ==> r.value(final(rt).mem) == layernorm_value(
                self.value(old(rt).mem),
                weight.value(old(rt).mem),
                bias.value(old(rt).mem),
                eps,
            ),
            grown(*old(rt), *final(rt), seq![r]),
            spent(*old(rt), *final(rt), 1),
    {
        let inputs: [&Tensor; 3] = [self, weight, bias];
        proof {
            S::lemma_bits(eps);
            assert(derefs(inputs@) =~= seq![*self, *weight, *bias]);
        }
        apply(OpType::LayerNorm { eps_bits: eps.bits() }, inputs.as_slice(), rt)
    }

    /// Scaled dot-product attention with an optional additive mask.
    #[must_use]
    pub fn fused_attention<S: Scalar>(
        &self,
        k: &Tensor,
        v: &Tensor,
        mask: Option<&Tensor>,
        rt: &mut Runtime<S>,
    ) -> (r: Tensor)
        requires
            old(rt).wf(),
            self.device is Cpu,
            op_ready(*old(rt), OpType::FusedAttention, attention_inputs(*self, *k, *v, mask)),
        ensures
            final(rt).wf(),
            r.owned(*final(rt)),
            undisturbed(*old(rt), *final(rt)),
            computed(
                *old(rt),
                *final(rt),
                OpType::FusedAttention,
                attention_inputs(*self, *k, *v, mask),
                r,
            ),
            grown(*old(rt), *final(rt), seq![r]),
            spent(*old(rt), *final(rt), 1),
            r.value(final(rt).mem) == attention_value(
                self.value(old(rt).mem),
                k.value(old(rt).mem),
                v.value(old(rt).mem),
                match mask {
                    Some(m) => Some(m.value(old(rt).mem)),
                    None => None,
                },
            ),
    {
        let ghost ins = attention_inputs(*self, *k, *v, mask);
        match mask {
            Some(m) => {
                let inputs: [&Tensor; 4] = [self, k, v, m];
                proof {
                    assert(derefs(inputs@) =~= ins);
                    assert(values(ins, rt.mem)[3] == m.value(rt.mem));
                }
                dispatch(OpType::FusedAttention, inputs.as_slice(), rt)
            },
            None => {
                let inputs: [&Tensor; 3] = [self, k, v];
                proof {
                    assert(derefs(inputs@) =~= ins);
                }
                dispatch(OpType::FusedAttention, inputs.as_slice(), rt)
            },
        }
    }
}

/// The inputs of an attention.
pub open spec fn attention_inputs(q: Tensor, k: Tensor, v: Tensor, mask: Option<&Tensor>) -> Seq<
    Tensor,
> {
    match mask {
        Some(m) => seq![q, k, v, *m],
        None => seq![q, k, v],
    }
}

} // verus!
