//! Batch normalisation of tensors.
use vstd::prelude::*;
use crate::cpu::batchnorm::{batchnorm_ok, batchnorm_value, next_means, next_vars};
use crate::create::{device_room, lemma_contiguous_value};
use crate::cuda::dispatch::lemma_planned_spares;
use crate::cuda::norms::{batchnorm_launch, batchnorm_ready};
use crate::cuda::plan::{on_device, planned};
use crate::device::Device;
use crate::forward::{lemma_inputs_kept, metas, tracks};
use crate::handle::undisturbed;
use crate::index::numel;
use crate::mutate::replaced;
use crate::op::OpType;
use crate::ops::gradients::{place, placed_at};
use crate::runtime::Runtime;
use crate::scalar::Scalar;
use crate::tape::derefs;
use crate::tensor::Tensor;
use crate::track::{can_op, taped, track_op};

verus! {

/// The running statistics advance: in training, on elements, and not while a checkpointed block
/// is replayed, which would count one step twice.
pub open spec fn advances<S>(rt: Runtime<S>, x: Tensor, training: bool) -> bool {
    training && numel(x.shape@) > 0 && !rt.mode.recomputing
}

/// The running statistics of `a` advanced in `b`, where they do.
pub open spec fn stats_step<S: Scalar>(
    a: Runtime<S>,
    b: Runtime<S>,
    x: Tensor,
    mean: Tensor,
    var: Tensor,
    training: bool,
    momentum: S,
) -> bool {
    if advances(a, x, training) {
        exists|m: Runtime<S>|
            #[trigger] replaced(
                a,
                m,
                mean,
                next_means(x.value(a.mem), mean.value(a.mem).data, momentum),
            ) && replaced(
                m,
                b,
                var,
                next_vars(x.value(a.mem), var.value(a.mem).data, momentum),
            )
    } else {
        b == a
    }
}

/// The operation that a batch normalisation is recorded as.
pub open spec fn batchnorm_op<S: Scalar>(training: bool, eps: S) -> OpType {
    OpType::BatchNorm { training, eps_bits: S::bits_spec(eps) }
}

/// The step from `a` to `b` that a batch normalisation of CPU tensors makes.
pub open spec fn normalised<S: Scalar>(
    a: Runtime<S>,
    b: Runtime<S>,
    ins: Seq<Tensor>,
    training: bool,
    momentum: S,
    eps: S,
    r: Tensor,
) -> bool {
    let v = batchnorm_value(
        ins[0].value(a.mem),
        ins[1].value(a.mem),
        ins[2].value(a.mem),
        ins[3].value(a.mem),
        ins[4].value(a.mem),
        training,
        eps,
    );
    &&& r.value(b.mem) == v
    &&& exists|m1: Runtime<S>, m2: Runtime<S>|
        {
            &&& #[trigger] stats_step(a, m1, ins[0], ins[3], ins[4], training, momentum)
            &&& #[trigger] placed_at(m1, m2, r, v)
            &&& taped(
                m2,
                b,
                batchnorm_op(training, eps),
                ins,
                0,
                r,
                tracks(batchnorm_op(training, eps), metas(ins, a.mem)),
            )
        }
}

/// The step from `a` to `b` that a batch normalisation of CUDA tensors makes; the kernel updates
/// the running statistics in training.
pub open spec fn normalisation_queued<S: Scalar>(
    a: Runtime<S>,
    b: Runtime<S>,
    ins: Seq<Tensor>,
    training: bool,
    momentum: S,
    eps: S,
    r: Tensor,
) -> bool {
    &&& on_device(b, r, ins[0].shape@)
    &&& exists|m: Runtime<S>|
        {
            &&& #[trigger] planned(
                a,
                m,
                r,
                batchnorm_launch(
                    ins[0],
                    (ins[1], ins[2], ins[3], ins[4]),
                    r,
                    training,
                    momentum,
                    eps,
                ),
            )
            &&& taped(
                m,
                b,
                batchnorm_op(training, eps),
                ins,
                0,
                r,
                tracks(batchnorm_op(training, eps), metas(ins, a.mem)),
            )
        }
}

/// Queues a batch normalisation, and records it where gradients flow.
fn queue_batchnorm<S: Scalar>(
    x: &Tensor,
    gamma: &Tensor,
    beta: &Tensor,
    running_mean: &Tensor,
    running_var: &Tensor,
    training: bool,
    momentum: S,
    eps: S,
    rt: &mut Runtime<S>,
) -> (r: Tensor)
    requires
        old(rt).wf(),
        can_op(*old(rt), seq![*x, *gamma, *beta, *running_mean, *running_var]),
        batchnorm_ready(*old(rt), *x, *gamma, *beta, *running_mean, *running_var),
        device_room(*old(rt), numel(x.shape@) as usize),
    ensures
        final(rt).wf(),
        r.owned(*final(rt)),
        undisturbed(*old(rt), *final(rt)),
        normalisation_queued(
            *old(rt),
            *final(rt),
            seq![*x, *gamma, *beta, *running_mean, *running_var],
            training,
            momentum,
            eps,
            r,
        ),
{
    let ghost first = *rt;
    let ghost ins = seq![*x, *gamma, *beta, *running_mean, *running_var];
    let inputs: [&Tensor; 5] = [x, gamma, beta, running_mean, running_var];
    proof {
        assert(derefs(inputs@) =~= ins);
        assert forall|i: int| 0 <= i < inputs@.len() implies (#[trigger] inputs@[i]).valid(
            rt.mem,
        ) by {
            assert(ins[i].valid(rt.mem));
        }
    }
    let op = OpType::BatchNorm { training, eps_bits: eps.bits() };
    let track = crate::forward::flows(&op, inputs.as_slice(), rt);
    let r = crate::cuda::norms::batchnorm(
        x,
        gamma,
        beta,
        running_mean,
        running_var,
        training,
        momentum,
        eps,
        rt,
    );
    let ghost mid = *rt;
    proof {
        let ls = batchnorm_launch(
            *x,
            (*gamma, *beta, *running_mean, *running_var),
            r,
            training,
            momentum,
            eps,
        );
        lemma_planned_spares(first, mid, r, ls, ins);
        assert forall|i: int| 0 <= i < ins.len() implies (#[trigger] ins[i]).valid(mid.mem)
            && mid.mem.refs(ins[i].key()) + ins.len() <= usize::MAX by {
            assert(first.mem.refs(ins[i].key()) + ins.len() + 1 <= usize::MAX);
        }
    }
    track_op(op, inputs.as_slice(), 0, &r, track, rt);
    r
}

impl Tensor {
    /// Batch normalisation over the channels of an image batch.
    ///
    /// In training the statistics of the batch are used and the running statistics advance;
    /// otherwise the running statistics are used.
    #[must_use]
    pub fn batchnorm<S: Scalar>(
        &self,
        gamma: &Tensor,
        beta: &Tensor,
        running_mean: &Tensor,
        running_var: &Tensor,
        training: bool,
        momentum: S,
        eps: S,
        rt: &mut Runtime<S>,
    ) -> (r: Tensor)
        requires
            old(rt).wf(),
            can_op(*old(rt), seq![*self, *gamma, *beta, *running_mean, *running_var]),
            self.device is Cpu ==> {
                &&& old(rt).hooks.cpu_ops
                &&& old(rt).mem.arena.room() > 0
                &&& self.is_f32(old(rt).mem)
                &&& gamma.is_f32(old(rt).mem)
                &&& beta.is_f32(old(rt).mem)
                &&& running_mean.is_f32(old(rt).mem)
                &&& running_var.is_f32(old(rt).mem)
                &&& running_mean.contiguous_spec()
                &&& running_var.contiguous_spec()
                &&& batchnorm_ok(
                    self.value(old(rt).mem),
                    gamma.value(old(rt).mem),
                    beta.value(old(rt).mem),
                    running_mean.value(old(rt).mem),
                    running_var.value(old(rt).mem),
                )
            },
            self.device is Cuda ==> {
                &&& old(rt).hooks.cuda_ops
                &&& batchnorm_ready(
                    *old(rt),
                    *self,
                    *gamma,
                    *beta,
                    *running_mean,
                    *running_var,
                )
                &&& device_room(*old(rt), numel(self.shape@) as usize)
            },
        ensures
            final(rt).wf(),
            r.owned(*final(rt)),
            self.device is Cpu ==> normalised(
                *old(rt),
                *final(rt),
                seq![*self, *gamma, *beta, *running_mean, *running_var],
                training,
                momentum,
                eps,
                r,
            ),
            self.device is Cuda ==> normalisation_queued(
                *old(rt),
                *final(rt),
                seq![*self, *gamma, *beta, *running_mean, *running_var],
                training,
                momentum,
                eps,
                r,
            ),
            forall|u: Tensor| #[trigger]
                u.owned(*old(rt)) ==> u.owned(*final(rt)) && (u.device is Cpu && u.storage_id
                    != running_mean.storage_id && u.storage_id != running_var.storage_id
                    ==> u.block(final(rt).mem) == u.block(old(rt).mem)),
    {
        let ghost first = *rt;
        let ghost ins = seq![*self, *gamma, *beta, *running_mean, *running_var];
        if let Device::Cuda(_) = self.device {
            return queue_batchnorm(
                self,
                gamma,
                beta,
                running_mean,
                running_var,
                training,
                momentum,
                eps,
                rt,
            );
        }
        let x_d = self.read(rt);
        let gamma_d = gamma.read(rt);
        let beta_d = beta.read(rt);
        let mean_d = running_mean.read(rt);
        let var_d = running_var.read(rt);
        proof {
            lemma_contiguous_value(*running_mean, rt.mem);
            lemma_contiguous_value(*running_var, rt.mem);
        }
        let inputs: [&Tensor; 5] = [self, gamma, beta, running_mean, running_var];
        proof {
            assert(derefs(inputs@) =~= ins);
            assert forall|i: int| 0 <= i < inputs@.len() implies (#[trigger] inputs@[i]).valid(
                rt.mem,
            ) by {
                assert(ins[i].valid(rt.mem));
            }
        }
        let tape_op = OpType::BatchNorm { training, eps_bits: eps.bits() };
        let track = crate::forward::flows(&tape_op, inputs.as_slice(), rt);
        let (out, stats) = crate::cpu::batchnorm::batchnorm(
            &x_d,
            &gamma_d,
            &beta_d,
            &mean_d,
            &var_d,
            training,
            momentum,
            eps,
        );
        let ghost v = out@;
        match stats {
            Some(s) => {
                if !rt.mode.recomputing {
                    running_mean.write(s.mean, rt);
                    let ghost m = *rt;
                    running_var.write(s.var, rt);
                    proof {
                        assert(replaced(
                            first,
                            m,
                            *running_mean,
                            next_means(
                                self.value(first.mem),
                                running_mean.value(first.mem).data,
                                momentum,
                            ),
                        ));
                        assert forall|u: Tensor| #[trigger] u.owned(first) implies u.owned(*rt)
                            && (u.device is Cpu && u.storage_id != running_mean.storage_id
                            && u.storage_id != running_var.storage_id ==> u.block(rt.mem)
                            == u.block(first.mem)) by {
                            assert(u.owned(m));
                        }
                    }
                }
            },
            None => {},
        }
        let ghost m1 = *rt;
        proof {
            assert(stats_step(
                first,
                m1,
                *self,
                *running_mean,
                *running_var,
                training,
                momentum,
            ));
            assert forall|i: int| 0 <= i < ins.len() implies (#[trigger] ins[i]).valid(m1.mem)
                && m1.mem.refs(ins[i].key()) == first.mem.refs(ins[i].key()) by {
                assert(ins[i].valid(first.mem));
            }
            assert(can_op(m1, ins));
        }
        let r = place(out, rt);
        let ghost m2 = *rt;
        proof {
            lemma_inputs_kept(m1, m2, ins);
            assert(metas(ins, first.mem) =~= metas(ins, m1.mem));
        }
        track_op(tape_op, inputs.as_slice(), 0, &r, track, rt);
        proof {
            assert(placed_at(m1, m2, r, v));
            assert forall|u: Tensor| #[trigger] u.owned(first) implies u.owned(*rt) && (
            u.device is Cpu && u.storage_id != running_mean.storage_id && u.storage_id
                != running_var.storage_id ==> u.block(rt.mem) == u.block(first.mem)) by {
                assert(u.owned(m1));
                assert(u.owned(m2));
            }
        }
        r
    }
}

} // verus!
