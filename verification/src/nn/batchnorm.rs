//! Batch normalisation layers.
use vstd::prelude::*;
use crate::cpu::batchnorm::batchnorm_ok;
use crate::dense::filled;
use crate::index::lemma_dims1;
use crate::nn::conv::zeros_value;
use crate::nn::embedding::ones_value;
use crate::nn::module::{
    all_mine, hand_out, handed_out, lemma_first, lemma_mine, lemma_next, lemma_none_handed, mine,
    parameter, plain, trained,
};
use crate::ops::batchnorm::normalised;
use crate::runtime::Runtime;
use crate::scalar::{Constant, Scalar};
use crate::scope::{affords, grown, lemma_affords, lemma_affords_less, lemma_affords_one, spent};
use crate::shape::Shape;
use crate::tensor::Tensor;

verus! {

/// Batch normalisation over the channels of an image batch.
#[derive(Debug)]
pub struct BatchNorm2d<S> {
    /// The learnable scale of each channel.
    pub weight: Tensor,
    /// The learnable shift of each channel.
    pub bias: Tensor,
    /// The running mean of each channel.
    pub running_mean: Tensor,
    /// The running variance of each channel.
    pub running_var: Tensor,
    /// How far the running statistics move in a step.
    pub momentum: S,
    /// Numerical stability epsilon.
    pub eps: S,
}

impl<S: Scalar> BatchNorm2d<S> {
    /// The tensors of the layer.
    pub open spec fn tensors(self) -> Seq<Tensor> {
        seq![self.weight, self.bias, self.running_mean, self.running_var]
    }

    /// Creates a new layer: scale and variance 1, shift and mean 0.
    #[must_use]
    pub fn new(channels: usize, momentum: S, eps: S, rt: &mut Runtime<S>) -> (r: Self)
        requires
            old(rt).wf(),
            affords(*old(rt), 4),
        ensures
            final(rt).wf(),
            grown(*old(rt), *final(rt), r.tensors()),
            spent(*old(rt), *final(rt), 4),
            trained(*final(rt), r.weight, ones_value(channels)),
            trained(*final(rt), r.bias, zeros_value(channels)),
            mine(*final(rt), r.running_mean),
            mine(*final(rt), r.running_var),
            r.running_mean.contiguous_spec(),
            r.running_var.contiguous_spec(),
            r.running_mean.value(final(rt).mem) == zeros_value::<S>(channels),
            r.running_var.value(final(rt).mem) == ones_value::<S>(channels),
            r.momentum == momentum,
            r.eps == eps,
    {
        let ghost a = *rt;
        let dims: [usize; 1] = [channels];
        proof {
            assert(dims@ =~= seq![channels]);
            lemma_dims1(channels);
            lemma_affords_less(a, 4, 1);
        }
        let one = S::constant(Constant::One);
        let zero = S::constant(Constant::Zero);
        let ones = filled(channels, one);
        assert(ones@ =~= ones_value::<S>(channels).data);
        let weight = parameter(ones, Shape::new(&dims), rt);
        let ghost b = *rt;
        let ghost t1 = Seq::empty().push(weight);
        proof {
            lemma_first(a, b, weight);
            lemma_affords(a, b, 1, 3);
            lemma_affords_less(b, 3, 1);
        }
        let zeros = filled(channels, zero);
        assert(zeros@ =~= zeros_value::<S>(channels).data);
        let bias = parameter(zeros, Shape::new(&dims), rt);
        let ghost c = *rt;
        let ghost t2 = t1.push(bias);
        proof {
            lemma_next(a, b, c, t1, bias, 1, 1);
            lemma_mine(b, c, seq![bias], weight);
            lemma_affords(a, c, 2, 2);
            lemma_affords_less(c, 2, 1);
        }
        let zeros = filled(channels, zero);
        assert(zeros@ =~= zeros_value::<S>(channels).data);
        let running_mean = plain(zeros, Shape::new(&dims), rt);
        let ghost d = *rt;
        let ghost t3 = t2.push(running_mean);
        proof {
            lemma_next(a, c, d, t2, running_mean, 2, 1);
            lemma_mine(c, d, seq![running_mean], weight);
            lemma_mine(c, d, seq![running_mean], bias);
            lemma_affords(a, d, 3, 1);
        }
        let ones = filled(channels, one);
        assert(ones@ =~= ones_value::<S>(channels).data);
        let running_var = plain(ones, Shape::new(&dims), rt);
        proof {
            let e = *rt;
            lemma_next(a, d, e, t3, running_var, 3, 1);
            lemma_mine(d, e, seq![running_var], weight);
            lemma_mine(d, e, seq![running_var], bias);
            lemma_mine(d, e, seq![running_var], running_mean);
            assert(t3.push(running_var) =~= seq![weight, bias, running_mean, running_var]);
        }
        BatchNorm2d { weight, bias, running_mean, running_var, momentum, eps }
    }

    /// Forward pass: with the statistics of the batch in training, and with the running ones
    /// otherwise.
    #[must_use]
    pub fn forward(&self, x: &Tensor, rt: &mut Runtime<S>) -> (r: Tensor)
        requires
            old(rt).wf(),
            old(rt).hooks.cpu_ops,
            affords(*old(rt), 1),
            mine(*old(rt), *x),
            all_mine(*old(rt), self.tensors()),
            self.running_mean.contiguous_spec(),
            self.running_var.contiguous_spec(),
            batchnorm_ok(
                x.value(old(rt).mem),
                self.weight.value(old(rt).mem),
                self.bias.value(old(rt).mem),
                self.running_mean.value(old(rt).mem),
                self.running_var.value(old(rt).mem),
            ),
        ensures
            final(rt).wf(),
            r.owned(*final(rt)),
            normalised(
                *old(rt),
                *final(rt),
                seq![*x, self.weight, self.bias, self.running_mean, self.running_var],
                old(rt).mode.training,
                self.momentum,
                self.eps,
                r,
            ),
    {
        proof {
            let ts = self.tensors();
            let ins = seq![*x, self.weight, self.bias, self.running_mean, self.running_var];
            assert(ts[0] == self.weight && ts[1] == self.bias);
            assert(ts[2] == self.running_mean && ts[3] == self.running_var);
            lemma_affords_one(*rt);
            assert forall|i: int| 0 <= i < ins.len() implies (#[trigger] ins[i]).valid(rt.mem)
                && rt.mem.refs(ins[i].key()) + ins.len() + 1 <= usize::MAX by {
                assert(mine(*rt, ins[i]));
            }
        }
        x.batchnorm(
            &self.weight,
            &self.bias,
            &self.running_mean,
            &self.running_var,
            rt.mode.training,
            self.momentum,
            self.eps,
            rt,
        )
    }

    /// Returns the learnable parameters: scale and shift.
    #[must_use]
    pub fn parameters(&self, rt: &mut Runtime<S>) -> (r: Vec<Tensor>)
        requires
            old(rt).wf(),
            mine(*old(rt), self.weight),
            mine(*old(rt), self.bias),
            affords(*old(rt), 2),
        ensures
            final(rt).wf(),
            handed_out(*old(rt), *final(rt), seq![self.weight, self.bias], r@),
    {
        let ghost a = *rt;
        let mut out: Vec<Tensor> = Vec::new();
        proof {
            lemma_none_handed(a);
            lemma_affords_less(a, 2, 1);
        }
        hand_out(&self.weight, &mut out, rt, Ghost(a), Ghost(Seq::empty()));
        proof {
            lemma_affords(a, *rt, 1, 1);
            assert(seq![self.weight, self.bias] =~= Seq::empty().push(self.weight).push(
                self.bias,
            ));
        }
        hand_out(&self.bias, &mut out, rt, Ghost(a), Ghost(Seq::empty().push(self.weight)));
        out
    }
}

} // verus!
