//! Embedding and normalisation layers.
use vstd::prelude::*;
use crate::cpu::loss::{embedding_ok, embedding_value};
use crate::cpu::norm::{layernorm_ok, layernorm_value};
use crate::cuda::dispatch::cuda_ready;
use crate::dense::{filled, Value};
use crate::forward::{metas, values};
use crate::index::{bounded, lemma_bounded_fits, lemma_dims1, lemma_dims2};
use crate::nn::conv::zeros_value;
use crate::nn::linear::{draw, init_data};
use crate::nn::module::{
    all_mine, hand_out, handed_out, lemma_none_handed, lemma_ready, mine, parameter, trained,
    yields,
};
use crate::nn::rng::SimpleRng;
use crate::op::OpType;
use crate::runtime::Runtime;
use crate::scalar::{one, Constant, Scalar};
use crate::scope::{
    affords, grown, lemma_affords, lemma_affords_less, lemma_gained_kept, lemma_grown_trans,
    lemma_spent_trans, spent,
};
use crate::shape::Shape;
use crate::tensor::Tensor;
use crate::trail::{any_wants, lemma_single, lemma_tracks, walked, wants, Move};

verus! {

/// An embedding lookup layer.
#[derive(Debug)]
pub struct Embedding {
    /// The weight tensor of shape `[vocab_size, embedding_dim]`.
    pub weight: Tensor,
}

impl Embedding {
    /// Creates a new Embedding layer.
    ///
    /// Weights are initialized using a uniform distribution
    /// in range `[-bound, bound]` where `bound = 1.0 / sqrt(embedding_dim)`.
    #[must_use]
    pub fn new<S: Scalar>(
        vocab_size: usize,
        embedding_dim: usize,
        seed: u64,
        rt: &mut Runtime<S>,
    ) -> (r: Embedding)
        requires
            old(rt).wf(),
            bounded(seq![vocab_size, embedding_dim]),
            affords(*old(rt), 1),
        ensures
            final(rt).wf(),
            grown(*old(rt), *final(rt), seq![r.weight]),
            spent(*old(rt), *final(rt), 1),
            r.initial(*final(rt), vocab_size, embedding_dim, seed),
    {
        proof {
            lemma_dims2(vocab_size, embedding_dim);
            lemma_bounded_fits(seq![vocab_size, embedding_dim]);
        }
        let mut rng = SimpleRng::new(seed);
        let n: usize = vocab_size * embedding_dim;
        let data: Vec<S> = draw(&mut rng, n, embedding_dim);
        let dims: [usize; 2] = [vocab_size, embedding_dim];
        assert(dims@ =~= seq![vocab_size, embedding_dim]);
        let weight = parameter(data, Shape::new(&dims), rt);
        Embedding { weight }
    }

    /// The layer as it was made.
    pub open spec fn initial<S: Scalar>(
        self,
        rt: Runtime<S>,
        vocab_size: usize,
        embedding_dim: usize,
        seed: u64,
    ) -> bool {
        trained(
            rt,
            self.weight,
            Value {
                dims: seq![vocab_size, embedding_dim],
                data: init_data(
                    seed,
                    0,
                    vocab_size as nat * embedding_dim as nat,
                    embedding_dim,
                ),
            },
        )
    }

    /// The computation: one lookup.
    pub open spec fn moves<S>(self, x: Tensor, outs: Seq<Tensor>) -> Seq<Move<S>> {
        seq![Move::Op { op: OpType::Embedding, ins: seq![x, self.weight], out: outs[0] }]
    }

    /// The identifiers name rows of the table, and there is room for the lookup.
    pub open spec fn accepts<S: Scalar>(self, rt: Runtime<S>, x: Tensor) -> bool {
        &&& rt.hooks.cpu_ops
        &&& affords(rt, 1)
        &&& mine(rt, x)
        &&& mine(rt, self.weight)
        &&& embedding_ok(x.value(rt.mem), self.weight.value(rt.mem))
    }

    /// Identifiers and table are on a device, and the lookup can be queued there.
    pub open spec fn launches<S: Scalar>(self, rt: Runtime<S>, x: Tensor) -> bool {
        x.device is Cuda && cuda_ready(rt, OpType::Embedding, seq![x, self.weight])
    }

    /// Forward pass performing embedding lookup.
    #[must_use]
    pub fn forward<S: Scalar>(&self, x: &Tensor, rt: &mut Runtime<S>) -> (r: Tensor)
        requires
            old(rt).wf(),
            self.accepts(*old(rt), *x) || self.launches(*old(rt), *x),
        ensures
            final(rt).wf(),
            r.owned(*final(rt)),
            grown(*old(rt), *final(rt), seq![r]),
            spent(*old(rt), *final(rt), 1),
            self.accepts(*old(rt), *x) ==> yields(
                *old(rt),
                *final(rt),
                1,
                r,
                embedding_value(x.value(old(rt).mem), self.weight.value(old(rt).mem)),
            ),
            walked(*old(rt), *final(rt), self.moves(*x, seq![r]), seq![r], 1, r),
            wants(*final(rt), r) == (old(rt).mode.autograd_enabled && wants(
                *old(rt),
                self.weight,
            )),
    {
        let ghost a = *rt;
        proof {
            if x.device is Cpu {
                assert(values(seq![*x, self.weight], rt.mem) =~= seq![
                    x.value(rt.mem),
                    self.weight.value(rt.mem),
                ]);
                lemma_ready(*rt, OpType::Embedding, seq![*x, self.weight]);
            }
        }
        let r = x.embedding(&self.weight, rt);
        proof {
            lemma_single(a, *rt, OpType::Embedding, seq![*x, self.weight], r);
            assert(metas(seq![*x, self.weight], a.mem)[1] == self.weight.meta(a.mem));
            assert(self.moves::<S>(*x, seq![r]) =~= seq![
                Move::Op { op: OpType::Embedding, ins: seq![*x, self.weight], out: r },
            ]);
        }
        r
    }

    /// Returns the embedding weight parameter.
    #[must_use]
    pub fn parameters<S: Scalar>(&self, rt: &mut Runtime<S>) -> (r: Vec<Tensor>)
        requires
            old(rt).wf(),
            mine(*old(rt), self.weight),
            affords(*old(rt), 1),
        ensures
            final(rt).wf(),
            handed_out(*old(rt), *final(rt), seq![self.weight], r@),
    {
        let ghost a = *rt;
        let mut out: Vec<Tensor> = Vec::new();
        proof {
            lemma_none_handed(a);
            assert(Seq::empty().push(self.weight) =~= seq![self.weight]);
        }
        hand_out(&self.weight, &mut out, rt, Ghost(a), Ghost(Seq::empty()));
        out
    }
}

/// A row of ones.
pub open spec fn ones_value<S: Scalar>(n: usize) -> Value<S> {
    Value { dims: seq![n], data: Seq::new(n as nat, |i: int| one::<S>()) }
}

/// Layer normalization module.
#[derive(Debug)]
pub struct LayerNorm<S> {
    /// The learnable scale parameters (gamma).
    pub weight: Tensor,
    /// The learnable shift parameters (beta).
    pub bias: Tensor,
    /// Numerical stability epsilon.
    pub eps: S,
}

impl<S: Scalar> LayerNorm<S> {
    /// The tensors of the layer.
    pub open spec fn tensors(self) -> Seq<Tensor> {
        seq![self.weight, self.bias]
    }

    /// The layer applies to a value.
    pub open spec fn fits(self, rt: Runtime<S>, x: Value<S>) -> bool {
        layernorm_ok(x, self.weight.value(rt.mem), self.bias.value(rt.mem))
    }

    /// What the layer computes.
    pub open spec fn maps(self, rt: Runtime<S>, x: Value<S>) -> Value<S> {
        layernorm_value(x, self.weight.value(rt.mem), self.bias.value(rt.mem), self.eps)
    }

    /// Creates a new LayerNorm layer.
    ///
    /// The weights (gamma) are initialized to 1s, and biases (beta) to 0s.
    #[must_use]
    pub fn new(normalized_dim: usize, eps: S, rt: &mut Runtime<S>) -> (r: Self)
        requires
            old(rt).wf(),
            affords(*old(rt), 2),
        ensures
            final(rt).wf(),
            grown(*old(rt), *final(rt), r.tensors()),
            spent(*old(rt), *final(rt), 2),
            r.initial(*final(rt), normalized_dim, eps),
    {
        let ghost a = *rt;
        let dims: [usize; 1] = [normalized_dim];
        assert(dims@ =~= seq![normalized_dim]);
        proof {
            lemma_dims1(normalized_dim);
            lemma_affords_less(a, 2, 1);
        }
        let ones = filled(normalized_dim, S::constant(Constant::One));
        assert(ones@ =~= ones_value::<S>(normalized_dim).data);
        let weight = parameter(ones, Shape::new(&dims), rt);
        let ghost b = *rt;
        proof {
            lemma_affords(a, b, 1, 1);
        }
        let zeros = filled(normalized_dim, S::constant(Constant::Zero));
        assert(zeros@ =~= zeros_value::<S>(normalized_dim).data);
        let bias = parameter(zeros, Shape::new(&dims), rt);
        proof {
            lemma_grown_trans(a, b, *rt, seq![weight], seq![bias]);
            lemma_spent_trans(a, b, *rt, 1, 1);
            lemma_gained_kept(a, b, *rt, seq![weight], seq![bias], 0);
            assert(seq![weight] + seq![bias] =~= seq![weight, bias]);
        }
        LayerNorm { weight, bias, eps }
    }

    /// The layer as it was made.
    pub open spec fn initial(self, rt: Runtime<S>, normalized_dim: usize, eps: S) -> bool {
        &&& trained(rt, self.weight, ones_value(normalized_dim))
        &&& trained(rt, self.bias, zeros_value(normalized_dim))
        &&& self.eps == eps
    }

    /// The computation: one normalization.
    pub open spec fn moves(self, x: Tensor, outs: Seq<Tensor>) -> Seq<Move<S>> {
        seq![
            Move::Op {
                op: OpType::LayerNorm { eps_bits: S::bits_spec(self.eps) },
                ins: seq![x, self.weight, self.bias],
                out: outs[0],
            },
        ]
    }

    /// The input fits the layer, and there is room for its computation.
    pub open spec fn accepts(self, rt: Runtime<S>, x: Tensor) -> bool {
        &&& rt.hooks.cpu_ops
        &&& affords(rt, 1)
        &&& mine(rt, x)
        &&& all_mine(rt, self.tensors())
        &&& self.fits(rt, x.value(rt.mem))
    }

    /// The input is on a device, and the computation can be queued there.
    pub open spec fn launches(self, rt: Runtime<S>, x: Tensor) -> bool {
        x.device is Cuda && cuda_ready(
            rt,
            OpType::LayerNorm { eps_bits: S::bits_spec(self.eps) },
            seq![x, self.weight, self.bias],
        )
    }

    /// Forward pass performing layer normalization.
    #[must_use]
    pub fn forward(&self, x: &Tensor, rt: &mut Runtime<S>) -> (r: Tensor)
        requires
            old(rt).wf(),
            self.accepts(*old(rt), *x) || self.launches(*old(rt), *x),
        ensures
            final(rt).wf(),
            r.owned(*final(rt)),
            grown(*old(rt), *final(rt), seq![r]),
            spent(*old(rt), *final(rt), 1),
            self.accepts(*old(rt), *x) ==> yields(
                *old(rt),
                *final(rt),
                1,
                r,
                self.maps(*old(rt), x.value(old(rt).mem)),
            ),
            walked(*old(rt), *final(rt), self.moves(*x, seq![r]), seq![r], 1, r),
            wants(*final(rt), r) == (old(rt).mode.autograd_enabled && (wants(*old(rt), *x)
                || any_wants(*old(rt), self.tensors()))),
    {
        let ghost a = *rt;
        proof {
            let ts = self.tensors();
            assert(ts[0] == self.weight && ts[1] == self.bias);
            if x.device is Cpu {
                assert(values(seq![*x, self.weight, self.bias], rt.mem) =~= seq![
                    x.value(rt.mem),
                    self.weight.value(rt.mem),
                    self.bias.value(rt.mem),
                ]);
                lemma_ready(
                    *rt,
                    OpType::LayerNorm { eps_bits: S::bits_spec(self.eps) },
                    seq![*x, self.weight, self.bias],
                );
            }
        }
        let r = x.layernorm(&self.weight, &self.bias, self.eps, rt);
        proof {
            let op = OpType::LayerNorm { eps_bits: S::bits_spec(self.eps) };
            let ins = seq![*x, self.weight, self.bias];
            lemma_single(a, *rt, op, ins, r);
            lemma_tracks(a, op, ins);
            lemma_tracks(a, op, self.tensors());
            assert(self.moves(*x, seq![r]) =~= seq![Move::Op { op, ins, out: r }]);
        }
        r
    }

    /// Returns the learnable LayerNorm parameters.
    #[must_use]
    pub fn parameters(&self, rt: &mut Runtime<S>) -> (r: Vec<Tensor>)
        requires
            old(rt).wf(),
            all_mine(*old(rt), self.tensors()),
            affords(*old(rt), 2),
        ensures
            final(rt).wf(),
            handed_out(*old(rt), *final(rt), self.tensors(), r@),
    {
        let ghost a = *rt;
        let ghost ts = self.tensors();
        let mut out: Vec<Tensor> = Vec::new();
        proof {
            lemma_none_handed(a);
            lemma_affords_less(a, 2, 1);
            assert(ts[0] == self.weight && ts[1] == self.bias);
        }
        hand_out(&self.weight, &mut out, rt, Ghost(a), Ghost(Seq::empty()));
        proof {
            lemma_affords(a, *rt, 1, 1);
            assert(ts =~= Seq::empty().push(self.weight).push(self.bias));
        }
        hand_out(&self.bias, &mut out, rt, Ghost(a), Ghost(Seq::empty().push(self.weight)));
        out
    }
}

} // verus!
