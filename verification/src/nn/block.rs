//! Transformer blocks.
use vstd::prelude::*;
use crate::cpu::elementwise::{map_value, zip_ok, zip_value, BinaryOp, UnaryOp};
use crate::dense::Value;
use crate::forward::values;
use crate::index::bounded;
use crate::nn::attention::{
    lemma_linear_kept, lemma_same_layer, lemma_split_mine, mask_value, mask_wants,
    MultiHeadAttention,
};
use crate::nn::embedding::LayerNorm;
use crate::nn::linear::Linear;
use crate::nn::module::{
    all_mine, handed_out, lemma_all_mine, lemma_first, lemma_handed_trans, lemma_mine, lemma_next,
    lemma_ready, lemma_wants, mine, settle, yields, Module,
};
use crate::op::OpType;
use crate::runtime::Runtime;
use crate::scalar::{Constant, Scalar};
use crate::scope::{
    affords, grown, lemma_affords, lemma_affords_less, lemma_grown_trans, lemma_spent_trans, spent,
};
use crate::tensor::Tensor;
use crate::trail::{
    any_wants, drops, law_move, lemma_any_wants, lemma_join, lemma_move, lemma_tracks, part, walked,
    wants, Move,
};

verus! {

/// A Transformer decoder block (pre-LN style).
#[derive(Debug)]
pub struct TransformerBlock<S> {
    pub ln_1: LayerNorm<S>,
    pub attn: MultiHeadAttention,
    pub ln_2: LayerNorm<S>,
    pub mlp_fc1: Linear,
    pub mlp_fc2: Linear,
}

/// The stabiliser of the block's normalisations.
pub open spec fn norm_floor<S: Scalar>() -> S {
    S::constant_spec(Constant::NormFloor)
}

impl<S: Scalar> TransformerBlock<S> {
    /// The tensors of the block.
    pub open spec fn tensors(self) -> Seq<Tensor> {
        self.ln_1.tensors() + self.attn.tensors() + self.ln_2.tensors() + self.mlp_fc1.tensors()
            + self.mlp_fc2.tensors()
    }

    /// The input with what its positions learn from each other.
    #[verifier::opaque]
    pub open spec fn mixed(
        self,
        rt: Runtime<S>,
        x: Value<S>,
        mask: Option<Value<S>>,
    ) -> Value<S> {
        zip_value(x, self.attn.maps(rt, self.ln_1.maps(rt, x), mask), BinaryOp::Add)
    }

    /// The first half of the block applies to a value.
    #[verifier::opaque]
    pub open spec fn mixes(self, rt: Runtime<S>, x: Value<S>, mask: Option<Value<S>>) -> bool {
        let normed = self.ln_1.maps(rt, x);
        &&& self.ln_1.fits(rt, x)
        &&& self.attn.fits(rt, normed, mask)
        &&& zip_ok(x, self.attn.maps(rt, normed, mask))
    }

    /// What the two layers after the attention compute.
    #[verifier::opaque]
    pub open spec fn fed(self, rt: Runtime<S>, x: Value<S>) -> Value<S> {
        self.mlp_fc2.maps(
            rt,
            map_value(self.mlp_fc1.maps(rt, self.ln_2.maps(rt, x)), UnaryOp::Gelu),
        )
    }

    /// The second half of the block applies to a value.
    #[verifier::opaque]
    pub open spec fn feeds(self, rt: Runtime<S>, x: Value<S>) -> bool {
        let hidden = self.mlp_fc1.maps(rt, self.ln_2.maps(rt, x));
        &&& self.ln_2.fits(rt, x)
        &&& self.mlp_fc1.fits(rt, self.ln_2.maps(rt, x))
        &&& self.mlp_fc2.fits(rt, map_value(hidden, UnaryOp::Gelu))
        &&& zip_ok(x, self.fed(rt, x))
    }

    /// The block applies to a value.
    pub open spec fn fits(self, rt: Runtime<S>, x: Value<S>, mask: Option<Value<S>>) -> bool {
        &&& self.mixes(rt, x, mask)
        &&& self.feeds(rt, self.mixed(rt, x, mask))
    }

    /// What the block computes.
    pub open spec fn maps(
        self,
        rt: Runtime<S>,
        x: Value<S>,
        mask: Option<Value<S>>,
    ) -> Value<S> {
        let x = self.mixed(rt, x, mask);
        zip_value(x, self.fed(rt, x), BinaryOp::Add)
    }

    /// Creates a new Transformer block.
    #[must_use]
    pub fn new(
        n_embd: usize,
        n_head: usize,
        mlp_dim: usize,
        seed: u64,
        rt: &mut Runtime<S>,
    ) -> (r: Self)
        requires
            old(rt).wf(),
            n_head > 0,
            n_embd > 0,
            mlp_dim > 0,
            n_embd % n_head == 0,
            bounded(seq![n_embd, n_embd]),
            bounded(seq![mlp_dim, n_embd]),
            bounded(seq![n_embd, mlp_dim]),
            seed + 20 <= u64::MAX,
            affords(*old(rt), 16),
        ensures
            final(rt).wf(),
            grown(*old(rt), *final(rt), r.tensors()),
            spent(*old(rt), *final(rt), 16),
            r.initial(*final(rt), n_embd, n_head, mlp_dim, seed),
    {
        let ghost a = *rt;
        let eps = S::constant(Constant::NormFloor);
        proof {
            lemma_affords_less(a, 16, 2);
        }
        let ln_1 = LayerNorm::new(n_embd, eps, rt);
        let ghost b = *rt;
        proof {
            lemma_affords(a, b, 2, 14);
            lemma_affords_less(b, 14, 8);
        }
        let attn = MultiHeadAttention::new(n_embd, n_head, seed, rt);
        let ghost c = *rt;
        let ghost t2 = ln_1.tensors() + attn.tensors();
        proof {
            lemma_grown_trans(a, b, c, ln_1.tensors(), attn.tensors());
            lemma_spent_trans(a, b, c, 2, 8);
            lemma_affords(a, c, 10, 6);
            lemma_affords_less(c, 6, 2);
        }
        let ln_2 = LayerNorm::new(n_embd, eps, rt);
        let ghost d = *rt;
        let ghost t3 = t2 + ln_2.tensors();
        proof {
            lemma_grown_trans(a, c, d, t2, ln_2.tensors());
            lemma_spent_trans(a, c, d, 10, 2);
            lemma_affords(a, d, 12, 4);
            lemma_affords_less(d, 4, 2);
        }
        let mlp_fc1 = Linear::new(n_embd, mlp_dim, true, seed + 10, rt);
        let ghost e = *rt;
        let ghost t4 = t3 + mlp_fc1.tensors();
        proof {
            lemma_grown_trans(a, d, e, t3, mlp_fc1.tensors());
            lemma_spent_trans(a, d, e, 12, 2);
            lemma_affords(a, e, 14, 2);
        }
        let mlp_fc2 = Linear::new(mlp_dim, n_embd, true, seed + 20, rt);
        proof {
            let f = *rt;
            lemma_grown_trans(a, e, f, t4, mlp_fc2.tensors());
            lemma_spent_trans(a, e, f, 14, 2);
            lemma_norm_kept(b, c, attn.tensors(), ln_1, n_embd);
            lemma_norm_kept(c, d, ln_2.tensors(), ln_1, n_embd);
            lemma_norm_kept(d, e, mlp_fc1.tensors(), ln_1, n_embd);
            lemma_norm_kept(e, f, mlp_fc2.tensors(), ln_1, n_embd);
            lemma_attention_kept(c, d, ln_2.tensors(), attn, n_embd, n_head, seed);
            lemma_attention_kept(d, e, mlp_fc1.tensors(), attn, n_embd, n_head, seed);
            lemma_attention_kept(e, f, mlp_fc2.tensors(), attn, n_embd, n_head, seed);
            lemma_norm_kept(d, e, mlp_fc1.tensors(), ln_2, n_embd);
            lemma_norm_kept(e, f, mlp_fc2.tensors(), ln_2, n_embd);
            lemma_linear_kept(
                e,
                f,
                mlp_fc2.tensors(),
                mlp_fc1,
                n_embd,
                mlp_dim,
                (seed + 10) as u64,
            );
        }
        TransformerBlock { ln_1, attn, ln_2, mlp_fc1, mlp_fc2 }
    }

    /// The block as it was made.
    pub open spec fn initial(
        self,
        rt: Runtime<S>,
        n_embd: usize,
        n_head: usize,
        mlp_dim: usize,
        seed: u64,
    ) -> bool {
        &&& self.ln_1.initial(rt, n_embd, norm_floor())
        &&& self.attn.initial(rt, n_embd, n_head, seed)
        &&& self.ln_2.initial(rt, n_embd, norm_floor())
        &&& self.mlp_fc1.initial(rt, n_embd, mlp_dim, true, (seed + 10) as u64)
        &&& self.mlp_fc2.initial(rt, mlp_dim, n_embd, true, (seed + 20) as u64)
    }

    /// How many handles the first half makes.
    pub open spec fn mix_count(self, mask: Option<&Tensor>) -> nat {
        self.attn.count(mask) + 2
    }

    /// The first half, step by step.
    pub open spec fn mix_moves(
        self,
        x: Tensor,
        mask: Option<&Tensor>,
        outs: Seq<Tensor>,
    ) -> Seq<Move<S>> {
        let n = self.attn.count(mask);
        let (normed, attended) = (outs[0], outs[n as int]);
        self.ln_1.moves(x, part(outs, 0, 1)) + self.attn.moves(normed, mask, part(outs, 1, n))
            + seq![
            Move::Op { op: OpType::Add, ins: seq![x, attended], out: outs[n as int + 1] },
        ] + drops(seq![normed, attended])
    }

    /// How many handles the second half makes.
    pub open spec fn feed_count(self) -> nat {
        self.mlp_fc1.count() + self.mlp_fc2.count() + 2
    }

    /// The second half, step by step.
    pub open spec fn feed_moves(self, x: Tensor, outs: Seq<Tensor>) -> Seq<Move<S>> {
        let n = self.mlp_fc1.count();
        let (normed, hidden, active) = (outs[0], outs[n as int], outs[n as int + 1]);
        self.ln_2.moves(x, part(outs, 0, 1)) + self.mlp_fc1.chain(normed, part(outs, 1, n)) + seq![
            Move::Op { op: OpType::Gelu, ins: seq![hidden], out: active },
        ] + self.mlp_fc2.chain(active, part(outs, n + 2, self.mlp_fc2.count())) + drops(
            seq![normed, hidden, active],
        )
    }

    /// How many handles the computation makes.
    pub open spec fn count(self, mask: Option<&Tensor>) -> nat {
        self.mix_count(mask) + self.feed_count() + 1
    }

    /// The computation, step by step.
    #[verifier::opaque]
    pub open spec fn moves(
        self,
        x: Tensor,
        mask: Option<&Tensor>,
        outs: Seq<Tensor>,
    ) -> Seq<Move<S>> {
        let (m, n) = (self.mix_count(mask), self.feed_count());
        let (h, fed) = (outs[m - 1], outs[m + n - 1]);
        self.mix_moves(x, mask, part(outs, 0, m)) + self.feed_moves(h, part(outs, m, n)) + seq![
            Move::Op { op: OpType::Add, ins: seq![h, fed], out: outs[(m + n) as int] },
        ] + drops(seq![h, fed])
    }

    /// The attention, and the input added to it.
    #[verifier::rlimit(60)]
    fn mix(&self, x: &Tensor, mask: Option<&Tensor>, rt: &mut Runtime<S>) -> (r: Tensor)
        requires
            old(rt).wf(),
            old(rt).hooks.cpu_ops,
            affords(*old(rt), 29),
            mine(*old(rt), *x),
            mask is Some ==> mine(*old(rt), *mask->0),
            all_mine(*old(rt), self.tensors()),
            self.mixes(*old(rt), x.value(old(rt).mem), mask_value(mask, *old(rt))),
        ensures
            final(rt).wf(),
            yields(
                *old(rt),
                *final(rt),
                29,
                r,
                self.mixed(*old(rt), x.value(old(rt).mem), mask_value(mask, *old(rt))),
            ),
            exists|outs: Seq<Tensor>|
                walked(
                    *old(rt),
                    *final(rt),
                    #[trigger] self.mix_moves(*x, mask, outs),
                    outs,
                    self.mix_count(mask),
                    r,
                ),
            wants(*final(rt), r) == (old(rt).mode.autograd_enabled && (wants(*old(rt), *x)
                || mask_wants(*old(rt), mask) || any_wants(*old(rt), self.ln_1.tensors())
                || any_wants(*old(rt), self.attn.tensors()))),
    {
        let ghost a = *rt;
        let ghost xv = x.value(a.mem);
        let ghost mv = mask_value(mask, a);
        proof {
            reveal(TransformerBlock::mixed);
            reveal(TransformerBlock::mixes);
            lemma_block_parts(a, *self);
            lemma_affords_less(a, 29, 1);
        }
        let normed = self.ln_1.forward(x, rt);
        let ghost b = *rt;
        let ghost t1 = Seq::empty().push(normed);
        proof {
            lemma_first(a, b, normed);
            lemma_affords(a, b, 1, 28);
            lemma_affords_less(b, 28, 27);
            if mask is Some {
                lemma_mine(a, b, t1, *mask->0);
            }
            assert(mask_value(mask, b) == mv);
            lemma_same_attention(a, b, t1, self.attn, self.ln_1.maps(a, xv), mv);
            lemma_wants(a, b, t1, self.attn.tensors());
        }
        let attended = self.attn.forward(&normed, mask, rt);
        let ghost c = *rt;
        let ghost t2 = t1.push(attended);
        proof {
            lemma_next(a, b, c, t1, attended, 1, 27);
            lemma_affords(a, c, 28, 1);
            lemma_mine(a, c, t2, *x);
            assert(values(seq![*x, attended], c.mem) =~= seq![
                x.value(c.mem),
                attended.value(c.mem),
            ]);
            lemma_ready(c, OpType::Add, seq![*x, attended]);
        }
        let r = x.add(&attended, rt);
        let ghost d = *rt;
        let ghost n = self.attn.count(mask);
        let ghost o1 = seq![normed];
        let ghost o2 = choose|o: Seq<Tensor>|
            walked(b, c, #[trigger] self.attn.moves(normed, mask, o), o, n, attended);
        let ghost w1 = self.ln_1.moves(*x, o1);
        let ghost w2 = self.attn.moves::<S>(normed, mask, o2);
        let ghost m = Move::Op { op: OpType::Add, ins: seq![*x, attended], out: r };
        let ghost old_ones = seq![normed, attended];
        proof {
            lemma_next(a, c, d, t2, r, 28, 1);
            lemma_join(a, b, c, w1, w2);
            lemma_move(a, c, d, w1 + w2, m);
            law_move(c, m, d);
            lemma_tracks(c, OpType::Add, seq![*x, attended]);
        }
        let mut used: Vec<Tensor> = Vec::new();
        used.push(normed);
        used.push(attended);
        assert(used@ =~= old_ones);
        settle(used, &r, rt, Ghost(a));
        proof {
            lemma_spent_trans(a, d, *rt, 29, 0);
            lemma_join(a, d, *rt, (w1 + w2).push(m), drops(old_ones));
            let outs = o1 + o2 + seq![r];
            assert(part(outs, 0, 1) =~= o1);
            assert(part(outs, 1, n) =~= o2);
            assert(outs[n as int] == attended);
            assert(self.mix_moves(*x, mask, outs) =~= (w1 + w2).push(m) + drops(old_ones));
            assert(walked(a, *rt, self.mix_moves(*x, mask, outs), outs, n + 2, r));
        }
        r
    }

    /// The two layers after the attention.
    #[verifier::rlimit(60)]
    fn feed(&self, x: &Tensor, rt: &mut Runtime<S>) -> (r: Tensor)
        requires
            old(rt).wf(),
            old(rt).hooks.cpu_ops,
            affords(*old(rt), 8),
            mine(*old(rt), *x),
            all_mine(*old(rt), self.tensors()),
            self.feeds(*old(rt), x.value(old(rt).mem)),
        ensures
            final(rt).wf(),
            yields(*old(rt), *final(rt), 8, r, self.fed(*old(rt), x.value(old(rt).mem))),
            exists|outs: Seq<Tensor>|
                walked(
                    *old(rt),
                    *final(rt),
                    #[trigger] self.feed_moves(*x, outs),
                    outs,
                    self.feed_count(),
                    r,
                ),
            wants(*final(rt), r) == (old(rt).mode.autograd_enabled && (wants(*old(rt), *x)
                || any_wants(*old(rt), self.ln_2.tensors()) || any_wants(
                *old(rt),
                self.mlp_fc1.tensors(),
            ) || any_wants(*old(rt), self.mlp_fc2.tensors()))),
    {
        let ghost a = *rt;
        let ghost xv = x.value(a.mem);
        let ghost nv = self.ln_2.maps(a, xv);
        proof {
            reveal(TransformerBlock::fed);
            reveal(TransformerBlock::feeds);
            lemma_block_parts(a, *self);
            lemma_affords_less(a, 8, 1);
        }
        let normed = self.ln_2.forward(x, rt);
        let ghost b = *rt;
        let ghost t1 = Seq::empty().push(normed);
        proof {
            lemma_first(a, b, normed);
            lemma_affords(a, b, 1, 7);
            lemma_affords_less(b, 7, 3);
            lemma_same_layer(a, b, t1, self.mlp_fc1, nv);
            lemma_wants(a, b, t1, self.mlp_fc1.tensors());
        }
        let hidden = self.mlp_fc1.forward(&normed, rt);
        let ghost c = *rt;
        let ghost t2 = t1.push(hidden);
        proof {
            lemma_next(a, b, c, t1, hidden, 1, 3);
            lemma_affords(a, c, 4, 4);
            lemma_affords_less(c, 4, 1);
            assert(values(seq![hidden], c.mem) =~= seq![hidden.value(c.mem)]);
            lemma_ready(c, OpType::Gelu, seq![hidden]);
        }
        let active = hidden.gelu(rt);
        let ghost d = *rt;
        let ghost t3 = t2.push(active);
        proof {
            lemma_next(a, c, d, t2, active, 4, 1);
            lemma_affords(a, d, 5, 3);
            lemma_same_layer(
                a,
                d,
                t3,
                self.mlp_fc2,
                map_value(self.mlp_fc1.maps(a, nv), UnaryOp::Gelu),
            );
            lemma_wants(a, d, t3, self.mlp_fc2.tensors());
        }
        let r = self.mlp_fc2.forward(&active, rt);
        let ghost e = *rt;
        let ghost (n, k) = (self.mlp_fc1.count(), self.mlp_fc2.count());
        let ghost o1 = seq![normed];
        let ghost o2 = choose|o: Seq<Tensor>|
            walked(b, c, #[trigger] self.mlp_fc1.moves(normed, o), o, n, hidden);
        let ghost o3 = choose|o: Seq<Tensor>|
            walked(d, e, #[trigger] self.mlp_fc2.moves(active, o), o, k, r);
        let ghost w1 = self.ln_2.moves(*x, o1);
        let ghost w2 = self.mlp_fc1.chain::<S>(normed, o2);
        let ghost m = Move::Op { op: OpType::Gelu, ins: seq![hidden], out: active };
        let ghost w3 = self.mlp_fc2.chain::<S>(active, o3);
        let ghost way = (w1 + w2).push(m) + w3;
        let ghost old_ones = seq![normed, hidden, active];
        proof {
            lemma_next(a, d, e, t3, r, 5, 3);
            lemma_join(a, b, c, w1, w2);
            lemma_move(a, c, d, w1 + w2, m);
            law_move(c, m, d);
            lemma_tracks(c, OpType::Gelu, seq![hidden]);
            lemma_join(a, d, e, (w1 + w2).push(m), w3);
        }
        let mut used: Vec<Tensor> = Vec::new();
        used.push(normed);
        used.push(hidden);
        used.push(active);
        assert(used@ =~= old_ones);
        settle(used, &r, rt, Ghost(a));
        proof {
            lemma_spent_trans(a, e, *rt, 8, 0);
            lemma_join(a, e, *rt, way, drops(old_ones));
            let outs = o1 + o2 + seq![active] + o3;
            assert(part(outs, 0, 1) =~= o1);
            assert(part(outs, 1, n) =~= o2);
            assert(part(outs, n + 2, k) =~= o3);
            assert(outs[n as int] == hidden && outs[n as int + 1] == active);
            assert(self.feed_moves(*x, outs) =~= way + drops(old_ones));
            assert(walked(a, *rt, self.feed_moves(*x, outs), outs, self.feed_count(), r));
        }
        r
    }

    /// Forward pass of the transformer block: Pre-LN architecture.
    #[must_use]
    #[verifier::rlimit(60)]
    pub fn forward(&self, x: &Tensor, mask: Option<&Tensor>, rt: &mut Runtime<S>) -> (r: Tensor)
        requires
            old(rt).wf(),
            old(rt).hooks.cpu_ops,
            affords(*old(rt), 38),
            mine(*old(rt), *x),
            mask is Some ==> mine(*old(rt), *mask->0),
            all_mine(*old(rt), self.tensors()),
            self.fits(*old(rt), x.value(old(rt).mem), mask_value(mask, *old(rt))),
        ensures
            final(rt).wf(),
            yields(
                *old(rt),
                *final(rt),
                38,
                r,
                self.maps(*old(rt), x.value(old(rt).mem), mask_value(mask, *old(rt))),
            ),
            exists|outs: Seq<Tensor>|
                walked(
                    *old(rt),
                    *final(rt),
                    #[trigger] self.moves(*x, mask, outs),
                    outs,
                    self.count(mask),
                    r,
                ),
            wants(*final(rt), r) == (old(rt).mode.autograd_enabled && (wants(*old(rt), *x)
                || mask_wants(*old(rt), mask) || any_wants(*old(rt), self.tensors()))),
    {
        let ghost a = *rt;
        let ghost hv = self.mixed(a, x.value(a.mem), mask_value(mask, a));
        assert(zip_ok(hv, self.fed(a, hv))) by {
            reveal(TransformerBlock::feeds);
        }
        proof {
            lemma_affords_less(a, 38, 29);
        }
        let h = self.mix(x, mask, rt);
        let ghost b = *rt;
        let ghost t1 = Seq::empty().push(h);
        proof {
            lemma_first(a, b, h);
            lemma_affords(a, b, 29, 9);
            lemma_affords_less(b, 9, 8);
            lemma_all_mine(a, b, t1, self.tensors());
            lemma_same_feed(a, b, t1, *self, hv);
            lemma_block_parts(a, *self);
            lemma_wants(a, b, t1, self.ln_2.tensors());
            lemma_wants(a, b, t1, self.mlp_fc1.tensors());
            lemma_wants(a, b, t1, self.mlp_fc2.tensors());
        }
        let fed = self.feed(&h, rt);
        let ghost c = *rt;
        let ghost t2 = t1.push(fed);
        proof {
            lemma_next(a, b, c, t1, fed, 29, 8);
            lemma_affords(a, c, 37, 1);
            assert(t1[0] == h);
            assert(values(seq![h, fed], c.mem) =~= seq![h.value(c.mem), fed.value(c.mem)]);
            lemma_ready(c, OpType::Add, seq![h, fed]);
        }
        let r = h.add(&fed, rt);
        let ghost d = *rt;
        let ghost (m, n) = (self.mix_count(mask), self.feed_count());
        let ghost o1 = choose|o: Seq<Tensor>|
            walked(a, b, #[trigger] self.mix_moves(*x, mask, o), o, m, h);
        let ghost o2 = choose|o: Seq<Tensor>|
            walked(b, c, #[trigger] self.feed_moves(h, o), o, n, fed);
        let ghost w1 = self.mix_moves(*x, mask, o1);
        let ghost w2 = self.feed_moves(h, o2);
        let ghost sum = Move::Op { op: OpType::Add, ins: seq![h, fed], out: r };
        let ghost old_ones = seq![h, fed];
        proof {
            lemma_next(a, c, d, t2, r, 37, 1);
            lemma_join(a, b, c, w1, w2);
            lemma_move(a, c, d, w1 + w2, sum);
            law_move(c, sum, d);
            lemma_tracks(c, OpType::Add, seq![h, fed]);
            lemma_block_wants(a, *self);
        }
        let mut used: Vec<Tensor> = Vec::new();
        used.push(h);
        used.push(fed);
        assert(used@ =~= old_ones);
        settle(used, &r, rt, Ghost(a));
        proof {
            lemma_spent_trans(a, d, *rt, 38, 0);
            lemma_join(a, d, *rt, (w1 + w2).push(sum), drops(old_ones));
            let outs = o1 + o2 + seq![r];
            reveal(TransformerBlock::moves);
            assert(part(outs, 0, m) =~= o1);
            assert(part(outs, m, n) =~= o2);
            assert(outs[m - 1] == h && outs[m + n - 1] == fed);
            assert(self.moves(*x, mask, outs) =~= (w1 + w2).push(sum) + drops(old_ones));
            assert(walked(a, *rt, self.moves(*x, mask, outs), outs, self.count(mask), r));
        }
        r
    }

    /// Returns all block parameters.
    #[must_use]
    pub fn parameters(&self, rt: &mut Runtime<S>) -> (r: Vec<Tensor>)
        requires
            old(rt).wf(),
            all_mine(*old(rt), self.tensors()),
            affords(*old(rt), self.tensors().len()),
        ensures
            final(rt).wf(),
            handed_out(*old(rt), *final(rt), self.tensors(), r@),
    {
        let ghost a = *rt;
        let ghost u1 = self.ln_1.tensors();
        let ghost u2 = self.attn.tensors();
        let ghost u3 = self.ln_2.tensors();
        let ghost u4 = self.mlp_fc1.tensors();
        let ghost u5 = self.mlp_fc2.tensors();
        proof {
            lemma_block_parts(a, *self);
            lemma_affords_less(a, self.tensors().len(), u1.len());
        }
        let mut out = self.ln_1.parameters(rt);
        let ghost b = *rt;
        let ghost o1 = out@;
        proof {
            lemma_all_mine(a, b, o1, u2);
            lemma_affords_less(a, self.tensors().len(), u1.len() + u2.len());
            lemma_affords(a, b, u1.len(), u2.len());
        }
        let mut more = self.attn.parameters(rt);
        let ghost c = *rt;
        proof {
            lemma_handed_trans(a, b, c, u1, u2, o1, more@);
            lemma_all_mine(a, c, o1 + more@, u3);
            lemma_affords_less(a, self.tensors().len(), u1.len() + u2.len() + u3.len());
            lemma_affords(a, c, u1.len() + u2.len(), u3.len());
        }
        out.append(&mut more);
        let ghost o2 = out@;
        let mut more = self.ln_2.parameters(rt);
        let ghost d = *rt;
        proof {
            lemma_handed_trans(a, c, d, u1 + u2, u3, o2, more@);
            lemma_all_mine(a, d, o2 + more@, u4);
            lemma_affords_less(
                a,
                self.tensors().len(),
                u1.len() + u2.len() + u3.len() + u4.len(),
            );
            lemma_affords(a, d, u1.len() + u2.len() + u3.len(), u4.len());
        }
        out.append(&mut more);
        let ghost o3 = out@;
        let mut more = self.mlp_fc1.parameters(rt);
        let ghost e = *rt;
        proof {
            lemma_handed_trans(a, d, e, u1 + u2 + u3, u4, o3, more@);
            lemma_all_mine(a, e, o3 + more@, u5);
            lemma_affords(a, e, u1.len() + u2.len() + u3.len() + u4.len(), u5.len());
        }
        out.append(&mut more);
        let ghost o4 = out@;
        let mut more = self.mlp_fc2.parameters(rt);
        proof {
            lemma_handed_trans(a, e, *rt, u1 + u2 + u3 + u4, u5, o4, more@);
        }
        out.append(&mut more);
        out
    }
}

/// The tensors of the parts are among those of the block.
proof fn lemma_block_parts<S: Scalar>(rt: Runtime<S>, m: TransformerBlock<S>)
    requires
        all_mine(rt, m.tensors()),
    ensures
        all_mine(rt, m.ln_1.tensors()),
        all_mine(rt, m.attn.tensors()),
        all_mine(rt, m.ln_2.tensors()),
        all_mine(rt, m.mlp_fc1.tensors()),
        all_mine(rt, m.mlp_fc2.tensors()),
{
    let u1 = m.ln_1.tensors();
    let u2 = m.attn.tensors();
    let u3 = m.ln_2.tensors();
    let u4 = m.mlp_fc1.tensors();
    let u5 = m.mlp_fc2.tensors();
    lemma_split_mine(rt, u1 + u2 + u3 + u4, u5);
    lemma_split_mine(rt, u1 + u2 + u3, u4);
    lemma_split_mine(rt, u1 + u2, u3);
    lemma_split_mine(rt, u1, u2);
}

/// Whether a tensor of one of the parts asks for gradients.
proof fn lemma_block_wants<S: Scalar>(rt: Runtime<S>, m: TransformerBlock<S>)
    ensures
        any_wants(rt, m.tensors()) == (any_wants(rt, m.ln_1.tensors()) || any_wants(
            rt,
            m.attn.tensors(),
        ) || any_wants(rt, m.ln_2.tensors()) || any_wants(rt, m.mlp_fc1.tensors()) || any_wants(
            rt,
            m.mlp_fc2.tensors(),
        )),
{
    let u1 = m.ln_1.tensors();
    let u2 = m.attn.tensors();
    let u3 = m.ln_2.tensors();
    let u4 = m.mlp_fc1.tensors();
    let u5 = m.mlp_fc2.tensors();
    lemma_any_wants(rt, u1 + u2 + u3 + u4, u5);
    lemma_any_wants(rt, u1 + u2 + u3, u4);
    lemma_any_wants(rt, u1 + u2, u3);
    lemma_any_wants(rt, u1, u2);
}

/// A normalisation's tensors stay what they were.
pub proof fn lemma_norm_kept<S: Scalar>(
    a: Runtime<S>,
    b: Runtime<S>,
    ts: Seq<Tensor>,
    layer: LayerNorm<S>,
    n: usize,
)
    requires
        grown(a, b, ts),
        layer.initial(a, n, norm_floor()),
    ensures
        layer.initial(b, n, norm_floor()),
{
    lemma_mine(a, b, ts, layer.weight);
    lemma_mine(a, b, ts, layer.bias);
}

/// A normalisation computes what it did before a computation.
pub proof fn lemma_same_norm<S: Scalar>(
    a: Runtime<S>,
    b: Runtime<S>,
    ts: Seq<Tensor>,
    layer: LayerNorm<S>,
    x: Value<S>,
)
    requires
        grown(a, b, ts),
        all_mine(a, layer.tensors()),
    ensures
        layer.fits(b, x) == layer.fits(a, x),
        layer.maps(b, x) == layer.maps(a, x),
        all_mine(b, layer.tensors()),
{
    let us = layer.tensors();
    lemma_all_mine(a, b, ts, us);
    assert(us[0] == layer.weight && us[1] == layer.bias);
    lemma_mine(a, b, ts, layer.weight);
    lemma_mine(a, b, ts, layer.bias);
}

/// An attention's tensors stay what they were.
pub proof fn lemma_attention_kept<S: Scalar>(
    a: Runtime<S>,
    b: Runtime<S>,
    ts: Seq<Tensor>,
    attn: MultiHeadAttention,
    n_embd: usize,
    n_head: usize,
    seed: u64,
)
    requires
        grown(a, b, ts),
        attn.initial(a, n_embd, n_head, seed),
    ensures
        attn.initial(b, n_embd, n_head, seed),
{
    lemma_linear_kept(a, b, ts, attn.q_proj, n_embd, n_embd, seed);
    lemma_linear_kept(a, b, ts, attn.k_proj, n_embd, n_embd, (seed + 1) as u64);
    lemma_linear_kept(a, b, ts, attn.v_proj, n_embd, n_embd, (seed + 2) as u64);
    lemma_linear_kept(a, b, ts, attn.out_proj, n_embd, n_embd, (seed + 3) as u64);
}

/// An attention computes what it did before a computation.
pub proof fn lemma_same_attention<S: Scalar>(
    a: Runtime<S>,
    b: Runtime<S>,
    ts: Seq<Tensor>,
    attn: MultiHeadAttention,
    x: Value<S>,
    mask: Option<Value<S>>,
)
    requires
        grown(a, b, ts),
        all_mine(a, attn.tensors()),
    ensures
        attn.fits(b, x, mask) == attn.fits(a, x, mask),
        attn.maps(b, x, mask) == attn.maps(a, x, mask),
        all_mine(b, attn.tensors()),
{
    reveal(MultiHeadAttention::fits);
    reveal(MultiHeadAttention::maps);
    let (tq, tk, tv, to) = (
        attn.q_proj.tensors(),
        attn.k_proj.tensors(),
        attn.v_proj.tensors(),
        attn.out_proj.tensors(),
    );
    lemma_split_mine(a, tq + tk + tv, to);
    lemma_split_mine(a, tq + tk, tv);
    lemma_split_mine(a, tq, tk);
    lemma_all_mine(a, b, ts, attn.tensors());
    lemma_same_layer(a, b, ts, attn.q_proj, x);
    lemma_same_layer(a, b, ts, attn.k_proj, x);
    lemma_same_layer(a, b, ts, attn.v_proj, x);
    lemma_same_layer(a, b, ts, attn.out_proj, attn.joined(a, x, mask));
}

/// The second half of a block computes what it did before a computation.
proof fn lemma_same_feed<S: Scalar>(
    a: Runtime<S>,
    b: Runtime<S>,
    ts: Seq<Tensor>,
    block: TransformerBlock<S>,
    x: Value<S>,
)
    requires
        grown(a, b, ts),
        all_mine(a, block.tensors()),
    ensures
        block.feeds(b, x) == block.feeds(a, x),
        block.fed(b, x) == block.fed(a, x),
{
    reveal(TransformerBlock::fed);
    reveal(TransformerBlock::feeds);
    lemma_block_parts(a, block);
    let nv = block.ln_2.maps(a, x);
    lemma_same_norm(a, b, ts, block.ln_2, x);
    lemma_same_layer(a, b, ts, block.mlp_fc1, nv);
    lemma_same_layer(
        a,
        b,
        ts,
        block.mlp_fc2,
        map_value(block.mlp_fc1.maps(a, nv), UnaryOp::Gelu),
    );
}

/// A block computes what it did before a computation.
pub proof fn lemma_same_block<S: Scalar>(
    a: Runtime<S>,
    b: Runtime<S>,
    ts: Seq<Tensor>,
    block: TransformerBlock<S>,
    x: Value<S>,
    mask: Option<Value<S>>,
)
    requires
        grown(a, b, ts),
        all_mine(a, block.tensors()),
    ensures
        block.fits(b, x, mask) == block.fits(a, x, mask),
        block.maps(b, x, mask) == block.maps(a, x, mask),
        all_mine(b, block.tensors()),
{
    reveal(TransformerBlock::mixed);
    reveal(TransformerBlock::mixes);
    lemma_block_parts(a, block);
    lemma_all_mine(a, b, ts, block.tensors());
    lemma_same_norm(a, b, ts, block.ln_1, x);
    lemma_same_attention(a, b, ts, block.attn, block.ln_1.maps(a, x), mask);
    lemma_same_feed(a, b, ts, block, block.mixed(a, x, mask));
}

/// A block's tensors stay what they were.
pub proof fn lemma_block_kept<S: Scalar>(
    a: Runtime<S>,
    b: Runtime<S>,
    ts: Seq<Tensor>,
    block: TransformerBlock<S>,
    n_embd: usize,
    n_head: usize,
    mlp_dim: usize,
    seed: u64,
)
    requires
        grown(a, b, ts),
        block.initial(a, n_embd, n_head, mlp_dim, seed),
    ensures
        block.initial(b, n_embd, n_head, mlp_dim, seed),
{
    lemma_norm_kept(a, b, ts, block.ln_1, n_embd);
    lemma_attention_kept(a, b, ts, block.attn, n_embd, n_head, seed);
    lemma_norm_kept(a, b, ts, block.ln_2, n_embd);
    lemma_linear_kept(a, b, ts, block.mlp_fc1, n_embd, mlp_dim, (seed + 10) as u64);
    lemma_linear_kept(a, b, ts, block.mlp_fc2, mlp_dim, n_embd, (seed + 20) as u64);
}

} // verus!
