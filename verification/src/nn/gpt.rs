//! A small language model.
use vstd::prelude::*;
use crate::cpu::elementwise::{zip_ok, zip_value, BinaryOp};
use crate::cpu::loss::{cross_entropy_ok, cross_entropy_value, embedding_ok, embedding_value};
use crate::dense::Value;
use crate::forward::{metas, values};
use crate::index::{bounded, lemma_bounded_fits, lemma_dims2, numel};
use crate::nn::attention::{lemma_same_layer, lemma_split_mine};
use crate::nn::block::{
    lemma_block_kept, lemma_norm_kept, lemma_same_block, lemma_same_norm, norm_floor,
    TransformerBlock,
};
use crate::nn::embedding::{Embedding, LayerNorm};
use crate::nn::linear::Linear;
use crate::nn::module::{
    all_mine, handed_out, lemma_all_mine, lemma_first, lemma_handed_trans, lemma_mine, lemma_next,
    lemma_ready, lemma_viewable, lemma_wants, mine, plain, settle, yields, Module,
};
use crate::op::OpType;
use crate::runtime::Runtime;
use crate::scalar::{zero, Constant, Scalar};
use crate::scope::{
    affords, grown, lemma_affords, lemma_affords_less, lemma_grown_trans, lemma_spent_more,
    lemma_spent_trans, spent,
};
use crate::shape::Shape;
use crate::tensor::Tensor;
use crate::trail::{
    any_wants, drops, law_move, lemma_any_wants, lemma_join, lemma_move, lemma_once, lemma_tracks,
    part, trail, walked, wants, Move,
};
use crate::views::reshape_value;

verus! {

/// The tensors of the first `n` blocks.
pub open spec fn stack_tensors<S: Scalar>(blocks: Seq<TransformerBlock<S>>, n: int) -> Seq<Tensor>
    decreases n,
{
    if n <= 0 {
        Seq::empty()
    } else {
        stack_tensors(blocks, n - 1) + blocks[n - 1].tensors()
    }
}

/// What the first `n` blocks compute, one after the other.
pub open spec fn stack_value<S: Scalar>(
    blocks: Seq<TransformerBlock<S>>,
    n: int,
    rt: Runtime<S>,
    h: Value<S>,
    mask: Value<S>,
) -> Value<S>
    decreases n,
{
    if n <= 0 {
        h
    } else {
        blocks[n - 1].maps(rt, stack_value(blocks, n - 1, rt, h, mask), Some(mask))
    }
}

/// Every block applies to what the blocks before it compute.
pub open spec fn stack_ok<S: Scalar>(
    blocks: Seq<TransformerBlock<S>>,
    rt: Runtime<S>,
    h: Value<S>,
    mask: Value<S>,
) -> bool {
    forall|i: int|
        0 <= i < blocks.len() ==> (#[trigger] blocks[i]).fits(
            rt,
            stack_value(blocks, i, rt, h, mask),
            Some(mask),
        )
}

/// The positions `0, 1, ..., s - 1` for each of `b` rows.
pub open spec fn position_value<S: Scalar>(b: usize, s: usize) -> Value<S> {
    Value {
        dims: seq![b, s],
        data: Seq::new(b as nat * s as nat, |i: int| S::count_spec((i % s as int) as usize)),
    }
}

/// Zero on and below the diagonal, and a large negative number above it.
pub open spec fn causal_value<S: Scalar>(s: usize) -> Value<S> {
    Value {
        dims: seq![s, s],
        data: Seq::new(
            s as nat * s as nat,
            |i: int|
                if i % s as int > i / s as int {
                    S::constant_spec(Constant::MaskFloor)
                } else {
                    zero::<S>()
                },
        ),
    }
}

/// Writes the position of each column, row by row.
fn positions<S: Scalar>(b: usize, s: usize) -> (r: Vec<S>)
    requires
        b * s <= usize::MAX,
    ensures
        r@ == position_value::<S>(b, s).data,
{
    let n: usize = b * s;
    let mut out: Vec<S> = Vec::with_capacity(n);
    let mut i: usize = 0;
    while i < n
        invariant
            i <= n,
            n == b * s,
            n > 0 ==> s > 0,
            out@.len() == i,
            forall|k: int|
                0 <= k < i ==> #[trigger] out@[k] == position_value::<S>(b, s).data[k],
        decreases n - i,
    {
        assert(s > 0) by (nonlinear_arith)
            requires
                n == b * s,
                n > 0,
        ;
        out.push(S::count(i % s));
        i = i + 1;
    }
    assert(out@ =~= position_value::<S>(b, s).data);
    out
}

/// How many handles the first `n` blocks make.
pub open spec fn stack_count<S: Scalar>(
    blocks: Seq<TransformerBlock<S>>,
    n: int,
    mask: Tensor,
) -> nat
    decreases n,
{
    if n <= 0 {
        0
    } else {
        stack_count(blocks, n - 1, mask) + blocks[n - 1].count(Some(&mask))
    }
}

/// The first `n` blocks, step by step: each takes what the one before it made and gives it back.
pub open spec fn stack_moves<S: Scalar>(
    blocks: Seq<TransformerBlock<S>>,
    n: int,
    h: Tensor,
    mask: Tensor,
    outs: Seq<Tensor>,
) -> Seq<Move<S>>
    decreases n,
{
    if n <= 1 {
        blocks[0].moves(h, Some(&mask), outs)
    } else {
        let m = stack_count(blocks, n - 1, mask);
        let last = blocks[n - 1];
        let x = outs[m - 1];
        stack_moves(blocks, n - 1, h, mask, part(outs, 0, m)) + last.moves(
            x,
            Some(&mask),
            part(outs, m, last.count(Some(&mask))),
        ) + drops(seq![x])
    }
}

/// The loss, step by step: the targets in a row, and the comparison with them.
pub open spec fn loss_moves<S>(
    logits: Tensor,
    targets: Tensor,
    b: usize,
    s: usize,
    outs: Seq<Tensor>,
) -> Seq<Move<S>> {
    seq![
        Move::Reshape { x: targets, dims: seq![(b * s) as usize], out: outs[0] },
        Move::Op { op: OpType::CrossEntropy, ins: seq![logits, outs[0]], out: outs[1] },
    ] + drops(seq![outs[0]])
}

/// Writes the mask that hides later positions from earlier ones.
fn causal<S: Scalar>(s: usize) -> (r: Vec<S>)
    requires
        s * s <= usize::MAX,
    ensures
        r@ == causal_value::<S>(s).data,
{
    let n: usize = s * s;
    let mut out: Vec<S> = Vec::with_capacity(n);
    let mut i: usize = 0;
    while i < n
        invariant
            i <= n,
            n == s * s,
            out@.len() == i,
            forall|k: int| 0 <= k < i ==> #[trigger] out@[k] == causal_value::<S>(s).data[k],
        decreases n - i,
    {
        assert(s > 0) by (nonlinear_arith)
            requires
                n == s * s,
                n > 0,
        ;
        if i % s > i / s {
            out.push(S::constant(Constant::MaskFloor));
        } else {
            out.push(S::constant(Constant::Zero));
        }
        i = i + 1;
    }
    assert(out@ =~= causal_value::<S>(s).data);
    out
}

/// A simple decoder-only Generative Pretrained Transformer (GPT).
#[derive(Debug)]
pub struct SimpleGPT<S> {
    pub token_embedding: Embedding,
    pub position_embedding: Embedding,
    pub blocks: Vec<TransformerBlock<S>>,
    pub ln_f: LayerNorm<S>,
    pub lm_head: Linear,
    pub n_embd: usize,
}

/// The seed of block `i`.
pub open spec fn block_seed(seed: u64, i: int) -> u64 {
    (seed + 10 + i * 100) as u64
}

impl<S: Scalar> SimpleGPT<S> {
    /// The tensors of the model.
    pub open spec fn tensors(self) -> Seq<Tensor> {
        seq![self.token_embedding.weight] + seq![self.position_embedding.weight] + stack_tensors(
            self.blocks@,
            self.blocks@.len() as int,
        ) + self.ln_f.tensors() + self.lm_head.tensors()
    }

    /// What the blocks start from.
    #[verifier::opaque]
    pub open spec fn embedded(self, rt: Runtime<S>, x: Value<S>) -> Value<S> {
        zip_value(
            embedding_value(x, self.token_embedding.weight.value(rt.mem)),
            embedding_value(
                position_value(x.dims[0], x.dims[1]),
                self.position_embedding.weight.value(rt.mem),
            ),
            BinaryOp::Add,
        )
    }

    /// Tokens and positions can be looked up.
    #[verifier::opaque]
    pub open spec fn embeds(self, rt: Runtime<S>, x: Value<S>) -> bool {
        let tok = self.token_embedding.weight.value(rt.mem);
        let pos = self.position_embedding.weight.value(rt.mem);
        let ids = position_value(x.dims[0], x.dims[1]);
        &&& x.dims.len() >= 2
        &&& bounded(ids.dims)
        &&& embedding_ok(x, tok)
        &&& embedding_ok(ids, pos)
        &&& zip_ok(embedding_value(x, tok), embedding_value(ids, pos))
    }

    /// What the blocks end with.
    #[verifier::opaque]
    pub open spec fn hidden(self, rt: Runtime<S>, x: Value<S>) -> Value<S> {
        stack_value(
            self.blocks@,
            self.blocks@.len() as int,
            rt,
            self.embedded(rt, x),
            causal_value(x.dims[1]),
        )
    }

    /// The last hidden states, one row per token.
    pub open spec fn rows(self, rt: Runtime<S>, x: Value<S>) -> Value<S> {
        reshape_value(
            self.ln_f.maps(rt, self.hidden(rt, x)),
            seq![(x.dims[0] * x.dims[1]) as usize, self.n_embd],
        )
    }

    /// The scores of the next tokens, one row per token.
    pub open spec fn logits(self, rt: Runtime<S>, x: Value<S>) -> Value<S> {
        self.lm_head.maps(rt, self.rows(rt, x))
    }

    /// The model applies to tokens.
    pub open spec fn fits(self, rt: Runtime<S>, x: Value<S>) -> bool {
        let dims = seq![(x.dims[0] * x.dims[1]) as usize, self.n_embd];
        let normed = self.ln_f.maps(rt, self.hidden(rt, x));
        &&& x.dims.len() >= 2
        &&& bounded(seq![x.dims[0], x.dims[1]])
        &&& self.embeds(rt, x)
        &&& bounded(seq![x.dims[1], x.dims[1]])
        &&& stack_ok(self.blocks@, rt, self.embedded(rt, x), causal_value(x.dims[1]))
        &&& self.ln_f.fits(rt, self.hidden(rt, x))
        &&& bounded(dims)
        &&& numel(dims) == numel(normed.dims)
        &&& self.lm_head.fits(rt, self.rows(rt, x))
    }

    /// The loss against the targets.
    pub open spec fn loss(self, rt: Runtime<S>, x: Value<S>, targets: Value<S>) -> Value<S> {
        cross_entropy_value(
            self.logits(rt, x),
            reshape_value(targets, seq![(x.dims[0] * x.dims[1]) as usize]),
        )
    }

    /// The model can be compared with targets.
    pub open spec fn judges(self, rt: Runtime<S>, x: Value<S>, targets: Value<S>) -> bool {
        let dims = seq![(x.dims[0] * x.dims[1]) as usize];
        &&& numel(dims) == numel(targets.dims)
        &&& cross_entropy_ok(self.logits(rt, x), reshape_value(targets, dims))
    }

    /// Creates a new SimpleGPT model.
    #[must_use]
    pub fn new(
        vocab_size: usize,
        max_seq_len: usize,
        n_embd: usize,
        n_head: usize,
        n_layer: usize,
        mlp_dim: usize,
        seed: u64,
        rt: &mut Runtime<S>,
    ) -> (r: Self)
        requires
            old(rt).wf(),
            n_embd > 0,
            bounded(seq![vocab_size, n_embd]),
            bounded(seq![max_seq_len, n_embd]),
            n_layer > 0 ==> {
                &&& n_head > 0
                &&& mlp_dim > 0
                &&& n_embd % n_head == 0
                &&& bounded(seq![n_embd, n_embd])
                &&& bounded(seq![mlp_dim, n_embd])
                &&& bounded(seq![n_embd, mlp_dim])
            },
            seed + 30 + n_layer * 100 <= u64::MAX,
            affords(*old(rt), 6 + 16 * n_layer as nat),
        ensures
            final(rt).wf(),
            grown(*old(rt), *final(rt), r.tensors()),
            spent(*old(rt), *final(rt), 6 + 16 * n_layer as nat),
            r.initial(
                *final(rt),
                vocab_size,
                max_seq_len,
                n_embd,
                n_head,
                n_layer,
                mlp_dim,
                seed,
            ),
    {
        let ghost a = *rt;
        let ghost n = n_layer as nat;
        proof {
            lemma_affords_less(a, 6 + 16 * n, 1);
        }
        let token_embedding = Embedding::new(vocab_size, n_embd, seed, rt);
        let ghost b = *rt;
        let ghost u1 = seq![token_embedding.weight];
        proof {
            lemma_affords(a, b, 1, 5 + 16 * n);
            lemma_affords_less(b, 5 + 16 * n, 1);
        }
        let position_embedding = Embedding::new(max_seq_len, n_embd, seed + 1, rt);
        let ghost c = *rt;
        let ghost u2 = seq![position_embedding.weight];
        let ghost base = u1 + u2;
        proof {
            lemma_grown_trans(a, b, c, u1, u2);
            lemma_spent_trans(a, b, c, 1, 1);
            lemma_mine(b, c, u2, token_embedding.weight);
        }
        let mut blocks: Vec<TransformerBlock<S>> = Vec::with_capacity(n_layer);
        let mut i: usize = 0;
        proof {
            assert(base + stack_tensors(blocks@, 0) =~= base);
        }
        while i < n_layer
            invariant
                i <= n_layer,
                n == n_layer,
                a.wf(),
                rt.wf(),
                n_embd > 0,
                n_layer > 0 ==> {
                    &&& n_head > 0
                    &&& mlp_dim > 0
                    &&& n_embd % n_head == 0
                    &&& bounded(seq![n_embd, n_embd])
                    &&& bounded(seq![mlp_dim, n_embd])
                    &&& bounded(seq![n_embd, mlp_dim])
                },
                seed + 30 + n_layer * 100 <= u64::MAX,
                affords(a, 6 + 16 * n),
                blocks@.len() == i,
                grown(a, *rt, base + stack_tensors(blocks@, i as int)),
                spent(a, *rt, 2 + 16 * (i as nat)),
                token_embedding.initial(*rt, vocab_size, n_embd, seed),
                position_embedding.initial(*rt, max_seq_len, n_embd, (seed + 1) as u64),
                forall|k: int|
                    0 <= k < i ==> (#[trigger] blocks@[k]).initial(
                        *rt,
                        n_embd,
                        n_head,
                        mlp_dim,
                        block_seed(seed, k),
                    ),
            decreases n_layer - i,
        {
            let ghost m = *rt;
            let ghost before = blocks@;
            let ghost done = stack_tensors(before, i as int);
            proof {
                lemma_affords_less(a, 6 + 16 * n, 2 + 16 * (i as nat) + 16);
                lemma_affords(a, m, 2 + 16 * (i as nat), 16);
            }
            let block_seed: u64 = seed + 10 + (i as u64) * 100;
            let block = TransformerBlock::new(n_embd, n_head, mlp_dim, block_seed, rt);
            let ghost part = block.tensors();
            proof {
                lemma_grown_trans(a, m, *rt, base + done, part);
                lemma_spent_trans(a, m, *rt, 2 + 16 * (i as nat), 16);
                lemma_mine(m, *rt, part, token_embedding.weight);
                lemma_mine(m, *rt, part, position_embedding.weight);
                assert forall|k: int| 0 <= k < i implies (#[trigger] before[k]).initial(
                    *rt,
                    n_embd,
                    n_head,
                    mlp_dim,
                    self::block_seed(seed, k),
                ) by {
                    lemma_block_kept(
                        m,
                        *rt,
                        part,
                        before[k],
                        n_embd,
                        n_head,
                        mlp_dim,
                        self::block_seed(seed, k),
                    );
                }
            }
            blocks.push(block);
            proof {
                lemma_stack_prefix(before, blocks@, i as int);
                assert(base + done + part =~= base + (done + part));
            }
            i = i + 1;
        }
        let ghost d = *rt;
        let ghost u3 = stack_tensors(blocks@, n_layer as int);
        proof {
            lemma_affords(a, d, 2 + 16 * n, 4);
            lemma_affords_less(d, 4, 2);
        }
        let ln_f = LayerNorm::new(n_embd, S::constant(Constant::NormFloor), rt);
        let ghost e = *rt;
        let ghost u4 = ln_f.tensors();
        proof {
            lemma_grown_trans(a, d, e, base + u3, u4);
            lemma_spent_trans(a, d, e, 2 + 16 * n, 2);
            lemma_affords(a, e, 4 + 16 * n, 2);
        }
        let lm_head = Linear::new(n_embd, vocab_size, false, seed + 2, rt);
        let ghost u5 = lm_head.tensors();
        proof {
            let f = *rt;
            lemma_grown_trans(a, e, f, base + u3 + u4, u5);
            lemma_spent_trans(a, e, f, 4 + 16 * n, 2);
            lemma_norm_kept(e, f, u5, ln_f, n_embd);
            lemma_mine(d, e, u4, token_embedding.weight);
            lemma_mine(e, f, u5, token_embedding.weight);
            lemma_mine(d, e, u4, position_embedding.weight);
            lemma_mine(e, f, u5, position_embedding.weight);
            assert forall|k: int| 0 <= k < n_layer implies (#[trigger] blocks@[k]).initial(
                f,
                n_embd,
                n_head,
                mlp_dim,
                block_seed(seed, k),
            ) by {
                let bs = block_seed(seed, k);
                lemma_block_kept(d, e, u4, blocks@[k], n_embd, n_head, mlp_dim, bs);
                lemma_block_kept(e, f, u5, blocks@[k], n_embd, n_head, mlp_dim, bs);
            }
        }
        SimpleGPT { token_embedding, position_embedding, blocks, ln_f, lm_head, n_embd }
    }

    /// The model as it was made.
    pub open spec fn initial(
        self,
        rt: Runtime<S>,
        vocab_size: usize,
        max_seq_len: usize,
        n_embd: usize,
        n_head: usize,
        n_layer: usize,
        mlp_dim: usize,
        seed: u64,
    ) -> bool {
        &&& self.token_embedding.initial(rt, vocab_size, n_embd, seed)
        &&& self.position_embedding.initial(rt, max_seq_len, n_embd, (seed + 1) as u64)
        &&& self.blocks@.len() == n_layer
        &&& forall|k: int|
            0 <= k < n_layer ==> (#[trigger] self.blocks@[k]).initial(
                rt,
                n_embd,
                n_head,
                mlp_dim,
                block_seed(seed, k),
            )
        &&& self.ln_f.initial(rt, n_embd, norm_floor())
        &&& self.lm_head.initial(rt, n_embd, vocab_size, false, (seed + 2) as u64)
        &&& self.n_embd == n_embd
    }

    /// The lookups, step by step.
    #[verifier::opaque]
    pub open spec fn embed_moves(self, x: Tensor, outs: Seq<Tensor>) -> Seq<Move<S>> {
        let (tok, ids, pos) = (outs[0], outs[1], outs[2]);
        self.token_embedding.moves(x, part(outs, 0, 1)) + seq![
            Move::New { value: position_value(x.shape@[0], x.shape@[1]), out: ids },
        ] + self.position_embedding.moves(ids, part(outs, 2, 1)) + seq![
            Move::Op { op: OpType::Add, ins: seq![tok, pos], out: outs[3] },
        ] + drops(seq![tok, ids, pos])
    }

    /// How many handles everything before the last normalisation makes.
    pub open spec fn encode_count(self) -> nat {
        if self.blocks@.len() == 0 {
            4
        } else {
            5 + stack_count(self.blocks@, self.blocks@.len() as int, self.token_embedding.weight)
        }
    }

    /// Everything before the last normalisation, step by step.
    #[verifier::opaque]
    pub open spec fn encode_moves(self, x: Tensor, outs: Seq<Tensor>) -> Seq<Move<S>> {
        let n = self.blocks@.len() as int;
        if n == 0 {
            self.embed_moves(x, outs)
        } else {
            let (h, mask) = (outs[3], outs[4]);
            self.embed_moves(x, part(outs, 0, 4)) + seq![
                Move::New { value: causal_value(x.shape@[1]), out: mask },
            ] + stack_moves(
                self.blocks@,
                n,
                h,
                mask,
                part(outs, 5, stack_count(self.blocks@, n, mask)),
            ) + drops(seq![h, mask])
        }
    }

    /// How many handles the scores take.
    pub open spec fn count(self) -> nat {
        self.encode_count() + 2 + self.lm_head.count()
    }

    /// The scores, step by step: the hidden states are normalised, laid out in rows, and mapped
    /// to the vocabulary.
    #[verifier::opaque]
    pub open spec fn moves(self, x: Tensor, outs: Seq<Tensor>) -> Seq<Move<S>> {
        let n = self.encode_count();
        let (h, normed, rows) = (outs[n - 1], outs[n as int], outs[n as int + 1]);
        let dims = seq![(x.shape@[0] * x.shape@[1]) as usize, self.n_embd];
        self.encode_moves(x, part(outs, 0, n)) + self.ln_f.moves(h, part(outs, n, 1)) + seq![
            Move::Reshape { x: normed, dims, out: rows },
        ] + self.lm_head.chain(rows, part(outs, n + 2, self.lm_head.count())) + drops(
            seq![h, normed, rows],
        )
    }

    /// Looks up tokens and positions.
    #[verifier::rlimit(60)]
    fn embed(&self, x: &Tensor, rt: &mut Runtime<S>) -> (r: Tensor)
        requires
            old(rt).wf(),
            old(rt).hooks.cpu_ops,
            affords(*old(rt), 4),
            mine(*old(rt), *x),
            mine(*old(rt), self.token_embedding.weight),
            mine(*old(rt), self.position_embedding.weight),
            self.embeds(*old(rt), x.value(old(rt).mem)),
        ensures
            final(rt).wf(),
            yields(*old(rt), *final(rt), 4, r, self.embedded(*old(rt), x.value(old(rt).mem))),
            exists|outs: Seq<Tensor>|
                walked(*old(rt), *final(rt), #[trigger] self.embed_moves(*x, outs), outs, 4, r),
            wants(*final(rt), r) == (old(rt).mode.autograd_enabled && (wants(
                *old(rt),
                self.token_embedding.weight,
            ) || wants(*old(rt), self.position_embedding.weight))),
    {
        let ghost a = *rt;
        let ghost xv = x.value(a.mem);
        proof {
            reveal(SimpleGPT::embedded);
            reveal(SimpleGPT::embeds);
        }
        let b: usize = x.shape().dim(0);
        let s: usize = x.shape().dim(1);
        proof {
            lemma_affords_less(a, 4, 1);
            lemma_dims2(b, s);
            lemma_bounded_fits(seq![b, s]);
        }
        let tok = self.token_embedding.forward(x, rt);
        let ghost r1 = *rt;
        let ghost t1 = Seq::empty().push(tok);
        proof {
            lemma_first(a, r1, tok);
            lemma_affords(a, r1, 1, 3);
            lemma_affords_less(r1, 3, 1);
        }
        let dims: [usize; 2] = [b, s];
        assert(dims@ =~= seq![b, s]);
        let ids = plain(positions(b, s), Shape::new(&dims), rt);
        let ghost r2 = *rt;
        let ghost t2 = t1.push(ids);
        proof {
            lemma_next(a, r1, r2, t1, ids, 1, 1);
            assert(t1[0] == tok);
            lemma_affords(a, r2, 2, 2);
            lemma_affords_less(r2, 2, 1);
            lemma_mine(a, r2, t2, self.position_embedding.weight);
        }
        let pos = self.position_embedding.forward(&ids, rt);
        let ghost r3 = *rt;
        let ghost t3 = t2.push(pos);
        proof {
            lemma_next(a, r2, r3, t2, pos, 2, 1);
            assert(t2[0] == tok);
            lemma_affords(a, r3, 3, 1);
            assert(values(seq![tok, pos], r3.mem) =~= seq![tok.value(r3.mem), pos.value(r3.mem)]);
            lemma_ready(r3, OpType::Add, seq![tok, pos]);
        }
        let r = tok.add(&pos, rt);
        let ghost r4 = *rt;
        let ghost w1 = self.token_embedding.moves::<S>(*x, seq![tok]);
        let ghost m1 = Move::<S>::New { value: position_value(b, s), out: ids };
        let ghost w2 = self.position_embedding.moves::<S>(ids, seq![pos]);
        let ghost m2 = Move::<S>::Op { op: OpType::Add, ins: seq![tok, pos], out: r };
        let ghost way = w1.push(m1) + w2;
        let ghost old_ones = seq![tok, ids, pos];
        proof {
            lemma_next(a, r3, r4, t3, r, 3, 1);
            lemma_move(a, r1, r2, w1, m1);
            law_move(r1, m1, r2);
            lemma_join(a, r2, r3, w1.push(m1), w2);
            lemma_move(a, r3, r4, way, m2);
            law_move(r3, m2, r4);
            lemma_tracks(r3, OpType::Add, seq![tok, pos]);
        }
        let mut used: Vec<Tensor> = Vec::new();
        used.push(tok);
        used.push(ids);
        used.push(pos);
        assert(used@ =~= old_ones);
        settle(used, &r, rt, Ghost(a));
        proof {
            lemma_spent_trans(a, r4, *rt, 4, 0);
            lemma_join(a, r4, *rt, way.push(m2), drops(old_ones));
            let outs = seq![tok, ids, pos, r];
            reveal(SimpleGPT::embed_moves);
            assert(part(outs, 0, 1) =~= seq![tok]);
            assert(part(outs, 2, 1) =~= seq![pos]);
            assert(self.embed_moves(*x, outs) =~= way.push(m2) + drops(old_ones));
            assert(walked(a, *rt, self.embed_moves(*x, outs), outs, 4, r));
        }
        r
    }

    /// Runs the blocks, of which there is at least one.
    #[verifier::rlimit(60)]
    fn run_blocks(&self, h: &Tensor, mask: &Tensor, rt: &mut Runtime<S>) -> (r: Tensor)
        requires
            old(rt).wf(),
            old(rt).hooks.cpu_ops,
            self.blocks@.len() > 0,
            affords(*old(rt), 38 * self.blocks@.len()),
            mine(*old(rt), *h),
            mine(*old(rt), *mask),
            all_mine(*old(rt), stack_tensors(self.blocks@, self.blocks@.len() as int)),
            stack_ok(self.blocks@, *old(rt), h.value(old(rt).mem), mask.value(old(rt).mem)),
        ensures
            final(rt).wf(),
            yields(
                *old(rt),
                *final(rt),
                38 * self.blocks@.len(),
                r,
                stack_value(
                    self.blocks@,
                    self.blocks@.len() as int,
                    *old(rt),
                    h.value(old(rt).mem),
                    mask.value(old(rt).mem),
                ),
            ),
            exists|outs: Seq<Tensor>|
                walked(
                    *old(rt),
                    *final(rt),
                    #[trigger] stack_moves(
                        self.blocks@,
                        self.blocks@.len() as int,
                        *h,
                        *mask,
                        outs,
                    ),
                    outs,
                    stack_count(self.blocks@, self.blocks@.len() as int, *mask),
                    r,
                ),
            wants(*final(rt), r) == (old(rt).mode.autograd_enabled && (wants(*old(rt), *h) || wants(
                *old(rt),
                *mask,
            ) || any_wants(
                *old(rt),
                stack_tensors(self.blocks@, self.blocks@.len() as int),
            ))),
    {
        let ghost a = *rt;
        let ghost n = self.blocks@.len();
        let ghost hv = h.value(a.mem);
        let ghost mv = mask.value(a.mem);
        let ghost us = stack_tensors(self.blocks@, n as int);
        proof {
            lemma_affords_less(a, 38 * self.blocks@.len(), 38);
            lemma_stack_part(a, self.blocks@, n as int, 0);
            assert(self.blocks@[0].fits(a, stack_value(self.blocks@, 0, a, hv, mv), Some(mv)));
        }
        let mut r = self.blocks[0].forward(h, Some(mask), rt);
        let mut i: usize = 1;
        let ghost mut outs = choose|o: Seq<Tensor>|
            walked(
                a,
                *rt,
                #[trigger] self.blocks@[0].moves(*h, Some(mask), o),
                o,
                self.blocks@[0].count(Some(mask)),
                r,
            );
        proof {
            lemma_affords(a, *rt, 38, (38 * (n - 1)) as nat);
            reveal_with_fuel(stack_count, 2);
            reveal_with_fuel(stack_tensors, 2);
            assert(stack_tensors(self.blocks@, 1) =~= self.blocks@[0].tensors());
        }
        assert(stack_value(self.blocks@, 1, a, hv, mv) == self.blocks@[0].maps(a, hv, Some(mv)))
            by {
            reveal_with_fuel(stack_value, 2);
        }
        while i < self.blocks.len()
            invariant
                1 <= i <= n,
                n == self.blocks@.len(),
                a.wf(),
                rt.wf(),
                a.hooks.cpu_ops,
                affords(a, 38 * n),
                mine(a, *mask),
                mv == mask.value(a.mem),
                us == stack_tensors(self.blocks@, n as int),
                all_mine(a, us),
                stack_ok(self.blocks@, a, hv, mv),
                yields(a, *rt, 38 * (i as nat), r, stack_value(self.blocks@, i as int, a, hv, mv)),
                rt.mode == a.mode,
                walked(
                    a,
                    *rt,
                    stack_moves(self.blocks@, i as int, *h, *mask, outs),
                    outs,
                    stack_count(self.blocks@, i as int, *mask),
                    r,
                ),
                wants(*rt, r) == (a.mode.autograd_enabled && (wants(a, *h) || wants(a, *mask)
                    || any_wants(a, stack_tensors(self.blocks@, i as int)))),
            decreases n - i,
        {
            let ghost b = *rt;
            let ghost t1 = Seq::empty().push(r);
            let ghost sv = stack_value(self.blocks@, i as int, a, hv, mv);
            proof {
                lemma_first(a, b, r);
                lemma_affords(a, b, 38 * (i as nat), (38 * (n - i)) as nat);
                lemma_affords_less(b, (38 * (n - i)) as nat, 38);
                lemma_stack_part(a, self.blocks@, n as int, i as int);
                assert(self.blocks@[i as int].fits(a, sv, Some(mv)));
                lemma_same_block(a, b, t1, self.blocks@[i as int], sv, Some(mv));
                lemma_mine(a, b, t1, *mask);
                lemma_wants(a, b, t1, self.blocks@[i as int].tensors());
            }
            let next = self.blocks[i].forward(&r, Some(mask), rt);
            let ghost c = *rt;
            let ghost block = self.blocks@[i as int];
            let ghost before = outs;
            let ghost k = block.count(Some(mask));
            let ghost o = choose|o: Seq<Tensor>|
                walked(b, c, #[trigger] block.moves(r, Some(mask), o), o, k, next);
            let ghost w1 = stack_moves(self.blocks@, i as int, *h, *mask, before);
            let ghost w2 = block.moves(r, Some(mask), o);
            let ghost prev = r;
            proof {
                lemma_next(a, b, c, t1, next, 38 * (i as nat), 38);
                lemma_join(a, b, c, w1, w2);
            }
            let mut used: Vec<Tensor> = Vec::new();
            used.push(r);
            assert(used@ =~= seq![prev]);
            settle(used, &next, rt, Ghost(a));
            proof {
                lemma_spent_trans(a, c, *rt, (38 * (i + 1)) as nat, 0);
                lemma_affords(a, *rt, (38 * (i + 1)) as nat, (38 * (n - i - 1)) as nat);
                lemma_join(a, c, *rt, w1 + w2, drops(seq![prev]));
                outs = before + o;
                assert(part(outs, 0, before.len()) =~= before);
                assert(part(outs, before.len(), k) =~= o);
                assert(outs[before.len() - 1] == prev);
                assert(stack_moves(self.blocks@, i + 1, *h, *mask, outs) =~= w1 + w2 + drops(
                    seq![prev],
                ));
                lemma_any_wants(a, stack_tensors(self.blocks@, i as int), block.tensors());
            }
            r = next;
            i = i + 1;
        }
        r
    }

    /// Everything before the last normalisation.
    #[verifier::rlimit(60)]
    fn encode(&self, x: &Tensor, rt: &mut Runtime<S>) -> (r: Tensor)
        requires
            old(rt).wf(),
            old(rt).hooks.cpu_ops,
            affords(*old(rt), 5 + 38 * self.blocks@.len()),
            mine(*old(rt), *x),
            all_mine(*old(rt), self.tensors()),
            self.fits(*old(rt), x.value(old(rt).mem)),
        ensures
            final(rt).wf(),
            yields(
                *old(rt),
                *final(rt),
                5 + 38 * self.blocks@.len(),
                r,
                self.hidden(*old(rt), x.value(old(rt).mem)),
            ),
            exists|outs: Seq<Tensor>|
                walked(
                    *old(rt),
                    *final(rt),
                    #[trigger] self.encode_moves(*x, outs),
                    outs,
                    self.encode_count(),
                    r,
                ),
            wants(*final(rt), r) == (old(rt).mode.autograd_enabled && (wants(
                *old(rt),
                self.token_embedding.weight,
            ) || wants(*old(rt), self.position_embedding.weight) || any_wants(
                *old(rt),
                stack_tensors(self.blocks@, self.blocks@.len() as int),
            ))),
    {
        let ghost a = *rt;
        let ghost n = self.blocks@.len();
        let ghost xv = x.value(a.mem);
        let ghost us = stack_tensors(self.blocks@, n as int);
        proof {
            reveal(SimpleGPT::hidden);
            lemma_model_parts(a, *self);
            lemma_affords_less(a, 5 + 38 * self.blocks@.len(), 4);
        }
        let h = self.embed(x, rt);
        let ghost b = *rt;
        let ghost t1 = Seq::empty().push(h);
        let ghost o1 = choose|o: Seq<Tensor>|
            walked(a, b, #[trigger] self.embed_moves(*x, o), o, 4, h);
        let ghost w1 = self.embed_moves(*x, o1);
        proof {
            lemma_first(a, b, h);
        }
        if self.blocks.len() == 0 {
            proof {
                lemma_spent_more(a, b, 4, 5);
                reveal(SimpleGPT::encode_moves);
                assert(walked(a, b, self.encode_moves(*x, o1), o1, 4, h));
            }
            return h;
        }
        let s: usize = x.shape().dim(1);
        let dims: [usize; 2] = [s, s];
        proof {
            assert(dims@ =~= seq![s, s]);
            lemma_affords(a, b, 4, 1 + 38 * n);
            lemma_affords_less(b, 1 + 38 * n, 1);
            lemma_dims2(s, s);
            lemma_bounded_fits(seq![s, s]);
        }
        let mask = plain(causal(s), Shape::new(&dims), rt);
        let ghost c = *rt;
        let ghost t2 = t1.push(mask);
        proof {
            lemma_next(a, b, c, t1, mask, 4, 1);
            assert(t1[0] == h);
            lemma_affords(a, c, 5, 38 * n);
            lemma_same_stack(a, c, t2, self.blocks@, self.embedded(a, xv), causal_value(s));
            lemma_wants(a, c, t2, us);
        }
        let r = self.run_blocks(&h, &mask, rt);
        let ghost d = *rt;
        let ghost k = stack_count(self.blocks@, n as int, mask);
        let ghost o2 = choose|o: Seq<Tensor>|
            walked(c, d, #[trigger] stack_moves(self.blocks@, n as int, h, mask, o), o, k, r);
        let ghost m = Move::<S>::New { value: causal_value(s), out: mask };
        let ghost w2 = stack_moves(self.blocks@, n as int, h, mask, o2);
        let ghost old_ones = seq![h, mask];
        proof {
            lemma_next(a, c, d, t2, r, 5, 38 * n);
            lemma_move(a, b, c, w1, m);
            law_move(b, m, c);
            lemma_join(a, c, d, w1.push(m), w2);
            lemma_stack_count(self.blocks@, n as int, mask, self.token_embedding.weight);
        }
        let mut used: Vec<Tensor> = Vec::new();
        used.push(h);
        used.push(mask);
        assert(used@ =~= old_ones);
        settle(used, &r, rt, Ghost(a));
        proof {
            lemma_spent_trans(a, d, *rt, 5 + 38 * n, 0);
            lemma_join(a, d, *rt, w1.push(m) + w2, drops(old_ones));
            let outs = o1 + seq![mask] + o2;
            assert(self.encode_moves(*x, outs) =~= w1.push(m) + w2 + drops(old_ones)) by {
                reveal(SimpleGPT::encode_moves);
                assert(part(outs, 0, 4) =~= o1);
                assert(part(outs, 5, k) =~= o2);
                assert(outs[3] == h && outs[4] == mask);
            }
            assert(walked(a, *rt, self.encode_moves(*x, outs), outs, 5 + k, r));
        }
        r
    }

    /// The scores of the next tokens.
    #[verifier::rlimit(60)]
    fn score(&self, x: &Tensor, rt: &mut Runtime<S>) -> (r: Tensor)
        requires
            old(rt).wf(),
            old(rt).hooks.cpu_ops,
            affords(*old(rt), 10 + 38 * self.blocks@.len()),
            mine(*old(rt), *x),
            all_mine(*old(rt), self.tensors()),
            self.fits(*old(rt), x.value(old(rt).mem)),
        ensures
            final(rt).wf(),
            yields(
                *old(rt),
                *final(rt),
                10 + 38 * self.blocks@.len(),
                r,
                self.logits(*old(rt), x.value(old(rt).mem)),
            ),
            exists|outs: Seq<Tensor>|
                walked(
                    *old(rt),
                    *final(rt),
                    #[trigger] self.moves(*x, outs),
                    outs,
                    self.count(),
                    r,
                ),
            wants(*final(rt), r) == (old(rt).mode.autograd_enabled && any_wants(
                *old(rt),
                self.tensors(),
            )),
    {
        let ghost a = *rt;
        let ghost n = self.blocks@.len();
        let ghost xv = x.value(a.mem);
        let b: usize = x.shape().dim(0);
        let s: usize = x.shape().dim(1);
        proof {
            lemma_model_parts(a, *self);
            lemma_affords_less(a, 10 + 38 * self.blocks@.len(), 5 + 38 * n);
            lemma_dims2(b, s);
            lemma_bounded_fits(seq![b, s]);
        }
        let h = self.encode(x, rt);
        let ghost r1 = *rt;
        let ghost t1 = Seq::empty().push(h);
        proof {
            lemma_first(a, r1, h);
            lemma_affords(a, r1, 5 + 38 * n, 5);
            lemma_affords_less(r1, 5, 1);
            lemma_same_norm(a, r1, t1, self.ln_f, self.hidden(a, xv));
            lemma_wants(a, r1, t1, self.ln_f.tensors());
        }
        let normed = self.ln_f.forward(&h, rt);
        let ghost r2 = *rt;
        let ghost t2 = t1.push(normed);
        let dims: [usize; 2] = [b * s, self.n_embd];
        proof {
            lemma_next(a, r1, r2, t1, normed, 5 + 38 * n, 1);
            lemma_affords(a, r2, 6 + 38 * n, 4);
            lemma_affords_less(r2, 4, 1);
            lemma_viewable(r2, normed);
            assert(dims@ =~= seq![(b * s) as usize, self.n_embd]);
        }
        let rows = normed.reshape(Shape::new(&dims), rt);
        let ghost r3 = *rt;
        let ghost t3 = t2.push(rows);
        proof {
            lemma_next(a, r2, r3, t2, rows, 6 + 38 * n, 1);
            lemma_affords(a, r3, 7 + 38 * n, 3);
            lemma_same_layer(a, r3, t3, self.lm_head, self.rows(a, xv));
            lemma_wants(a, r3, t3, self.lm_head.tensors());
        }
        let r = self.lm_head.forward(&rows, rt);
        let ghost r4 = *rt;
        let ghost (n1, n2) = (self.encode_count(), self.lm_head.count());
        let ghost o1 = choose|o: Seq<Tensor>|
            walked(a, r1, #[trigger] self.encode_moves(*x, o), o, n1, h);
        let ghost o2 = choose|o: Seq<Tensor>|
            walked(r3, r4, #[trigger] self.lm_head.moves(rows, o), o, n2, r);
        let ghost w1 = self.encode_moves(*x, o1);
        let ghost w2 = self.ln_f.moves(h, seq![normed]);
        let ghost m = Move::<S>::Reshape { x: normed, dims: dims@, out: rows };
        let ghost w3 = self.lm_head.chain::<S>(rows, o2);
        let ghost way = (w1 + w2).push(m) + w3;
        let ghost old_ones = seq![h, normed, rows];
        proof {
            lemma_next(a, r3, r4, t3, r, 7 + 38 * n, 3);
            lemma_join(a, r1, r2, w1, w2);
            lemma_move(a, r2, r3, w1 + w2, m);
            law_move(r2, m, r3);
            lemma_join(a, r3, r4, (w1 + w2).push(m), w3);
            lemma_model_wants(a, *self);
        }
        let mut used: Vec<Tensor> = Vec::new();
        used.push(h);
        used.push(normed);
        used.push(rows);
        assert(used@ =~= old_ones);
        settle(used, &r, rt, Ghost(a));
        proof {
            lemma_spent_trans(a, r4, *rt, 10 + 38 * n, 0);
            lemma_join(a, r4, *rt, way, drops(old_ones));
            let outs = o1 + seq![normed, rows] + o2;
            assert(self.moves(*x, outs) =~= way + drops(old_ones)) by {
                reveal(SimpleGPT::moves);
                assert(part(outs, 0, n1) =~= o1);
                assert(part(outs, n1, 1) =~= seq![normed]);
                assert(part(outs, n1 + 2, n2) =~= o2);
                assert(outs[n1 - 1] == h);
                assert(outs[n1 as int] == normed && outs[n1 as int + 1] == rows);
            }
            assert(walked(a, *rt, self.moves(*x, outs), outs, self.count(), r));
        }
        r
    }

    /// Forward pass of the SimpleGPT.
    ///
    /// Returns `(logits, loss)` where `logits` has shape `[B * S, V]` and `loss` is a scalar loss
    /// tensor, computed if targets are provided.
    #[must_use]
    #[verifier::rlimit(60)]
    pub fn forward(
        &self,
        x: &Tensor,
        targets: Option<&Tensor>,
        rt: &mut Runtime<S>,
    ) -> (r: (Tensor, Option<Tensor>))
        requires
            old(rt).wf(),
            old(rt).hooks.cpu_ops,
            affords(*old(rt), 12 + 38 * self.blocks@.len()),
            mine(*old(rt), *x),
            all_mine(*old(rt), self.tensors()),
            self.fits(*old(rt), x.value(old(rt).mem)),
            targets is Some ==> mine(*old(rt), *targets->0) && self.judges(
                *old(rt),
                x.value(old(rt).mem),
                targets->0.value(old(rt).mem),
            ),
        ensures
            final(rt).wf(),
            spent(*old(rt), *final(rt), 12 + 38 * self.blocks@.len()),
            mine(*final(rt), r.0),
            r.0.value(final(rt).mem) == self.logits(*old(rt), x.value(old(rt).mem)),
            r.1 is Some == targets is Some,
            targets is None ==> grown(*old(rt), *final(rt), seq![r.0]),
            targets is Some ==> {
                &&& grown(*old(rt), *final(rt), seq![r.0, r.1->0])
                &&& mine(*final(rt), r.1->0)
                &&& r.1->0.value(final(rt).mem) == self.loss(
                    *old(rt),
                    x.value(old(rt).mem),
                    targets->0.value(old(rt).mem),
                )
            },
            targets is None ==> exists|outs: Seq<Tensor>|
                walked(
                    *old(rt),
                    *final(rt),
                    #[trigger] self.moves(*x, outs),
                    outs,
                    self.count(),
                    r.0,
                ),
            targets is Some ==> exists|outs: Seq<Tensor>, more: Seq<Tensor>|
                {
                    &&& outs.len() == self.count()
                    &&& outs.last() == r.0
                    &&& more.len() == 2
                    &&& more.last() == r.1->0
                    &&& trail(
                        *old(rt),
                        *final(rt),
                        #[trigger] self.moves(*x, outs) + #[trigger] loss_moves(
                            r.0,
                            *targets->0,
                            x.shape@[0],
                            x.shape@[1],
                            more,
                        ),
                    )
                },
            wants(*final(rt), r.0) == (old(rt).mode.autograd_enabled && any_wants(
                *old(rt),
                self.tensors(),
            )),
            targets is Some ==> wants(*final(rt), r.1->0) == wants(*final(rt), r.0),
    {
        let ghost a = *rt;
        let ghost n = self.blocks@.len();
        let ghost xv = x.value(a.mem);
        proof {
            lemma_affords_less(a, 12 + 38 * self.blocks@.len(), 10 + 38 * n);
        }
        let logits = self.score(x, rt);
        let ghost b = *rt;
        let ghost t1 = Seq::empty().push(logits);
        proof {
            lemma_first(a, b, logits);
            lemma_affords(a, b, 10 + 38 * n, 2);
            lemma_affords_less(b, 2, 1);
        }
        match targets {
            Some(targets) => {
                proof {
                    lemma_mine(a, b, t1, *targets);
                    lemma_dims2(x.shape@[0], x.shape@[1]);
                    lemma_bounded_fits(seq![x.shape@[0], x.shape@[1]]);
                }
                let loss = loss_of(&logits, targets, x.shape().dim(0), x.shape().dim(1), rt);
                proof {
                    let k = self.count();
                    let o1 = choose|o: Seq<Tensor>|
                        walked(a, b, #[trigger] self.moves(*x, o), o, k, logits);
                    let (d0, d1) = (x.shape@[0], x.shape@[1]);
                    let o2 = choose|o: Seq<Tensor>|
                        walked(
                            b,
                            *rt,
                            #[trigger] loss_moves(logits, *targets, d0, d1, o),
                            o,
                            2,
                            loss,
                        );
                    lemma_join(
                        a,
                        b,
                        *rt,
                        self.moves(*x, o1),
                        loss_moves(logits, *targets, d0, d1, o2),
                    );
                    lemma_next(a, b, *rt, t1, loss, 10 + 38 * n, 2);
                    assert(t1[0] == logits);
                    assert(t1.push(loss) =~= seq![logits, loss]);
                }
                (logits, Some(loss))
            },
            None => {
                proof {
                    lemma_spent_more(a, b, 10 + 38 * n, 12 + 38 * n);
                }
                (logits, None)
            },
        }
    }

    /// Returns all learnable parameters in the model.
    #[must_use]
    pub fn parameters(&self, rt: &mut Runtime<S>) -> (r: Vec<Tensor>)
        requires
            old(rt).wf(),
            all_mine(*old(rt), self.tensors()),
            affords(*old(rt), self.tensors().len()),
        ensures
            final(rt).wf(),
            handed_out(*old(rt), *final(rt), self.tensors(), r@),
    {
        let ghost a = *rt;
        let ghost n = self.blocks@.len() as int;
        let ghost u1 = seq![self.token_embedding.weight];
        let ghost u2 = seq![self.position_embedding.weight];
        let ghost u3 = stack_tensors(self.blocks@, n);
        let ghost u4 = self.ln_f.tensors();
        let ghost u5 = self.lm_head.tensors();
        proof {
            lemma_model_parts(a, *self);
            lemma_affords_less(a, self.tensors().len(), 1);
        }
        let mut out = self.token_embedding.parameters(rt);
        let ghost b = *rt;
        let ghost o1 = out@;
        proof {
            lemma_mine(a, b, o1, self.position_embedding.weight);
            lemma_affords_less(a, self.tensors().len(), 2);
            lemma_affords(a, b, 1, 1);
        }
        let mut more = self.position_embedding.parameters(rt);
        let ghost c = *rt;
        proof {
            assert(all_mine(a, u2));
            lemma_handed_trans(a, b, c, u1, u2, o1, more@);
        }
        out.append(&mut more);
        let mut i: usize = 0;
        let ghost base = u1 + u2;
        proof {
            assert(base + stack_tensors(self.blocks@, 0) =~= base);
            lemma_affords_less(a, self.tensors().len(), 2 + u3.len());
        }
        while i < self.blocks.len()
            invariant
                i <= n,
                n == self.blocks@.len(),
                a.wf(),
                rt.wf(),
                base.len() == 2,
                u3 == stack_tensors(self.blocks@, n),
                all_mine(a, u3),
                affords(a, 2 + u3.len()),
                handed_out(a, *rt, base + stack_tensors(self.blocks@, i as int), out@),
            decreases n - i,
        {
            let ghost m = *rt;
            let ghost o = out@;
            let ghost done = stack_tensors(self.blocks@, i as int);
            let ghost part = self.blocks@[i as int].tensors();
            proof {
                lemma_stack_part(a, self.blocks@, n, i as int);
                lemma_all_mine(a, m, o, part);
                lemma_stack_len(self.blocks@, n, i as int);
                lemma_affords(a, m, 2 + done.len(), (u3.len() - done.len()) as nat);
                lemma_affords_less(m, (u3.len() - done.len()) as nat, part.len());
            }
            let mut more = self.blocks[i].parameters(rt);
            proof {
                lemma_handed_trans(a, m, *rt, base + done, part, o, more@);
                assert(base + done + part =~= base + (done + part));
            }
            out.append(&mut more);
            i = i + 1;
        }
        let ghost d = *rt;
        let ghost o3 = out@;
        proof {
            lemma_all_mine(a, d, o3, u4);
            lemma_affords_less(a, self.tensors().len(), 2 + u3.len() + u4.len());
            lemma_affords(a, d, 2 + u3.len(), u4.len());
        }
        let mut more = self.ln_f.parameters(rt);
        let ghost e = *rt;
        proof {
            lemma_handed_trans(a, d, e, base + u3, u4, o3, more@);
            lemma_all_mine(a, e, o3 + more@, u5);
            lemma_affords(a, e, 2 + u3.len() + u4.len(), u5.len());
        }
        out.append(&mut more);
        let ghost o4 = out@;
        let mut more = self.lm_head.parameters(rt);
        proof {
            lemma_handed_trans(a, e, *rt, base + u3 + u4, u5, o4, more@);
        }
        out.append(&mut more);
        out
    }
}

/// The loss of logits against targets, one per row.
#[verifier::rlimit(60)]
fn loss_of<S: Scalar>(
    logits: &Tensor,
    targets: &Tensor,
    b: usize,
    s: usize,
    rt: &mut Runtime<S>,
) -> (r: Tensor)
    requires
        old(rt).wf(),
        old(rt).hooks.cpu_ops,
        affords(*old(rt), 2),
        mine(*old(rt), *logits),
        mine(*old(rt), *targets),
        b * s <= usize::MAX,
        numel(seq![(b * s) as usize]) == numel(targets.shape@),
        cross_entropy_ok(
            logits.value(old(rt).mem),
            reshape_value(targets.value(old(rt).mem), seq![(b * s) as usize]),
        ),
    ensures
        final(rt).wf(),
        yields(
            *old(rt),
            *final(rt),
            2,
            r,
            cross_entropy_value(
                logits.value(old(rt).mem),
                reshape_value(targets.value(old(rt).mem), seq![(b * s) as usize]),
            ),
        ),
        exists|outs: Seq<Tensor>|
            walked(
                *old(rt),
                *final(rt),
                #[trigger] loss_moves(*logits, *targets, b, s, outs),
                outs,
                2,
                r,
            ),
        wants(*final(rt), r) == (old(rt).mode.autograd_enabled && wants(*old(rt), *logits)),
{
    let ghost a = *rt;
    let dims: [usize; 1] = [b * s];
    proof {
        assert(dims@ =~= seq![(b * s) as usize]);
        crate::index::lemma_dims1((b * s) as usize);
        lemma_affords_less(a, 2, 1);
        lemma_affords_less(a, 2, 1);
        lemma_viewable(a, *targets);
    }
    let flat = targets.reshape(Shape::new(&dims), rt);
    let ghost m = *rt;
    let ghost t1 = Seq::empty().push(flat);
    proof {
        lemma_first(a, m, flat);
        lemma_affords(a, m, 1, 1);
        lemma_mine(a, m, t1, *logits);
        assert(values(seq![*logits, flat], m.mem) =~= seq![
            logits.value(m.mem),
            flat.value(m.mem),
        ]);
        lemma_ready(m, OpType::CrossEntropy, seq![*logits, flat]);
    }
    let r = logits.cross_entropy(&flat, rt);
    let ghost c = *rt;
    let ghost m1 = Move::<S>::Reshape { x: *targets, dims: dims@, out: flat };
    let ghost m2 = Move::<S>::Op { op: OpType::CrossEntropy, ins: seq![*logits, flat], out: r };
    proof {
        lemma_next(a, m, c, t1, r, 1, 1);
        lemma_once(a, m, m1);
        lemma_move(a, m, c, seq![m1], m2);
        law_move(m, m2, c);
        assert(metas(seq![*logits, flat], m.mem)[0] == logits.meta(m.mem));
        crate::index::lemma_dims1(1);
    }
    let mut used: Vec<Tensor> = Vec::new();
    used.push(flat);
    assert(used@ =~= seq![flat]);
    settle(used, &r, rt, Ghost(a));
    proof {
        lemma_spent_trans(a, c, *rt, 2, 0);
        lemma_join(a, c, *rt, seq![m1].push(m2), drops(seq![flat]));
        let outs = seq![flat, r];
        assert(loss_moves::<S>(*logits, *targets, b, s, outs) =~= seq![m1].push(m2) + drops(
            seq![flat],
        ));
        assert(walked(a, *rt, loss_moves(*logits, *targets, b, s, outs), outs, 2, r));
    }
    r
}

/// How many handles blocks make does not depend on which mask they take.
proof fn lemma_stack_count<S: Scalar>(
    blocks: Seq<TransformerBlock<S>>,
    n: int,
    mask: Tensor,
    other: Tensor,
)
    ensures
        stack_count(blocks, n, mask) == stack_count(blocks, n, other),
    decreases n,
{
    if n > 0 {
        lemma_stack_count(blocks, n - 1, mask, other);
    }
}

/// Whether a tensor of one of the parts asks for gradients.
proof fn lemma_model_wants<S: Scalar>(rt: Runtime<S>, m: SimpleGPT<S>)
    ensures
        any_wants(rt, m.tensors()) == (wants(rt, m.token_embedding.weight) || wants(
            rt,
            m.position_embedding.weight,
        ) || any_wants(rt, stack_tensors(m.blocks@, m.blocks@.len() as int)) || any_wants(
            rt,
            m.ln_f.tensors(),
        ) || any_wants(rt, m.lm_head.tensors())),
{
    let u1 = seq![m.token_embedding.weight];
    let u2 = seq![m.position_embedding.weight];
    let u3 = stack_tensors(m.blocks@, m.blocks@.len() as int);
    let u4 = m.ln_f.tensors();
    let u5 = m.lm_head.tensors();
    lemma_any_wants(rt, u1 + u2 + u3 + u4, u5);
    lemma_any_wants(rt, u1 + u2 + u3, u4);
    lemma_any_wants(rt, u1 + u2, u3);
    lemma_any_wants(rt, u1, u2);
    assert(any_wants(rt, u1) == wants(rt, u1[0])) by {
        if wants(rt, u1[0]) {
            assert(any_wants(rt, u1));
        }
    }
    assert(any_wants(rt, u2) == wants(rt, u2[0])) by {
        if wants(rt, u2[0]) {
            assert(any_wants(rt, u2));
        }
    }
}

/// The tensors of one block are among those of the stack.
pub proof fn lemma_stack_part<S: Scalar>(
    rt: Runtime<S>,
    blocks: Seq<TransformerBlock<S>>,
    n: int,
    i: int,
)
    requires
        0 <= i < n <= blocks.len(),
        all_mine(rt, stack_tensors(blocks, n)),
    ensures
        all_mine(rt, blocks[i].tensors()),
    decreases n,
{
    lemma_split_mine(rt, stack_tensors(blocks, n - 1), blocks[n - 1].tensors());
    if i < n - 1 {
        lemma_stack_part(rt, blocks, n - 1, i);
    }
}

/// The first blocks keep their tensors when another is added.
proof fn lemma_stack_prefix<S: Scalar>(
    xs: Seq<TransformerBlock<S>>,
    ys: Seq<TransformerBlock<S>>,
    n: int,
)
    requires
        0 <= n <= xs.len(),
        xs.len() <= ys.len(),
        forall|i: int| 0 <= i < n ==> xs[i] == #[trigger] ys[i],
    ensures
        stack_tensors(xs, n) == stack_tensors(ys, n),
    decreases n,
{
    if n > 0 {
        lemma_stack_prefix(xs, ys, n - 1);
        assert(xs[n - 1] == ys[n - 1]);
    }
}

/// A stack has at least as many tensors as its first blocks and the next.
proof fn lemma_stack_len<S: Scalar>(blocks: Seq<TransformerBlock<S>>, n: int, i: int)
    requires
        0 <= i < n <= blocks.len(),
    ensures
        stack_tensors(blocks, i).len() + blocks[i].tensors().len() <= stack_tensors(
            blocks,
            n,
        ).len(),
    decreases n,
{
    if i < n - 1 {
        lemma_stack_len(blocks, n - 1, i);
    }
}

/// The blocks compute what they did before a computation.
pub proof fn lemma_same_stack<S: Scalar>(
    a: Runtime<S>,
    b: Runtime<S>,
    ts: Seq<Tensor>,
    blocks: Seq<TransformerBlock<S>>,
    h: Value<S>,
    mask: Value<S>,
)
    requires
        grown(a, b, ts),
        all_mine(a, stack_tensors(blocks, blocks.len() as int)),
    ensures
        stack_ok(blocks, b, h, mask) == stack_ok(blocks, a, h, mask),
        stack_value(blocks, blocks.len() as int, b, h, mask) == stack_value(
            blocks,
            blocks.len() as int,
            a,
            h,
            mask,
        ),
        all_mine(b, stack_tensors(blocks, blocks.len() as int)),
{
    lemma_all_mine(a, b, ts, stack_tensors(blocks, blocks.len() as int));
    lemma_same_values(a, b, ts, blocks, blocks.len() as int, h, mask);
    assert forall|i: int| 0 <= i < blocks.len() implies (#[trigger] blocks[i]).fits(
        b,
        stack_value(blocks, i, b, h, mask),
        Some(mask),
    ) == blocks[i].fits(a, stack_value(blocks, i, a, h, mask), Some(mask)) by {
        lemma_same_values(a, b, ts, blocks, i, h, mask);
        lemma_stack_part(a, blocks, blocks.len() as int, i);
        lemma_same_block(a, b, ts, blocks[i], stack_value(blocks, i, a, h, mask), Some(mask));
    }
}

proof fn lemma_same_values<S: Scalar>(
    a: Runtime<S>,
    b: Runtime<S>,
    ts: Seq<Tensor>,
    blocks: Seq<TransformerBlock<S>>,
    n: int,
    h: Value<S>,
    mask: Value<S>,
)
    requires
        grown(a, b, ts),
        0 <= n <= blocks.len(),
        all_mine(a, stack_tensors(blocks, blocks.len() as int)),
    ensures
        stack_value(blocks, n, b, h, mask) == stack_value(blocks, n, a, h, mask),
    decreases n,
{
    if n > 0 {
        lemma_same_values(a, b, ts, blocks, n - 1, h, mask);
        lemma_stack_part(a, blocks, blocks.len() as int, n - 1);
        lemma_same_block(
            a,
            b,
            ts,
            blocks[n - 1],
            stack_value(blocks, n - 1, a, h, mask),
            Some(mask),
        );
    }
}

/// The tensors of the parts are among those of the model.
proof fn lemma_model_parts<S: Scalar>(rt: Runtime<S>, m: SimpleGPT<S>)
    requires
        all_mine(rt, m.tensors()),
    ensures
        mine(rt, m.token_embedding.weight),
        mine(rt, m.position_embedding.weight),
        all_mine(rt, stack_tensors(m.blocks@, m.blocks@.len() as int)),
        all_mine(rt, m.ln_f.tensors()),
        all_mine(rt, m.lm_head.tensors()),
{
    let u1 = seq![m.token_embedding.weight];
    let u2 = seq![m.position_embedding.weight];
    let u3 = stack_tensors(m.blocks@, m.blocks@.len() as int);
    let u4 = m.ln_f.tensors();
    let u5 = m.lm_head.tensors();
    lemma_split_mine(rt, u1 + u2 + u3 + u4, u5);
    lemma_split_mine(rt, u1 + u2 + u3, u4);
    lemma_split_mine(rt, u1 + u2, u3);
    lemma_split_mine(rt, u1, u2);
    assert(u1[0] == m.token_embedding.weight);
    assert(u2[0] == m.position_embedding.weight);
}

} // verus!
