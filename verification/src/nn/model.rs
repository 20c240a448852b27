//! What the transformer computes, entry by entry.
use vstd::prelude::*;
use crate::autograd::exact::{exact, lemma_total_eq, total};
use crate::autograd::logistic::{exponential, law_cross_entropy, row_loss};
use crate::autograd::ring::{cancels, invertible};
use crate::cpu::elementwise::{gelu_at, map_value, UnaryOp};
use crate::cpu::loss::class_of;
use crate::cpu::matmul::{batch_dims, cols, lemma_stack_numel, rows};
use crate::cpu::reduce::{line_exp_sum, line_max, softmax_value};
use crate::dense::Value;
use crate::index::numel;
use crate::math::{lemma_index2, lemma_split2};
use crate::nn::attention::{heads, scores_value, MultiHeadAttention};
use crate::nn::block::TransformerBlock;
use crate::nn::entries::{law_attend_entry, law_heads_entry, law_linear_entry};
use crate::nn::gpt::{causal_value, stack_value, SimpleGPT};
use crate::nn::linear::Linear;
use crate::runtime::Runtime;
use crate::scalar::Scalar;
use crate::views::{reshape_value, transpose_value};

verus! {

/// A layer from `k` inputs to `n` outputs.
pub open spec fn layer_of<S: Scalar>(layer: Linear, rt: Runtime<S>, k: usize, n: usize) -> bool {
    &&& layer.weight.value(rt.mem).wf()
    &&& layer.weight.value(rt.mem).dims == seq![n, k]
    &&& layer.bias matches Some(b) ==> b.value(rt.mem).wf() && b.value(rt.mem).dims == seq![n]
}

/// Output `o` of a layer for the inputs `x(0)` to `x(k - 1)`.
pub open spec fn layer_at<S: Scalar>(
    layer: Linear,
    rt: Runtime<S>,
    k: nat,
    x: spec_fn(int) -> S,
    o: int,
) -> S {
    let w = layer.weight.value(rt.mem).data;
    let sum = total(k, |t: int| S::mul_spec(x(t), w[o * k + t]));
    match layer.bias {
        Some(b) => S::add_spec(sum, b.value(rt.mem).data[o]),
        None => sum,
    }
}

/// A layer, applied to the rows of a value.
proof fn lemma_layer<S: Scalar>(
    layer: Linear,
    rt: Runtime<S>,
    x: Value<S>,
    k: usize,
    n: usize,
    r: int,
    o: int,
)
    requires
        exact::<S>(),
        x.wf(),
        layer.fits(rt, x),
        layer_of(layer, rt, k, n),
        0 <= r < numel(batch_dims(x.dims)) * rows(x.dims) as nat,
        0 <= o < n,
    ensures
        layer.maps(rt, x).wf(),
        layer.maps(rt, x).dims == x.dims.update(x.dims.len() - 1, n),
        cols(x.dims) == k,
        0 <= r * n + o < layer.maps(rt, x).data.len(),
        layer.maps(rt, x).data[r * n + o] == layer_at(
            layer,
            rt,
            k as nat,
            |t: int| x.data[r * k + t],
            o,
        ),
{
    let w = layer.weight.value(rt.mem);
    let b = match layer.bias {
        Some(t) => Some(t.value(rt.mem)),
        None => None,
    };
    assert(b == crate::nn::linear::optional_value(layer.bias, rt));
    law_linear_entry(x, w, b, r, o);
    let f = |t: int| x.data[r * k + t];
    lemma_total_eq(
        k as nat,
        |t: int| S::mul_spec(x.data[r * k + t], w.data[o * k + t]),
        |t: int| S::mul_spec(f(t), w.data[o * k + t]),
    );
    let p = crate::perm::swap_order(2, 0, 1);
    assert(transpose_value(w, 0, 1).dims =~= seq![k, n]);
}

/// The heads of a projection: entry `e` of head `g` at position `i` of row `r` is output
/// `g * d_k + e` of the layer at that position.
pub proof fn law_projected<S: Scalar>(
    attn: MultiHeadAttention,
    rt: Runtime<S>,
    layer: Linear,
    x: Value<S>,
    r: int,
    g: int,
    i: int,
    e: int,
)
    requires
        exact::<S>(),
        x.wf(),
        x.dims.len() == 3,
        attn.n_head > 0,
        attn.n_head * attn.d_k() == attn.n_embd,
        x.dims[2] == attn.n_embd,
        layer_of(layer, rt, attn.n_embd, attn.n_embd),
        attn.projects(rt, layer, x),
        0 <= r < x.dims[0],
        0 <= g < attn.n_head,
        0 <= i < x.dims[1],
        0 <= e < attn.d_k(),
    ensures
        ({
            let (s, h, d, w) = (
                x.dims[1] as int,
                attn.n_head as int,
                attn.d_k() as int,
                attn.n_embd as int,
            );
            let y = attn.projected(rt, layer, x);
            &&& y.wf()
            &&& y.dims == seq![x.dims[0], attn.n_head, x.dims[1], attn.d_k()]
            &&& y.data[((r * h + g) * s + i) * d + e] == layer_at(
                layer,
                rt,
                w as nat,
                |t: int| x.data[(r * s + i) * w + t],
                g * d + e,
            )
        }),
{
    let (b, s, h, d, w) = (
        x.dims[0] as int,
        x.dims[1] as int,
        attn.n_head as int,
        attn.d_k() as int,
        attn.n_embd as int,
    );
    lemma_stack_numel(x.dims);
    let lead = batch_dims(x.dims);
    assert(lead =~= seq![x.dims[0]]);
    crate::index::lemma_dims1(x.dims[0]);
    lemma_index2(r, b, i, s);
    lemma_index2(g, h, e, d);
    let y = layer.maps(rt, x);
    lemma_layer(layer, rt, x, attn.n_embd, attn.n_embd, r * s + i, g * d + e);
    law_heads_entry(y, x.dims[0], x.dims[1], attn.n_head, attn.d_k(), r, g, i, e);
    lemma_head_index(r * s + i, h, g, d);
}

/// The first entry of head `g` in row `row` of `h` heads of width `d`.
proof fn lemma_head_index(row: int, h: int, g: int, d: int)
    ensures
        (row * h + g) * d == row * (h * d) + g * d,
{
    let p = row * h;
    assert((p + g) * d == p * d + g * d) by (nonlinear_arith);
    assert((row * h) * d == row * (h * d)) by (nonlinear_arith);
}

/// Multi-head attention: each head weighs the projected values by the softmax of the scores of
/// the projected queries against the projected keys.
pub proof fn law_attended<S: Scalar>(
    attn: MultiHeadAttention,
    rt: Runtime<S>,
    x: Value<S>,
    mask: Option<Value<S>>,
    r: int,
    g: int,
    i: int,
    e: int,
)
    requires
        exact::<S>(),
        x.wf(),
        x.dims.len() == 3,
        attn.fits(rt, x, mask),
        attn.n_head * attn.d_k() == attn.n_embd,
        x.dims[2] == attn.n_embd,
        layer_of(attn.q_proj, rt, attn.n_embd, attn.n_embd),
        layer_of(attn.k_proj, rt, attn.n_embd, attn.n_embd),
        layer_of(attn.v_proj, rt, attn.n_embd, attn.n_embd),
        mask matches Some(m) ==> m.wf() && m.dims == seq![x.dims[1], x.dims[1]],
        0 <= r < x.dims[0],
        0 <= g < attn.n_head,
        0 <= i < x.dims[1],
        0 <= e < attn.d_k(),
    ensures
        ({
            let (s, h, d) = (x.dims[1] as int, attn.n_head as int, attn.d_k() as int);
            let l = r * h + g;
            let q = attn.projected(rt, attn.q_proj, x);
            let k = attn.projected(rt, attn.k_proj, x);
            let v = attn.projected(rt, attn.v_proj, x);
            let weights = softmax_value(scores_value(q, k, mask, attn.d_k()), 3);
            attn.attended(rt, x, mask).data[(l * s + i) * d + e] == total(
                s as nat,
                |j: int|
                    S::mul_spec(weights.data[(l * s + i) * s + j], v.data[(l * s + j) * d + e]),
            )
        }),
{
    reveal(MultiHeadAttention::fits);
    law_projected(attn, rt, attn.q_proj, x, r, g, i, e);
    law_projected(attn, rt, attn.k_proj, x, r, g, i, e);
    law_projected(attn, rt, attn.v_proj, x, r, g, i, e);
    let q = attn.projected(rt, attn.q_proj, x);
    let k = attn.projected(rt, attn.k_proj, x);
    let v = attn.projected(rt, attn.v_proj, x);
    lemma_index2(r, x.dims[0] as int, g, attn.n_head as int);
    law_attend_entry(q, k, v, mask, r * attn.n_head + g, i, e);
}

/// The output of multi-head attention: the last projection of what the heads of a position
/// computed, one head after the other.
pub proof fn law_attention_output<S: Scalar>(
    attn: MultiHeadAttention,
    rt: Runtime<S>,
    x: Value<S>,
    mask: Option<Value<S>>,
    r: int,
    i: int,
    o: int,
)
    requires
        exact::<S>(),
        x.wf(),
        x.dims.len() == 3,
        attn.fits(rt, x, mask),
        attn.n_head * attn.d_k() == attn.n_embd,
        x.dims[2] == attn.n_embd,
        layer_of(attn.out_proj, rt, attn.n_embd, attn.n_embd),
        attn.attended(rt, x, mask).wf(),
        attn.attended(rt, x, mask).dims == seq![
            x.dims[0],
            attn.n_head,
            x.dims[1],
            attn.d_k(),
        ],
        0 <= r < x.dims[0],
        0 <= i < x.dims[1],
        0 <= o < attn.n_embd,
    ensures
        ({
            let (s, h, d, w) = (
                x.dims[1] as int,
                attn.n_head as int,
                attn.d_k() as int,
                attn.n_embd as int,
            );
            let y = attn.attended(rt, x, mask);
            &&& attn.maps(rt, x, mask).dims == x.dims
            &&& attn.maps(rt, x, mask).data[(r * s + i) * w + o] == layer_at(
                attn.out_proj,
                rt,
                w as nat,
                |t: int| y.data[((r * h + t / d) * s + i) * d + t % d],
                o,
            )
        }),
{
    reveal(MultiHeadAttention::fits);
    reveal(MultiHeadAttention::maps);
    let (b, s, h, d, w) = (
        x.dims[0] as int,
        x.dims[1] as int,
        attn.n_head as int,
        attn.d_k() as int,
        attn.n_embd as int,
    );
    let y = attn.attended(rt, x, mask);
    let z = attn.joined(rt, x, mask);
    let p = crate::perm::swap_order(4, 1, 2);
    crate::perm::lemma_swap_order(4, 1, 2);
    crate::perm::lemma_numel_permuted(y.dims, p);
    assert(z.dims =~= seq![x.dims[0], x.dims[1], attn.n_embd]);
    assert(z.wf());
    lemma_stack_numel(z.dims);
    assert(batch_dims(z.dims) =~= seq![x.dims[0]]);
    crate::index::lemma_dims1(x.dims[0]);
    lemma_index2(r, b, i, s);
    lemma_layer(attn.out_proj, rt, z, attn.n_embd, attn.n_embd, r * s + i, o);
    assert(z.dims.update(2, attn.n_embd) =~= z.dims);
    assert(x.dims =~= z.dims);
    let f = |t: int| z.data[(r * s + i) * w + t];
    let g = |t: int| y.data[((r * h + t / d) * s + i) * d + t % d];
    assert forall|t: int| 0 <= t < w implies #[trigger] f(t) == g(t) by {
        lemma_split2(t, h, d);
        lemma_joined_entry(y, x.dims[0], attn.n_head, x.dims[1], attn.d_k(), r, t / d, i, t % d);
        let c = t / d;
        let e = t % d;
        lemma_head_index(r * s + i, h, c, d);
    }
    let wd = attn.out_proj.weight.value(rt.mem).data;
    let fa = |t: int| S::mul_spec(f(t), wd[o * w + t]);
    let ga = |t: int| S::mul_spec(g(t), wd[o * w + t]);
    assert forall|t: int| 0 <= t < w implies #[trigger] fa(t) == ga(t) by {
        assert(f(t) == g(t));
    }
    lemma_total_eq(w as nat, fa, ga);
}

/// `[B, H, S, D]` as `[B, S, H, D]`
proof fn lemma_joined_entry<S>(
    y: Value<S>,
    b: usize,
    h: usize,
    s: usize,
    d: usize,
    r: int,
    g: int,
    i: int,
    e: int,
)
    requires
        y.wf(),
        y.dims == seq![b, h, s, d],
        0 <= r < b,
        0 <= g < h,
        0 <= i < s,
        0 <= e < d,
    ensures
        transpose_value(y, 1, 2).data[((r * s + i) * h + g) * d + e] == y.data[((r * h + g) * s
            + i) * d + e],
{
    law_heads_entry(y, b, h, s, d, r, i, g, e);
    assert(reshape_value(y, seq![b, h, s, d]) == y);
}

/// The feed-forward half of a block: two layers with GELU between them, over the normalised
/// input.
pub proof fn law_feed_entry<S: Scalar>(
    block: TransformerBlock<S>,
    rt: Runtime<S>,
    x: Value<S>,
    k: usize,
    hidden: usize,
    r: int,
    o: int,
)
    requires
        exact::<S>(),
        x.wf(),
        x.dims.len() >= 2,
        cols(x.dims) == k,
        block.feeds(rt, x),
        layer_of(block.mlp_fc1, rt, k, hidden),
        layer_of(block.mlp_fc2, rt, hidden, k),
        0 <= r < numel(batch_dims(x.dims)) * rows(x.dims) as nat,
        0 <= o < k,
    ensures
        ({
            let normed = block.ln_2.maps(rt, x);
            let inner = |t: int|
                gelu_at(
                    layer_at(block.mlp_fc1, rt, k as nat, |c: int| normed.data[r * k + c], t),
                );
            &&& block.fed(rt, x).dims == x.dims
            &&& block.fed(rt, x).data[r * k + o] == layer_at(
                block.mlp_fc2,
                rt,
                hidden as nat,
                inner,
                o,
            )
        }),
{
    reveal(TransformerBlock::fed);
    reveal(TransformerBlock::feeds);
    let normed = block.ln_2.maps(rt, x);
    let a = block.mlp_fc1.maps(rt, normed);
    let g = map_value(a, UnaryOp::Gelu);
    let last = x.dims.len() - 1;
    assert(normed.wf());
    let inner = |t: int|
        gelu_at(layer_at(block.mlp_fc1, rt, k as nat, |c: int| normed.data[r * k + c], t));
    if hidden > 0 {
        lemma_layer(block.mlp_fc1, rt, normed, k, hidden, r, 0);
    } else {
        lemma_layer_shape(block.mlp_fc1, rt, normed, k, hidden);
    }
    assert(a.wf() && a.dims == x.dims.update(last, hidden));
    assert(batch_dims(g.dims) =~= batch_dims(x.dims));
    lemma_layer(block.mlp_fc2, rt, g, hidden, k, r, o);
    assert(g.dims.update(last, k) =~= x.dims);
    let f = |t: int| g.data[r * hidden + t];
    let w = block.mlp_fc2.weight.value(rt.mem).data;
    let fa = |t: int| S::mul_spec(f(t), w[o * hidden + t]);
    let ga = |t: int| S::mul_spec(inner(t), w[o * hidden + t]);
    assert forall|t: int| 0 <= t < hidden implies #[trigger] fa(t) == ga(t) by {
        lemma_layer(block.mlp_fc1, rt, normed, k, hidden, r, t);
    }
    lemma_total_eq(hidden as nat, fa, ga);
}

/// The shape of what a layer computes.
proof fn lemma_layer_shape<S: Scalar>(
    layer: Linear,
    rt: Runtime<S>,
    x: Value<S>,
    k: usize,
    n: usize,
)
    requires
        x.wf(),
        layer.fits(rt, x),
        layer_of(layer, rt, k, n),
    ensures
        layer.maps(rt, x).wf(),
        layer.maps(rt, x).dims == x.dims.update(x.dims.len() - 1, n),
{
    let w = layer.weight.value(rt.mem);
    let wt = transpose_value(w, 0, 1);
    assert(wt.dims =~= seq![k, n]);
    let y = crate::cpu::matmul::matmul_value(x, wt);
    let lead = batch_dims(x.dims);
    let own = batch_dims(wt.dims);
    assert(own =~= Seq::<usize>::empty());
    assert(crate::shape::broadcasts_to(own, lead));
    crate::broadcast::law_broadcast_absorbs(own, lead);
    assert(y.dims =~= x.dims.update(x.dims.len() - 1, n));
    if let Some(t) = layer.bias {
        let b = t.value(rt.mem);
        assert forall|j: int| 0 <= j < b.dims.len() implies #[trigger] crate::shape::stretches_at(
            b.dims,
            y.dims,
            j,
        ) by {}
        assert(crate::shape::broadcasts_to(b.dims, y.dims));
        crate::broadcast::law_broadcast_absorbs(b.dims, y.dims);
    }
}

/// The blocks of a model are applied once each, in their order: without blocks the hidden states
/// are the embedded tokens, and one more block is applied to what the others computed.
pub proof fn law_blocks_in_order<S: Scalar>(
    short: SimpleGPT<S>,
    long: SimpleGPT<S>,
    block: TransformerBlock<S>,
    rt: Runtime<S>,
    x: Value<S>,
)
    requires
        long.blocks@ == short.blocks@.push(block),
        long.token_embedding == short.token_embedding,
        long.position_embedding == short.position_embedding,
    ensures
        short.blocks@.len() == 0 ==> short.hidden(rt, x) == short.embedded(rt, x),
        long.hidden(rt, x) == block.maps(
            rt,
            short.hidden(rt, x),
            Some(causal_value(x.dims[1])),
        ),
{
    reveal(SimpleGPT::hidden);
    reveal(SimpleGPT::embedded);
    let n = short.blocks@.len() as int;
    lemma_stack_prefix(
        short.blocks@,
        long.blocks@,
        n,
        rt,
        short.embedded(rt, x),
        causal_value(x.dims[1]),
    );
}

proof fn lemma_stack_prefix<S: Scalar>(
    a: Seq<TransformerBlock<S>>,
    b: Seq<TransformerBlock<S>>,
    n: int,
    rt: Runtime<S>,
    h: Value<S>,
    mask: Value<S>,
)
    requires
        0 <= n <= a.len(),
        n <= b.len(),
        forall|i: int| 0 <= i < n ==> #[trigger] a[i] == b[i],
    ensures
        stack_value(a, n, rt, h, mask) == stack_value(b, n, rt, h, mask),
    decreases n,
{
    if n > 0 {
        lemma_stack_prefix(a, b, n - 1, rt, h, mask);
        assert(a[n - 1] == b[n - 1]);
    }
}

/// The logits: for each token the last layer over its normalised hidden state.
pub proof fn law_logits_entry<S: Scalar>(
    model: SimpleGPT<S>,
    rt: Runtime<S>,
    x: Value<S>,
    vocab: usize,
    r: int,
    o: int,
)
    requires
        exact::<S>(),
        model.fits(rt, x),
        model.ln_f.maps(rt, model.hidden(rt, x)).wf(),
        x.dims[0] * x.dims[1] <= usize::MAX,
        layer_of(model.lm_head, rt, model.n_embd, vocab),
        0 <= r < x.dims[0] * x.dims[1],
        0 <= o < vocab,
    ensures
        ({
            let normed = model.ln_f.maps(rt, model.hidden(rt, x));
            let w = model.n_embd;
            &&& model.logits(rt, x).dims == seq![(x.dims[0] * x.dims[1]) as usize, vocab]
            &&& model.logits(rt, x).data[r * vocab + o] == layer_at(
                model.lm_head,
                rt,
                w as nat,
                |t: int| normed.data[r * w + t],
                o,
            )
        }),
{
    let n = (x.dims[0] * x.dims[1]) as usize;
    let z = model.rows(rt, x);
    let dims = seq![n, model.n_embd];
    assert(z.dims == dims);
    assert(z.wf());
    assert(batch_dims(z.dims) =~= Seq::<usize>::empty());
    assert(numel(batch_dims(z.dims)) == 1);
    assert(1 * n as nat == n) by (nonlinear_arith);
    lemma_layer(model.lm_head, rt, z, model.n_embd, vocab, r, o);
    assert(z.dims.update(1, vocab) =~= seq![n, vocab]);
}

/// The loss of a model: the losses of its tokens, each against its own target, add up to the loss
/// times their number.
pub proof fn law_model_loss<S: Scalar>(
    model: SimpleGPT<S>,
    rt: Runtime<S>,
    x: Value<S>,
    targets: Value<S>,
)
    requires
        exact::<S>(),
        cancels::<S>(),
        exponential::<S>(),
        model.judges(rt, x, targets),
        model.logits(rt, x).wf(),
        targets.wf(),
        invertible(S::count_spec(model.logits(rt, x).dims[0])),
        forall|b: int|
            0 <= b < model.logits(rt, x).dims[0] ==> S::ln_spec(
                S::mul_spec(
                    #[trigger] line_exp_sum(model.logits(rt, x), 1, b),
                    S::exp_spec(line_max(model.logits(rt, x), 1, b)),
                ),
            ) == S::add_spec(
                S::ln_spec(line_exp_sum(model.logits(rt, x), 1, b)),
                line_max(model.logits(rt, x), 1, b),
            ),
    ensures
        ({
            let logits = model.logits(rt, x);
            let n = logits.dims[0];
            let v = logits.dims[1] as int;
            S::mul_spec(model.loss(rt, x, targets).data[0], S::count_spec(n)) == total(
                n as nat,
                |b: int|
                    S::sub_spec(
                        S::ln_spec(
                            total(v as nat, |c: int| S::exp_spec(logits.data[b * v + c])),
                        ),
                        logits.data[b * v + class_of(targets.data[b])],
                    ),
            )
        }),
{
    let logits = model.logits(rt, x);
    let n = logits.dims[0];
    let v = logits.dims[1] as int;
    let flat = reshape_value(targets, seq![(x.dims[0] * x.dims[1]) as usize]);
    crate::index::lemma_dims1((x.dims[0] * x.dims[1]) as usize);
    law_cross_entropy(logits, flat);
    lemma_total_eq(
        n as nat,
        |b: int| row_loss(logits, flat, b),
        |b: int|
            S::sub_spec(
                S::ln_spec(total(v as nat, |c: int| S::exp_spec(logits.data[b * v + c]))),
                logits.data[b * v + class_of(targets.data[b])],
            ),
    );
}

} // verus!
