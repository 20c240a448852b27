//! What the layers start from: the draws, and how widely they spread.
use vstd::prelude::*;
use crate::autograd::exact::{exact, lemma_derived, lemma_mul};
use crate::autograd::ring::{
    cancels, invertible, lemma_cancel, lemma_inverse, lemma_mul4, rooted,
};
use crate::nn::attention::MultiHeadAttention;
use crate::nn::block::TransformerBlock;
use crate::nn::conv::Conv2d;
use crate::nn::embedding::Embedding;
use crate::nn::gpt::{block_seed, SimpleGPT};
use crate::nn::linear::{init_bound, init_data, negated, Linear};
use crate::nn::rng::{seeded, xorshift};
use crate::runtime::Runtime;
use crate::scalar::{one, zero, Constant, Scalar};

verus! {

/// A state can be recovered from the state that follows it, by shifting back three times.
pub proof fn law_state_recovered(x: u64)
    ensures
        ({
            let y = xorshift(x);
            let b = y ^ (y << 17) ^ (y << 34) ^ (y << 51);
            let c = b ^ (b >> 7) ^ (b >> 14) ^ (b >> 21) ^ (b >> 28) ^ (b >> 35) ^ (b >> 42) ^ (b
                >> 49) ^ (b >> 56) ^ (b >> 63);
            c ^ (c << 13) ^ (c << 26) ^ (c << 39) ^ (c << 52) == x
        }),
{
    let a = x ^ (x << 13);
    let b = a ^ (a >> 7);
    let y = b ^ (b << 17);
    assert(y ^ (y << 17) ^ (y << 34) ^ (y << 51) == b) by (bit_vector)
        requires
            y == b ^ (b << 17),
    ;
    assert(b ^ (b >> 7) ^ (b >> 14) ^ (b >> 21) ^ (b >> 28) ^ (b >> 35) ^ (b >> 42) ^ (b >> 49) ^ (b
        >> 56) ^ (b >> 63) == a) by (bit_vector)
        requires
            b == a ^ (a >> 7),
    ;
    assert(a ^ (a << 13) ^ (a << 26) ^ (a << 39) ^ (a << 52) == x) by (bit_vector)
        requires
            a == x ^ (x << 13),
    ;
}

/// Every seed but 0 is the state it starts from; 0 starts where one other seed does.
pub proof fn law_seeded(seed: u64)
    ensures
        seed != 0 ==> seeded(seed) == seed,
        seeded(0) == seeded(0x1234_5678_9ABC_DEF0),
{
}

/// The initial weights spread evenly about zero, and the square of the bound is the inverse of the
/// number of inputs.
pub proof fn law_init_bound<S: Scalar>(fan_in: usize)
    requires
        exact::<S>(),
        cancels::<S>(),
        invertible(S::sqrt_spec(S::count_spec(fan_in))),
        rooted(S::count_spec(fan_in)),
    ensures
        ({
            let b = init_bound::<S>(fan_in);
            S::mul_spec(S::mul_spec(b, b), S::count_spec(fan_in)) == one::<S>()
        }),
        S::add_spec(init_bound::<S>(fan_in), negated(init_bound(fan_in))) == zero::<S>(),
{
    let b = init_bound::<S>(fan_in);
    let root = S::sqrt_spec(S::count_spec(fan_in));
    lemma_inverse(b, root);
    lemma_mul4(b, b, root, root);
    lemma_mul(one::<S>(), one(), zero());
    lemma_cancel(b, b);
    lemma_mul(b, S::constant_spec(Constant::NegOne), zero());
    lemma_derived(b, b, zero());
}

/// The weights and then the biases of a linear layer are drawn one after the other, within the
/// bound of as many inputs as an output has weights.
pub proof fn law_linear_initial<S: Scalar>(
    layer: Linear,
    rt: Runtime<S>,
    in_features: usize,
    out_features: usize,
    bias: bool,
    seed: u64,
    fan_in: usize,
)
    requires
        layer.initial(rt, in_features, out_features, bias, seed),
        out_features > 0,
        layer.weight.value(rt.mem).data.len() == out_features * fan_in,
    ensures
        ({
            let w = layer.weight.value(rt.mem);
            &&& w.dims == seq![out_features, fan_in]
            &&& w.data == init_data::<S>(seed, 0, w.data.len(), fan_in)
            &&& layer.bias matches Some(b) ==> b.value(rt.mem).data == init_data::<S>(
                seed,
                w.data.len(),
                out_features as nat,
                fan_in,
            )
        }),
{
    let (o, i, f) = (out_features as int, in_features as int, fan_in as int);
    assert(i == f) by (nonlinear_arith)
        requires
            o > 0,
            o * i == o * f,
    ;
}

/// The weights and then the biases of a convolution are drawn one after the other, within the
/// bound of as many inputs as an output channel has weights.
pub proof fn law_conv_initial<S: Scalar>(
    layer: Conv2d,
    rt: Runtime<S>,
    in_channels: usize,
    out_channels: usize,
    kernel: usize,
    bias: bool,
    seed: u64,
    fan_in: usize,
)
    requires
        layer.initial(rt, in_channels, out_channels, kernel, bias, seed),
        out_channels > 0,
        in_channels * kernel * kernel == fan_in,
    ensures
        ({
            let w = layer.weight.value(rt.mem);
            &&& w.dims == seq![out_channels, in_channels, kernel, kernel]
            &&& w.data == init_data::<S>(seed, 0, out_channels as nat * fan_in as nat, fan_in)
            &&& layer.bias matches Some(b) ==> b.value(rt.mem).data == init_data::<S>(
                seed,
                w.data.len(),
                out_channels as nat,
                fan_in,
            )
        }),
{
    let (c, k) = (in_channels as int, kernel as int);
    assert(c * (k * k) == c * k * k) by (nonlinear_arith);
}

/// The rows of a table are drawn one after the other, within the bound of the length of a row.
pub proof fn law_embedding_initial<S: Scalar>(
    layer: Embedding,
    rt: Runtime<S>,
    vocab_size: usize,
    embedding_dim: usize,
    seed: u64,
    width: usize,
)
    requires
        layer.initial(rt, vocab_size, embedding_dim, seed),
        vocab_size > 0,
        layer.weight.value(rt.mem).data.len() == vocab_size * width,
    ensures
        ({
            let w = layer.weight.value(rt.mem);
            &&& w.dims == seq![vocab_size, width]
            &&& w.data == init_data::<S>(seed, 0, w.data.len(), width)
        }),
{
    let (v, d, f) = (vocab_size as int, embedding_dim as int, width as int);
    assert(d == f) by (nonlinear_arith)
        requires
            v > 0,
            v * d == v * f,
    ;
}

/// The projections of an attention keep the width, and each is drawn from the seed after that of
/// the one before.
pub proof fn law_attention_initial<S: Scalar>(
    attn: MultiHeadAttention,
    rt: Runtime<S>,
    n_embd: usize,
    n_head: usize,
    seed: u64,
    j: int,
)
    requires
        attn.initial(rt, n_embd, n_head, seed),
        0 <= j < 4,
        seed + j <= u64::MAX,
    ensures
        ({
            let layers = seq![attn.q_proj, attn.k_proj, attn.v_proj, attn.out_proj];
            let w = layers[j].weight.value(rt.mem);
            &&& w.dims == seq![n_embd, n_embd]
            &&& w.data == init_data::<S>((seed + j) as u64, 0, w.data.len(), n_embd)
            &&& layers[j].bias is Some
        }),
{
}

/// No two layers of a block are drawn from the same seed, and none but its own from the hundred
/// seeds that the block begins.
pub proof fn law_block_initial<S: Scalar>(
    block: TransformerBlock<S>,
    rt: Runtime<S>,
    n_embd: usize,
    n_head: usize,
    mlp_dim: usize,
    seed: u64,
)
    requires
        block.initial(rt, n_embd, n_head, mlp_dim, seed),
        seed + 99 <= u64::MAX,
    ensures
        block.attn.initial(rt, n_embd, n_head, seed),
        exists|a: u64, b: u64|
            {
                &&& seed + 4 <= a < b < seed + 100
                &&& #[trigger] block.mlp_fc1.initial(rt, n_embd, mlp_dim, true, a)
                &&& #[trigger] block.mlp_fc2.initial(rt, mlp_dim, n_embd, true, b)
            },
{
    assert(block.mlp_fc1.initial(rt, n_embd, mlp_dim, true, (seed + 10) as u64));
    assert(block.mlp_fc2.initial(rt, mlp_dim, n_embd, true, (seed + 20) as u64));
}

/// The tables and the head of a model are drawn from seeds that come before those of its blocks,
/// each from its own; the head has no bias.
pub proof fn law_model_initial<S: Scalar>(
    model: SimpleGPT<S>,
    rt: Runtime<S>,
    sizes: (usize, usize, usize, usize, usize, usize),
    seed: u64,
    k: int,
)
    requires
        model.initial(rt, sizes.0, sizes.1, sizes.2, sizes.3, sizes.4, sizes.5, seed),
        seed + 10 + sizes.4 * 100 <= u64::MAX,
        0 <= k < sizes.4,
    ensures
        model.blocks@.len() == sizes.4,
        model.lm_head.bias is None,
        exists|a: u64, b: u64, c: u64, d: u64|
            {
                &&& a != b && b != c && a != c
                &&& a < d && b < d && c < d
                &&& #[trigger] model.token_embedding.initial(rt, sizes.0, sizes.2, a)
                &&& #[trigger] model.position_embedding.initial(rt, sizes.1, sizes.2, b)
                &&& #[trigger] model.lm_head.initial(rt, sizes.2, sizes.0, false, c)
                &&& #[trigger] model.blocks@[k].initial(rt, sizes.2, sizes.3, sizes.5, d)
            },
{
    assert(model.token_embedding.initial(rt, sizes.0, sizes.2, seed));
    assert(model.position_embedding.initial(rt, sizes.1, sizes.2, (seed + 1) as u64));
    assert(model.lm_head.initial(rt, sizes.2, sizes.0, false, (seed + 2) as u64));
    assert(model.blocks@[k].initial(rt, sizes.2, sizes.3, sizes.5, block_seed(seed, k)));
}

} // verus!
