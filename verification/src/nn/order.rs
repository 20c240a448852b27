//! What the parts of the transformer are for: positions, hidden positions, scales, and what a
//! block adds to its input.
use vstd::prelude::*;
use crate::autograd::exact::{exact, lemma_add, lemma_mul};
use crate::autograd::ring::{
    cancels, invertible, lemma_cancel, lemma_inverse, lemma_mul4, rooted,
};
use crate::broadcast::law_broadcast_self;
use crate::cpu::elementwise::{zip_value, BinaryOp};
use crate::cpu::loss::{class_of, embedding_value, lemma_numel2, lemma_numel_push};
use crate::dense::Value;
use crate::fixed::Fixed;
use crate::index::{lemma_bounded_fits, lemma_offset_of_coord};
use crate::math::{lemma_index2, lemma_join2};
use crate::nn::attention::attention_scale;
use crate::nn::block::TransformerBlock;
use crate::nn::conv::zeros_value;
use crate::nn::embedding::ones_value;
use crate::nn::gpt::{block_seed, causal_value, position_value, SimpleGPT};
use crate::nn::linear::init_bound;
use crate::residue::Residue;
use crate::runtime::Runtime;
use crate::scalar::{one, zero, Constant, Scalar};

verus! {

/// Counts below `n` can be told from each other again.
pub open spec fn tells_apart<S: Scalar>(n: int) -> bool {
    forall|k: usize| k < n ==> S::index_spec(#[trigger] S::count_spec(k)) == Some(k)
}

/// Fixed-point numbers tell counts up to their range apart, residues all that they can hold.
pub proof fn law_counts_told_apart()
    ensures
        tells_apart::<Fixed>(32768),
        tells_apart::<Residue>(0x1_0000_0000),
{
    assert forall|k: usize| k < 0x1_0000_0000 implies Residue::index_spec(
        #[trigger] Residue::count_spec(k),
    ) == Some(k) by {
        reveal(crate::residue::residue);
    }
}

/// Values of one shape are combined element by element.
proof fn lemma_zip_same<S: Scalar>(a: Value<S>, b: Value<S>, op: BinaryOp, i: int)
    requires
        a.wf(),
        b.dims == a.dims,
        0 <= i < a.data.len(),
    ensures
        zip_value(a, b, op).dims == a.dims,
        zip_value(a, b, op).data.len() == a.data.len(),
        zip_value(a, b, op).data[i] == op.apply_spec(a.data[i], b.data[i]),
{
    law_broadcast_self(a.dims);
    lemma_bounded_fits(a.dims);
    lemma_offset_of_coord(i as nat, a.dims);
}

/// Every token gets the position of its column, whatever its row.
pub proof fn law_positions<S: Scalar>(b: usize, s: usize, r: int, c: int)
    requires
        tells_apart::<S>(s as int),
        0 <= r < b,
        0 <= c < s,
    ensures
        position_value::<S>(b, s).dims == seq![b, s],
        r * s + c < position_value::<S>(b, s).data.len(),
        class_of(position_value::<S>(b, s).data[r * s + c]) == c,
{
    lemma_index2(r, b as int, c, s as int);
    lemma_join2(r, c, s as int);
    assert(S::index_spec(S::count_spec(c as usize)) == Some(c as usize));
}

/// What the blocks start from: at row `r` and column `c` the row of the token in the token table,
/// and row `c` of the position table.
pub proof fn law_embedded<S: Scalar>(
    model: SimpleGPT<S>,
    rt: Runtime<S>,
    x: Value<S>,
    r: int,
    c: int,
    e: int,
)
    requires
        x.wf(),
        x.dims.len() == 2,
        model.embeds(rt, x),
        tells_apart::<S>(x.dims[1] as int),
        model.token_embedding.weight.value(rt.mem).dims[1]
            == model.position_embedding.weight.value(rt.mem).dims[1],
        0 <= r < x.dims[0],
        0 <= c < x.dims[1],
        0 <= e < model.token_embedding.weight.value(rt.mem).dims[1],
    ensures
        ({
            let tok = model.token_embedding.weight.value(rt.mem);
            let pos = model.position_embedding.weight.value(rt.mem);
            let width = tok.dims[1];
            let at = r * x.dims[1] + c;
            &&& model.embedded(rt, x).dims == seq![x.dims[0], x.dims[1], width]
            &&& at * width + e < model.embedded(rt, x).data.len()
            &&& model.embedded(rt, x).data[at * width + e] == S::add_spec(
                tok.data[class_of(x.data[at]) * width + e],
                pos.data[c * width + e],
            )
        }),
{
    reveal(SimpleGPT::embeds);
    reveal(SimpleGPT::embedded);
    let tok = model.token_embedding.weight.value(rt.mem);
    let pos = model.position_embedding.weight.value(rt.mem);
    let width = tok.dims[1];
    let (b, s) = (x.dims[0], x.dims[1]);
    let ids = position_value::<S>(b, s);
    let at = r * s + c;
    law_positions::<S>(b, s, r, c);
    assert(ids.dims =~= x.dims);
    lemma_numel2(x.dims);
    lemma_numel_push(x.dims, width);
    let t = embedding_value(x, tok);
    let p = embedding_value(ids, pos);
    lemma_index2(r, b as int, c, s as int);
    lemma_index2(at, (b * s) as int, e, width as int);
    lemma_join2(at, e, width as int);
    lemma_zip_same(t, p, BinaryOp::Add, at * width + e);
    assert(t.dims =~= seq![b, s, width]);
}

/// The mask of a sequence: a position sees itself and those before it, and those behind it are
/// hidden.
pub proof fn law_causal_mask<S: Scalar>(s: usize, i: int, j: int)
    requires
        0 <= i < s,
        0 <= j < s,
    ensures
        causal_value::<S>(s).dims == seq![s, s],
        i * s + j < causal_value::<S>(s).data.len(),
        j <= i ==> causal_value::<S>(s).data[i * s + j] == zero::<S>(),
        j > i ==> causal_value::<S>(s).data[i * s + j] == S::constant_spec(Constant::MaskFloor),
{
    lemma_index2(i, s as int, j, s as int);
    lemma_join2(i, j, s as int);
}

/// Scores are divided by the root of the width of a head, and initial weights are drawn within
/// the reciprocal of the root of the number of inputs: either factor, squared, times that number
/// is 1.
pub proof fn law_scales<S: Scalar>(n: usize)
    requires
        exact::<S>(),
        rooted(S::count_spec(n)),
        invertible(S::sqrt_spec(S::count_spec(n))),
    ensures
        ({
            let a = attention_scale::<S>(n).data[0];
            let b = init_bound::<S>(n);
            &&& S::mul_spec(S::mul_spec(a, a), S::count_spec(n)) == one::<S>()
            &&& S::mul_spec(S::mul_spec(b, b), S::count_spec(n)) == one::<S>()
        }),
{
    let root = S::sqrt_spec(S::count_spec(n));
    let a = S::div_spec(one(), root);
    lemma_inverse(one(), root);
    lemma_mul4(a, a, root, root);
    lemma_mul(one::<S>(), one(), zero());
}

/// A block adds to its input: its output less its input is what the attention over the normalised
/// input and the feed-forward layers add.
pub proof fn law_block_residual<S: Scalar>(
    block: TransformerBlock<S>,
    rt: Runtime<S>,
    x: Value<S>,
    mask: Option<Value<S>>,
    i: int,
)
    requires
        exact::<S>(),
        cancels::<S>(),
        x.wf(),
        block.attn.maps(rt, block.ln_1.maps(rt, x), mask).dims == x.dims,
        block.fed(rt, block.mixed(rt, x, mask)).dims == x.dims,
        0 <= i < x.data.len(),
    ensures
        ({
            let seen = block.attn.maps(rt, block.ln_1.maps(rt, x), mask);
            let mid = block.mixed(rt, x, mask);
            let y = block.maps(rt, x, mask);
            &&& y.dims == x.dims
            &&& mid.dims == x.dims
            &&& S::sub_spec(mid.data[i], x.data[i]) == seen.data[i]
            &&& S::sub_spec(y.data[i], x.data[i]) == S::add_spec(
                seen.data[i],
                block.fed(rt, mid).data[i],
            )
        }),
{
    reveal(TransformerBlock::mixed);
    let seen = block.attn.maps(rt, block.ln_1.maps(rt, x), mask);
    let mid = block.mixed(rt, x, mask);
    lemma_zip_same(x, seen, BinaryOp::Add, i);
    assert(mid.wf());
    lemma_zip_same(mid, block.fed(rt, mid), BinaryOp::Add, i);
    let (a, b, c) = (x.data[i], seen.data[i], block.fed(rt, mid).data[i]);
    lemma_add(a, b, c);
    lemma_add(a, b, zero());
    lemma_cancel(b, a);
    lemma_add(a, S::add_spec(b, c), zero());
    lemma_cancel(S::add_spec(b, c), a);
}

/// A fresh normalisation scales by 1 and shifts by 0: it normalises and does no more.
pub proof fn law_fresh_norm<S: Scalar>(n: usize, v: S, i: int)
    requires
        exact::<S>(),
        0 <= i < n,
    ensures
        S::add_spec(
            S::mul_spec(v, ones_value::<S>(n).data[i]),
            zeros_value::<S>(n).data[i],
        ) == v,
        ones_value::<S>(n).dims == seq![n],
        zeros_value::<S>(n).dims == seq![n],
{
    lemma_mul(v, one(), zero());
    lemma_add(v, zero(), zero());
}

/// No two blocks of a model are seeded alike, nor within the four seeds that one takes.
pub proof fn law_block_seeds(seed: u64, i: int, j: int)
    requires
        0 <= i < j,
        seed + 10 + j * 100 <= u64::MAX,
    ensures
        block_seed(seed, i) + 100 <= block_seed(seed, j),
{
}

} // verus!
