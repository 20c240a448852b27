//! What the layers compute, entry by entry.
use vstd::prelude::*;
use crate::autograd::exact::{exact, lemma_total_eq, total};
use crate::cpu::elementwise::{zip_value, BinaryOp};
use crate::cpu::entries::{ends_with, law_matmul_entry, law_permute_entry, law_zip_entry};
use crate::cpu::matmul::{batch_dims, matmul_value, rows};
use crate::cpu::reduce::softmax_value;
use crate::dense::Value;
use crate::index::{
    bounded, flat, in_bounds, lemma_bounded_fits, lemma_dims1, numel, tail_flat, tail_numel,
};
use crate::math::{lemma_index2, lemma_join2, lemma_split2};
use crate::nn::attention::{
    attend_ok, attend_value, attention_scale, heads, scores_ok, scores_value,
};
use crate::nn::linear::{linear_ok, linear_value};
use crate::perm::{
    lemma_bounded_permuted, lemma_numel_permuted, lemma_swap_order, permuted, swap_order,
};
use crate::scalar::Scalar;
use crate::views::{reshape_value, transpose_value};

verus! {

/// A matrix, transposed.
pub proof fn law_matrix_transposed<S>(w: Value<S>, o: int, k: int)
    requires
        w.wf(),
        w.dims.len() == 2,
        0 <= o < w.dims[0],
        0 <= k < w.dims[1],
    ensures
        transpose_value(w, 0, 1).wf(),
        transpose_value(w, 0, 1).dims == seq![w.dims[1], w.dims[0]],
        transpose_value(w, 0, 1).data[k * w.dims[0] + o] == w.data[o * w.dims[1] + k],
{
    let p = swap_order(2, 0, 1);
    let c = seq![o as usize, k as usize];
    let d = w.dims;
    lemma_swap_order(2, 0, 1);
    assert(in_bounds(c, d));
    law_permute_entry(w, p, c);
    lemma_bounded_permuted(d, p);
    lemma_numel_permuted(d, p);
    let e = permuted(d, p);
    let b = permuted(c, p);
    assert(e =~= seq![d[1], d[0]]);
    assert(b =~= seq![k as usize, o as usize]);
    lemma_flat2(c, d);
    lemma_flat2(b, e);
}

/// A linear layer: every output is the sum of the inputs of its row, each times its weight, and
/// the bias.
pub proof fn law_linear_entry<S: Scalar>(
    x: Value<S>,
    w: Value<S>,
    b: Option<Value<S>>,
    r: int,
    o: int,
)
    requires
        exact::<S>(),
        x.wf(),
        w.wf(),
        linear_ok(x, w, b),
        b matches Some(v) ==> v.wf() && v.dims == seq![w.dims[0]],
        0 <= r < numel(batch_dims(x.dims)) * rows(x.dims) as nat,
        0 <= o < w.dims[0],
    ensures
        ({
            let (k, n) = (w.dims[1] as int, w.dims[0] as int);
            let y = linear_value(x, w, b);
            let sum = total(
                k as nat,
                |t: int| S::mul_spec(x.data[r * k + t], w.data[o * k + t]),
            );
            &&& y.wf()
            &&& y.dims == x.dims.update(x.dims.len() - 1, w.dims[0])
            &&& 0 <= r * n + o < y.data.len()
            &&& y.data[r * n + o] == match b {
                Some(v) => S::add_spec(sum, v.data[o]),
                None => sum,
            }
        }),
{
    let (k, n) = (w.dims[1] as int, w.dims[0] as int);
    let wt = transpose_value(w, 0, 1);
    let p = swap_order(2, 0, 1);
    lemma_swap_order(2, 0, 1);
    lemma_bounded_permuted(w.dims, p);
    lemma_numel_permuted(w.dims, p);
    assert(wt.dims =~= seq![w.dims[1], w.dims[0]]);
    assert(wt.wf());
    let m = rows(x.dims) as int;
    let lead = numel(batch_dims(x.dims)) as int;
    lemma_split2(r, lead, m);
    let (l, i) = (r / m, r % m);
    assert(l * m + i == r);
    law_matmul_entry(x, wt, l, i, o);
    let y = matmul_value(x, wt);
    assert(y.dims =~= x.dims.update(x.dims.len() - 1, w.dims[0]));
    let f = |t: int| S::mul_spec(x.data[(l * m + i) * k + t], wt.data[(0 * k + t) * n + o]);
    let g = |t: int| S::mul_spec(x.data[r * k + t], w.data[o * k + t]);
    assert forall|t: int| 0 <= t < k implies #[trigger] f(t) == g(t) by {
        law_matrix_transposed(w, o, t);
        assert((0 * k + t) * n + o == t * n + o) by (nonlinear_arith);
    }
    lemma_total_eq(k as nat, f, g);
    if let Some(v) = b {
        let at = r * n + o;
        assert(ends_with(y.dims, v.dims));
        law_zip_entry(y, v, BinaryOp::Add, at);
        lemma_dims1(w.dims[0]);
        lemma_join2(r, o, n);
    }
}

/// `[B, S, H * D]` as `[B, H, S, D]`: entry `e` of head `g` at position `i` of row `r` is entry
/// `g * D + e` of that position.
pub proof fn law_heads_entry<S>(
    v: Value<S>,
    b: usize,
    s: usize,
    h: usize,
    d: usize,
    r: int,
    g: int,
    i: int,
    e: int,
)
    requires
        bounded(seq![b, s, h, d]),
        v.data.len() == numel(seq![b, s, h, d]),
        0 <= r < b,
        0 <= g < h,
        0 <= i < s,
        0 <= e < d,
    ensures
        heads(v, b, s, h, d).dims == seq![b, h, s, d],
        heads(v, b, s, h, d).wf(),
        heads(v, b, s, h, d).data[((r * h + g) * s + i) * d + e] == v.data[((r * s + i) * h + g)
            * d + e],
{
    let dims = seq![b, s, h, d];
    let w = reshape_value(v, dims);
    let p = swap_order(4, 1, 2);
    let c = seq![r as usize, i as usize, g as usize, e as usize];
    lemma_swap_order(4, 1, 2);
    assert(in_bounds(c, dims));
    law_permute_entry(w, p, c);
    lemma_bounded_permuted(dims, p);
    lemma_numel_permuted(dims, p);
    let f = permuted(dims, p);
    let q = permuted(c, p);
    assert(f =~= seq![b, h, s, d]);
    assert(q =~= seq![r as usize, g as usize, i as usize, e as usize]);
    lemma_flat4(c, dims);
    lemma_flat4(q, f);
}

/// The position of a coordinate with two entries.
proof fn lemma_flat2(c: Seq<usize>, d: Seq<usize>)
    requires
        c.len() == 2,
        d.len() == 2,
    ensures
        flat(c, d) == c[0] * d[1] + c[1],
{
    assert(tail_numel(d, 2) == 1);
    assert(tail_numel(d, 1) == d[1] as nat * tail_numel(d, 2));
    assert(tail_flat(c, d, 2) == 0);
    assert(tail_flat(c, d, 1) == c[1] as nat * tail_numel(d, 2) + tail_flat(c, d, 2));
    assert(flat(c, d) == c[0] as nat * tail_numel(d, 1) + tail_flat(c, d, 1));
    assert(d[1] as nat * 1 == d[1] && c[1] as nat * 1 == c[1]) by (nonlinear_arith);
}

/// The position of a coordinate with four entries.
proof fn lemma_flat4(c: Seq<usize>, d: Seq<usize>)
    requires
        c.len() == 4,
        d.len() == 4,
    ensures
        flat(c, d) == ((c[0] * d[1] + c[1]) * d[2] + c[2]) * d[3] + c[3],
{
    let (a, b, e, f) = (c[0] as int, c[1] as int, c[2] as int, c[3] as int);
    let (x, y, z) = (d[1] as int, d[2] as int, d[3] as int);
    assert(tail_numel(d, 4) == 1);
    assert(tail_numel(d, 3) == d[3] as nat * tail_numel(d, 4));
    assert(tail_numel(d, 2) == d[2] as nat * tail_numel(d, 3));
    assert(tail_numel(d, 1) == d[1] as nat * tail_numel(d, 2));
    assert(z * 1 == z && f * 1 == f) by (nonlinear_arith);
    assert(tail_flat(c, d, 4) == 0);
    assert(tail_flat(c, d, 3) == c[3] as nat * tail_numel(d, 4) + tail_flat(c, d, 4));
    assert(tail_flat(c, d, 2) == c[2] as nat * tail_numel(d, 3) + tail_flat(c, d, 3));
    assert(tail_flat(c, d, 1) == c[1] as nat * tail_numel(d, 2) + tail_flat(c, d, 2));
    assert(flat(c, d) == c[0] as nat * tail_numel(d, 1) + tail_flat(c, d, 1));
    let yz = y * z;
    let p = a * x + b;
    assert(a * (x * yz) == (a * x) * yz) by (nonlinear_arith);
    assert((a * x + b) * yz == (a * x) * yz + b * yz) by (nonlinear_arith);
    assert(p * (y * z) == (p * y) * z) by (nonlinear_arith);
    assert((p * y + e) * z == (p * y) * z + e * z) by (nonlinear_arith);
}

/// Joining the heads undoes splitting them.
pub proof fn law_heads_joined<S>(v: Value<S>, b: usize, s: usize, h: usize, d: usize)
    requires
        bounded(seq![b, s, h, d]),
        v.data.len() == numel(seq![b, s, h, d]),
    ensures
        transpose_value(heads(v, b, s, h, d), 1, 2).data == v.data,
{
    crate::views::law_transpose_value(reshape_value(v, seq![b, s, h, d]), 1, 2);
}

/// How much a query attends to a key before the softmax: the sum of the products of their
/// entries, times the scale; and the mask, which is that of the last two axes.
pub proof fn law_scores_entry<S: Scalar>(
    q: Value<S>,
    k: Value<S>,
    mask: Option<Value<S>>,
    l: int,
    i: int,
    j: int,
)
    requires
        exact::<S>(),
        q.wf(),
        k.wf(),
        q.dims.len() == 4,
        k.dims == q.dims,
        scores_ok(q, k, mask, q.dims[3]),
        mask matches Some(m) ==> m.wf() && m.dims == seq![q.dims[2], q.dims[2]],
        0 <= l < q.dims[0] * q.dims[1],
        0 <= i < q.dims[2],
        0 <= j < q.dims[2],
    ensures
        ({
            let (s, d) = (q.dims[2] as int, q.dims[3] as int);
            let y = scores_value(q, k, mask, q.dims[3]);
            let dot = total(
                d as nat,
                |e: int| S::mul_spec(q.data[(l * s + i) * d + e], k.data[(l * s + j) * d + e]),
            );
            let scaled = S::mul_spec(dot, attention_scale::<S>(q.dims[3]).data[0]);
            &&& y.wf()
            &&& y.dims == seq![q.dims[0], q.dims[1], q.dims[2], q.dims[2]]
            &&& 0 <= (l * s + i) * s + j < y.data.len()
            &&& y.data[(l * s + i) * s + j] == match mask {
                Some(m) => S::add_spec(scaled, m.data[i * s + j]),
                None => scaled,
            }
        }),
{
    let dims = q.dims;
    let (s, d) = (dims[2] as int, dims[3] as int);
    let kt = transpose_value(k, 2, 3);
    let p = swap_order(4, 2, 3);
    lemma_swap_order(4, 2, 3);
    lemma_bounded_permuted(dims, p);
    lemma_numel_permuted(dims, p);
    let f = permuted(dims, p);
    assert(f =~= seq![dims[0], dims[1], dims[3], dims[2]]);
    let lead = batch_dims(dims);
    assert(batch_dims(kt.dims) =~= lead);
    assert(lead =~= seq![dims[0], dims[1]]);
    crate::cpu::loss::lemma_numel2(lead);
    law_matmul_entry(q, kt, l, i, j);
    let raw = matmul_value(q, kt);
    let n = q.dims[2] as int;
    assert(raw.dims =~= seq![dims[0], dims[1], dims[2], dims[2]]);
    let at = (l * s + i) * s + j;
    let a = |e: int| S::mul_spec(q.data[(l * s + i) * d + e], kt.data[(l * d + e) * s + j]);
    let b = |e: int| S::mul_spec(q.data[(l * s + i) * d + e], k.data[(l * s + j) * d + e]);
    assert forall|e: int| 0 <= e < d implies #[trigger] a(e) == b(e) by {
        lemma_split2(l, dims[0] as int, dims[1] as int);
        let (x, g) = (l / dims[1] as int, l % dims[1] as int);
        let c = seq![x as usize, g as usize, j as usize, e as usize];
        assert(in_bounds(c, dims));
        law_permute_entry(k, p, c);
        let t = permuted(c, p);
        assert(t =~= seq![x as usize, g as usize, e as usize, j as usize]);
        lemma_flat4(c, dims);
        lemma_flat4(t, f);
        assert(x * dims[1] + g == l);
    }
    lemma_total_eq(d as nat, a, b);
    let scale = attention_scale::<S>(dims[3]);
    lemma_dims1(1);
    lemma_single_scale(raw, scale, at);
    let scaled = zip_value(raw, scale, BinaryOp::Mul);
    if let Some(m) = mask {
        assert(ends_with(scaled.dims, m.dims));
        law_zip_entry(scaled, m, BinaryOp::Add, at);
        crate::cpu::loss::lemma_numel2(m.dims);
        assert(at == l * (s * s) + (i * s + j)) by (nonlinear_arith)
            requires
                at == (l * s + i) * s + j,
        ;
        lemma_index2(i, s, j, s);
        lemma_join2(l, i * s + j, s * s);
    }
}

/// One number multiplies every element.
pub(crate) proof fn lemma_single_scale<S: Scalar>(a: Value<S>, c: Value<S>, i: int)
    requires
        a.wf(),
        c.wf(),
        c.dims == seq![1usize],
        a.dims.len() > 0,
        0 <= i < a.data.len(),
    ensures
        zip_value(a, c, BinaryOp::Mul).wf(),
        zip_value(a, c, BinaryOp::Mul).dims == a.dims,
        zip_value(a, c, BinaryOp::Mul).data[i] == S::mul_spec(a.data[i], c.data[0]),
{
    let d = a.dims;
    let e = c.dims;
    assert(crate::shape::stretches_at(e, d, 0));
    assert(crate::shape::broadcasts_to(e, d));
    crate::broadcast::law_broadcast_absorbs(e, d);
    lemma_bounded_fits(d);
    lemma_bounded_fits(e);
    lemma_dims1(1);
    crate::index::lemma_offset_of_coord(i as nat, d);
    crate::index::lemma_flat_of_coord(i as nat, d);
    crate::cpu::elementwise::lemma_stretched_bound(
        e,
        d,
        crate::index::coord_of(i as nat, d),
    );
}

/// Attention: every output is the sum of the values of its head, each weighted by the softmax of
/// the scores of its query.
pub proof fn law_attend_entry<S: Scalar>(
    q: Value<S>,
    k: Value<S>,
    v: Value<S>,
    mask: Option<Value<S>>,
    l: int,
    i: int,
    e: int,
)
    requires
        exact::<S>(),
        q.wf(),
        k.wf(),
        v.wf(),
        q.dims.len() == 4,
        k.dims == q.dims,
        v.dims == q.dims,
        attend_ok(q, k, v, mask, q.dims[3]),
        mask matches Some(m) ==> m.wf() && m.dims == seq![q.dims[2], q.dims[2]],
        0 <= l < q.dims[0] * q.dims[1],
        0 <= i < q.dims[2],
        0 <= e < q.dims[3],
    ensures
        ({
            let (s, d) = (q.dims[2] as int, q.dims[3] as int);
            let weights = softmax_value(scores_value(q, k, mask, q.dims[3]), 3);
            let y = attend_value(q, k, v, mask, q.dims[3]);
            &&& y.dims == q.dims
            &&& 0 <= (l * s + i) * d + e < y.data.len()
            &&& y.data[(l * s + i) * d + e] == total(
                s as nat,
                |j: int|
                    S::mul_spec(weights.data[(l * s + i) * s + j], v.data[(l * s + j) * d + e]),
            )
        }),
{
    let dims = q.dims;
    law_scores_entry(q, k, mask, l, i, i);
    let weights = softmax_value(scores_value(q, k, mask, dims[3]), 3);
    assert(batch_dims(weights.dims) =~= batch_dims(v.dims));
    assert(batch_dims(weights.dims) =~= seq![dims[0], dims[1]]);
    crate::cpu::loss::lemma_numel2(batch_dims(weights.dims));
    law_matmul_entry(weights, v, l, i, e);
    assert(attend_value(q, k, v, mask, dims[3]).dims =~= dims);
}

} // verus!
