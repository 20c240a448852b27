//! Multi-head attention.
use vstd::prelude::*;
use crate::cpu::elementwise::{zip_ok, zip_value, BinaryOp};
use crate::cpu::matmul::{matmul_ok, matmul_value};
use crate::cpu::reduce::softmax_value;
use crate::dense::Value;
use crate::forward::values;
use crate::index::{bounded, lemma_dims1, numel};
use crate::nn::linear::Linear;
use crate::nn::module::{
    all_mine, handed_out, lemma_all_mine, lemma_first, lemma_handed_trans, lemma_mine, lemma_next,
    lemma_ready, lemma_viewable, lemma_wants, mine, plain, settle, yields, Module,
};
use crate::op::OpType;
use crate::runtime::Runtime;
use crate::scalar::{one, Constant, Scalar};
use crate::scope::{
    affords, grown, lemma_affords, lemma_affords_less, lemma_grown_trans, lemma_spent_more,
    lemma_spent_trans, spent,
};
use crate::shape::Shape;
use crate::tensor::Tensor;
use crate::trail::{
    any_wants, drops, law_move, lemma_any_wants, lemma_join, lemma_move, lemma_once, lemma_tracks,
    made, part, walked, wants, Move,
};
use crate::views::{reshape_value, transpose_value};

verus! {

/// `1 / sqrt(d_k)`
pub open spec fn attention_scale<S: Scalar>(d_k: usize) -> Value<S> {
    Value {
        dims: seq![1usize],
        data: seq![S::div_spec(one::<S>(), S::sqrt_spec(S::count_spec(d_k)))],
    }
}

/// `[B, S, H * D_k]` as `[B, H, S, D_k]`
pub open spec fn heads<S>(v: Value<S>, b: usize, s: usize, h: usize, d_k: usize) -> Value<S> {
    transpose_value(reshape_value(v, seq![b, s, h, d_k]), 1, 2)
}

/// Queries and keys can be compared.
pub open spec fn scores_ok<S: Scalar>(
    q: Value<S>,
    k: Value<S>,
    mask: Option<Value<S>>,
    d_k: usize,
) -> bool {
    let raw = matmul_value(q, transpose_value(k, 2, 3));
    let scaled = zip_value(raw, attention_scale(d_k), BinaryOp::Mul);
    &&& k.dims.len() == 4
    &&& matmul_ok(q, transpose_value(k, 2, 3))
    &&& zip_ok(raw, attention_scale(d_k))
    &&& mask is Some ==> zip_ok(scaled, mask->0)
}

/// How much each query attends to each key: `q k^T / sqrt(d_k)`, and the mask.
pub open spec fn scores_value<S: Scalar>(
    q: Value<S>,
    k: Value<S>,
    mask: Option<Value<S>>,
    d_k: usize,
) -> Value<S> {
    let scaled = zip_value(
        matmul_value(q, transpose_value(k, 2, 3)),
        attention_scale(d_k),
        BinaryOp::Mul,
    );
    match mask {
        Some(m) => zip_value(scaled, m, BinaryOp::Add),
        None => scaled,
    }
}

/// Attention can be computed.
pub open spec fn attend_ok<S: Scalar>(
    q: Value<S>,
    k: Value<S>,
    v: Value<S>,
    mask: Option<Value<S>>,
    d_k: usize,
) -> bool {
    let scores = scores_value(q, k, mask, d_k);
    &&& scores_ok(q, k, mask, d_k)
    &&& scores.dims.len() > 3
    &&& matmul_ok(softmax_value(scores, 3), v)
}

/// The values, weighted by how much each query attends to their keys.
pub open spec fn attend_value<S: Scalar>(
    q: Value<S>,
    k: Value<S>,
    v: Value<S>,
    mask: Option<Value<S>>,
    d_k: usize,
) -> Value<S> {
    matmul_value(softmax_value(scores_value(q, k, mask, d_k), 3), v)
}

/// The value of an optional mask.
pub open spec fn mask_value<S>(mask: Option<&Tensor>, rt: Runtime<S>) -> Option<Value<S>> {
    match mask {
        Some(m) => Some(m.value(rt.mem)),
        None => None,
    }
}

/// A mask asks for gradients.
pub open spec fn mask_wants<S>(rt: Runtime<S>, mask: Option<&Tensor>) -> bool {
    mask is Some && wants(rt, *mask->0)
}

/// The steps that split heads.
pub open spec fn split_moves<S>(
    t: Tensor,
    b: usize,
    s: usize,
    h: usize,
    d_k: usize,
    outs: Seq<Tensor>,
) -> Seq<Move<S>> {
    seq![
        Move::Reshape { x: t, dims: seq![b, s, h, d_k], out: outs[0] },
        Move::Transpose { x: outs[0], dim0: 1, dim1: 2, out: outs[1] },
    ] + drops(seq![outs[0]])
}

/// The steps that join heads.
pub open spec fn join_moves<S>(
    t: Tensor,
    b: usize,
    s: usize,
    d: usize,
    outs: Seq<Tensor>,
) -> Seq<Move<S>> {
    seq![
        Move::Transpose { x: t, dim0: 1, dim1: 2, out: outs[0] },
        Move::Reshape { x: outs[0], dims: seq![b, s, d], out: outs[1] },
    ] + drops(seq![outs[0]])
}

/// The steps that multiply queries by keys and scale the products.
pub open spec fn scaled_moves<S: Scalar>(
    q: Tensor,
    k: Tensor,
    d_k: usize,
    outs: Seq<Tensor>,
) -> Seq<Move<S>> {
    seq![
        Move::Transpose { x: k, dim0: 2, dim1: 3, out: outs[0] },
        Move::Op { op: OpType::Matmul, ins: seq![q, outs[0]], out: outs[1] },
        Move::New { value: attention_scale(d_k), out: outs[2] },
        Move::Op { op: OpType::Mul, ins: seq![outs[1], outs[2]], out: outs[3] },
    ] + drops(seq![outs[0], outs[1], outs[2]])
}

/// How many handles the comparison of queries with keys makes.
pub open spec fn score_count(mask: Option<&Tensor>) -> nat {
    if mask is Some {
        5
    } else {
        4
    }
}

/// The steps that compare queries with keys.
pub open spec fn score_moves<S: Scalar>(
    q: Tensor,
    k: Tensor,
    mask: Option<&Tensor>,
    d_k: usize,
    outs: Seq<Tensor>,
) -> Seq<Move<S>> {
    match mask {
        Some(m) => scaled_moves(q, k, d_k, part(outs, 0, 4)) + seq![
            Move::Op { op: OpType::Add, ins: seq![outs[3], *m], out: outs[4] },
        ] + drops(seq![outs[3]]),
        None => scaled_moves(q, k, d_k, outs),
    }
}

/// The steps of attention.
pub open spec fn attend_moves<S: Scalar>(
    q: Tensor,
    k: Tensor,
    v: Tensor,
    mask: Option<&Tensor>,
    d_k: usize,
    outs: Seq<Tensor>,
) -> Seq<Move<S>> {
    let n = score_count(mask);
    let scores = outs[n - 1];
    let probs = outs[n as int];
    score_moves(q, k, mask, d_k, part(outs, 0, n)) + seq![
        Move::Op { op: OpType::Softmax { dim: 3 }, ins: seq![scores], out: probs },
        Move::Op { op: OpType::Matmul, ins: seq![probs, v], out: outs[n as int + 1] },
    ] + drops(seq![scores, probs])
}

/// The steps of a projection that is split into heads.
pub open spec fn project_moves<S>(
    layer: Linear,
    x: Tensor,
    b: usize,
    s: usize,
    h: usize,
    d_k: usize,
    outs: Seq<Tensor>,
) -> Seq<Move<S>> {
    let n = layer.count();
    let flat = outs[n - 1];
    layer.chain(x, part(outs, 0, n)) + split_moves(flat, b, s, h, d_k, part(outs, n, 2)) + drops(
        seq![flat],
    )
}

/// Splits the last axis into heads and moves them in front of the positions.
#[verifier::rlimit(60)]
fn split_heads<S: Scalar>(
    t: &Tensor,
    b: usize,
    s: usize,
    h: usize,
    d_k: usize,
    rt: &mut Runtime<S>,
) -> (r: Tensor)
    requires
        old(rt).wf(),
        affords(*old(rt), 2),
        mine(*old(rt), *t),
        bounded(seq![b, s, h, d_k]),
        numel(seq![b, s, h, d_k]) == numel(t.shape@),
    ensures
        final(rt).wf(),
        yields(*old(rt), *final(rt), 2, r, heads(t.value(old(rt).mem), b, s, h, d_k)),
        exists|outs: Seq<Tensor>|
            walked(
                *old(rt),
                *final(rt),
                #[trigger] split_moves(*t, b, s, h, d_k, outs),
                outs,
                2,
                r,
            ),
        old(rt).mode.autograd_enabled ==> wants(*final(rt), r) == wants(*old(rt), *t),
{
    let ghost a = *rt;
    let dims: [usize; 4] = [b, s, h, d_k];
    assert(dims@ =~= seq![b, s, h, d_k]);
    proof {
        lemma_affords_less(a, 2, 1);
        lemma_viewable(a, *t);
    }
    let wide = t.reshape(Shape::new(&dims), rt);
    let ghost m = *rt;
    proof {
        lemma_affords(a, m, 1, 1);
        lemma_viewable(m, wide);
    }
    let r = wide.transpose(1, 2, rt);
    proof {
        lemma_first(a, m, wide);
        lemma_next(a, m, *rt, Seq::empty().push(wide), r, 1, 1);
    }
    let ghost c = *rt;
    let ghost m1 = Move::<S>::Reshape { x: *t, dims: seq![b, s, h, d_k], out: wide };
    let ghost m2 = Move::<S>::Transpose { x: wide, dim0: 1, dim1: 2, out: r };
    proof {
        lemma_once(a, m, m1);
        law_move(a, m1, m);
        lemma_move(a, m, c, seq![m1], m2);
        law_move(m, m2, c);
    }
    let mut used: Vec<Tensor> = Vec::new();
    used.push(wide);
    assert(used@ =~= seq![wide]);
    settle(used, &r, rt, Ghost(a));
    proof {
        lemma_spent_trans(a, c, *rt, 2, 0);
        lemma_join(a, c, *rt, seq![m1].push(m2), drops(seq![wide]));
        let outs = seq![wide, r];
        assert(split_moves::<S>(*t, b, s, h, d_k, outs) =~= seq![m1].push(m2) + drops(seq![wide]));
        assert(walked(a, *rt, split_moves(*t, b, s, h, d_k, outs), outs, 2, r));
    }
    r
}

/// Moves the heads behind the positions and joins them.
#[verifier::rlimit(60)]
fn join_heads<S: Scalar>(
    t: &Tensor,
    b: usize,
    s: usize,
    d: usize,
    rt: &mut Runtime<S>,
) -> (r: Tensor)
    requires
        old(rt).wf(),
        affords(*old(rt), 2),
        mine(*old(rt), *t),
        t.shape@.len() == 4,
        bounded(seq![b, s, d]),
        numel(seq![b, s, d]) == numel(transpose_value(t.value(old(rt).mem), 1, 2).dims),
    ensures
        final(rt).wf(),
        yields(
            *old(rt),
            *final(rt),
            2,
            r,
            reshape_value(transpose_value(t.value(old(rt).mem), 1, 2), seq![b, s, d]),
        ),
        exists|outs: Seq<Tensor>|
            walked(*old(rt), *final(rt), #[trigger] join_moves(*t, b, s, d, outs), outs, 2, r),
        old(rt).mode.autograd_enabled ==> wants(*final(rt), r) == wants(*old(rt), *t),
{
    let ghost a = *rt;
    proof {
        lemma_affords_less(a, 2, 1);
        lemma_viewable(a, *t);
    }
    let turned = t.transpose(1, 2, rt);
    let ghost m = *rt;
    let dims: [usize; 3] = [b, s, d];
    assert(dims@ =~= seq![b, s, d]);
    proof {
        lemma_affords(a, m, 1, 1);
        lemma_viewable(m, turned);
        assert(turned.shape@ == transpose_value(t.value(a.mem), 1, 2).dims);
    }
    let r = turned.reshape(Shape::new(&dims), rt);
    proof {
        lemma_first(a, m, turned);
        lemma_next(a, m, *rt, Seq::empty().push(turned), r, 1, 1);
    }
    let ghost c = *rt;
    let ghost m1 = Move::<S>::Transpose { x: *t, dim0: 1, dim1: 2, out: turned };
    let ghost m2 = Move::<S>::Reshape { x: turned, dims: seq![b, s, d], out: r };
    proof {
        lemma_once(a, m, m1);
        law_move(a, m1, m);
        lemma_move(a, m, c, seq![m1], m2);
        law_move(m, m2, c);
    }
    let mut used: Vec<Tensor> = Vec::new();
    used.push(turned);
    assert(used@ =~= seq![turned]);
    settle(used, &r, rt, Ghost(a));
    proof {
        lemma_spent_trans(a, c, *rt, 2, 0);
        lemma_join(a, c, *rt, seq![m1].push(m2), drops(seq![turned]));
        let outs = seq![turned, r];
        assert(join_moves::<S>(*t, b, s, d, outs) =~= seq![m1].push(m2) + drops(seq![turned]));
        assert(walked(a, *rt, join_moves(*t, b, s, d, outs), outs, 2, r));
    }
    r
}

/// The dot products of queries and keys, over the square root of their width.
#[verifier::rlimit(60)]
fn scaled_scores<S: Scalar>(q: &Tensor, k: &Tensor, d_k: usize, rt: &mut Runtime<S>) -> (r: Tensor)
    requires
        old(rt).wf(),
        old(rt).hooks.cpu_ops,
        affords(*old(rt), 4),
        mine(*old(rt), *q),
        mine(*old(rt), *k),
        scores_ok(q.value(old(rt).mem), k.value(old(rt).mem), None, d_k),
    ensures
        final(rt).wf(),
        yields(
            *old(rt),
            *final(rt),
            4,
            r,
            scores_value(q.value(old(rt).mem), k.value(old(rt).mem), None, d_k),
        ),
        exists|outs: Seq<Tensor>|
            walked(*old(rt), *final(rt), #[trigger] scaled_moves(*q, *k, d_k, outs), outs, 4, r),
        wants(*final(rt), r) == (old(rt).mode.autograd_enabled && (wants(*old(rt), *q) || wants(
            *old(rt),
            *k,
        ))),
{
    let ghost a = *rt;
    proof {
        lemma_affords_less(a, 4, 1);
        lemma_viewable(a, *k);
    }
    let k_t = k.transpose(2, 3, rt);
    let ghost b = *rt;
    let ghost t1 = Seq::empty().push(k_t);
    proof {
        lemma_affords(a, b, 1, 3);
        lemma_affords_less(b, 3, 1);
        lemma_first(a, b, k_t);
        lemma_mine(a, b, t1, *q);
        assert(values(seq![*q, k_t], b.mem) =~= seq![q.value(b.mem), k_t.value(b.mem)]);
        lemma_ready(b, OpType::Matmul, seq![*q, k_t]);
    }
    let raw = q.matmul(&k_t, rt);
    let ghost c = *rt;
    let ghost t2 = t1.push(raw);
    proof {
        lemma_next(a, b, c, t1, raw, 1, 1);
        lemma_affords(a, c, 2, 2);
        lemma_affords_less(c, 2, 1);
    }
    let scale = scale_tensor(d_k, rt);
    let ghost d = *rt;
    let ghost t3 = t2.push(scale);
    proof {
        lemma_next(a, c, d, t2, scale, 2, 1);
        lemma_affords(a, d, 3, 1);
        assert(t2[1] == raw);
        assert(values(seq![raw, scale], d.mem) =~= seq![raw.value(d.mem), scale.value(d.mem)]);
        lemma_ready(d, OpType::Mul, seq![raw, scale]);
    }
    let scaled = raw.mul(&scale, rt);
    let ghost e = *rt;
    let ghost m1 = Move::<S>::Transpose { x: *k, dim0: 2, dim1: 3, out: k_t };
    let ghost m2 = Move::<S>::Op { op: OpType::Matmul, ins: seq![*q, k_t], out: raw };
    let ghost m3 = Move::<S>::New { value: attention_scale(d_k), out: scale };
    let ghost m4 = Move::<S>::Op { op: OpType::Mul, ins: seq![raw, scale], out: scaled };
    let ghost way = seq![m1].push(m2).push(m3).push(m4);
    let ghost old_ones = seq![k_t, raw, scale];
    proof {
        lemma_next(a, d, e, t3, scaled, 3, 1);
        lemma_once(a, b, m1);
        law_move(a, m1, b);
        lemma_move(a, b, c, seq![m1], m2);
        law_move(b, m2, c);
        lemma_tracks(b, OpType::Matmul, seq![*q, k_t]);
        lemma_move(a, c, d, seq![m1].push(m2), m3);
        law_move(c, m3, d);
        lemma_move(a, d, e, seq![m1].push(m2).push(m3), m4);
        law_move(d, m4, e);
        lemma_tracks(d, OpType::Mul, seq![raw, scale]);
    }
    let mut used: Vec<Tensor> = Vec::new();
    used.push(k_t);
    used.push(raw);
    used.push(scale);
    assert(used@ =~= old_ones);
    settle(used, &scaled, rt, Ghost(a));
    proof {
        lemma_spent_trans(a, e, *rt, 4, 0);
        lemma_join(a, e, *rt, way, drops(old_ones));
        let outs = seq![k_t, raw, scale, scaled];
        assert(scaled_moves::<S>(*q, *k, d_k, outs) =~= way + drops(old_ones));
        assert(walked(a, *rt, scaled_moves(*q, *k, d_k, outs), outs, 4, scaled));
    }
    scaled
}

/// The factor of the scores, as a tensor.
fn scale_tensor<S: Scalar>(d_k: usize, rt: &mut Runtime<S>) -> (r: Tensor)
    requires
        old(rt).wf(),
        affords(*old(rt), 1),
    ensures
        final(rt).wf(),
        yields(*old(rt), *final(rt), 1, r, attention_scale(d_k)),
        made(*old(rt), Move::New { value: attention_scale(d_k), out: r }, *final(rt)),
        !wants(*final(rt), r),
{
    let mut data: Vec<S> = Vec::new();
    data.push(S::constant(Constant::One).div(S::count(d_k).sqrt()));
    let dims: [usize; 1] = [1];
    proof {
        lemma_dims1(1);
        assert(dims@ =~= seq![1usize]);
        assert(data@ =~= attention_scale::<S>(d_k).data);
    }
    plain(data, Shape::new(&dims), rt)
}

/// Compares queries with keys.
#[verifier::rlimit(60)]
fn score<S: Scalar>(
    q: &Tensor,
    k: &Tensor,
    mask: Option<&Tensor>,
    d_k: usize,
    rt: &mut Runtime<S>,
) -> (r: Tensor)
    requires
        old(rt).wf(),
        old(rt).hooks.cpu_ops,
        affords(*old(rt), 5),
        mine(*old(rt), *q),
        mine(*old(rt), *k),
        mask is Some ==> mine(*old(rt), *mask->0),
        scores_ok(
            q.value(old(rt).mem),
            k.value(old(rt).mem),
            mask_value(mask, *old(rt)),
            d_k,
        ),
    ensures
        final(rt).wf(),
        yields(
            *old(rt),
            *final(rt),
            5,
            r,
            scores_value(
                q.value(old(rt).mem),
                k.value(old(rt).mem),
                mask_value(mask, *old(rt)),
                d_k,
            ),
        ),
        exists|outs: Seq<Tensor>|
            walked(
                *old(rt),
                *final(rt),
                #[trigger] score_moves(*q, *k, mask, d_k, outs),
                outs,
                score_count(mask),
                r,
            ),
        wants(*final(rt), r) == (old(rt).mode.autograd_enabled && (wants(*old(rt), *q) || wants(
            *old(rt),
            *k,
        ) || mask_wants(*old(rt), mask))),
{
    let ghost a = *rt;
    proof {
        lemma_affords_less(a, 5, 4);
    }
    let scaled = scaled_scores(q, k, d_k, rt);
    let ghost b = *rt;
    let ghost t1 = Seq::empty().push(scaled);
    let ghost o1 = choose|o: Seq<Tensor>|
        walked(a, b, #[trigger] scaled_moves(*q, *k, d_k, o), o, 4, scaled);
    proof {
        lemma_affords(a, b, 4, 1);
        lemma_first(a, b, scaled);
    }
    match mask {
        Some(m) => {
            proof {
                lemma_mine(a, b, t1, *m);
                assert(values(seq![scaled, *m], b.mem) =~= seq![
                    scaled.value(b.mem),
                    m.value(b.mem),
                ]);
                lemma_ready(b, OpType::Add, seq![scaled, *m]);
            }
            let r = scaled.add(m, rt);
            let ghost c = *rt;
            let ghost way = scaled_moves::<S>(*q, *k, d_k, o1);
            let ghost m = Move::<S>::Op { op: OpType::Add, ins: seq![scaled, *m], out: r };
            proof {
                lemma_next(a, b, c, t1, r, 4, 1);
                lemma_move(a, b, c, way, m);
                law_move(b, m, c);
                lemma_tracks(b, OpType::Add, seq![scaled, *mask->0]);
            }
            let mut used: Vec<Tensor> = Vec::new();
            used.push(scaled);
            assert(used@ =~= seq![scaled]);
            settle(used, &r, rt, Ghost(a));
            proof {
                lemma_spent_trans(a, c, *rt, 5, 0);
                lemma_join(a, c, *rt, way.push(m), drops(seq![scaled]));
                let outs = o1.push(r);
                assert(part(outs, 0, 4) =~= o1);
                assert(outs[3] == scaled);
                assert(score_moves::<S>(*q, *k, mask, d_k, outs) =~= way.push(m) + drops(
                    seq![scaled],
                ));
                assert(walked(a, *rt, score_moves(*q, *k, mask, d_k, outs), outs, 5, r));
            }
            r
        },
        None => {
            proof {
                lemma_spent_more(a, b, 4, 5);
                assert(walked(a, b, score_moves(*q, *k, mask, d_k, o1), o1, 4, scaled));
            }
            scaled
        },
    }
}

/// Weights the values by how much the queries attend to the keys.
#[verifier::rlimit(60)]
fn attend<S: Scalar>(
    q: &Tensor,
    k: &Tensor,
    v: &Tensor,
    mask: Option<&Tensor>,
    d_k: usize,
    rt: &mut Runtime<S>,
) -> (r: Tensor)
    requires
        old(rt).wf(),
        old(rt).hooks.cpu_ops,
        affords(*old(rt), 7),
        mine(*old(rt), *q),
        mine(*old(rt), *k),
        mine(*old(rt), *v),
        mask is Some ==> mine(*old(rt), *mask->0),
        attend_ok(
            q.value(old(rt).mem),
            k.value(old(rt).mem),
            v.value(old(rt).mem),
            mask_value(mask, *old(rt)),
            d_k,
        ),
    ensures
        final(rt).wf(),
        yields(
            *old(rt),
            *final(rt),
            7,
            r,
            attend_value(
                q.value(old(rt).mem),
                k.value(old(rt).mem),
                v.value(old(rt).mem),
                mask_value(mask, *old(rt)),
                d_k,
            ),
        ),
        exists|outs: Seq<Tensor>|
            walked(
                *old(rt),
                *final(rt),
                #[trigger] attend_moves(*q, *k, *v, mask, d_k, outs),
                outs,
                score_count(mask) + 2,
                r,
            ),
        wants(*final(rt), r) == (old(rt).mode.autograd_enabled && (wants(*old(rt), *q) || wants(
            *old(rt),
            *k,
        ) || mask_wants(*old(rt), mask) || wants(*old(rt), *v))),
{
    let ghost a = *rt;
    let ghost n = score_count(mask);
    proof {
        lemma_affords_less(a, 7, 5);
    }
    let scores = score(q, k, mask, d_k, rt);
    let ghost b = *rt;
    proof {
        lemma_affords(a, b, 5, 2);
        lemma_affords_less(b, 2, 1);
        lemma_first(a, b, scores);
        assert(values(seq![scores], b.mem) =~= seq![scores.value(b.mem)]);
        lemma_ready(b, OpType::Softmax { dim: 3 }, seq![scores]);
    }
    let probs = scores.softmax(3, rt);
    let ghost c = *rt;
    proof {
        let ts = Seq::empty().push(scores);
        lemma_next(a, b, c, ts, probs, 5, 1);
        lemma_affords(a, c, 6, 1);
        lemma_mine(a, c, ts.push(probs), *v);
        assert(values(seq![probs, *v], c.mem) =~= seq![probs.value(c.mem), v.value(c.mem)]);
        lemma_ready(c, OpType::Matmul, seq![probs, *v]);
    }
    let r = probs.matmul(v, rt);
    let ghost d = *rt;
    let ghost o1 = choose|o: Seq<Tensor>|
        walked(a, b, #[trigger] score_moves(*q, *k, mask, d_k, o), o, n, scores);
    let ghost way = score_moves::<S>(*q, *k, mask, d_k, o1);
    let ghost m1 = Move::<S>::Op { op: OpType::Softmax { dim: 3 }, ins: seq![scores], out: probs };
    let ghost m2 = Move::<S>::Op { op: OpType::Matmul, ins: seq![probs, *v], out: r };
    let ghost old_ones = seq![scores, probs];
    proof {
        lemma_next(a, c, d, Seq::empty().push(scores).push(probs), r, 6, 1);
        lemma_move(a, b, c, way, m1);
        law_move(b, m1, c);
        lemma_tracks(b, OpType::Softmax { dim: 3 }, seq![scores]);
        lemma_move(a, c, d, way.push(m1), m2);
        law_move(c, m2, d);
        lemma_tracks(c, OpType::Matmul, seq![probs, *v]);
    }
    let mut used: Vec<Tensor> = Vec::new();
    used.push(scores);
    used.push(probs);
    assert(used@ =~= old_ones);
    settle(used, &r, rt, Ghost(a));
    proof {
        lemma_spent_trans(a, d, *rt, 7, 0);
        lemma_join(a, d, *rt, way.push(m1).push(m2), drops(old_ones));
        let outs = o1.push(probs).push(r);
        assert(part(outs, 0, n) =~= o1);
        assert(outs[n - 1] == scores);
        assert(attend_moves::<S>(*q, *k, *v, mask, d_k, outs) =~= way.push(m1).push(m2) + drops(
            old_ones,
        ));
        assert(walked(a, *rt, attend_moves(*q, *k, *v, mask, d_k, outs), outs, n + 2, r));
    }
    r
}

/// Projects a tensor and splits it into heads.
#[verifier::rlimit(60)]
fn project<S: Scalar>(
    layer: &Linear,
    x: &Tensor,
    b: usize,
    s: usize,
    h: usize,
    d_k: usize,
    rt: &mut Runtime<S>,
) -> (r: Tensor)
    requires
        old(rt).wf(),
        old(rt).hooks.cpu_ops,
        affords(*old(rt), 5),
        mine(*old(rt), *x),
        all_mine(*old(rt), layer.tensors()),
        layer.fits(*old(rt), x.value(old(rt).mem)),
        bounded(seq![b, s, h, d_k]),
        numel(seq![b, s, h, d_k]) == numel(layer.maps(*old(rt), x.value(old(rt).mem)).dims),
    ensures
        final(rt).wf(),
        yields(
            *old(rt),
            *final(rt),
            5,
            r,
            heads(layer.maps(*old(rt), x.value(old(rt).mem)), b, s, h, d_k),
        ),
        exists|outs: Seq<Tensor>|
            walked(
                *old(rt),
                *final(rt),
                #[trigger] project_moves(*layer, *x, b, s, h, d_k, outs),
                outs,
                layer.count() + 2,
                r,
            ),
        old(rt).mode.autograd_enabled ==> wants(*final(rt), r) == (wants(*old(rt), *x) || any_wants(
            *old(rt),
            layer.tensors(),
        )),
{
    let ghost a = *rt;
    let ghost n = layer.count();
    proof {
        lemma_affords_less(a, 5, 3);
    }
    let flat = layer.forward(x, rt);
    let ghost m = *rt;
    proof {
        lemma_affords(a, m, 3, 2);
        lemma_first(a, m, flat);
    }
    let r = split_heads(&flat, b, s, h, d_k, rt);
    let ghost c = *rt;
    let ghost o1 = choose|o: Seq<Tensor>|
        walked(a, m, #[trigger] layer.moves(*x, o), o, n, flat);
    let ghost o2 = choose|o: Seq<Tensor>|
        walked(m, c, #[trigger] split_moves(flat, b, s, h, d_k, o), o, 2, r);
    let ghost w1 = layer.chain::<S>(*x, o1);
    let ghost w2 = split_moves::<S>(flat, b, s, h, d_k, o2);
    proof {
        lemma_next(a, m, c, Seq::empty().push(flat), r, 3, 2);
        lemma_join(a, m, c, w1, w2);
    }
    let mut used: Vec<Tensor> = Vec::new();
    used.push(flat);
    assert(used@ =~= seq![flat]);
    settle(used, &r, rt, Ghost(a));
    proof {
        lemma_spent_trans(a, c, *rt, 5, 0);
        lemma_join(a, c, *rt, w1 + w2, drops(seq![flat]));
        let outs = o1 + o2;
        assert(part(outs, 0, n) =~= o1);
        assert(part(outs, n, 2) =~= o2);
        assert(outs[n - 1] == flat);
        assert(project_moves::<S>(*layer, *x, b, s, h, d_k, outs) =~= w1 + w2 + drops(
            seq![flat],
        ));
        assert(walked(a, *rt, project_moves(*layer, *x, b, s, h, d_k, outs), outs, n + 2, r));
    }
    r
}

/// Multi-head causal attention layer.
#[derive(Debug)]
pub struct MultiHeadAttention {
    pub q_proj: Linear,
    pub k_proj: Linear,
    pub v_proj: Linear,
    pub out_proj: Linear,
    pub n_head: usize,
    pub n_embd: usize,
}

impl MultiHeadAttention {
    /// The tensors of the layer.
    pub open spec fn tensors(self) -> Seq<Tensor> {
        self.q_proj.tensors() + self.k_proj.tensors() + self.v_proj.tensors()
            + self.out_proj.tensors()
    }

    /// The width of a head.
    pub open spec fn d_k(self) -> usize {
        self.n_embd / self.n_head
    }

    /// How many handles the computation makes.
    pub open spec fn count(self, mask: Option<&Tensor>) -> nat {
        self.q_proj.count() + self.k_proj.count() + self.v_proj.count() + self.out_proj.count()
            + score_count(mask) + 10
    }

    /// The computation, step by step: the three projections, the attention, the heads joined and
    /// the last projection.
    #[verifier::opaque]
    pub open spec fn moves<S: Scalar>(
        self,
        x: Tensor,
        mask: Option<&Tensor>,
        outs: Seq<Tensor>,
    ) -> Seq<Move<S>> {
        let (b, s, h, d_k) = (x.shape@[0], x.shape@[1], self.n_head, self.d_k());
        let n1 = self.q_proj.count() + 2;
        let n2 = n1 + self.k_proj.count() + 2;
        let n3 = n2 + self.v_proj.count() + 2;
        let n4 = n3 + score_count(mask) + 2;
        let n5 = n4 + 2;
        let (q, k, v) = (outs[n1 - 1], outs[n2 - 1], outs[n3 - 1]);
        let (attended, joined) = (outs[n4 - 1], outs[n5 - 1]);
        project_moves(self.q_proj, x, b, s, h, d_k, part(outs, 0, n1))
            + project_moves(self.k_proj, x, b, s, h, d_k, part(outs, n1, self.k_proj.count() + 2))
            + project_moves(self.v_proj, x, b, s, h, d_k, part(outs, n2, self.v_proj.count() + 2))
            + attend_moves(q, k, v, mask, d_k, part(outs, n3, score_count(mask) + 2))
            + join_moves(attended, b, s, self.n_embd, part(outs, n4, 2)) + self.out_proj.chain(
            joined,
            part(outs, n5, self.out_proj.count()),
        ) + drops(seq![q, k, v, attended, joined])
    }

    /// A projection of the input, split into heads.
    pub open spec fn projected<S: Scalar>(
        self,
        rt: Runtime<S>,
        layer: Linear,
        x: Value<S>,
    ) -> Value<S> {
        heads(layer.maps(rt, x), x.dims[0], x.dims[1], self.n_head, self.d_k())
    }

    /// A projection applies to the input, and its result can be split into heads.
    pub open spec fn projects<S: Scalar>(self, rt: Runtime<S>, layer: Linear, x: Value<S>) -> bool {
        let dims = seq![x.dims[0], x.dims[1], self.n_head, self.d_k()];
        &&& layer.fits(rt, x)
        &&& bounded(dims)
        &&& numel(dims) == numel(layer.maps(rt, x).dims)
    }

    /// What the heads compute.
    pub open spec fn attended<S: Scalar>(
        self,
        rt: Runtime<S>,
        x: Value<S>,
        mask: Option<Value<S>>,
    ) -> Value<S> {
        attend_value(
            self.projected(rt, self.q_proj, x),
            self.projected(rt, self.k_proj, x),
            self.projected(rt, self.v_proj, x),
            mask,
            self.d_k(),
        )
    }

    /// What the heads compute, joined.
    pub open spec fn joined<S: Scalar>(
        self,
        rt: Runtime<S>,
        x: Value<S>,
        mask: Option<Value<S>>,
    ) -> Value<S> {
        reshape_value(
            transpose_value(self.attended(rt, x, mask), 1, 2),
            seq![x.dims[0], x.dims[1], self.n_embd],
        )
    }

    /// The layer applies to a value.
    #[verifier::opaque]
    pub open spec fn fits<S: Scalar>(
        self,
        rt: Runtime<S>,
        x: Value<S>,
        mask: Option<Value<S>>,
    ) -> bool {
        let out = self.attended(rt, x, mask);
        let dims = seq![x.dims[0], x.dims[1], self.n_embd];
        &&& x.dims.len() >= 2
        &&& self.n_head > 0
        &&& self.projects(rt, self.q_proj, x)
        &&& self.projects(rt, self.k_proj, x)
        &&& self.projects(rt, self.v_proj, x)
        &&& attend_ok(
            self.projected(rt, self.q_proj, x),
            self.projected(rt, self.k_proj, x),
            self.projected(rt, self.v_proj, x),
            mask,
            self.d_k(),
        )
        &&& out.dims.len() == 4
        &&& bounded(dims)
        &&& numel(dims) == numel(transpose_value(out, 1, 2).dims)
        &&& self.out_proj.fits(rt, self.joined(rt, x, mask))
    }

    /// What the layer computes.
    #[verifier::opaque]
    pub open spec fn maps<S: Scalar>(
        self,
        rt: Runtime<S>,
        x: Value<S>,
        mask: Option<Value<S>>,
    ) -> Value<S> {
        self.out_proj.maps(rt, self.joined(rt, x, mask))
    }

    /// Creates a new MultiHeadAttention module.
    ///
    /// Its projections are seeded one after the other from `seed`.
    #[must_use]
    pub fn new<S: Scalar>(n_embd: usize, n_head: usize, seed: u64, rt: &mut Runtime<S>) -> (r: Self)
        requires
            old(rt).wf(),
            n_head > 0,
            n_embd > 0,
            n_embd % n_head == 0,
            bounded(seq![n_embd, n_embd]),
            seed + 3 <= u64::MAX,
            affords(*old(rt), 8),
        ensures
            final(rt).wf(),
            grown(*old(rt), *final(rt), r.tensors()),
            spent(*old(rt), *final(rt), 8),
            r.initial(*final(rt), n_embd, n_head, seed),
    {
        let ghost a = *rt;
        proof {
            lemma_affords_less(a, 8, 2);
        }
        let q_proj = Linear::new(n_embd, n_embd, true, seed, rt);
        let ghost b = *rt;
        proof {
            lemma_affords(a, b, 2, 6);
            lemma_affords_less(b, 6, 2);
        }
        let k_proj = Linear::new(n_embd, n_embd, true, seed + 1, rt);
        let ghost c = *rt;
        proof {
            lemma_grown_trans(a, b, c, q_proj.tensors(), k_proj.tensors());
            lemma_spent_trans(a, b, c, 2, 2);
            lemma_affords(a, c, 4, 4);
            lemma_affords_less(c, 4, 2);
        }
        let v_proj = Linear::new(n_embd, n_embd, true, seed + 2, rt);
        let ghost d = *rt;
        proof {
            lemma_grown_trans(
                a,
                c,
                d,
                q_proj.tensors() + k_proj.tensors(),
                v_proj.tensors(),
            );
            lemma_spent_trans(a, c, d, 4, 2);
            lemma_affords(a, d, 6, 2);
        }
        let out_proj = Linear::new(n_embd, n_embd, true, seed + 3, rt);
        proof {
            let e = *rt;
            lemma_grown_trans(
                a,
                d,
                e,
                q_proj.tensors() + k_proj.tensors() + v_proj.tensors(),
                out_proj.tensors(),
            );
            lemma_spent_trans(a, d, e, 6, 2);
            lemma_linear_kept(b, c, k_proj.tensors(), q_proj, n_embd, n_embd, seed);
            lemma_linear_kept(c, d, v_proj.tensors(), q_proj, n_embd, n_embd, seed);
            lemma_linear_kept(d, e, out_proj.tensors(), q_proj, n_embd, n_embd, seed);
            lemma_linear_kept(c, d, v_proj.tensors(), k_proj, n_embd, n_embd, (seed + 1) as u64);
            lemma_linear_kept(d, e, out_proj.tensors(), k_proj, n_embd, n_embd, (seed + 1) as u64);
            lemma_linear_kept(d, e, out_proj.tensors(), v_proj, n_embd, n_embd, (seed + 2) as u64);
        }
        MultiHeadAttention { q_proj, k_proj, v_proj, out_proj, n_head, n_embd }
    }

    /// The layer as it was made.
    pub open spec fn initial<S: Scalar>(
        self,
        rt: Runtime<S>,
        n_embd: usize,
        n_head: usize,
        seed: u64,
    ) -> bool {
        &&& self.q_proj.initial(rt, n_embd, n_embd, true, seed)
        &&& self.k_proj.initial(rt, n_embd, n_embd, true, (seed + 1) as u64)
        &&& self.v_proj.initial(rt, n_embd, n_embd, true, (seed + 2) as u64)
        &&& self.out_proj.initial(rt, n_embd, n_embd, true, (seed + 3) as u64)
        &&& self.n_head == n_head
        &&& self.n_embd == n_embd
    }

    /// Forward pass of multi-head attention.
    /// Input shape: `[B, S, D]`.
    /// Output shape: `[B, S, D]`.
    #[must_use]
    #[verifier::rlimit(60)]
    pub fn forward<S: Scalar>(
        &self,
        x: &Tensor,
        mask: Option<&Tensor>,
        rt: &mut Runtime<S>,
    ) -> (r: Tensor)
        requires
            old(rt).wf(),
            old(rt).hooks.cpu_ops,
            affords(*old(rt), 27),
            mine(*old(rt), *x),
            mask is Some ==> mine(*old(rt), *mask->0),
            all_mine(*old(rt), self.tensors()),
            self.fits(*old(rt), x.value(old(rt).mem), mask_value(mask, *old(rt))),
        ensures
            final(rt).wf(),
            yields(
                *old(rt),
                *final(rt),
                27,
                r,
                self.maps(*old(rt), x.value(old(rt).mem), mask_value(mask, *old(rt))),
            ),
            exists|outs: Seq<Tensor>|
                walked(
                    *old(rt),
                    *final(rt),
                    #[trigger] self.moves(*x, mask, outs),
                    outs,
                    self.count(mask),
                    r,
                ),
            wants(*final(rt), r) == (old(rt).mode.autograd_enabled && (wants(*old(rt), *x)
                || mask_wants(*old(rt), mask) || any_wants(*old(rt), self.tensors()))),
    {
        let ghost a = *rt;
        let ghost xv = x.value(a.mem);
        let ghost mv = mask_value(mask, a);
        proof {
            reveal(MultiHeadAttention::fits);
            reveal(MultiHeadAttention::maps);
            lemma_parts(a, *self);
            lemma_affords_less(a, 27, 5);
        }
        let b: usize = x.shape().dim(0);
        let s: usize = x.shape().dim(1);
        let d: usize = self.n_embd;
        let h: usize = self.n_head;
        let d_k: usize = d / h;
        let q = project(&self.q_proj, x, b, s, h, d_k, rt);
        let ghost r1 = *rt;
        let ghost t1 = Seq::empty().push(q);
        proof {
            lemma_first(a, r1, q);
            lemma_affords(a, r1, 5, 22);
            lemma_affords_less(r1, 22, 5);
            lemma_mine(a, r1, t1, *x);
            lemma_all_mine(a, r1, t1, self.k_proj.tensors());
            lemma_same_layer(a, r1, t1, self.k_proj, xv);
            lemma_wants(a, r1, t1, self.k_proj.tensors());
        }
        let k = project(&self.k_proj, x, b, s, h, d_k, rt);
        let ghost r2 = *rt;
        let ghost t2 = t1.push(k);
        proof {
            lemma_next(a, r1, r2, t1, k, 5, 5);
            assert(t1[0] == q);
            lemma_affords(a, r2, 10, 17);
            lemma_affords_less(r2, 17, 5);
            lemma_mine(a, r2, t2, *x);
            lemma_all_mine(a, r2, t2, self.v_proj.tensors());
            lemma_same_layer(a, r2, t2, self.v_proj, xv);
            lemma_wants(a, r2, t2, self.v_proj.tensors());
        }
        let v = project(&self.v_proj, x, b, s, h, d_k, rt);
        let ghost r3 = *rt;
        let ghost t3 = t2.push(v);
        proof {
            lemma_next(a, r2, r3, t2, v, 10, 5);
            assert(t2[0] == q && t2[1] == k);
            lemma_affords(a, r3, 15, 12);
            lemma_affords_less(r3, 12, 7);
            if mask is Some {
                lemma_mine(a, r3, t3, *mask->0);
            }
            assert(mask_value(mask, r3) == mv);
        }
        let out = attend(&q, &k, &v, mask, d_k, rt);
        let ghost r4 = *rt;
        let ghost t4 = t3.push(out);
        proof {
            lemma_next(a, r3, r4, t3, out, 15, 7);
            lemma_affords(a, r4, 22, 5);
            lemma_affords_less(r4, 5, 2);
        }
        let joined = join_heads(&out, b, s, d, rt);
        let ghost r5 = *rt;
        let ghost t5 = t4.push(joined);
        proof {
            lemma_next(a, r4, r5, t4, joined, 22, 2);
            lemma_affords(a, r5, 24, 3);
            lemma_all_mine(a, r5, t5, self.out_proj.tensors());
            lemma_same_layer(a, r5, t5, self.out_proj, self.joined(a, xv, mv));
            lemma_wants(a, r5, t5, self.out_proj.tensors());
        }
        let r = self.out_proj.forward(&joined, rt);
        let ghost r6 = *rt;
        let ghost n1 = self.q_proj.count() + 2;
        let ghost n2 = self.k_proj.count() + 2;
        let ghost n3 = self.v_proj.count() + 2;
        let ghost n4 = score_count(mask) + 2;
        let ghost n6 = self.out_proj.count();
        let ghost o1 = choose|o: Seq<Tensor>|
            walked(a, r1, #[trigger] project_moves(self.q_proj, *x, b, s, h, d_k, o), o, n1, q);
        let ghost o2 = choose|o: Seq<Tensor>|
            walked(r1, r2, #[trigger] project_moves(self.k_proj, *x, b, s, h, d_k, o), o, n2, k);
        let ghost o3 = choose|o: Seq<Tensor>|
            walked(r2, r3, #[trigger] project_moves(self.v_proj, *x, b, s, h, d_k, o), o, n3, v);
        let ghost o4 = choose|o: Seq<Tensor>|
            walked(r3, r4, #[trigger] attend_moves(q, k, v, mask, d_k, o), o, n4, out);
        let ghost o5 = choose|o: Seq<Tensor>|
            walked(r4, r5, #[trigger] join_moves(out, b, s, d, o), o, 2, joined);
        let ghost o6 = choose|o: Seq<Tensor>|
            walked(r5, r6, #[trigger] self.out_proj.moves(joined, o), o, n6, r);
        let ghost w1 = project_moves::<S>(self.q_proj, *x, b, s, h, d_k, o1);
        let ghost w2 = project_moves::<S>(self.k_proj, *x, b, s, h, d_k, o2);
        let ghost w3 = project_moves::<S>(self.v_proj, *x, b, s, h, d_k, o3);
        let ghost w4 = attend_moves::<S>(q, k, v, mask, d_k, o4);
        let ghost w5 = join_moves::<S>(out, b, s, d, o5);
        let ghost w6 = self.out_proj.chain::<S>(joined, o6);
        let ghost way = w1 + w2 + w3 + w4 + w5 + w6;
        let ghost old_ones = seq![q, k, v, out, joined];
        proof {
            lemma_next(a, r5, r6, t5, r, 24, 3);
            lemma_join(a, r1, r2, w1, w2);
            lemma_join(a, r2, r3, w1 + w2, w3);
            lemma_join(a, r3, r4, w1 + w2 + w3, w4);
            lemma_join(a, r4, r5, w1 + w2 + w3 + w4, w5);
            lemma_join(a, r5, r6, w1 + w2 + w3 + w4 + w5, w6);
            assert(t3[0] == q && t3[1] == k && t3[2] == v);
            let (tq, tk, tv, to) = (
                self.q_proj.tensors(),
                self.k_proj.tensors(),
                self.v_proj.tensors(),
                self.out_proj.tensors(),
            );
            lemma_any_wants(a, tq, tk);
            lemma_any_wants(a, tq + tk, tv);
            lemma_any_wants(a, tq + tk + tv, to);
        }
        let mut used: Vec<Tensor> = Vec::new();
        used.push(q);
        used.push(k);
        used.push(v);
        used.push(out);
        used.push(joined);
        assert(used@ =~= t5);
        assert(used@ =~= old_ones);
        settle(used, &r, rt, Ghost(a));
        proof {
            lemma_spent_trans(a, r6, *rt, 27, 0);
            lemma_join(a, r6, *rt, way, drops(old_ones));
            let outs = o1 + o2 + o3 + o4 + o5 + o6;
            lemma_attention_moves::<S>(*self, *x, mask, o1, o2, o3, o4, o5, o6);
            assert(walked(a, *rt, self.moves(*x, mask, outs), outs, self.count(mask), r));
        }
        r
    }

    /// Returns MHA parameters.
    #[must_use]
    pub fn parameters<S: Scalar>(&self, rt: &mut Runtime<S>) -> (r: Vec<Tensor>)
        requires
            old(rt).wf(),
            all_mine(*old(rt), self.tensors()),
            affords(*old(rt), self.tensors().len()),
        ensures
            final(rt).wf(),
            handed_out(*old(rt), *final(rt), self.tensors(), r@),
    {
        let ghost a = *rt;
        let ghost (tq, tk, tv, to) = (
            self.q_proj.tensors(),
            self.k_proj.tensors(),
            self.v_proj.tensors(),
            self.out_proj.tensors(),
        );
        proof {
            lemma_parts(a, *self);
            lemma_affords_less(a, self.tensors().len(), tq.len());
        }
        let mut out = self.q_proj.parameters(rt);
        let ghost b = *rt;
        let ghost o1 = out@;
        proof {
            lemma_all_mine(a, b, o1, tk);
            lemma_affords_less(a, self.tensors().len(), tq.len() + tk.len());
            lemma_affords(a, b, tq.len(), tk.len());
        }
        let mut more = self.k_proj.parameters(rt);
        let ghost c = *rt;
        proof {
            lemma_handed_trans(a, b, c, tq, tk, o1, more@);
            lemma_all_mine(a, c, o1 + more@, tv);
            lemma_affords_less(a, self.tensors().len(), tq.len() + tk.len() + tv.len());
            lemma_affords(a, c, tq.len() + tk.len(), tv.len());
        }
        out.append(&mut more);
        let ghost o2 = out@;
        let mut more = self.v_proj.parameters(rt);
        let ghost d = *rt;
        proof {
            lemma_handed_trans(a, c, d, tq + tk, tv, o2, more@);
            lemma_all_mine(a, d, o2 + more@, to);
            lemma_affords(a, d, tq.len() + tk.len() + tv.len(), to.len());
        }
        out.append(&mut more);
        let ghost o3 = out@;
        let mut more = self.out_proj.parameters(rt);
        proof {
            lemma_handed_trans(a, d, *rt, tq + tk + tv, to, o3, more@);
        }
        out.append(&mut more);
        out
    }
}

/// A layer's tensors stay what they were.
pub proof fn lemma_linear_kept<S: Scalar>(
    a: Runtime<S>,
    b: Runtime<S>,
    ts: Seq<Tensor>,
    layer: Linear,
    in_features: usize,
    out_features: usize,
    seed: u64,
)
    requires
        grown(a, b, ts),
        layer.initial(a, in_features, out_features, true, seed),
    ensures
        layer.initial(b, in_features, out_features, true, seed),
{
    lemma_mine(a, b, ts, layer.weight);
    lemma_mine(a, b, ts, layer.bias->0);
}

/// A layer computes what it did before a computation.
pub proof fn lemma_same_layer<S: Scalar>(
    a: Runtime<S>,
    b: Runtime<S>,
    ts: Seq<Tensor>,
    layer: Linear,
    x: Value<S>,
)
    requires
        grown(a, b, ts),
        all_mine(a, layer.tensors()),
    ensures
        layer.fits(b, x) == layer.fits(a, x),
        layer.maps(b, x) == layer.maps(a, x),
        all_mine(b, layer.tensors()),
{
    let us = layer.tensors();
    lemma_all_mine(a, b, ts, us);
    assert(us[0] == layer.weight);
    lemma_mine(a, b, ts, layer.weight);
    if layer.bias is Some {
        assert(us[1] == layer.bias->0);
        lemma_mine(a, b, ts, layer.bias->0);
    }
}

/// The steps of the layer are those of its parts.
proof fn lemma_attention_moves<S: Scalar>(
    m: MultiHeadAttention,
    x: Tensor,
    mask: Option<&Tensor>,
    o1: Seq<Tensor>,
    o2: Seq<Tensor>,
    o3: Seq<Tensor>,
    o4: Seq<Tensor>,
    o5: Seq<Tensor>,
    o6: Seq<Tensor>,
)
    requires
        o1.len() == m.q_proj.count() + 2,
        o2.len() == m.k_proj.count() + 2,
        o3.len() == m.v_proj.count() + 2,
        o4.len() == score_count(mask) + 2,
        o5.len() == 2,
        o6.len() == m.out_proj.count(),
    ensures
        ({
            let (b, s, h, d_k) = (x.shape@[0], x.shape@[1], m.n_head, m.d_k());
            let (q, k, v, out, joined) = (o1.last(), o2.last(), o3.last(), o4.last(), o5.last());
            m.moves::<S>(x, mask, o1 + o2 + o3 + o4 + o5 + o6) == project_moves::<S>(
                m.q_proj,
                x,
                b,
                s,
                h,
                d_k,
                o1,
            ) + project_moves(m.k_proj, x, b, s, h, d_k, o2) + project_moves(
                m.v_proj,
                x,
                b,
                s,
                h,
                d_k,
                o3,
            ) + attend_moves(q, k, v, mask, d_k, o4) + join_moves(out, b, s, m.n_embd, o5)
                + m.out_proj.chain(joined, o6) + drops(seq![q, k, v, out, joined])
        }),
        (o1 + o2 + o3 + o4 + o5 + o6).last() == o6.last(),
        (o1 + o2 + o3 + o4 + o5 + o6).len() == m.count(mask),
{
    let outs = o1 + o2 + o3 + o4 + o5 + o6;
    let (n1, n2, n3, n4, n6) = (o1.len(), o2.len(), o3.len(), o4.len(), o6.len());
    reveal(MultiHeadAttention::moves);
    assert(part(outs, 0, n1) =~= o1);
    assert(part(outs, n1, n2) =~= o2);
    assert(part(outs, n1 + n2, n3) =~= o3);
    assert(part(outs, n1 + n2 + n3, n4) =~= o4);
    assert(part(outs, n1 + n2 + n3 + n4, 2) =~= o5);
    assert(part(outs, n1 + n2 + n3 + n4 + 2, n6) =~= o6);
    assert(outs[n1 - 1] == o1.last());
    assert(outs[n1 + n2 - 1] == o2.last());
    assert(outs[n1 + n2 + n3 - 1] == o3.last());
    assert(outs[n1 + n2 + n3 + n4 - 1] == o4.last());
    assert(outs[n1 + n2 + n3 + n4 + 2 - 1] == o5.last());
}

/// The tensors of the projections are among those of the layer.
proof fn lemma_parts<S>(rt: Runtime<S>, m: MultiHeadAttention)
    requires
        all_mine(rt, m.tensors()),
    ensures
        all_mine(rt, m.q_proj.tensors()),
        all_mine(rt, m.k_proj.tensors()),
        all_mine(rt, m.v_proj.tensors()),
        all_mine(rt, m.out_proj.tensors()),
{
    let (tq, tk, tv, to) = (
        m.q_proj.tensors(),
        m.k_proj.tensors(),
        m.v_proj.tensors(),
        m.out_proj.tensors(),
    );
    lemma_split_mine(rt, tq + tk + tv, to);
    lemma_split_mine(rt, tq + tk, tv);
    lemma_split_mine(rt, tq, tk);
}

/// Tensors of two lists.
pub proof fn lemma_split_mine<S>(rt: Runtime<S>, ts: Seq<Tensor>, us: Seq<Tensor>)
    requires
        all_mine(rt, ts + us),
    ensures
        all_mine(rt, ts),
        all_mine(rt, us),
{
    let all = ts + us;
    assert forall|i: int| 0 <= i < ts.len() implies mine(rt, #[trigger] ts[i]) by {
        assert(all[i] == ts[i]);
    }
    assert forall|i: int| 0 <= i < us.len() implies mine(rt, #[trigger] us[i]) by {
        assert(all[ts.len() + i] == us[i]);
    }
}

} // verus!
