//! Fused scaled dot-product attention over `[B, H, S, D]` arrays.
use vstd::prelude::*;
use crate::cpu::batchnorm::lemma_numel4;
use crate::cpu::elementwise::lemma_stretched_bound;
use crate::dense::{Dense, Value};
use crate::index::{in_bounds, lemma_bounded_fits, lemma_numel_zero, numel, offset, row_major};
use crate::math::{fold, lemma_index2, lemma_index3, lemma_join2, lemma_split2};
use crate::scalar::{one, zero, Constant, Scalar};
use crate::shape::{broadcasts_to, get_offset};

verus! {

/// The extents of an attention: batches, heads, positions, and entries per head.
#[derive(Debug, Clone, Copy, PartialEq, Eq, Structural)]
pub struct Heads {
    pub b: usize,
    pub h: usize,
    pub s: usize,
    pub d: usize,
}

impl Heads {
    /// Where entry `e` of position `i` of head `g` is stored; heads are counted over all batches.
    pub open spec fn at(self, g: int, i: int, e: int) -> int {
        (g * self.s + i) * self.d + e
    }

    /// The number of elements of each operand.
    pub open spec fn len(self) -> int {
        ((self.b * self.h) * self.s) * self.d
    }

    /// The extents that a mask is broadcast to.
    pub open spec fn mask_dims(self) -> Seq<usize> {
        seq![self.b, self.h, self.s, self.s]
    }

    /// The mask coordinate of query `i` and key `j` of head `g`.
    pub open spec fn mask_coord(self, g: int, i: int, j: int) -> Seq<usize> {
        seq![(g / self.h as int) as usize, (g % self.h as int) as usize, i as usize, j as usize]
    }
}

/// What an attention reads: queries, keys, values, and the optional mask that is added to the
/// scores.
pub ghost struct Attention<S> {
    pub hd: Heads,
    pub q: Seq<S>,
    pub k: Seq<S>,
    pub v: Seq<S>,
    pub mask: Option<Value<S>>,
}

/// `1 / sqrt(d)`
pub open spec fn head_scale<S: Scalar>(hd: Heads) -> S {
    S::div_spec(one(), S::sqrt_spec(S::count_spec(hd.d)))
}

pub open spec fn dot_step<S: Scalar>(
    x: Seq<S>,
    y: Seq<S>,
    hd: Heads,
    g: int,
    i: int,
    j: int,
) -> spec_fn(int, S) -> S {
    |e: int, acc: S| S::mul_add_spec(x[hd.at(g, i, e)], y[hd.at(g, j, e)], acc)
}

/// The dot product of position `i` of `x` and position `j` of `y`.
pub open spec fn dot<S: Scalar>(x: Seq<S>, y: Seq<S>, hd: Heads, g: int, i: int, j: int) -> S {
    fold(hd.d as nat, zero(), dot_step(x, y, hd, g, i, j))
}

impl<S: Scalar> Attention<S> {
    /// The score of key `j` for query `i`: the scaled dot product, plus the mask.
    pub open spec fn score(self, g: int, i: int, j: int) -> S {
        let scaled = S::mul_spec(dot(self.q, self.k, self.hd, g, i, j), head_scale(self.hd));
        match self.mask {
            Some(m) => S::add_spec(
                scaled,
                m.data[offset(self.hd.mask_coord(g, i, j), m.dims, row_major(m.dims)) as int],
            ),
            None => scaled,
        }
    }

    pub open spec fn max_step(self, g: int, i: int) -> spec_fn(int, S) -> S {
        |j: int, acc: S|
            if S::gt_spec(self.score(g, i, j), acc) {
                self.score(g, i, j)
            } else {
                acc
            }
    }

    pub open spec fn max_score(self, g: int, i: int) -> S {
        fold(self.hd.s as nat, S::constant_spec(Constant::NegInfinity), self.max_step(g, i))
    }

    pub open spec fn weight(self, g: int, i: int, j: int) -> S {
        S::exp_spec(S::sub_spec(self.score(g, i, j), self.max_score(g, i)))
    }

    pub open spec fn sum_step(self, g: int, i: int) -> spec_fn(int, S) -> S {
        |j: int, acc: S| S::add_spec(acc, self.weight(g, i, j))
    }

    /// `1 / (sum + 1e-9)`
    pub open spec fn inv_sum(self, g: int, i: int) -> S {
        S::div_spec(
            one(),
            S::add_spec(
                fold(self.hd.s as nat, zero(), self.sum_step(g, i)),
                S::constant_spec(Constant::AttentionFloor),
            ),
        )
    }

    /// How much query `i` attends to key `j`.
    pub open spec fn prob(self, g: int, i: int, j: int) -> S {
        S::mul_spec(self.weight(g, i, j), self.inv_sum(g, i))
    }

    /// The attention row of query `i`.
    pub open spec fn probs(self, g: int, i: int) -> Seq<S> {
        Seq::new(self.hd.s as nat, |j: int| self.prob(g, i, j))
    }

    pub open spec fn out_step(self, g: int, i: int, e: int) -> spec_fn(int, S) -> S {
        |j: int, acc: S| S::mul_add_spec(self.prob(g, i, j), self.v[self.hd.at(g, j, e)], acc)
    }

    /// Entry `e` of the output of query `i`.
    pub open spec fn out(self, g: int, i: int, e: int) -> S {
        fold(self.hd.s as nat, zero(), self.out_step(g, i, e))
    }
}

/// The head, position and entry that an element belongs to.
pub open spec fn head_of(hd: Heads, t: int) -> (int, int, int) {
    (t / hd.d as int / hd.s as int, (t / hd.d as int) % hd.s as int, t % hd.d as int)
}

pub open spec fn heads_of(d: Seq<usize>) -> Heads {
    Heads { b: d[0], h: d[1], s: d[2], d: d[3] }
}

pub open spec fn attention_of<S>(
    q: Value<S>,
    k: Value<S>,
    v: Value<S>,
    mask: Option<Value<S>>,
) -> Attention<S> {
    Attention { hd: heads_of(q.dims), q: q.data, k: k.data, v: v.data, mask }
}

/// Queries, keys and values have the same four extents, and the mask can be broadcast to the
/// scores.
pub open spec fn attention_ok<S>(
    q: Value<S>,
    k: Value<S>,
    v: Value<S>,
    mask: Option<Value<S>>,
) -> bool {
    &&& q.dims.len() == 4
    &&& k.dims == q.dims
    &&& v.dims == q.dims
    &&& mask matches Some(m) ==> m.wf() && broadcasts_to(m.dims, heads_of(q.dims).mask_dims())
}

/// The attention output.
pub open spec fn attention_value<S: Scalar>(
    q: Value<S>,
    k: Value<S>,
    v: Value<S>,
    mask: Option<Value<S>>,
) -> Value<S> {
    let at = attention_of(q, k, v, mask);
    Value {
        dims: q.dims,
        data: Seq::new(
            q.data.len(),
            |t: int|
                {
                    let (g, i, e) = head_of(at.hd, t);
                    at.out(g, i, e)
                },
        ),
    }
}

pub open spec fn mask_view<S>(mask: Option<&Dense<S>>) -> Option<Value<S>> {
    match mask {
        Some(m) => Some(m@),
        None => None,
    }
}

/// The dot product of two positions.
pub(crate) fn dot_at<S: Scalar>(
    x: &Vec<S>,
    y: &Vec<S>,
    hd: Heads,
    g: usize,
    i: usize,
    j: usize,
) -> (r: S)
    requires
        x@.len() == hd.len(),
        y@.len() == hd.len(),
        hd.len() <= usize::MAX,
        g < hd.b * hd.h,
        i < hd.s,
        j < hd.s,
    ensures
        r == dot(x@, y@, hd, g as int, i as int, j as int),
{
    let ghost step = dot_step(x@, y@, hd, g as int, i as int, j as int);
    let mut acc = S::constant(Constant::Zero);
    let mut e: usize = 0;
    while e < hd.d
        invariant
            e <= hd.d,
            x@.len() == hd.len(),
            y@.len() == hd.len(),
            hd.len() <= usize::MAX,
            g < hd.b * hd.h,
            i < hd.s,
            j < hd.s,
            step == dot_step(x@, y@, hd, g as int, i as int, j as int),
            acc == fold(e as nat, zero::<S>(), step),
        decreases hd.d - e,
    {
        proof {
            lemma_index3(g as int, hd.b * hd.h, i as int, hd.s as int, e as int, hd.d as int);
            lemma_index3(g as int, hd.b * hd.h, j as int, hd.s as int, e as int, hd.d as int);
        }
        let a = x[(g * hd.s + i) * hd.d + e];
        let b = y[(g * hd.s + j) * hd.d + e];
        acc = a.mul_add(b, acc);
        e = e + 1;
    }
    acc
}

/// The score of one key for one query.
fn score_at<S: Scalar>(
    q: &Dense<S>,
    k: &Dense<S>,
    mask: Option<&Dense<S>>,
    hd: Heads,
    scale: S,
    g: usize,
    i: usize,
    j: usize,
    Ghost(at): Ghost<Attention<S>>,
) -> (r: S)
    requires
        q.wf(),
        k.wf(),
        q@.data.len() == hd.len(),
        k@.data.len() == hd.len(),
        hd.len() <= usize::MAX,
        g < hd.b * hd.h,
        i < hd.s,
        j < hd.s,
        scale == head_scale::<S>(hd),
        at.hd == hd,
        at.q == q@.data,
        at.k == k@.data,
        at.mask == mask_view(mask),
        mask matches Some(m) ==> m.wf() && broadcasts_to(m@.dims, hd.mask_dims()),
    ensures
        r == at.score(g as int, i as int, j as int),
{
    let scaled = dot_at(q.data(), k.data(), hd, g, i, j).mul(scale);
    match mask {
        Some(m) => {
            proof {
                lemma_split2(g as int, hd.b as int, hd.h as int);
                lemma_bounded_fits(m@.dims);
            }
            let coord: [usize; 4] = [g / hd.h, g % hd.h, i, j];
            proof {
                assert(coord@ =~= hd.mask_coord(g as int, i as int, j as int));
                assert forall|t: int| 0 <= t < 4 implies #[trigger] coord@[t] < hd.mask_dims()[t] by {
                    if t == 0 {
                        assert(coord@[0] < hd.b);
                    } else if t == 1 {
                        assert(coord@[1] < hd.h);
                    } else if t == 2 {
                        assert(coord@[2] < hd.s);
                    } else {
                        assert(coord@[3] < hd.s);
                    }
                }
                assert(in_bounds(coord@, hd.mask_dims()));
                lemma_stretched_bound(m@.dims, hd.mask_dims(), coord@);
            }
            let strides = m.shape().contiguous_strides();
            let o = get_offset(coord.as_slice(), m.shape(), &strides);
            scaled.add(m.data()[o])
        },
        None => scaled,
    }
}

/// The attention row of one query.
pub(crate) fn probs_at<S: Scalar>(
    q: &Dense<S>,
    k: &Dense<S>,
    mask: Option<&Dense<S>>,
    hd: Heads,
    scale: S,
    g: usize,
    i: usize,
    Ghost(at): Ghost<Attention<S>>,
) -> (r: Vec<S>)
    requires
        q.wf(),
        k.wf(),
        q@.data.len() == hd.len(),
        k@.data.len() == hd.len(),
        hd.len() <= usize::MAX,
        g < hd.b * hd.h,
        i < hd.s,
        scale == head_scale::<S>(hd),
        at.hd == hd,
        at.q == q@.data,
        at.k == k@.data,
        at.mask == mask_view(mask),
        mask matches Some(m) ==> m.wf() && broadcasts_to(m@.dims, hd.mask_dims()),
    ensures
        r@ == at.probs(g as int, i as int),
{
    let ghost mx = at.max_step(g as int, i as int);
    let ghost sm = at.sum_step(g as int, i as int);
    let mut scores: Vec<S> = Vec::with_capacity(hd.s);
    let mut max_score = S::constant(Constant::NegInfinity);
    let mut j: usize = 0;
    while j < hd.s
        invariant
            j <= hd.s,
            q.wf(),
            k.wf(),
            q@.data.len() == hd.len(),
            k@.data.len() == hd.len(),
            hd.len() <= usize::MAX,
            g < hd.b * hd.h,
            i < hd.s,
            scale == head_scale::<S>(hd),
            at.hd == hd,
            at.q == q@.data,
            at.k == k@.data,
            at.mask == mask_view(mask),
            mask matches Some(m) ==> m.wf() && broadcasts_to(m@.dims, hd.mask_dims()),
            mx == at.max_step(g as int, i as int),
            scores@.len() == j,
            forall|t: int| 0 <= t < j ==> scores@[t] == at.score(g as int, i as int, t),
            max_score == fold(j as nat, S::constant_spec(Constant::NegInfinity), mx),
        decreases hd.s - j,
    {
        let x = score_at(q, k, mask, hd, scale, g, i, j, Ghost(at));
        scores.push(x);
        if x.gt(max_score) {
            max_score = x;
        }
        j = j + 1;
    }
    let mut sum_exp = S::constant(Constant::Zero);
    j = 0;
    while j < hd.s
        invariant
            j <= hd.s,
            at.hd == hd,
            max_score == at.max_score(g as int, i as int),
            sm == at.sum_step(g as int, i as int),
            scores@.len() == hd.s,
            forall|t: int| 0 <= t < j ==> scores@[t] == at.weight(g as int, i as int, t),
            forall|t: int| j <= t < hd.s ==> scores@[t] == at.score(g as int, i as int, t),
            sum_exp == fold(j as nat, zero::<S>(), sm),
        decreases hd.s - j,
    {
        let w = scores[j].sub(max_score).exp();
        scores[j] = w;
        sum_exp = sum_exp.add(w);
        j = j + 1;
    }
    let inv = S::constant(Constant::One).div(sum_exp.add(S::constant(Constant::AttentionFloor)));
    j = 0;
    while j < hd.s
        invariant
            j <= hd.s,
            at.hd == hd,
            inv == at.inv_sum(g as int, i as int),
            scores@.len() == hd.s,
            forall|t: int| 0 <= t < j ==> scores@[t] == at.prob(g as int, i as int, t),
            forall|t: int| j <= t < hd.s ==> scores@[t] == at.weight(g as int, i as int, t),
        decreases hd.s - j,
    {
        let p = scores[j].mul(inv);
        scores[j] = p;
        j = j + 1;
    }
    assert(scores@ =~= at.probs(g as int, i as int));
    scores
}

/// `sum over j of row[j] * x[j, e]`, added up from the first key to the last.
pub open spec fn mix_step<S: Scalar>(row: Seq<S>, x: Seq<S>, hd: Heads, g: int, e: int) -> spec_fn(
    int,
    S,
) -> S {
    |j: int, acc: S| S::mul_add_spec(row[j], x[hd.at(g, j, e)], acc)
}

pub open spec fn mix<S: Scalar>(row: Seq<S>, x: Seq<S>, hd: Heads, g: int, e: int) -> S {
    fold(hd.s as nat, zero(), mix_step(row, x, hd, g, e))
}

pub(crate) fn mix_at<S: Scalar>(row: &Vec<S>, x: &Vec<S>, hd: Heads, g: usize, e: usize) -> (r: S)
    requires
        row@.len() == hd.s,
        x@.len() == hd.len(),
        hd.len() <= usize::MAX,
        g < hd.b * hd.h,
        e < hd.d,
    ensures
        r == mix(row@, x@, hd, g as int, e as int),
{
    let ghost step = mix_step(row@, x@, hd, g as int, e as int);
    let mut acc = S::constant(Constant::Zero);
    let mut j: usize = 0;
    while j < hd.s
        invariant
            j <= hd.s,
            row@.len() == hd.s,
            x@.len() == hd.len(),
            hd.len() <= usize::MAX,
            g < hd.b * hd.h,
            e < hd.d,
            step == mix_step(row@, x@, hd, g as int, e as int),
            acc == fold(j as nat, zero::<S>(), step),
        decreases hd.s - j,
    {
        proof {
            lemma_index3(g as int, hd.b * hd.h, j as int, hd.s as int, e as int, hd.d as int);
        }
        acc = row[j].mul_add(x[(g * hd.s + j) * hd.d + e], acc);
        j = j + 1;
    }
    acc
}

/// Position `(row, e)` of the rows of all heads, split again.
pub proof fn lemma_head_split(hd: Heads, row: int, e: int)
    requires
        0 <= row < (hd.b * hd.h) * hd.s,
        0 <= e < hd.d,
    ensures
        hd.s > 0,
        0 <= row / hd.s as int,
        row / (hd.s as int) < hd.b * hd.h,
        0 <= row % hd.s as int,
        row % (hd.s as int) < hd.s,
        row == (row / hd.s as int) * hd.s + row % hd.s as int,
        head_of(hd, row * hd.d + e) == (row / hd.s as int, row % hd.s as int, e),
{
    lemma_join2(row, e, hd.d as int);
    assert(0 <= hd.b * hd.h) by (nonlinear_arith);
    lemma_split2(row, hd.b * hd.h, hd.s as int);
}

/// Fused scaled dot-product attention.
pub fn fused_attention<S: Scalar>(
    q: &Dense<S>,
    k: &Dense<S>,
    v: &Dense<S>,
    mask: Option<&Dense<S>>,
) -> (r: Dense<S>)
    requires
        q.wf(),
        k.wf(),
        v.wf(),
        mask matches Some(m) ==> m.wf(),
        attention_ok(q@, k@, v@, mask_view(mask)),
    ensures
        r.wf(),
        r@ == attention_value(q@, k@, v@, mask_view(mask)),
{
    let sh = q.shape();
    let hd = Heads { b: sh.dim(0), h: sh.dim(1), s: sh.dim(2), d: sh.dim(3) };
    let ghost at = attention_of(q@, k@, v@, mask_view(mask));
    let ghost value = attention_value(q@, k@, v@, mask_view(mask));
    let total = q.numel();
    let mut out: Vec<S> = Vec::with_capacity(total);
    if total == 0 {
        assert(out@ =~= value.data);
        return Dense::new(*q.shape(), out);
    }
    proof {
        lemma_numel4(q@.dims);
        lemma_bounded_fits(q@.dims);
        lemma_numel_zero(q@.dims);
        crate::cpu::conv::lemma_planes(hd.b as int, hd.h as int, hd.s as int, hd.d as int);
        lemma_rows_fit(hd);
        assert(0 * hd.d == 0) by (nonlinear_arith);
    }
    let scale = S::constant(Constant::One).div(S::count(hd.d).sqrt());
    let rows: usize = hd.b * hd.h * hd.s;
    let mut row: usize = 0;
    while row < rows
        invariant
            row <= rows == (hd.b * hd.h) * hd.s,
            q.wf(),
            k.wf(),
            v.wf(),
            hd == heads_of(q@.dims),
            q@.data.len() == hd.len(),
            k@.data.len() == hd.len(),
            v@.data.len() == hd.len(),
            hd.len() == rows * hd.d,
            hd.len() <= usize::MAX,
            scale == head_scale::<S>(hd),
            at == attention_of(q@, k@, v@, mask_view(mask)),
            mask matches Some(m) ==> m.wf() && broadcasts_to(m@.dims, hd.mask_dims()),
            value == attention_value(q@, k@, v@, mask_view(mask)),
            out@.len() == row * hd.d,
            forall|t: int| 0 <= t < row * hd.d ==> out@[t] == value.data[t],
        decreases rows - row,
    {
        proof {
            assert(hd.d > 0 || hd.d == 0);
            if hd.d > 0 {
                lemma_head_split(hd, row as int, 0);
            } else {
                lemma_split2(row as int, hd.b * hd.h, hd.s as int);
            }
        }
        let g: usize = row / hd.s;
        let i: usize = row % hd.s;
        let p = probs_at(q, k, mask, hd, scale, g, i, Ghost(at));
        let mut e: usize = 0;
        while e < hd.d
            invariant
                e <= hd.d,
                row < rows == (hd.b * hd.h) * hd.s,
                v.wf(),
                hd == heads_of(q@.dims),
                q@.data.len() == hd.len(),
                v@.data.len() == hd.len(),
                hd.len() == rows * hd.d,
                hd.len() <= usize::MAX,
                g == row as int / hd.s as int,
                i == row as int % hd.s as int,
                g < hd.b * hd.h,
                p@ == at.probs(g as int, i as int),
                at == attention_of(q@, k@, v@, mask_view(mask)),
                value == attention_value(q@, k@, v@, mask_view(mask)),
                out@.len() == row * hd.d + e,
                forall|t: int| 0 <= t < row * hd.d + e ==> out@[t] == value.data[t],
            decreases hd.d - e,
        {
            proof {
                lemma_head_split(hd, row as int, e as int);
                lemma_index2(row as int, rows as int, e as int, hd.d as int);
                lemma_mix_out(at, p@, g as int, i as int, e as int);
            }
            out.push(mix_at(&p, v.data(), hd, g, e));
            e = e + 1;
        }
        row = row + 1;
        proof {
            assert((row - 1) * hd.d + hd.d == row * hd.d) by (nonlinear_arith);
        }
    }
    assert(out@ =~= value.data);
    Dense::new(*q.shape(), out)
}

proof fn lemma_mix_out<S: Scalar>(at: Attention<S>, p: Seq<S>, g: int, i: int, e: int)
    requires
        p == at.probs(g, i),
    ensures
        mix(p, at.v, at.hd, g, e) == at.out(g, i, e),
{
    crate::math::lemma_fold_eq(
        at.hd.s as nat,
        zero::<S>(),
        mix_step(p, at.v, at.hd, g, e),
        at.out_step(g, i, e),
    );
}

pub proof fn lemma_rows_fit(hd: Heads)
    requires
        hd.len() <= usize::MAX,
        hd.d > 0,
        hd.s > 0,
    ensures
        (hd.b * hd.h) * hd.s <= usize::MAX,
        hd.b * hd.h <= usize::MAX,
        0 <= hd.b * hd.h,
{
    let a = hd.b * hd.h;
    let r = a * hd.s;
    assert(0 <= a) by (nonlinear_arith)
        requires
            a == hd.b * hd.h,
    ;
    assert(a <= r) by (nonlinear_arith)
        requires
            0 <= a,
            r == a * hd.s,
            hd.s >= 1,
    ;
    assert(r <= r * hd.d) by (nonlinear_arith)
        requires
            0 <= r,
            hd.d >= 1,
    ;
}

} // verus!
