//! What the operations compute, entry by entry.
use vstd::prelude::*;
use crate::autograd::exact::{exact, lemma_add, lemma_derived, lemma_fold_total, total};
use crate::broadcast::{law_broadcast_absorbs, law_broadcast_self};
use crate::cpu::elementwise::{stretched, zip_value, BinaryOp};
use crate::cpu::matmul::{
    batch_dims, batch_of, cols, lemma_stack_numel, matmul_ok, matmul_step, matmul_value, rows,
};
use crate::cpu::reduce::{
    inner, lemma_axis_numel, line_at, line_sum, mean_value, outer, sum_step, sum_value,
};
use crate::dense::Value;
use crate::index::{
    bounded, clipped, coord_of, flat, in_bounds, lemma_bounded_fits, lemma_clipped_id,
    lemma_coord_of_flat, lemma_coord_of_tail, lemma_flat_of_coord, lemma_offset_of_coord,
    lemma_offset_row_major, numel, offset, row_major, tail_flat, tail_numel,
};
use crate::math::{lemma_index2, lemma_join2};
use crate::perm::{is_permutation, lemma_offset_permuted, permuted};
use crate::scalar::{one, zero, Scalar};
use crate::shape::{broadcast_dims, broadcasts_to, stretches_at};
use crate::views::permute_value;

verus! {

/// The last axes of a shape are those of another.
pub open spec fn ends_with(d: Seq<usize>, a: Seq<usize>) -> bool {
    &&& a.len() <= d.len()
    &&& forall|k: int| 0 <= k < a.len() ==> #[trigger] a[k] == d[d.len() - a.len() + k]
}

/// Positions within the last axes.
proof fn lemma_tail_same(c: Seq<usize>, d: Seq<usize>, e: Seq<usize>, a: Seq<usize>, k: int)
    requires
        ends_with(d, a),
        c.len() == d.len(),
        e.len() == a.len(),
        forall|t: int| 0 <= t < a.len() ==> #[trigger] e[t] == c[d.len() - a.len() + t],
        0 <= k <= a.len(),
    ensures
        tail_numel(a, k) == tail_numel(d, d.len() - a.len() + k),
        tail_flat(e, a, k) == tail_flat(c, d, d.len() - a.len() + k),
    decreases a.len() - k,
{
    if k < a.len() {
        lemma_tail_same(c, d, e, a, k + 1);
        assert(a[k] == d[d.len() - a.len() + k]);
        assert(e[k] == c[d.len() - a.len() + k]);
    }
}

/// A value whose extents are the last ones of a shape is repeated over the others.
pub proof fn law_stretched_repeats<S>(a: Value<S>, dims: Seq<usize>, i: int)
    requires
        a.wf(),
        ends_with(dims, a.dims),
        0 <= i < numel(dims),
    ensures
        numel(a.dims) > 0,
        stretched(a, dims, i) == a.data[i % numel(a.dims) as int],
{
    let d = a.dims;
    let c = coord_of(i as nat, dims);
    let at = dims.len() - d.len();
    lemma_flat_of_coord(i as nat, dims);
    lemma_bounded_fits(d);
    lemma_offset_row_major(c, d);
    let e = clipped(c, d);
    assert forall|k: int| 0 <= k < d.len() implies #[trigger] e[k] == c[at + k] by {
        assert(d[k] == dims[at + k]);
        assert(c[at + k] < dims[at + k]);
    }
    lemma_tail_same(c, dims, e, d, 0);
    lemma_coord_of_tail(i as nat, dims, at);
    crate::index::lemma_tail_numel_positive(dims, at);
}

/// Operands of one shape are combined element by element; an operand whose extents are the last
/// ones of the other is repeated.
pub proof fn law_zip_entry<S: Scalar>(a: Value<S>, b: Value<S>, op: BinaryOp, i: int)
    requires
        a.wf(),
        b.wf(),
        ends_with(a.dims, b.dims),
        0 <= i < a.data.len(),
    ensures
        ({
            let y = zip_value(a, b, op);
            let z = b.data[i % numel(b.dims) as int];
            &&& y.wf()
            &&& y.dims == a.dims
            &&& op == BinaryOp::Add ==> y.data[i] == S::add_spec(a.data[i], z)
            &&& op == BinaryOp::Sub ==> y.data[i] == S::sub_spec(a.data[i], z)
            &&& op == BinaryOp::Mul ==> y.data[i] == S::mul_spec(a.data[i], z)
            &&& op == BinaryOp::Div ==> y.data[i] == S::div_spec(a.data[i], z)
        }),
{
    let (d, e) = (a.dims, b.dims);
    assert forall|k: int| 0 <= k < e.len() implies #[trigger] stretches_at(e, d, k) by {
        assert(e[e.len() - 1 - k] == d[d.len() - e.len() + (e.len() - 1 - k)]);
    }
    assert(broadcasts_to(e, d));
    law_broadcast_absorbs(e, d);
    lemma_bounded_fits(d);
    lemma_offset_of_coord(i as nat, d);
    law_stretched_repeats(b, d, i);
}

/// Reordering axes: the element at a coordinate is found at the coordinate with its entries in
/// the new order.
pub proof fn law_permute_entry<S>(v: Value<S>, p: Seq<usize>, c: Seq<usize>)
    requires
        v.wf(),
        is_permutation(p, v.dims.len()),
        in_bounds(c, v.dims),
    ensures
        in_bounds(permuted(c, p), permuted(v.dims, p)),
        flat(permuted(c, p), permuted(v.dims, p)) < permute_value(v, p).data.len(),
        permute_value(v, p).dims == permuted(v.dims, p),
        permute_value(v, p).data[flat(permuted(c, p), permuted(v.dims, p)) as int]
            == v.data[flat(c, v.dims) as int],
{
    let d = v.dims;
    let e = permuted(d, p);
    let b = permuted(c, p);
    assert forall|k: int| 0 <= k < e.len() implies #[trigger] b[k] < e[k] by {
        assert(c[p[k] as int] < d[p[k] as int]);
    }
    lemma_coord_of_flat(b, e);
    lemma_bounded_fits(d);
    lemma_offset_permuted(c, d, row_major(d), p);
    lemma_offset_row_major(c, d);
    lemma_clipped_id(c, d);
}

/// A matrix product: every entry is the sum of the products of a row of the left matrix with a
/// column of the right one. The right operand is one matrix for all, or one for each.
pub proof fn law_matmul_entry<S: Scalar>(a: Value<S>, b: Value<S>, l: int, i: int, j: int)
    requires
        exact::<S>(),
        a.wf(),
        b.wf(),
        matmul_ok(a, b),
        b.dims.len() == 2 || batch_dims(b.dims) == batch_dims(a.dims),
        0 <= l < numel(batch_dims(a.dims)),
        0 <= i < rows(a.dims),
        0 <= j < cols(b.dims),
    ensures
        ({
            let (m, k, n) = (rows(a.dims) as int, cols(a.dims) as int, cols(b.dims) as int);
            let lb = if b.dims.len() == 2 {
                0
            } else {
                l
            };
            let y = matmul_value(a, b);
            &&& y.dims == batch_dims(a.dims).push(rows(a.dims)).push(cols(b.dims))
            &&& 0 <= (l * m + i) * n + j < y.data.len()
            &&& y.data[(l * m + i) * n + j] == total(
                k as nat,
                |t: int|
                    S::mul_spec(a.data[(l * m + i) * k + t], b.data[(lb * k + t) * n + j]),
            )
        }),
{
    let (m, k, n) = (rows(a.dims) as int, cols(a.dims) as int, cols(b.dims) as int);
    let lead = batch_dims(a.dims);
    let own = batch_dims(b.dims);
    let lb = if b.dims.len() == 2 {
        0
    } else {
        l
    };
    let y = matmul_value(a, b);
    crate::cpu::matmul::lemma_batch_bounded(a.dims);
    lemma_bounded_fits(lead);
    law_broadcast_self(lead);
    if b.dims.len() == 2 {
        assert(own =~= Seq::<usize>::empty());
        assert(broadcasts_to(own, lead));
        law_broadcast_absorbs(own, lead);
    }
    let common = broadcast_dims(lead, own);
    assert(common == lead);
    lemma_offset_of_coord(l as nat, lead);
    assert(batch_of(lead, common, l) == l);
    if b.dims.len() == 2 {
        assert(offset(coord_of(l as nat, common), own, row_major(own)) == 0);
    }
    assert(batch_of(own, common, l) == lb);
    lemma_stack_numel(y.dims);
    assert(batch_dims(y.dims) =~= lead);
    lemma_index2(l, numel(lead) as int, i, m);
    lemma_index2(l * m + i, numel(lead) * m, j, n);
    lemma_join2(l * m + i, j, n);
    lemma_join2(l, i, m);
    let step = matmul_step(a, b, l, lb, i, j);
    let f = |t: int| S::mul_spec(a.data[(l * m + i) * k + t], b.data[(lb * k + t) * n + j]);
    assert forall|t: int, acc: S| 0 <= t < k implies #[trigger] step(t, acc) == S::add_spec(
        acc,
        f(t),
    ) by {
        lemma_derived(a.data[(l * m + i) * k + t], b.data[(lb * k + t) * n + j], acc);
        lemma_add(acc, f(t), zero());
    }
    lemma_fold_total(k as nat, step, f);
}

/// A sum over an axis adds up the entries of each line, and a mean, times their number, is that
/// sum.
pub proof fn law_sum_entry<S: Scalar>(x: Value<S>, dim: int, keep_dim: bool, p: int)
    requires
        exact::<S>(),
        x.wf(),
        0 <= dim < x.dims.len(),
        0 <= p < outer(x.dims, dim) * inner(x.dims, dim),
    ensures
        ({
            let y = sum_value(x, dim, keep_dim);
            let z = mean_value(x, dim, keep_dim);
            let count = S::count_spec(x.dims[dim]);
            &&& p < y.data.len()
            &&& y.data[p] == total(x.dims[dim] as nat, |k: int| line_at(x, dim, p, k))
            &&& crate::autograd::ring::invertible(count) ==> S::mul_spec(z.data[p], count)
                == y.data[p]
        }),
{
    lemma_axis_numel(x.dims, dim, keep_dim);
    let f = |k: int| line_at(x, dim, p, k);
    lemma_fold_total(x.dims[dim] as nat, sum_step(x, dim, p), f);
    let count = S::count_spec(x.dims[dim]);
    if crate::autograd::ring::invertible(count) {
        crate::autograd::ring::lemma_inverse(line_sum(x, dim, p), count);
    }
}

/// Broadcasting: at a coordinate an operand shows its element at the same coordinate, counted from
/// the last axis, with 0 along the axes where its extent is 1.
pub proof fn law_broadcast_entry<S>(a: Value<S>, dims: Seq<usize>, c: Seq<usize>)
    requires
        a.wf(),
        broadcasts_to(a.dims, dims),
        in_bounds(c, dims),
    ensures
        ({
            let at = dims.len() - a.dims.len();
            let e = Seq::new(
                a.dims.len(),
                |k: int|
                    if a.dims[k] == 1 {
                        0usize
                    } else {
                        c[at + k]
                    },
            );
            &&& in_bounds(e, a.dims)
            &&& stretched(a, dims, flat(c, dims) as int) == a.data[flat(e, a.dims) as int]
        }),
{
    let d = a.dims;
    let at = dims.len() - d.len();
    let e = Seq::new(
        d.len(),
        |k: int|
            if d[k] == 1 {
                0usize
            } else {
                c[at + k]
            },
    );
    lemma_bounded_fits(d);
    lemma_coord_of_flat(c, dims);
    lemma_offset_row_major(c, d);
    assert(clipped(c, d) =~= e);
    crate::cpu::elementwise::lemma_stretched_bound(d, dims, c);
}

/// A stack of matrices that is broadcast over another is read at the same batch coordinate,
/// counted from the last batch axis, with 0 along the axes where its extent is 1.
pub proof fn law_batch_broadcast(own: Seq<usize>, common: Seq<usize>, c: Seq<usize>)
    requires
        bounded(own),
        broadcasts_to(own, common),
        in_bounds(c, common),
    ensures
        ({
            let at = common.len() - own.len();
            let e = Seq::new(
                own.len(),
                |k: int|
                    if own[k] == 1 {
                        0usize
                    } else {
                        c[at + k]
                    },
            );
            batch_of(own, common, flat(c, common) as int) == flat(e, own)
        }),
{
    let at = common.len() - own.len();
    let e = Seq::new(
        own.len(),
        |k: int|
            if own[k] == 1 {
                0usize
            } else {
                c[at + k]
            },
    );
    lemma_bounded_fits(own);
    lemma_coord_of_flat(c, common);
    lemma_offset_row_major(c, own);
    assert(clipped(c, own) =~= e);
}

} // verus!
