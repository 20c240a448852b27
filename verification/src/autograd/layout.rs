//! Arrays with their axes reordered.
use vstd::prelude::*;
use crate::dense::{copied, Dense};
use crate::handle::gather;
use crate::index::{bounded, lemma_bounded_fits, numel, row_major};
use crate::perm::{
    is_inverse, is_permutation, lemma_bounded_permuted, lemma_hits, lemma_inverse,
    lemma_numel_permuted, lemma_strided_row_major, lemma_swap_order, lemma_swapped_is_permuted,
    swap_order,
};
use crate::scalar::Scalar;
use crate::shape::Shape;
use crate::views::{lemma_fits_permuted, permute_value, reorder, reshape_value, transpose_value};

verus! {

/// The same elements with other extents.
pub fn reshape<S: Scalar>(x: &Dense<S>, shape: &Shape) -> (r: Dense<S>)
    requires
        x.wf(),
        bounded(shape@),
        numel(shape@) == numel(x@.dims),
    ensures
        r.wf(),
        r@ == reshape_value(x@, shape@),
{
    Dense::new(*shape, copied(x.data()))
}

/// The array with its axes in the order `axes`.
pub fn permute<S: Scalar>(x: &Dense<S>, axes: &[usize]) -> (r: Dense<S>)
    requires
        x.wf(),
        is_permutation(axes@, x@.dims.len()),
    ensures
        r.wf(),
        r@ == permute_value(x@, axes@),
{
    let ghost d = x@.dims;
    proof {
        lemma_bounded_fits(d);
        lemma_strided_row_major(x@.data, d);
        lemma_bounded_permuted(d, axes@);
        lemma_numel_permuted(d, axes@);
        lemma_fits_permuted(d, row_major(d), axes@, numel(d));
    }
    let shape = reorder(x.shape(), axes);
    let own = x.shape().contiguous_strides();
    let strides = reorder(&own, axes);
    let data = gather(x.data(), &shape, &strides);
    Dense::new(shape, data)
}

/// The array with axes `i` and `j` exchanged.
pub fn transpose<S: Scalar>(x: &Dense<S>, i: usize, j: usize) -> (r: Dense<S>)
    requires
        x.wf(),
        i < x@.dims.len(),
        j < x@.dims.len(),
    ensures
        r.wf(),
        r@ == transpose_value(x@, i as int, j as int),
{
    let ghost d = x@.dims;
    let ghost p = swap_order(d.len(), i as int, j as int);
    proof {
        lemma_bounded_fits(d);
        lemma_strided_row_major(x@.data, d);
        lemma_swap_order(d.len(), i as int, j as int);
        lemma_swapped_is_permuted(d, i as int, j as int);
        lemma_swapped_is_permuted(row_major(d), i as int, j as int);
        lemma_bounded_permuted(d, p);
        lemma_numel_permuted(d, p);
        lemma_fits_permuted(d, row_major(d), p, numel(d));
    }
    let shape = x.shape().swapped(i, j);
    let own = x.shape().contiguous_strides();
    let strides = own.swapped(i, j);
    let data = gather(x.data(), &shape, &strides);
    Dense::new(shape, data)
}

/// The order that undoes `p`.
pub open spec fn inverse_of(p: Seq<usize>) -> Seq<usize> {
    Seq::new(p.len(), |v: int| p.index_of(v as usize) as usize)
}

/// `inverse_of` undoes a permutation.
pub proof fn lemma_inverse_of(p: Seq<usize>)
    requires
        p.len() <= usize::MAX,
        is_permutation(p, p.len()),
    ensures
        is_inverse(inverse_of(p), p),
        is_permutation(inverse_of(p), p.len()),
{
    let q = inverse_of(p);
    assert forall|i: int| 0 <= i < p.len() implies q[p[i] as int] == i by {
        assert(p.contains(p[i]));
        let j = p.index_of(p[i]);
        assert(p[j] == p[i]);
        if j < i {
            assert(p[j] != p[i]);
        } else if i < j {
            assert(p[i] != p[j]);
        }
    }
    lemma_inverse(p, q);
}

/// The order that undoes `axes`.
pub(crate) fn inverse_axes(axes: &[usize]) -> (r: Vec<usize>)
    requires
        is_permutation(axes@, axes@.len()),
    ensures
        r@ == inverse_of(axes@),
        is_permutation(r@, axes@.len()),
{
    let n: usize = axes.len();
    let mut out: Vec<usize> = crate::dense::filled(n, 0usize);
    let mut i: usize = 0;
    while i < n
        invariant
            i <= n == axes@.len(),
            is_permutation(axes@, n as nat),
            out@.len() == n,
            forall|k: int| 0 <= k < i ==> out@[axes@[k] as int] == k,
        decreases n - i,
    {
        assert(axes@[i as int] < n);
        let ghost prev = out@;
        out[axes[i]] = i;
        proof {
            assert forall|k: int| 0 <= k < i + 1 implies out@[axes@[k] as int] == k by {
                if k < i {
                    assert(axes@[k] != axes@[i as int]);
                    assert(axes@[k] < n);
                    assert(prev[axes@[k] as int] == k);
                }
            }
        }
        i = i + 1;
    }
    proof {
        lemma_inverse_of(axes@);
        let q = inverse_of(axes@);
        assert forall|v: int| 0 <= v < n implies out@[v] == q[v] by {
            lemma_hits(axes@, n as nat, v);
            let j = choose|j: int| 0 <= j < n && axes@[j] == v;
            assert(out@[axes@[j] as int] == j);
            assert(q[axes@[j] as int] == j);
        }
        assert(out@ =~= q);
    }
    out
}

} // verus!
