//! Reordering of axes.
use vstd::prelude::*;
use crate::index::{
    bounded, coord_of, head_numel, in_bounds, lemma_clipped_id, lemma_flat_bound, lemma_head_numel,
    lemma_offset_row_major, nonzero, numel, offset, offset_upto, pinned, row_major, tail_fits,
};
use crate::shape::swapped_dims;

verus! {

/// `p` lists every axis below `n` once.
pub open spec fn is_permutation(p: Seq<usize>, n: nat) -> bool {
    &&& p.len() == n
    &&& forall|i: int| 0 <= i < n ==> (#[trigger] p[i]) < n
    &&& forall|i: int, j: int| 0 <= i < j < n ==> p[i] != p[j]
}

/// The entries of `d` in the order `p`.
pub open spec fn permuted<T>(d: Seq<T>, p: Seq<usize>) -> Seq<T> {
    Seq::new(p.len(), |i: int| d[p[i] as int])
}

/// The order that exchanges axes `i` and `j`.
pub open spec fn swap_order(n: nat, i: int, j: int) -> Seq<usize> {
    swapped_dims(Seq::new(n, |k: int| k as usize), i, j)
}

/// The sum (or product) of a sequence, from the first entry to the last.
pub open spec fn combine(s: Seq<nat>, product: bool) -> nat
    decreases s.len(),
{
    if s.len() == 0 {
        if product {
            1
        } else {
            0
        }
    } else if product {
        combine(s.drop_last(), product) * s.last()
    } else {
        combine(s.drop_last(), product) + s.last()
    }
}

proof fn lemma_combine_remove(s: Seq<nat>, j: int, product: bool)
    requires
        0 <= j < s.len(),
    ensures
        !product ==> combine(s, product) == combine(s.remove(j), product) + s[j],
        product ==> combine(s, product) == combine(s.remove(j), product) * s[j],
    decreases s.len(),
{
    if j == s.len() - 1 {
        assert(s.remove(j) =~= s.drop_last());
    } else {
        lemma_combine_remove(s.drop_last(), j, product);
        assert(s.remove(j).drop_last() =~= s.drop_last().remove(j));
        assert(s.remove(j).last() == s.last());
        if product {
            let a = combine(s.drop_last().remove(j), product) as int;
            let b = s[j] as int;
            let c = s.last() as int;
            assert((a * b) * c == (a * c) * b) by (nonlinear_arith);
        }
    }
}

/// Sums and products do not depend on the order of their terms.
pub proof fn lemma_combine_permuted(s: Seq<nat>, p: Seq<usize>, product: bool)
    requires
        is_permutation(p, s.len()),
    ensures
        combine(permuted(s, p), product) == combine(s, product),
    decreases s.len(),
{
    let n = s.len();
    if n == 0 {
        assert(permuted(s, p) =~= s);
    } else {
        lemma_hits(p, n, n - 1);
        let j = choose|j: int| 0 <= j < n && p[j] == n - 1;
        lemma_combine_remove(permuted(s, p), j, product);
        let q = p.remove(j);
        let t = s.drop_last();
        assert forall|i: int| 0 <= i < n - 1 implies (#[trigger] q[i]) < n - 1 by {
            let k = if i < j {
                i
            } else {
                i + 1
            };
            assert(q[i] == p[k]);
            if k < j {
                assert(p[k] != p[j]);
            } else {
                assert(p[j] != p[k]);
            }
        }
        assert forall|a: int, b: int| 0 <= a < b < n - 1 implies q[a] != q[b] by {
            let ka = if a < j {
                a
            } else {
                a + 1
            };
            let kb = if b < j {
                b
            } else {
                b + 1
            };
            assert(p[ka] != p[kb]);
        }
        assert(is_permutation(q, t.len()));
        lemma_combine_permuted(t, q, product);
        assert(permuted(s, p).remove(j) =~= permuted(t, q));
        assert(permuted(s, p)[j] == s.last());
    }
}

/// A permutation reaches every axis.
pub proof fn lemma_hits(p: Seq<usize>, n: nat, v: int)
    requires
        is_permutation(p, n),
        0 <= v < n,
    ensures
        exists|j: int| 0 <= j < n && p[j] == v,
{
    let ps = p.map_values(|x: usize| x as int);
    assert(ps.no_duplicates()) by {
        assert forall|i: int, j: int| 0 <= i < ps.len() && 0 <= j < ps.len() && i != j implies ps[i]
            != ps[j] by {
            if i < j {
                assert(p[i] != p[j]);
            } else {
                assert(p[j] != p[i]);
            }
        }
    }
    ps.unique_seq_to_set();
    let range = vstd::set_lib::set_int_range(0, n as int);
    vstd::set_lib::lemma_int_range(0, n as int);
    assert(ps.to_set().subset_of(range)) by {
        assert forall|x: int| ps.to_set().contains(x) implies range.contains(x) by {
            let i = choose|i: int| 0 <= i < ps.len() && ps[i] == x;
            assert(p[i] < n);
        }
    }
    vstd::set_lib::lemma_subset_equality(ps.to_set(), range);
    assert(ps.to_set().contains(v));
    let i = choose|i: int| 0 <= i < ps.len() && ps[i] == v;
    assert(p[i] == v);
}

/// The offset contributed by one axis.
pub open spec fn terms(c: Seq<usize>, d: Seq<usize>, s: Seq<usize>) -> Seq<nat> {
    Seq::new(d.len(), |k: int| pinned(c[k], d[k]) * (s[k] as nat))
}

proof fn lemma_offset_terms(c: Seq<usize>, d: Seq<usize>, s: Seq<usize>, n: int)
    requires
        c.len() == d.len(),
        s.len() == d.len(),
        0 <= n <= d.len(),
    ensures
        offset_upto(c, d, s, n) == combine(terms(c, d, s).take(n), false),
    decreases n,
{
    let t = terms(c, d, s);
    if n > 0 {
        lemma_offset_terms(c, d, s, n - 1);
        assert(t.take(n).drop_last() =~= t.take(n - 1));
        assert(t.take(n).last() == t[n - 1]);
    }
}

/// Reordering the axes of a coordinate and of the view together reads the same place.
pub proof fn lemma_offset_permuted(
    c: Seq<usize>,
    d: Seq<usize>,
    s: Seq<usize>,
    p: Seq<usize>,
)
    requires
        c.len() == d.len(),
        s.len() == d.len(),
        is_permutation(p, d.len()),
    ensures
        offset(permuted(c, p), permuted(d, p), permuted(s, p)) == offset(c, d, s),
{
    let n = d.len() as int;
    lemma_offset_terms(c, d, s, n);
    lemma_offset_terms(permuted(c, p), permuted(d, p), permuted(s, p), n);
    let t = terms(c, d, s);
    assert(t.take(n) =~= t);
    let u = terms(permuted(c, p), permuted(d, p), permuted(s, p));
    assert(u.take(n) =~= u);
    assert(u =~= permuted(t, p));
    lemma_combine_permuted(t, p, false);
}

proof fn lemma_numel_combine(d: Seq<usize>, n: int)
    requires
        0 <= n <= d.len(),
    ensures
        head_numel(d, n) == combine(d.map_values(|x: usize| x as nat).take(n), true),
    decreases n,
{
    let t = d.map_values(|x: usize| x as nat);
    if n > 0 {
        lemma_numel_combine(d, n - 1);
        assert(t.take(n).drop_last() =~= t.take(n - 1));
        assert(t.take(n).last() == t[n - 1]);
    }
}

/// Reordering the axes keeps the element count.
pub proof fn lemma_numel_permuted(d: Seq<usize>, p: Seq<usize>)
    requires
        is_permutation(p, d.len()),
    ensures
        numel(permuted(d, p)) == numel(d),
{
    let e = permuted(d, p);
    let n = d.len() as int;
    lemma_head_numel(d);
    lemma_head_numel(e);
    lemma_numel_combine(d, n);
    lemma_numel_combine(e, n);
    let t = d.map_values(|x: usize| x as nat);
    let u = e.map_values(|x: usize| x as nat);
    assert(t.take(n) =~= t);
    assert(u.take(n) =~= u);
    assert(u =~= permuted(t, p));
    lemma_combine_permuted(t, p, true);
}

pub proof fn lemma_bounded_permuted(d: Seq<usize>, p: Seq<usize>)
    requires
        is_permutation(p, d.len()),
        bounded(d),
    ensures
        bounded(permuted(d, p)),
{
    assert(nonzero(permuted(d, p)) =~= permuted(nonzero(d), p));
    lemma_numel_permuted(nonzero(d), p);
}

/// The order that undoes `p`.
pub open spec fn is_inverse(q: Seq<usize>, p: Seq<usize>) -> bool {
    &&& q.len() == p.len()
    &&& forall|i: int| 0 <= i < p.len() ==> #[trigger] q[p[i] as int] == i
}

/// The inverse of an order is an order, and undoes it from both sides.
pub proof fn lemma_inverse(p: Seq<usize>, q: Seq<usize>)
    requires
        is_permutation(p, p.len()),
        is_inverse(q, p),
    ensures
        is_permutation(q, p.len()),
        is_inverse(p, q),
{
    let n = p.len();
    assert forall|i: int| 0 <= i < n implies (#[trigger] q[i]) < n && p[q[i] as int] == i by {
        lemma_hits(p, n, i);
        let j = choose|j: int| 0 <= j < n && p[j] == i;
        assert(q[p[j] as int] == j);
    }
    assert forall|i: int, j: int| 0 <= i < j < n implies q[i] != q[j] by {
        assert(p[q[i] as int] == i);
        assert(p[q[j] as int] == j);
    }
}

/// Applying an order and its inverse leaves everything in place.
pub proof fn law_permute_inverse<T>(d: Seq<T>, p: Seq<usize>, q: Seq<usize>)
    requires
        is_permutation(p, d.len()),
        is_inverse(q, p),
    ensures
        permuted(permuted(d, p), q) == d,
{
    lemma_inverse(p, q);
    assert(permuted(permuted(d, p), q) =~= d);
}

/// Exchanging two axes is a reordering, and its own inverse.
pub proof fn lemma_swap_order(n: nat, i: int, j: int)
    requires
        0 <= i < n,
        0 <= j < n,
        n <= 8,
    ensures
        is_permutation(swap_order(n, i, j), n),
        is_inverse(swap_order(n, i, j), swap_order(n, i, j)),
{
}

pub proof fn lemma_swapped_is_permuted<T>(d: Seq<T>, i: int, j: int)
    requires
        0 <= i < d.len(),
        0 <= j < d.len(),
        d.len() <= 8,
    ensures
        swapped_dims(d, i, j) == permuted(d, swap_order(d.len(), i, j)),
{
    assert(swapped_dims(d, i, j) =~= permuted(d, swap_order(d.len(), i, j)));
}

/// Exchanging two axes twice leaves everything in place.
pub proof fn law_swap_involution<T>(d: Seq<T>, i: int, j: int)
    requires
        0 <= i < d.len(),
        0 <= j < d.len(),
    ensures
        swapped_dims(swapped_dims(d, i, j), i, j) == d,
{
    assert(swapped_dims(swapped_dims(d, i, j), i, j) =~= d);
}

/// The elements of `src` that a view with extents `d` and strides `s` shows, in row-major order.
pub open spec fn strided<T>(src: Seq<T>, d: Seq<usize>, s: Seq<usize>) -> Seq<T> {
    Seq::new(numel(d), |i: int| src[offset(coord_of(i as nat, d), d, s) as int])
}

/// Every coordinate of a view with extents `d` and strides `s` lies below `len` in storage.
pub open spec fn fits_storage(d: Seq<usize>, s: Seq<usize>, len: nat) -> bool {
    forall|c: Seq<usize>| in_bounds(c, d) ==> #[trigger] offset(c, d, s) < len
}

/// A row-major view shows its storage as it is.
pub proof fn lemma_strided_row_major<T>(src: Seq<T>, d: Seq<usize>)
    requires
        tail_fits(d),
        src.len() == numel(d),
    ensures
        strided(src, d, row_major(d)) == src,
        fits_storage(d, row_major(d), numel(d)),
{
    assert forall|i: int| 0 <= i < numel(d) implies strided(src, d, row_major(d))[i] == src[i] by {
        crate::index::lemma_offset_of_coord(i as nat, d);
    }
    assert(strided(src, d, row_major(d)) =~= src);
    assert forall|c: Seq<usize>| in_bounds(c, d) implies #[trigger] offset(c, d, row_major(d))
        < numel(d) by {
        lemma_offset_row_major(c, d);
        lemma_clipped_id(c, d);
        lemma_flat_bound(c, d, 0);
    }
}

/// A coordinate of the reordered view is a reordered coordinate of the view.
pub proof fn lemma_unpermuted(c: Seq<usize>, d: Seq<usize>, p: Seq<usize>) -> (b: Seq<usize>)
    requires
        d.len() <= 8,
        is_permutation(p, d.len()),
        in_bounds(c, permuted(d, p)),
    ensures
        in_bounds(b, d),
        permuted(b, p) == c,
{
    let n = d.len();
    let q = Seq::new(
        n,
        |v: int| (choose|j: int| 0 <= j < n && p[j] == v) as usize,
    );
    assert forall|i: int| 0 <= i < n implies #[trigger] q[p[i] as int] == i by {
        let v = p[i] as int;
        assert(exists|j: int| 0 <= j < n && p[j] == v);
        let j = choose|j: int| 0 <= j < n && p[j] == v;
        if j < i {
            assert(p[j] != p[i]);
        } else if i < j {
            assert(p[i] != p[j]);
        }
    }
    lemma_inverse(p, q);
    let b = permuted(c, q);
    assert forall|k: int| 0 <= k < n implies #[trigger] b[k] < d[k] by {
        let i = q[k] as int;
        assert(p[i] == k);
        assert(c[i] < permuted(d, p)[i]);
    }
    assert(permuted(b, p) =~= c);
    b
}

} // verus!
