//! The arithmetic of row-major indexing: element counts, coordinates and flat positions.
use vstd::prelude::*;
use vstd::arithmetic::div_mod::{
    lemma_fundamental_div_mod, lemma_fundamental_div_mod_converse, lemma_mod_breakdown,
    lemma_mod_multiples_vanish, lemma_small_mod,
};
use vstd::arithmetic::mul::{
    lemma_mul_basics, lemma_mul_is_associative, lemma_mul_is_commutative,
    lemma_mul_strictly_positive,
};

verus! {

/// The number of elements spanned by the extents of `d` from axis `k` on.
pub open spec fn tail_numel(d: Seq<usize>, k: int) -> nat
    decreases d.len() - k,
{
    if k < 0 || k >= d.len() {
        1
    } else {
        (d[k] as nat) * tail_numel(d, k + 1)
    }
}

/// The number of elements of a shape with extents `d`; the empty shape has one.
pub open spec fn numel(d: Seq<usize>) -> nat {
    tail_numel(d, 0)
}

/// The product of the first `n` extents of `d`.
pub open spec fn head_numel(d: Seq<usize>, n: int) -> nat
    decreases n,
{
    if n <= 0 {
        1
    } else {
        head_numel(d, n - 1) * (d[n - 1] as nat)
    }
}

/// Multiplying the extents from the left never leaves the machine word.
pub open spec fn head_fits(d: Seq<usize>) -> bool {
    forall|n: int| 0 <= n <= d.len() ==> #[trigger] head_numel(d, n) <= usize::MAX
}

/// Multiplying the extents from the right never leaves the machine word.
pub open spec fn tail_fits(d: Seq<usize>) -> bool {
    forall|k: int| 0 <= k <= d.len() ==> #[trigger] tail_numel(d, k) <= usize::MAX
}

/// The extents of `d` with every zero replaced by one.
pub open spec fn nonzero(d: Seq<usize>) -> Seq<usize> {
    Seq::new(d.len(), |k: int| if d[k] == 0 { 1usize } else { d[k] })
}

/// The product of the nonzero extents fits the machine word.
pub open spec fn bounded(d: Seq<usize>) -> bool {
    numel(nonzero(d)) <= usize::MAX
}

/// Multiplying the extents, from the left or from the right, never leaves the machine word: so
/// where the product of the nonzero extents fits, and so with many a shape without elements.
pub open spec fn sized(d: Seq<usize>) -> bool {
    bounded(d) || (head_fits(d) && tail_fits(d))
}

/// The row-major strides of a shape with extents `d`.
pub open spec fn row_major(d: Seq<usize>) -> Seq<usize> {
    Seq::new(d.len(), |k: int| tail_numel(d, k + 1) as usize)
}

/// `c` names an element of a shape with extents `d`.
pub open spec fn in_bounds(c: Seq<usize>, d: Seq<usize>) -> bool {
    &&& c.len() == d.len()
    &&& forall|k: int| 0 <= k < d.len() ==> #[trigger] c[k] < d[k]
}

/// The row-major position of coordinate `c` among the axes of `d` from `k` on.
pub open spec fn tail_flat(c: Seq<usize>, d: Seq<usize>, k: int) -> nat
    decreases d.len() - k,
{
    if k < 0 || k >= d.len() {
        0
    } else {
        (c[k] as nat) * tail_numel(d, k + 1) + tail_flat(c, d, k + 1)
    }
}

/// The row-major position of coordinate `c` in a shape with extents `d`.
pub open spec fn flat(c: Seq<usize>, d: Seq<usize>) -> nat {
    tail_flat(c, d, 0)
}

/// The coordinate at row-major position `i` of a shape with extents `d`.
pub open spec fn coord_of(i: nat, d: Seq<usize>) -> Seq<usize> {
    Seq::new(d.len(), |k: int| ((i / tail_numel(d, k + 1)) % (d[k] as nat)) as usize)
}

/// The coordinate that a broadcast axis of extent `dim` reads for `c`.
pub open spec fn pinned(c: usize, dim: usize) -> nat {
    if dim == 1 {
        0
    } else {
        c as nat
    }
}

/// The storage offset contributed by the first `n` axes of a view with extents `d` and strides
/// `s`, for a coordinate `c` that is aligned with the view at its last axis.
pub open spec fn offset_upto(c: Seq<usize>, d: Seq<usize>, s: Seq<usize>, n: int) -> nat
    decreases n,
{
    if n <= 0 {
        0
    } else {
        offset_upto(c, d, s, n - 1) + pinned(c[c.len() - d.len() + n - 1], d[n - 1]) * (s[n
            - 1] as nat)
    }
}

/// The storage offset of coordinate `c` in a view with extents `d` and strides `s`.
pub open spec fn offset(c: Seq<usize>, d: Seq<usize>, s: Seq<usize>) -> nat {
    offset_upto(c, d, s, d.len() as int)
}

pub proof fn lemma_tail_numel_positive(d: Seq<usize>, k: int)
    requires
        0 <= k <= d.len(),
        numel(d) > 0,
    ensures
        tail_numel(d, k) > 0,
        k < d.len() ==> d[k] > 0,
    decreases k,
{
    if k > 0 {
        lemma_tail_numel_positive(d, k - 1);
        let a = d[k - 1] as int;
        let b = tail_numel(d, k) as int;
        assert(a * b > 0);
        if b == 0 {
            assert(a * b == 0) by (nonlinear_arith)
                requires
                    b == 0,
            ;
        }
    }
    if k < d.len() && d[k] == 0 {
        let b = tail_numel(d, k + 1) as int;
        assert(0 * b == 0) by (nonlinear_arith);
    }
}

/// A shape has an element exactly when none of its extents is zero.
pub proof fn lemma_numel_zero(d: Seq<usize>)
    ensures
        numel(d) == 0 <==> exists|k: int| 0 <= k < d.len() && d[k] == 0,
{
    if numel(d) > 0 {
        assert forall|k: int| 0 <= k < d.len() implies d[k] != 0 by {
            lemma_tail_numel_positive(d, k);
        }
    } else {
        if forall|k: int| 0 <= k < d.len() ==> d[k] != 0 {
            lemma_tail_numel_of_positive(d, 0);
        }
    }
}

pub proof fn lemma_tail_numel_of_positive(d: Seq<usize>, k: int)
    requires
        0 <= k <= d.len(),
        forall|j: int| k <= j < d.len() ==> d[j] > 0,
    ensures
        tail_numel(d, k) > 0,
    decreases d.len() - k,
{
    if k < d.len() {
        lemma_tail_numel_of_positive(d, k + 1);
        lemma_mul_strictly_positive(d[k] as int, tail_numel(d, k + 1) as int);
    }
}

/// The product of the extents taken from the left is the product taken from the right.
pub proof fn lemma_head_times_tail(d: Seq<usize>, n: int)
    requires
        0 <= n <= d.len(),
    ensures
        head_numel(d, n) * tail_numel(d, n) == numel(d),
    decreases n,
{
    if n > 0 {
        lemma_head_times_tail(d, n - 1);
        lemma_mul_is_associative(
            head_numel(d, n - 1) as int,
            d[n - 1] as int,
            tail_numel(d, n) as int,
        );
    } else {
        lemma_mul_basics(numel(d) as int);
    }
}

pub proof fn lemma_head_numel(d: Seq<usize>)
    ensures
        head_numel(d, d.len() as int) == numel(d),
{
    lemma_head_times_tail(d, d.len() as int);
    lemma_mul_basics(head_numel(d, d.len() as int) as int);
}

/// A coordinate within bounds lies strictly below the element count.
pub proof fn lemma_flat_bound(c: Seq<usize>, d: Seq<usize>, k: int)
    requires
        in_bounds(c, d),
        0 <= k <= d.len(),
    ensures
        tail_flat(c, d, k) < tail_numel(d, k),
    decreases d.len() - k,
{
    if k < d.len() {
        lemma_flat_bound(c, d, k + 1);
        let p = tail_numel(d, k + 1) as int;
        let ck = c[k] as int;
        let dk = d[k] as int;
        let t = tail_flat(c, d, k + 1) as int;
        assert(c[k] < d[k]);
        assert(ck * p + t < dk * p) by (nonlinear_arith)
            requires
                ck + 1 <= dk,
                0 <= t < p,
                0 <= ck,
        ;
    }
}

pub proof fn lemma_coord_of_tail(i: nat, d: Seq<usize>, k: int)
    requires
        0 <= k <= d.len(),
        numel(d) > 0,
    ensures
        tail_flat(coord_of(i, d), d, k) == i % tail_numel(d, k),
    decreases d.len() - k,
{
    lemma_tail_numel_positive(d, k);
    if k < d.len() {
        lemma_tail_numel_positive(d, k + 1);
        lemma_coord_of_tail(i, d, k + 1);
        let p = tail_numel(d, k + 1) as int;
        let dk = d[k] as int;
        lemma_mod_breakdown(i as int, p, dk);
        lemma_mul_is_commutative(p, dk);
        lemma_mul_is_commutative(p, (i as int / p) % dk);
        assert((i as int / p) % dk < dk);
        assert(coord_of(i, d)[k] as int == (i as int / p) % dk);
    } else {
        assert(i % 1 == 0);
    }
}

/// Each position below the element count is the position of its own coordinate.
pub proof fn lemma_flat_of_coord(i: nat, d: Seq<usize>)
    requires
        i < numel(d),
    ensures
        in_bounds(coord_of(i, d), d),
        flat(coord_of(i, d), d) == i,
{
    lemma_coord_of_tail(i, d, 0);
    lemma_small_mod(i, numel(d));
    let c = coord_of(i, d);
    assert forall|k: int| 0 <= k < d.len() implies #[trigger] c[k] < d[k] by {
        lemma_tail_numel_positive(d, k);
        let q = i / tail_numel(d, k + 1);
        assert(q % (d[k] as nat) < d[k]);
    }
}

proof fn lemma_coord_of_flat_tail(c: Seq<usize>, d: Seq<usize>, j: int, k: int)
    requires
        in_bounds(c, d),
        0 <= j <= k < d.len(),
    ensures
        (tail_flat(c, d, j) / tail_numel(d, k + 1)) % (d[k] as nat) == c[k],
    decreases k - j,
{
    lemma_flat_bound(c, d, 0);
    lemma_tail_numel_positive(d, k);
    lemma_tail_numel_positive(d, k + 1);
    let p = tail_numel(d, k + 1) as int;
    let dk = d[k] as int;
    if j == k {
        lemma_flat_bound(c, d, k + 1);
        let t = tail_flat(c, d, k + 1) as int;
        lemma_fundamental_div_mod_converse(tail_flat(c, d, k) as int, p, c[k] as int, t);
        assert(c[k] < d[k]);
        lemma_small_mod(c[k] as nat, d[k] as nat);
    } else {
        lemma_coord_of_flat_tail(c, d, j + 1, k);
        // The axis `j` contributes a multiple of `d[k] * p`.
        lemma_tail_numel_divides(d, j + 1, k);
        let m = choose|m: nat| tail_numel(d, j + 1) == #[trigger] (m * tail_numel(d, k));
        let t = tail_flat(c, d, j + 1) as int;
        let x = c[j] as int * m as int;
        assert(c[j] as int * tail_numel(d, j + 1) as int == x * (dk * p)) by (nonlinear_arith)
            requires
                tail_numel(d, j + 1) as int == m as int * (dk * p),
                x == c[j] as int * m as int,
        ;
        let q = t / p;
        lemma_fundamental_div_mod(t, p);
        assert((x * (dk * p) + t) == (x * dk + q) * p + t % p) by (nonlinear_arith)
            requires
                t == p * q + t % p,
        ;
        lemma_fundamental_div_mod_converse(x * (dk * p) + t, p, x * dk + q, t % p);
        lemma_mod_multiples_vanish(x, q, dk);
        lemma_mul_is_commutative(x, dk);
    }
}

proof fn lemma_tail_numel_divides(d: Seq<usize>, j: int, k: int)
    requires
        0 <= j <= k <= d.len(),
    ensures
        exists|m: nat| tail_numel(d, j) == #[trigger] (m * tail_numel(d, k)),
    decreases k - j,
{
    if j == k {
        assert(tail_numel(d, j) == 1nat * tail_numel(d, k));
    } else {
        lemma_tail_numel_divides(d, j + 1, k);
        let m = choose|m: nat| tail_numel(d, j + 1) == #[trigger] (m * tail_numel(d, k));
        let m2 = (d[j] as nat) * m;
        lemma_mul_is_associative(d[j] as int, m as int, tail_numel(d, k) as int);
        assert(tail_numel(d, j) == m2 * tail_numel(d, k));
    }
}

/// Each coordinate within bounds is the coordinate of its own position.
pub proof fn lemma_coord_of_flat(c: Seq<usize>, d: Seq<usize>)
    requires
        in_bounds(c, d),
    ensures
        coord_of(flat(c, d), d) == c,
        flat(c, d) < numel(d),
{
    lemma_flat_bound(c, d, 0);
    assert forall|k: int| 0 <= k < d.len() implies #[trigger] coord_of(flat(c, d), d)[k]
        == c[k] by {
        lemma_coord_of_flat_tail(c, d, 0, k);
    }
    assert(coord_of(flat(c, d), d) =~= c);
}

/// The coordinate that a view with extents `d` reads for the broadcast coordinate `c`.
pub open spec fn clipped(c: Seq<usize>, d: Seq<usize>) -> Seq<usize> {
    Seq::new(d.len(), |k: int| pinned(c[c.len() - d.len() + k], d[k]) as usize)
}

proof fn lemma_offset_split(c: Seq<usize>, d: Seq<usize>, n: int)
    requires
        d.len() <= c.len(),
        tail_fits(d),
        0 <= n <= d.len(),
    ensures
        offset_upto(c, d, row_major(d), n) + tail_flat(clipped(c, d), d, n) == flat(
            clipped(c, d),
            d,
        ),
    decreases n,
{
    if n > 0 {
        lemma_offset_split(c, d, n - 1);
        assert(tail_numel(d, n) <= usize::MAX);
        assert(row_major(d)[n - 1] as nat == tail_numel(d, n));
        assert(clipped(c, d)[n - 1] as nat == pinned(c[c.len() - d.len() + n - 1], d[n - 1]));
    }
}

/// Under row-major strides the storage offset is the row-major position.
pub proof fn lemma_offset_row_major(c: Seq<usize>, d: Seq<usize>)
    requires
        d.len() <= c.len(),
        tail_fits(d),
    ensures
        offset(c, d, row_major(d)) == flat(clipped(c, d), d),
{
    lemma_offset_split(c, d, d.len() as int);
}

/// A coordinate within bounds reads itself.
pub proof fn lemma_clipped_id(c: Seq<usize>, d: Seq<usize>)
    requires
        in_bounds(c, d),
    ensures
        clipped(c, d) == c,
{
    assert forall|k: int| 0 <= k < d.len() implies clipped(c, d)[k] == c[k] by {
        assert(c[k] < d[k]);
    }
    assert(clipped(c, d) =~= c);
}

/// The storage offset of the element at row-major position `i` is `i`.
pub proof fn lemma_offset_of_coord(i: nat, d: Seq<usize>)
    requires
        i < numel(d),
        tail_fits(d),
    ensures
        offset(coord_of(i, d), d, row_major(d)) == i,
{
    lemma_flat_of_coord(i, d);
    lemma_offset_row_major(coord_of(i, d), d);
    lemma_clipped_id(coord_of(i, d), d);
}

proof fn lemma_nonzero_tail(d: Seq<usize>, k: int)
    requires
        0 <= k <= d.len(),
    ensures
        tail_numel(d, k) <= tail_numel(nonzero(d), k),
        tail_numel(nonzero(d), k) >= 1,
        k < d.len() ==> tail_numel(nonzero(d), k + 1) <= tail_numel(nonzero(d), k),
    decreases d.len() - k,
{
    if k < d.len() {
        lemma_nonzero_tail(d, k + 1);
        let x = d[k] as int;
        let e = nonzero(d)[k] as int;
        let p = tail_numel(d, k + 1) as int;
        let q = tail_numel(nonzero(d), k + 1) as int;
        assert(x * p <= e * q && q <= e * q && 1 <= e * q) by (nonlinear_arith)
            requires
                0 <= x <= e,
                1 <= e,
                0 <= p <= q,
                1 <= q,
        ;
    }
}

proof fn lemma_nonzero_head(d: Seq<usize>, n: int)
    requires
        0 <= n <= d.len(),
    ensures
        head_numel(d, n) <= head_numel(nonzero(d), n),
        1 <= head_numel(nonzero(d), n),
    decreases n,
{
    if n > 0 {
        lemma_nonzero_head(d, n - 1);
        let x = d[n - 1] as int;
        let e = nonzero(d)[n - 1] as int;
        let p = head_numel(d, n - 1) as int;
        let q = head_numel(nonzero(d), n - 1) as int;
        assert(p * x <= q * e && 1 <= q * e) by (nonlinear_arith)
            requires
                0 <= x <= e,
                1 <= e,
                0 <= p <= q,
                1 <= q,
        ;
    }
}

proof fn lemma_nonzero_tail_le(d: Seq<usize>, k: int)
    requires
        0 <= k <= d.len(),
    ensures
        tail_numel(nonzero(d), k) <= numel(nonzero(d)),
    decreases k,
{
    if k > 0 {
        lemma_nonzero_tail_le(d, k - 1);
        lemma_nonzero_tail(d, k - 1);
    }
}

/// Where the nonzero extents fit, so do all partial products of the extents.
pub proof fn lemma_bounded_fits(d: Seq<usize>)
    requires
        bounded(d),
    ensures
        head_fits(d),
        tail_fits(d),
        numel(d) <= usize::MAX,
{
    assert forall|k: int| 0 <= k <= d.len() implies #[trigger] tail_numel(d, k) <= usize::MAX by {
        lemma_nonzero_tail(d, k);
        lemma_nonzero_tail_le(d, k);
    }
    assert forall|n: int| 0 <= n <= d.len() implies #[trigger] head_numel(d, n) <= usize::MAX by {
        lemma_nonzero_head(d, n);
        lemma_nonzero_tail(d, n);
        lemma_head_times_tail(nonzero(d), n);
        let h = head_numel(nonzero(d), n) as int;
        let t = tail_numel(nonzero(d), n) as int;
        assert(h <= h * t) by (nonlinear_arith)
            requires
                h >= 1,
                t >= 1,
        ;
    }
    assert(tail_numel(d, 0) <= usize::MAX);
}

/// The partial products of a shape that can be made.
pub proof fn lemma_sized_fits(d: Seq<usize>)
    requires
        sized(d),
    ensures
        head_fits(d),
        tail_fits(d),
        numel(d) <= usize::MAX,
{
    if bounded(d) {
        lemma_bounded_fits(d);
    }
    assert(tail_numel(d, 0) <= usize::MAX);
}

/// A shape with elements fits where their number does.
pub proof fn lemma_numel_bounded(d: Seq<usize>)
    requires
        0 < numel(d) <= usize::MAX,
    ensures
        bounded(d),
{
    assert forall|k: int| 0 <= k < d.len() implies d[k] > 0 by {
        lemma_tail_numel_positive(d, k);
    }
    assert(nonzero(d) =~= d);
}

/// A single extent always fits.
pub proof fn lemma_dims1(a: usize)
    ensures
        bounded(seq![a]),
        numel(seq![a]) == a,
{
    reveal_with_fuel(tail_numel, 3);
    let d = nonzero(seq![a]);
    assert(tail_numel(d, 1) == 1);
    assert(numel(d) == d[0] as nat * 1);
    assert(tail_numel(seq![a], 1) == 1);
    assert(numel(seq![a]) == a as nat * 1);
}

/// The elements of a matrix.
pub proof fn lemma_dims2(a: usize, b: usize)
    ensures
        numel(seq![a, b]) == a as nat * b as nat,
{
    let d = seq![a, b];
    assert(tail_numel(d, 2) == 1);
    assert(tail_numel(d, 1) == b as nat * 1);
    assert(tail_numel(d, 0) == a as nat * tail_numel(d, 1));
}

/// The elements of four extents.
pub proof fn lemma_dims4(a: usize, b: usize, c: usize, e: usize)
    ensures
        numel(seq![a, b, c, e]) == a as nat * (b as nat * (c as nat * e as nat)),
{
    let d = seq![a, b, c, e];
    assert(tail_numel(d, 4) == 1);
    assert(tail_numel(d, 3) == e as nat * 1);
    assert(tail_numel(d, 2) == c as nat * tail_numel(d, 3));
    assert(tail_numel(d, 1) == b as nat * tail_numel(d, 2));
    assert(tail_numel(d, 0) == a as nat * tail_numel(d, 1));
}

} // verus!
