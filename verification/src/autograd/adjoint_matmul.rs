//! The gradients of a matrix product, as the other side of it.
use vstd::prelude::*;
use vstd::arithmetic::div_mod::lemma_div_denominator;
use crate::autograd::adjoint::law_reduce_adjoint;
use crate::autograd::exact::{
    exact, lemma_add, lemma_derived, lemma_fold_total, lemma_mul, lemma_total_eq, lemma_total_mul,
    lemma_total_runs, lemma_total_swap, pairing, total,
};
use crate::autograd::local::{landing, reduce_value};
use crate::autograd::rules::{flipped, rule_ok, rule_value};
use crate::broadcast::law_broadcast_absorbs;
use crate::cpu::elementwise::{lemma_broadcast_reads, lemma_stretched_bound, stretched};
use crate::cpu::loss::lemma_numel_push;
use crate::cpu::matmul::{
    batch_dims, batch_of, cols, lemma_batch_bounded, lemma_stack_numel, matmul_at, matmul_dims,
    matmul_ok, matmul_step, matmul_value, rows,
};
use crate::dense::Value;
use crate::index::{
    bounded, coord_of, lemma_bounded_fits, lemma_flat_of_coord, lemma_offset_of_coord, numel,
    offset, offset_upto, pinned, row_major, tail_fits, tail_numel,
};
use crate::math::{lemma_index2, lemma_join2, lemma_split2};
use crate::op::OpType;
use crate::perm::{permuted, swap_order};
use crate::scalar::{zero, Scalar};
use crate::shape::{broadcast_dims, broadcasts_to, stretches_at};

verus! {

/// One more axis multiplies every trailing product.
proof fn lemma_tail_push(d: Seq<usize>, m: usize, k: int)
    requires
        0 <= k <= d.len(),
    ensures
        tail_numel(d.push(m), k) == tail_numel(d, k) * m as nat,
    decreases d.len() - k,
{
    let e = d.push(m);
    if k == d.len() {
        assert(tail_numel(e, k) == e[k] as nat * tail_numel(e, k + 1));
        assert(tail_numel(e, k + 1) == 1);
        assert(e[k] as nat * 1 == 1 * m as nat) by (nonlinear_arith)
            requires
                e[k] == m,
        ;
    } else {
        lemma_tail_push(d, m, k + 1);
        assert(e[k] == d[k]);
        let x = d[k] as nat;
        let y = tail_numel(d, k + 1);
        assert(x * (y * m as nat) == (x * y) * m as nat) by (nonlinear_arith);
    }
}

/// The coordinate of a position under one more axis.
proof fn lemma_coord_push(i: int, r: int, d: Seq<usize>, m: usize)
    requires
        0 <= i < numel(d),
        0 <= r < m,
    ensures
        coord_of((i * m + r) as nat, d.push(m)) == coord_of(i as nat, d).push(r as usize),
{
    let e = d.push(m);
    let at = i * m + r;
    assert(i * m >= 0) by (nonlinear_arith)
        requires
            i >= 0,
            m >= 0,
    ;
    let long = coord_of(at as nat, e);
    let short = coord_of(i as nat, d).push(r as usize);
    lemma_join2(i, r, m as int);
    assert forall|k: int| 0 <= k < e.len() implies long[k] == short[k] by {
        if k == d.len() {
            assert(tail_numel(e, k + 1) == 1);
            assert(at / 1 == at) by (nonlinear_arith);
        } else {
            lemma_tail_push(d, m, k + 1);
            crate::index::lemma_tail_numel_positive(d, k + 1);
            let t = tail_numel(d, k + 1) as int;
            lemma_div_denominator(at, m as int, t);
            assert(m * t == t * m) by (nonlinear_arith);
            assert(at / (t * m) == i / t);
        }
    }
    assert(long =~= short);
}

/// A leading axis keeps its extent and scales its stride.
spec fn scaled_axis(d: Seq<usize>, dd: Seq<usize>, s: Seq<usize>, scale: nat, k: int) -> bool {
    &&& dd[k] == d[k]
    &&& s[k] as nat == row_major(d)[k] as nat * scale
}

/// The leading axes of a view whose strides are those of its leading extents, scaled.
proof fn lemma_offset_prefix(
    c: Seq<usize>,
    d: Seq<usize>,
    cc: Seq<usize>,
    dd: Seq<usize>,
    s: Seq<usize>,
    scale: nat,
    n: int,
)
    requires
        0 <= n <= d.len() <= dd.len(),
        d.len() <= c.len(),
        dd.len() <= cc.len(),
        cc.len() - dd.len() == c.len() - d.len(),
        forall|k: int| 0 <= k < c.len() ==> #[trigger] cc[k] == c[k],
        forall|k: int| 0 <= k < d.len() ==> #[trigger] scaled_axis(d, dd, s, scale, k),
    ensures
        offset_upto(cc, dd, s, n) == offset_upto(c, d, row_major(d), n) * scale,
    decreases n,
{
    if n > 0 {
        lemma_offset_prefix(c, d, cc, dd, s, scale, n - 1);
        let at = c.len() - d.len() + n - 1;
        assert(cc[at] == c[at]);
        assert(scaled_axis(d, dd, s, scale, n - 1));
        let x = offset_upto(c, d, row_major(d), n - 1);
        let y = pinned(c[at], d[n - 1]);
        let z = row_major(d)[n - 1] as nat;
        assert(x * scale + y * (z * scale) == (x + y * z) * scale) by (nonlinear_arith);
    } else {
        assert(0 * scale == 0) by (nonlinear_arith);
    }
}

/// Where a position lands under one more axis.
proof fn lemma_landing_push(i: int, r: int, from: Seq<usize>, d: Seq<usize>, m: usize)
    requires
        0 <= i < numel(from),
        0 <= r < m,
        d.len() <= from.len(),
        tail_fits(d),
        tail_fits(d.push(m)),
    ensures
        landing(i * m + r, from.push(m), d.push(m)) == landing(i, from, d) * m + r,
{
    let e = d.push(m);
    let c = coord_of(i as nat, from);
    let cc = c.push(r as usize);
    lemma_coord_push(i, r, from, m);
    assert forall|k: int| 0 <= k < d.len() implies #[trigger] scaled_axis(
        d,
        e,
        row_major(e),
        m as nat,
        k,
    ) by {
        lemma_tail_push(d, m, k + 1);
        assert(tail_numel(d, k + 1) <= usize::MAX);
        assert(tail_numel(e, k + 1) <= usize::MAX);
    }
    lemma_offset_prefix(c, d, cc, e, row_major(e), m as nat, d.len() as int);
    assert(tail_numel(e, e.len() as int) == 1);
    assert(row_major(e)[d.len() as int] == 1);
    assert(pinned(r as usize, m) == r);
    assert(offset(cc, e, row_major(e)) == offset_upto(cc, e, row_major(e), d.len() as int) + pinned(
        cc[cc.len() - 1],
        m,
    ) * 1);
}

/// The matrices of a stack, each transposed, element by element.
proof fn lemma_flipped<S>(b: Value<S>, l: int, r: int, c: int)
    requires
        b.wf(),
        b.dims.len() >= 2,
        0 <= l < numel(batch_dims(b.dims)),
        0 <= r < rows(b.dims),
        0 <= c < cols(b.dims),
    ensures
        flipped(b).dims == batch_dims(b.dims).push(cols(b.dims)).push(rows(b.dims)),
        flipped(b).data[(l * cols(b.dims) + c) * rows(b.dims) + r] == b.data[(l * rows(b.dims) + r)
            * cols(b.dims) + c],
{
    let d = b.dims;
    let lead = batch_dims(d);
    let k = rows(d);
    let n = cols(d);
    let len = d.len() as int;
    let p = swap_order(d.len(), len - 2, len - 1);
    let e = permuted(d, p);
    let f = lead.push(n).push(k);
    lemma_flipped_dims(b);
    assert(d =~= lead.push(k).push(n));
    let s = permuted(row_major(d), p);
    lemma_batch_bounded(d);
    lemma_bounded_fits(lead);
    lemma_bounded_fits(d);
    lemma_numel_push(lead, n);
    let at = l * n + c;
    lemma_index2(l, numel(lead) as int, c, n as int);
    let i = at * k + r;
    lemma_coord_push(l, c, lead, n);
    lemma_coord_push(at, r, lead.push(n), k);
    let cc = coord_of(l as nat, lead);
    let full = cc.push(c as usize).push(r as usize);
    assert(coord_of(i as nat, f) == full);
    let area = k as nat * n as nat;
    assert forall|j: int| 0 <= j < lead.len() implies #[trigger] scaled_axis(
        lead,
        f,
        s,
        area,
        j,
    ) by {
        assert(p[j] == j);
        lemma_tail_push(lead, k, j + 1);
        lemma_tail_push(lead.push(k), n, j + 1);
        assert(tail_numel(d, j + 1) <= usize::MAX);
        assert(tail_numel(lead, j + 1) <= usize::MAX);
        let t = tail_numel(lead, j + 1);
        assert((t * k as nat) * n as nat == t * area) by (nonlinear_arith)
            requires
                area == k as nat * n as nat,
        ;
    }
    assert forall|j: int| 0 <= j < cc.len() implies #[trigger] full[j] == cc[j] by {}
    lemma_offset_prefix(cc, lead, full, f, s, area, lead.len() as int);
    lemma_offset_of_coord(l as nat, lead);
    assert(tail_numel(d, len) == 1);
    assert(tail_numel(d, len - 1) == n as nat * tail_numel(d, len));
    assert(tail_numel(d, len - 1) == n) by (nonlinear_arith)
        requires
            tail_numel(d, len - 1) == n as nat * 1,
    ;
    assert(p[len - 2] == len - 1 && p[len - 1] == len - 2);
    assert(s[len - 2] == 1 && s[len - 1] == n);
    assert(pinned(c as usize, n) == c && pinned(r as usize, k) == r);
    assert(full[len - 2] == c && full[len - 1] == r);
    assert(f[len - 2] == n && f[len - 1] == k);
    let base = offset_upto(full, f, s, len - 2);
    assert(offset_upto(full, f, s, len - 1) == base + pinned(full[len - 2], f[len - 2]) * (s[len
        - 2] as nat));
    assert(offset(full, f, s) == offset_upto(full, f, s, len - 1) + pinned(
        full[len - 1],
        f[len - 1],
    ) * (s[len - 1] as nat));
    assert(l * area + c * 1 + r * n == (l * k + r) * n + c) by (nonlinear_arith)
        requires
            area == k as nat * n as nat,
    ;
    lemma_stack_numel(d);
    lemma_stack_numel(f);
    assert(batch_dims(f) =~= lead);
    assert(0 <= i < numel(e)) by {
        lemma_index2(at, numel(lead) * n, r, k as int);
    }
}

proof fn lemma_flipped_dims<S>(b: Value<S>)
    requires
        2 <= b.dims.len() <= 8,
    ensures
        flipped(b).dims == batch_dims(b.dims).push(cols(b.dims)).push(rows(b.dims)),
{
    let d = b.dims;
    let len = d.len() as int;
    let p = swap_order(d.len(), len - 2, len - 1);
    let f = batch_dims(d).push(cols(d)).push(rows(d));
    assert forall|j: int| 0 <= j < len implies permuted(d, p)[j] == f[j] by {
        assert(p[j] == (if j == len - 2 {
            len - 1
        } else if j == len - 1 {
            len - 2
        } else {
            j
        }));
    }
    assert(permuted(d, p) =~= f);
}

/// The extents that a product of two stacks of matrices has in common.
spec fn common<S>(a: Value<S>, b: Value<S>) -> Seq<usize> {
    broadcast_dims(batch_dims(a.dims), batch_dims(b.dims))
}

/// Entry `t` of the row of `a` that goes into row `q` of the product.
spec fn left_at<S>(a: Value<S>, b: Value<S>, q: int, t: int) -> S {
    let m = rows(a.dims) as int;
    let l = batch_of(batch_dims(a.dims), common(a, b), q / m);
    a.data[(l * m + q % m) * cols(a.dims) + t]
}

/// Entry `t` of column `c` of the matrix of `b` that goes into row `q` of the product.
spec fn right_at<S>(a: Value<S>, b: Value<S>, q: int, t: int, c: int) -> S {
    let m = rows(a.dims) as int;
    let l = batch_of(batch_dims(b.dims), common(a, b), q / m);
    b.data[(l * cols(a.dims) + t) * cols(b.dims) + c]
}

/// What one pair of entries adds to the weight of the product.
spec fn term<S: Scalar>(a: Value<S>, b: Value<S>, g: Value<S>, q: int, c: int, t: int) -> S {
    S::mul_spec(
        g.data[q * cols(b.dims) + c],
        S::mul_spec(left_at(a, b, q, t), right_at(a, b, q, t, c)),
    )
}

/// The weight of the product, summed by rows, columns and inner indices.
spec fn weight<S: Scalar>(a: Value<S>, b: Value<S>, g: Value<S>) -> S {
    total(
        numel(common(a, b)) * rows(a.dims) as nat,
        |q: int| row_weight(a, b, g, q),
    )
}

spec fn row_weight<S: Scalar>(a: Value<S>, b: Value<S>, g: Value<S>, q: int) -> S {
    total(
        cols(b.dims) as nat,
        |c: int| total(cols(a.dims) as nat, |t: int| term(a, b, g, q, c, t)),
    )
}

/// An entry of the product as a sum.
proof fn lemma_entry<S: Scalar>(a: Value<S>, b: Value<S>, q: int, c: int)
    requires
        exact::<S>(),
    ensures
        matmul_at(a, b, q, c) == total(
            cols(a.dims) as nat,
            |t: int| S::mul_spec(left_at(a, b, q, t), right_at(a, b, q, t, c)),
        ),
{
    let m = rows(a.dims) as int;
    let k = cols(a.dims) as nat;
    let la = batch_of(batch_dims(a.dims), common(a, b), q / m);
    let lb = batch_of(batch_dims(b.dims), common(a, b), q / m);
    let step = matmul_step(a, b, la, lb, q % m, c);
    let f = |t: int| S::mul_spec(left_at(a, b, q, t), right_at(a, b, q, t, c));
    assert forall|t: int, acc: S| 0 <= t < k implies #[trigger] step(t, acc) == S::add_spec(
        acc,
        f(t),
    ) by {
        lemma_derived(left_at(a, b, q, t), right_at(a, b, q, t, c), acc);
        lemma_add(acc, f(t), zero());
    }
    lemma_fold_total(k, step, f);
}

/// The product and its gradient fit each other.
pub open spec fn matmul_fits<S>(a: Value<S>, b: Value<S>, g: Value<S>) -> bool {
    &&& a.wf()
    &&& b.wf()
    &&& g.wf()
    &&& matmul_ok(a, b)
    &&& g.dims == matmul_dims(a.dims, b.dims)
}

/// The weight of the output's gradient against the product.
proof fn lemma_weight<S: Scalar>(a: Value<S>, b: Value<S>, g: Value<S>)
    requires
        exact::<S>(),
        matmul_fits(a, b, g),
    ensures
        pairing(g.data, matmul_value(a, b).data) == weight(a, b, g),
{
    let m = rows(a.dims) as nat;
    let k = cols(a.dims) as nat;
    let n = cols(b.dims) as nat;
    let lead = numel(common(a, b));
    let y = matmul_value(a, b);
    lemma_stack_numel(g.dims);
    assert(batch_dims(g.dims) =~= common(a, b));
    let f = |i: int| S::mul_spec(g.data[i], y.data[i]);
    lemma_total_runs(lead * m, n, f);
    let row = |q: int| total(n, |c: int| f(q * n + c));
    let want = |q: int| row_weight(a, b, g, q);
    assert forall|q: int| 0 <= q < lead * m implies #[trigger] row(q) == want(q) by {
        let x = |c: int| f(q * n + c);
        let z = |c: int| total(k, |t: int| term(a, b, g, q, c, t));
        assert forall|c: int| 0 <= c < n implies #[trigger] x(c) == z(c) by {
            lemma_index2(q, (lead * m) as int, c, n as int);
            lemma_join2(q, c, n as int);
            lemma_entry(a, b, q, c);
            let h = |t: int| S::mul_spec(left_at(a, b, q, t), right_at(a, b, q, t, c));
            lemma_total_mul(k, g.data[q * n + c], h);
            let i = q * n + c;
            let gi = g.data[i];
            lemma_total_eq(
                k,
                |t: int| S::mul_spec(gi, h(t)),
                |t: int| term(a, b, g, q, c, t),
            );
        }
        lemma_total_eq(n, x, z);
    }
    lemma_total_eq(lead * m, row, want);
}

/// A stack of matrices that broadcasts lands matrix by matrix.
proof fn lemma_stack_landing(d: Seq<usize>, lead: Seq<usize>, l: int, r: int, c: int)
    requires
        d.len() >= 2,
        bounded(d),
        broadcasts_to(batch_dims(d), lead),
        0 <= l < numel(lead),
        0 <= r < rows(d),
        0 <= c < cols(d),
    ensures
        0 <= batch_of(batch_dims(d), lead, l) < numel(batch_dims(d)),
        landing((l * rows(d) + r) * cols(d) + c, lead.push(rows(d)).push(cols(d)), d) == (batch_of(
            batch_dims(d),
            lead,
            l,
        ) * rows(d) + r) * cols(d) + c,
{
    let own = batch_dims(d);
    let m = rows(d);
    let n = cols(d);
    assert(d =~= own.push(m).push(n));
    lemma_batch_bounded(d);
    lemma_bounded_fits(own);
    lemma_bounded_fits(d);
    lemma_flat_of_coord(l as nat, lead);
    lemma_stretched_bound(own, lead, coord_of(l as nat, lead));
    assert(tail_fits(own.push(m))) by {
        assert forall|k: int| 0 <= k <= own.push(m).len() implies #[trigger] tail_numel(
            own.push(m),
            k,
        ) <= usize::MAX by {
            lemma_tail_push(own.push(m), n, k);
            assert(tail_numel(d, k) <= usize::MAX);
            let t = tail_numel(own.push(m), k);
            assert(t <= t * n as nat) by (nonlinear_arith)
                requires
                    n >= 1,
            ;
        }
    }
    lemma_landing_push(l, r, lead, own, m);
    lemma_numel_push(lead, m);
    lemma_index2(l, numel(lead) as int, r, m as int);
    lemma_landing_push(l * m + r, c, lead.push(m), own.push(m), n);
}

/// A matrix of a stack is read for itself.
proof fn lemma_batch_self(lead: Seq<usize>, l: int)
    requires
        bounded(lead),
        0 <= l < numel(lead),
    ensures
        batch_of(lead, lead, l) == l,
{
    lemma_bounded_fits(lead);
    lemma_offset_of_coord(l as nat, lead);
}

/// A stack whose leading extents broadcast, broadcasts.
proof fn lemma_stack_broadcasts(d: Seq<usize>, lead: Seq<usize>)
    requires
        d.len() >= 2,
        broadcasts_to(batch_dims(d), lead),
    ensures
        broadcasts_to(d, lead.push(rows(d)).push(cols(d))),
{
    let own = batch_dims(d);
    let e = lead.push(rows(d)).push(cols(d));
    assert forall|k: int| 0 <= k < d.len() implies #[trigger] stretches_at(d, e, k) by {
        if k >= 2 {
            assert(stretches_at(own, lead, k - 2));
        }
    }
}

/// The gradient of the left operand weighs the same.
proof fn lemma_left_weight<S: Scalar>(a: Value<S>, b: Value<S>, g: Value<S>)
    requires
        exact::<S>(),
        matmul_fits(a, b, g),
        matmul_ok(g, flipped(b)),
    ensures
        pairing(
            reduce_value(matmul_value(g, flipped(b)), a.dims).data,
            a.data,
        ) == weight(a, b, g),
{
    let m = rows(a.dims) as nat;
    let k = cols(a.dims) as nat;
    let n = cols(b.dims) as nat;
    let lead = common(a, b);
    let fb = flipped(b);
    let big = matmul_value(g, fb);
    lemma_broadcast_reads(batch_dims(a.dims), batch_dims(b.dims));
    lemma_flipped_dims(b);
    assert(batch_dims(g.dims) =~= lead);
    assert(batch_dims(fb.dims) =~= batch_dims(b.dims));
    law_broadcast_absorbs(batch_dims(b.dims), lead);
    assert(common(g, fb) == lead);
    assert(big.dims =~= lead.push(rows(a.dims)).push(cols(a.dims)));
    lemma_stack_broadcasts(a.dims, lead);
    lemma_batch_bounded(g.dims);
    law_reduce_adjoint(big, a);
    lemma_stack_numel(big.dims);
    assert(batch_dims(big.dims) =~= lead);
    let f = |i: int| S::mul_spec(big.data[i], stretched(a, big.dims, i));
    let all = (numel(lead) * m) as int;
    lemma_total_runs(numel(lead) * m, k, f);
    let row = |q: int| total(k, |t: int| f(q * k + t));
    let want = |q: int| row_weight(a, b, g, q);
    assert forall|q: int| 0 <= q < all implies #[trigger] row(q) == want(q) by {
        lemma_split2(q, numel(lead) as int, m as int);
        let l = q / m as int;
        lemma_batch_self(lead, l);
        let x = |t: int| f(q * k + t);
        let part = |t: int, c: int| term(a, b, g, q, c, t);
        let z = |t: int| total(n, |c: int| part(t, c));
        assert forall|t: int| 0 <= t < k implies #[trigger] x(t) == z(t) by {
            lemma_index2(q, all, t, k as int);
            lemma_join2(q, t, k as int);
            lemma_stack_landing(a.dims, lead, l, q % m as int, t);
            let own = left_at(a, b, q, t);
            assert(stretched(a, big.dims, q * k + t) == own);
            lemma_entry(g, fb, q, t);
            let h = |c: int| S::mul_spec(left_at(g, fb, q, c), right_at(g, fb, q, c, t));
            lemma_total_mul(n, own, h);
            lemma_mul(own, big.data[q * k + t], zero());
            assert forall|c: int| 0 <= c < n implies S::mul_spec(own, #[trigger] h(c)) == part(
                t,
                c,
            ) by {
                lemma_stack_landing(b.dims, lead, l, t, c);
                lemma_flipped(b, batch_of(batch_dims(b.dims), lead, l), t, c);
                let gc = g.data[q * n + c];
                let other = right_at(a, b, q, t, c);
                assert(left_at(g, fb, q, c) == gc);
                assert(right_at(g, fb, q, c, t) == other);
                lemma_mul(own, S::mul_spec(gc, other), zero());
                lemma_mul(gc, other, own);
                lemma_mul(other, own, zero());
            }
            lemma_total_eq(n, |c: int| S::mul_spec(own, h(c)), |c: int| part(t, c));
        }
        lemma_total_eq(k, x, z);
        lemma_total_swap(k, n, part);
        let flip = |c: int| total(k, |t: int| part(t, c));
        let rw = |c: int| total(k, |t: int| term(a, b, g, q, c, t));
        assert forall|c: int| 0 <= c < n implies #[trigger] flip(c) == rw(c) by {
            lemma_total_eq(k, |t: int| part(t, c), |t: int| term(a, b, g, q, c, t));
        }
        lemma_total_eq(n, flip, rw);
    }
    lemma_total_eq(numel(lead) * m, row, want);
}

/// The product of the transposed left operand and the output's gradient.
proof fn lemma_right_product<S: Scalar>(a: Value<S>, b: Value<S>, g: Value<S>)
    requires
        matmul_fits(a, b, g),
        matmul_ok(flipped(a), g),
    ensures
        ({
            let lead = common(a, b);
            let big = matmul_value(flipped(a), g);
            &&& batch_dims(g.dims) == lead
            &&& batch_dims(flipped(a).dims) == batch_dims(a.dims)
            &&& rows(flipped(a).dims) == cols(a.dims)
            &&& cols(flipped(a).dims) == rows(a.dims)
            &&& common(flipped(a), g) == lead
            &&& big.dims == lead.push(rows(b.dims)).push(cols(b.dims))
            &&& big.data.len() == numel(big.dims)
            &&& numel(big.dims) == (numel(lead) * cols(a.dims) as nat) * cols(b.dims) as nat
            &&& bounded(lead)
            &&& broadcasts_to(batch_dims(a.dims), lead)
            &&& broadcasts_to(batch_dims(b.dims), lead)
            &&& broadcasts_to(b.dims, big.dims)
        }),
{
    let lead = common(a, b);
    let fa = flipped(a);
    let big = matmul_value(fa, g);
    lemma_broadcast_reads(batch_dims(a.dims), batch_dims(b.dims));
    lemma_flipped_dims(a);
    assert(batch_dims(g.dims) =~= lead);
    assert(batch_dims(fa.dims) =~= batch_dims(a.dims));
    law_broadcast_absorbs(batch_dims(a.dims), lead);
    assert(big.dims =~= lead.push(rows(b.dims)).push(cols(b.dims)));
    lemma_stack_broadcasts(b.dims, lead);
    lemma_batch_bounded(g.dims);
    lemma_stack_numel(big.dims);
    assert(batch_dims(big.dims) =~= lead);
}

/// One entry of that product, against what it lands on.
proof fn lemma_right_cell<S: Scalar>(
    a: Value<S>,
    b: Value<S>,
    g: Value<S>,
    l: int,
    t: int,
    c: int,
)
    requires
        exact::<S>(),
        matmul_fits(a, b, g),
        matmul_ok(flipped(a), g),
        0 <= l < numel(common(a, b)),
        0 <= t < cols(a.dims),
        0 <= c < cols(b.dims),
    ensures
        ({
            let big = matmul_value(flipped(a), g);
            let i = (l * cols(a.dims) + t) * cols(b.dims) + c;
            S::mul_spec(big.data[i], stretched(b, big.dims, i)) == total(
                rows(a.dims) as nat,
                |r: int| term(a, b, g, l * rows(a.dims) + r, c, t),
            )
        }),
{
    let m = rows(a.dims) as nat;
    let k = cols(a.dims) as nat;
    let n = cols(b.dims) as nat;
    let lead = common(a, b);
    let nl = numel(lead);
    let fa = flipped(a);
    let big = matmul_value(fa, g);
    lemma_right_product(a, b, g);
    lemma_batch_self(lead, l);
    let p = l * k + t;
    lemma_index2(l, nl as int, t, k as int);
    lemma_join2(l, t, k as int);
    lemma_index2(p, (nl * k) as int, c, n as int);
    lemma_join2(p, c, n as int);
    lemma_stack_landing(b.dims, lead, l, t, c);
    let own = b.data[(batch_of(batch_dims(b.dims), lead, l) * k + t) * n + c];
    assert(stretched(b, big.dims, p * n + c) == own);
    lemma_entry(fa, g, p, c);
    let h = |r: int| S::mul_spec(left_at(fa, g, p, r), right_at(fa, g, p, r, c));
    lemma_total_mul(m, own, h);
    lemma_mul(own, big.data[p * n + c], zero());
    let scaled = |r: int| S::mul_spec(own, h(r));
    let want = |r: int| term(a, b, g, l * rows(a.dims) + r, c, t);
    assert forall|r: int| 0 <= r < m implies #[trigger] scaled(r) == want(r) by {
        let q = l * m + r;
        lemma_join2(l, r, m as int);
        lemma_stack_landing(a.dims, lead, l, r, t);
        lemma_flipped(a, batch_of(batch_dims(a.dims), lead, l), r, t);
        let gc = g.data[q * n + c];
        let other = left_at(a, b, q, t);
        assert(right_at(a, b, q, t, c) == own);
        assert(left_at(fa, g, p, r) == other);
        assert(right_at(fa, g, p, r, c) == gc);
        lemma_mul(own, S::mul_spec(other, gc), zero());
        lemma_mul(other, gc, own);
        lemma_mul(gc, other, own);
    }
    lemma_total_eq(m, scaled, want);
}

/// The terms of matrix `l`, by inner index, column and row.
spec fn cells<S: Scalar>(a: Value<S>, b: Value<S>, g: Value<S>, l: int) -> spec_fn(
    int,
    int,
    int,
) -> S {
    |t: int, c: int, r: int| term(a, b, g, l * rows(a.dims) + r, c, t)
}

/// What an entry of the product weighs against what it lands on.
spec fn right_part<S: Scalar>(a: Value<S>, b: Value<S>, g: Value<S>) -> spec_fn(int) -> S {
    let big = matmul_value(flipped(a), g);
    |i: int| S::mul_spec(big.data[i], stretched(b, big.dims, i))
}

/// Row `p` of the product.
spec fn right_row<S: Scalar>(a: Value<S>, b: Value<S>, g: Value<S>) -> spec_fn(int) -> S {
    |p: int| total(cols(b.dims) as nat, |c: int| right_part(a, b, g)(p * cols(b.dims) + c))
}

proof fn lemma_right_row<S: Scalar>(a: Value<S>, b: Value<S>, g: Value<S>, l: int, t: int)
    requires
        exact::<S>(),
        matmul_fits(a, b, g),
        matmul_ok(flipped(a), g),
        0 <= l < numel(common(a, b)),
        0 <= t < cols(a.dims),
    ensures
        right_row(a, b, g)(l * cols(a.dims) + t) == sum2(
            cols(b.dims) as nat,
            rows(a.dims) as nat,
            |c: int, r: int| cells(a, b, g, l)(t, c, r),
        ),
{
    let n = cols(b.dims) as nat;
    let m = rows(a.dims) as nat;
    let p = l * cols(a.dims) + t;
    let f = |c: int, r: int| cells(a, b, g, l)(t, c, r);
    let u = |c: int| right_part(a, b, g)(p * cols(b.dims) + c);
    assert forall|c: int| 0 <= c < n implies #[trigger] u(c) == total(m, |r: int| f(c, r)) by {
        lemma_right_cell(a, b, g, l, t, c);
        lemma_total_eq(m, |r: int| term(a, b, g, l * rows(a.dims) + r, c, t), |r: int| f(c, r));
    }
    lemma_sum2(n, m, f, u);
}

/// One matrix of the product weighs what its rows weigh.
proof fn lemma_right_batch<S: Scalar>(a: Value<S>, b: Value<S>, g: Value<S>, l: int)
    requires
        exact::<S>(),
        matmul_fits(a, b, g),
        matmul_ok(flipped(a), g),
        0 <= l < numel(common(a, b)),
    ensures
        total(
            cols(a.dims) as nat,
            |t: int| right_row(a, b, g)(l * cols(a.dims) as nat + t),
        ) == total(rows(a.dims) as nat, |r: int| row_weight(a, b, g, l * rows(a.dims) as nat + r)),
{
    let m = rows(a.dims) as nat;
    let k = cols(a.dims) as nat;
    let n = cols(b.dims) as nat;
    let cell = cells(a, b, g, l);
    let x = |t: int| right_row(a, b, g)(l * cols(a.dims) as nat + t);
    let x2 = |t: int| sum2(n, m, |c: int, r: int| cell(t, c, r));
    assert forall|t: int| 0 <= t < k implies #[trigger] x(t) == x2(t) by {
        lemma_right_row(a, b, g, l, t);
        lemma_sum2_eq(
            n,
            m,
            |c: int, r: int| cells(a, b, g, l)(t, c, r),
            |c: int, r: int| cell(t, c, r),
        );
    }
    lemma_total_eq(k, x, x2);
    lemma_turn(k, n, m, cell);
    let z = |r: int| row_weight(a, b, g, l * rows(a.dims) as nat + r);
    let z2 = |r: int| sum2(n, k, |c: int, t: int| cell(t, c, r));
    assert forall|r: int| 0 <= r < m implies #[trigger] z(r) == z2(r) by {
        let q = l * rows(a.dims) + r;
        let f = |c: int, t: int| cell(t, c, r);
        let w = |c: int| total(k, |t: int| term(a, b, g, q, c, t));
        assert forall|c: int| 0 <= c < n implies #[trigger] w(c) == total(k, |t: int| f(c, t)) by {
            lemma_total_eq(k, |t: int| term(a, b, g, q, c, t), |t: int| f(c, t));
        }
        lemma_sum2(n, k, f, w);
    }
    lemma_total_eq(m, z, z2);
}

/// The gradient of the right operand weighs the same.
proof fn lemma_right_weight<S: Scalar>(a: Value<S>, b: Value<S>, g: Value<S>)
    requires
        exact::<S>(),
        matmul_fits(a, b, g),
        matmul_ok(flipped(a), g),
    ensures
        pairing(reduce_value(matmul_value(flipped(a), g), b.dims).data, b.data) == weight(a, b, g),
{
    let m = rows(a.dims) as nat;
    let k = cols(a.dims) as nat;
    let n = cols(b.dims) as nat;
    let big = matmul_value(flipped(a), g);
    let nl = numel(common(a, b));
    lemma_right_product(a, b, g);
    law_reduce_adjoint(big, b);
    let f = right_part(a, b, g);
    lemma_total_eq(
        numel(big.dims),
        |i: int| S::mul_spec(big.data[i], stretched(b, big.dims, i)),
        f,
    );
    lemma_total_runs(nl * k, n, f);
    let row = right_row(a, b, g);
    lemma_total_eq(nl * k, |p: int| total(n, |c: int| f(p * n + c)), row);
    lemma_total_runs(nl, k, row);
    let q_row = |q: int| row_weight(a, b, g, q);
    lemma_total_runs(nl, m, q_row);
    let by_b = |l: int| total(k, |t: int| row(l * k + t));
    let by_w = |l: int| total(m, |r: int| q_row(l * m + r));
    assert forall|l: int| 0 <= l < nl implies #[trigger] by_b(l) == by_w(l) by {
        lemma_right_batch(a, b, g, l);
        lemma_total_eq(
            k,
            |t: int| row(l * k + t),
            |t: int| right_row(a, b, g)(l * cols(a.dims) as nat + t),
        );
        lemma_total_eq(
            m,
            |r: int| q_row(l * m + r),
            |r: int| row_weight(a, b, g, l * rows(a.dims) as nat + r),
        );
    }
    lemma_total_eq(nl, by_b, by_w);
}

/// A double sum.
spec fn sum2<S: Scalar>(n: nat, m: nat, f: spec_fn(int, int) -> S) -> S {
    total(n, |i: int| total(m, |j: int| f(i, j)))
}

/// A double sum by its rows.
proof fn lemma_sum2<S: Scalar>(
    n: nat,
    m: nat,
    f: spec_fn(int, int) -> S,
    row: spec_fn(int) -> S,
)
    requires
        forall|i: int| 0 <= i < n ==> #[trigger] row(i) == total(m, |j: int| f(i, j)),
    ensures
        sum2(n, m, f) == total(n, row),
{
    lemma_total_eq(n, |i: int| total(m, |j: int| f(i, j)), row);
}

proof fn lemma_sum2_eq<S: Scalar>(
    n: nat,
    m: nat,
    f: spec_fn(int, int) -> S,
    g: spec_fn(int, int) -> S,
)
    requires
        forall|i: int, j: int| 0 <= i < n && 0 <= j < m ==> #[trigger] f(i, j) == g(i, j),
    ensures
        sum2(n, m, f) == sum2(n, m, g),
{
    let row = |i: int| total(m, |j: int| g(i, j));
    assert forall|i: int| 0 <= i < n implies #[trigger] row(i) == total(m, |j: int| f(i, j)) by {
        lemma_total_eq(m, |j: int| f(i, j), |j: int| g(i, j));
    }
    lemma_sum2(n, m, f, row);
    lemma_sum2(n, m, g, row);
}

/// The outermost and the innermost index of a triple sum can be exchanged.
proof fn lemma_turn<S: Scalar>(k: nat, n: nat, m: nat, f: spec_fn(int, int, int) -> S)
    requires
        exact::<S>(),
    ensures
        total(k, |t: int| sum2(n, m, |c: int, r: int| f(t, c, r))) == total(
            m,
            |r: int| sum2(n, k, |c: int, t: int| f(t, c, r)),
        ),
{
    let a = |t: int| sum2(n, m, |c: int, r: int| f(t, c, r));
    let b = |t: int, r: int| total(n, |c: int| f(t, c, r));
    let b_row = |t: int| total(m, |r: int| b(t, r));
    assert forall|t: int| 0 <= t < k implies #[trigger] a(t) == b_row(t) by {
        let h = |c: int, r: int| f(t, c, r);
        lemma_total_swap(n, m, h);
        let x = |r: int| total(n, |c: int| h(c, r));
        let y = |r: int| b(t, r);
        assert forall|r: int| 0 <= r < m implies #[trigger] x(r) == y(r) by {
            lemma_total_eq(n, |c: int| h(c, r), |c: int| f(t, c, r));
        }
        lemma_total_eq(m, x, y);
    }
    lemma_total_eq(k, a, b_row);
    lemma_total_swap(k, m, b);
    let d = |r: int| total(k, |t: int| b(t, r));
    let e = |r: int| sum2(n, k, |c: int, t: int| f(t, c, r));
    assert forall|r: int| 0 <= r < m implies #[trigger] d(r) == e(r) by {
        let h = |t: int, c: int| f(t, c, r);
        lemma_total_swap(k, n, h);
        let x = |t: int| b(t, r);
        let y = |t: int| total(n, |c: int| h(t, c));
        assert forall|t: int| 0 <= t < k implies #[trigger] x(t) == y(t) by {
            lemma_total_eq(n, |c: int| f(t, c, r), |c: int| h(t, c));
        }
        lemma_total_eq(k, x, y);
        let w = |c: int| total(k, |t: int| h(t, c));
        let fe = |c: int, t: int| f(t, c, r);
        assert forall|c: int| 0 <= c < n implies #[trigger] w(c) == total(
            k,
            |t: int| fe(c, t),
        ) by {
            lemma_total_eq(k, |t: int| h(t, c), |t: int| fe(c, t));
        }
        lemma_sum2(n, k, fe, w);
    }
    lemma_total_eq(m, d, e);
}

/// The gradients of a matrix product, batched or not: each weighs against its own operand what the
/// output's gradient weighs against the product.
pub proof fn law_matmul_adjoint<S: Scalar>(a: Value<S>, b: Value<S>, g: Value<S>)
    requires
        exact::<S>(),
        matmul_fits(a, b, g),
        rule_ok(OpType::Matmul, seq![a, b], g),
    ensures
        ({
            let grads = rule_value(OpType::Matmul, seq![a, b], g);
            let weight = pairing(g.data, matmul_value(a, b).data);
            &&& weight == pairing(grads[0].data, a.data)
            &&& weight == pairing(grads[1].data, b.data)
        }),
{
    lemma_rule(a, b, g);
    lemma_weight(a, b, g);
    lemma_left_weight(a, b, g);
    lemma_right_weight(a, b, g);
}

/// The gradients of a matrix product, each of which reads the other operand.
pub(crate) proof fn lemma_matmul_sides<S: Scalar>(a: Value<S>, b: Value<S>, g: Value<S>)
    requires
        exact::<S>(),
        matmul_fits(a, b, g),
        matmul_ok(g, flipped(b)),
        matmul_ok(flipped(a), g),
    ensures
        pairing(g.data, matmul_value(a, b).data) == pairing(
            reduce_value(matmul_value(g, flipped(b)), a.dims).data,
            a.data,
        ),
        pairing(g.data, matmul_value(a, b).data) == pairing(
            reduce_value(matmul_value(flipped(a), g), b.dims).data,
            b.data,
        ),
{
    lemma_weight(a, b, g);
    lemma_left_weight(a, b, g);
    lemma_right_weight(a, b, g);
}

/// What a matrix product's gradients need of the operands, they need of their shapes.
pub(crate) proof fn lemma_matmul_shapes<S: Scalar>(
    a: Value<S>,
    b: Value<S>,
    c: Value<S>,
    d: Value<S>,
    g: Value<S>,
)
    requires
        matmul_fits(a, b, g),
        matmul_ok(g, flipped(b)),
        matmul_ok(flipped(a), g),
        c.wf(),
        d.wf(),
        c.dims == a.dims,
        d.dims == b.dims,
    ensures
        matmul_fits(c, d, g),
        matmul_ok(g, flipped(d)),
        matmul_ok(flipped(c), g),
        matmul_value(c, d).dims == g.dims,
        matmul_value(c, d).data.len() == g.data.len(),
{
    assert(flipped(d).dims == flipped(b).dims);
    assert(flipped(c).dims == flipped(a).dims);
}

proof fn lemma_rule<S: Scalar>(a: Value<S>, b: Value<S>, g: Value<S>)
    requires
        rule_ok(OpType::Matmul, seq![a, b], g),
    ensures
        matmul_ok(g, flipped(b)),
        matmul_ok(flipped(a), g),
        rule_value(OpType::Matmul, seq![a, b], g)[0] == reduce_value(
            matmul_value(g, flipped(b)),
            a.dims,
        ),
        rule_value(OpType::Matmul, seq![a, b], g)[1] == reduce_value(
            matmul_value(flipped(a), g),
            b.dims,
        ),
{
}

} // verus!
