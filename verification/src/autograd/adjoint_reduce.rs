//! The gradients of sums over an axis and of table lookups, as the other side of them.
use vstd::prelude::*;
use crate::autograd::adjoint::lemma_times;
use crate::autograd::exact::{
    exact, lemma_add, lemma_derived, lemma_fold_total, lemma_mul, lemma_scatter, lemma_total_eq,
    lemma_total_mul, lemma_total_pick, lemma_total_runs, lemma_total_select, lemma_total_zero,
    pairing, total,
};
use crate::autograd::local::{expand_value, kept_dims, landing, single};
use crate::autograd::rules::{reciprocal, rule_value, times};
use crate::broadcast::law_broadcast_absorbs;
use crate::cpu::elementwise::stretched;
use crate::cpu::loss::{
    class_of, embedding_backward_value, embedding_ok, embedding_value, gather_step, lemma_numel2,
    lemma_numel_push,
};
use crate::cpu::norm::zeros_value;
use crate::cpu::reduce::{
    inner, lemma_axis_numel, lemma_line_index, lemma_line_injective, lemma_line_of,
    lemma_reduced_bounded, lemma_tail_suffix, line_index, line_sum, mean_value, outer, reduced_dims,
    sum_step, sum_value,
};
use crate::dense::Value;
use crate::index::{
    bounded, clipped, coord_of, in_bounds, lemma_bounded_fits, lemma_flat_bound,
    lemma_flat_of_coord, lemma_offset_of_coord, lemma_offset_row_major, numel, offset_upto,
    tail_flat, tail_numel,
};
use crate::math::{fold, lemma_index2, lemma_join2, lemma_split2};
use crate::op::OpType;
use crate::scalar::{zero, Scalar};
use crate::shape::{broadcasts_to, stretches_at};
use crate::views::reshape_value;

verus! {

/// A coordinate without its entry at axis `dim`: the positions with and without it have the same
/// leading part.
proof fn lemma_flat_line(c: Seq<usize>, d: Seq<usize>, dim: int, k: int) -> (r: (int, int))
    requires
        in_bounds(c, d),
        0 <= k <= dim < d.len(),
    ensures
        ({
            let n = inner(d, dim);
            let len = d[dim] as int;
            let rest = tail_flat(c, d, dim + 1);
            let (lead, count) = r;
            &&& lead >= 0
            &&& tail_flat(c, d, k) == (lead * len + c[dim]) * n + rest
            &&& tail_flat(c.update(dim, 0), d.update(dim, 1), k) == lead * n + rest
            &&& tail_numel(d, k) == (count * len) * n
            &&& tail_numel(d.update(dim, 1), k) == count * n
            &&& count >= 0
        }),
    decreases dim - k,
{
    let n = inner(d, dim);
    let len = d[dim] as int;
    let rest = tail_flat(c, d, dim + 1);
    let e = d.update(dim, 1usize);
    let b = c.update(dim, 0usize);
    lemma_tail_suffix(d, e, dim + 1, dim + 1);
    lemma_tail_flat_suffix(c, d, b, e, dim + 1);
    if k == dim {
        assert((0 * len + c[dim]) * n == c[dim] as nat * n) by (nonlinear_arith);
        assert((1 * len) * n == d[dim] as nat * n) by (nonlinear_arith)
            requires
                len == d[dim],
        ;
        assert(0 * n == 0 && 1 * n == n) by (nonlinear_arith);
        assert(b[dim] as nat * tail_numel(e, dim + 1) == 0) by (nonlinear_arith)
            requires
                b[dim] == 0,
        ;
        assert(e[dim] as nat * tail_numel(e, dim + 1) == n) by (nonlinear_arith)
            requires
                e[dim] == 1,
                tail_numel(e, dim + 1) == n,
        ;
        (0, 1)
    } else {
        let (lead, count) = lemma_flat_line(c, d, dim, k + 1);
        let x = c[k] as int;
        let y = d[k] as int;
        assert(b[k] == c[k] && e[k] == d[k]);
        let more = x * count + lead;
        assert(x * ((count * len) * n) + ((lead * len + c[dim]) * n + rest) == (more * len
            + c[dim]) * n + rest) by (nonlinear_arith)
            requires
                more == x * count + lead,
        ;
        assert(x * (count * n) + (lead * n + rest) == more * n + rest) by (nonlinear_arith)
            requires
                more == x * count + lead,
        ;
        assert(y * ((count * len) * n) == ((y * count) * len) * n) by (nonlinear_arith);
        assert(y * (count * n) == (y * count) * n) by (nonlinear_arith);
        assert(x * count >= 0 && y * count >= 0) by (nonlinear_arith)
            requires
                x >= 0,
                y >= 0,
                count >= 0,
        ;
        (more, y * count)
    }
}

proof fn lemma_tail_flat_suffix(
    c: Seq<usize>,
    d: Seq<usize>,
    b: Seq<usize>,
    e: Seq<usize>,
    k: int,
)
    requires
        c.len() == d.len() == b.len() == e.len(),
        0 <= k <= d.len(),
        forall|t: int| k <= t < d.len() ==> #[trigger] c[t] == b[t] && d[t] == e[t],
    ensures
        tail_flat(c, d, k) == tail_flat(b, e, k),
    decreases d.len() - k,
{
    if k < d.len() {
        assert(c[k] == b[k]);
        assert forall|t: int| k + 1 <= t < d.len() implies #[trigger] d[t] == e[t] by {
            assert(c[t] == b[t]);
        }
        lemma_tail_suffix(d, e, k + 1, k + 1);
        lemma_tail_flat_suffix(c, d, b, e, k + 1);
    }
}

/// The line along axis `dim` that position `i` lies on.
pub(crate) open spec fn line_of(d: Seq<usize>, dim: int, i: int) -> int {
    let n = inner(d, dim);
    (i / n / d[dim] as int) * n + i % n
}

/// Broadcast along an axis, a position reads the entry of its line.
pub(crate) proof fn lemma_landing_line(d: Seq<usize>, dim: int, i: int)
    requires
        bounded(d),
        0 <= dim < d.len(),
        0 <= i < numel(d),
    ensures
        landing(i, d, d.update(dim, 1)) == line_of(d, dim, i),
{
    let e = d.update(dim, 1usize);
    let c = coord_of(i as nat, d);
    let n = inner(d, dim);
    let len = d[dim] as int;
    lemma_flat_of_coord(i as nat, d);
    lemma_reduced_bounded(d, dim, true);
    lemma_bounded_fits(e);
    lemma_offset_row_major(c, e);
    assert forall|k: int| 0 <= k < d.len() implies clipped(c, e)[k] == c.update(dim, 0usize)[k] by {
        assert(c[k] < d[k]);
    }
    assert(clipped(c, e) =~= c.update(dim, 0usize));
    let (lead, count) = lemma_flat_line(c, d, dim, 0);
    let rest = tail_flat(c, d, dim + 1) as int;
    lemma_flat_bound(c, d, dim + 1);
    assert(c[dim] < d[dim]);
    assert(rest < n);
    assert(lead * len >= 0) by (nonlinear_arith)
        requires
            lead >= 0,
            len >= 0,
    ;
    lemma_join2(lead * len + c[dim], rest, n);
    lemma_join2(lead, c[dim] as int, len);
}

/// The entries of one line are the positions that lie on it.
proof fn lemma_line_total<S: Scalar>(x: Value<S>, dim: int, p: int)
    requires
        exact::<S>(),
        x.wf(),
        0 <= dim < x.dims.len(),
        0 <= p < outer(x.dims, dim) * inner(x.dims, dim),
    ensures
        line_sum(x, dim, p) == total(
            numel(x.dims),
            |i: int|
                if line_of(x.dims, dim, i) == p {
                    x.data[i]
                } else {
                    zero()
                },
        ),
{
    let d = x.dims;
    let n = inner(d, dim);
    let len = d[dim] as int;
    let index = |k: int| line_index(d, dim, p, k);
    let entry = |i: int| (i / n) % len;
    let selected = |i: int| line_of(d, dim, i) == p;
    let f = |i: int| x.data[i];
    assert forall|k: int| 0 <= k < len implies 0 <= #[trigger] index(k) < numel(d) && selected(
        index(k),
    ) && entry(index(k)) == k by {
        lemma_line_index(d, dim, p, k);
        let i = index(k);
        lemma_line_of(d, dim, i);
        lemma_line_injective(d, dim, p, k, line_of(d, dim, i), (i / n) % len);
    }
    assert forall|i: int| 0 <= i < numel(d) && #[trigger] selected(i) implies 0 <= entry(i) < len
        && index(entry(i)) == i by {
        lemma_line_of(d, dim, i);
    }
    lemma_total_select(numel(d), len as nat, index, entry, selected, f);
    lemma_total_eq(
        numel(d),
        |i: int|
            if selected(i) {
                f(i)
            } else {
                zero()
            },
        |i: int|
            if line_of(d, dim, i) == p {
                x.data[i]
            } else {
                zero()
            },
    );
    let g = |k: int| f(index(k));
    lemma_fold_total(len as nat, sum_step(x, dim, p), g);
    lemma_total_eq(len as nat, |k: int| f(index(k)), g);
}

/// The gradient of a sum spread over the axis again.
proof fn lemma_expanded<S: Scalar>(x: Value<S>, dim: int, keep_dim: bool, g: Value<S>)
    requires
        exact::<S>(),
        x.wf(),
        g.wf(),
        0 <= dim < x.dims.len(),
        g.dims == reduced_dims(x.dims, dim, keep_dim),
    ensures
        ({
            let e = expand_value(g, x.dims, dim, keep_dim);
            &&& e.wf()
            &&& e.dims == x.dims
            &&& forall|i: int|
                0 <= i < numel(x.dims) ==> #[trigger] e.data[i] == g.data[line_of(x.dims, dim, i)]
        }),
{
    let d = x.dims;
    let kept = kept_dims(g.dims, dim, keep_dim);
    let wide = reshape_value(g, kept);
    let z = zeros_value::<S>(d);
    assert(kept =~= d.update(dim, 1));
    assert forall|k: int| 0 <= k < kept.len() implies #[trigger] stretches_at(kept, d, k) by {}
    assert(broadcasts_to(kept, d));
    law_broadcast_absorbs(kept, d);
    lemma_bounded_fits(d);
    let e = expand_value(g, d, dim, keep_dim);
    assert forall|i: int| 0 <= i < numel(d) implies #[trigger] e.data[i] == g.data[line_of(
        d,
        dim,
        i,
    )] by {
        lemma_landing_line(d, dim, i);
        lemma_offset_of_coord(i as nat, d);
        lemma_add(stretched(wide, d, i), zero(), zero());
    }
}

/// The gradient of a sum over an axis.
pub proof fn law_sum_adjoint<S: Scalar>(x: Value<S>, dim: usize, keep_dim: bool, g: Value<S>)
    requires
        exact::<S>(),
        x.wf(),
        g.wf(),
        dim < x.dims.len(),
        g.dims == reduced_dims(x.dims, dim as int, keep_dim),
    ensures
        pairing(g.data, sum_value(x, dim as int, keep_dim).data) == pairing(
            rule_value(OpType::Sum { dim, keep_dim }, seq![x], g)[0].data,
            x.data,
        ),
{
    let d = x.dims;
    let axis = dim as int;
    let n = numel(d);
    let m = numel(g.dims);
    let e = expand_value(g, d, axis, keep_dim);
    let y = sum_value(x, axis, keep_dim);
    lemma_expanded(x, axis, keep_dim, g);
    lemma_axis_numel(d, axis, keep_dim);
    let land = |i: int| line_of(d, axis, i);
    let xi = |i: int| x.data[i];
    let gp = |p: int| g.data[p];
    assert forall|i: int| 0 <= i < n implies 0 <= #[trigger] land(i) < m by {
        lemma_line_of(d, axis, i);
    }
    lemma_scatter(n, m, land, xi, gp);
    let left = |p: int| S::mul_spec(g.data[p], y.data[p]);
    let summed = |p: int|
        S::mul_spec(
            total(
                n,
                |i: int|
                    if land(i) == p {
                        xi(i)
                    } else {
                        zero()
                    },
            ),
            gp(p),
        );
    assert forall|p: int| 0 <= p < m implies #[trigger] left(p) == summed(p) by {
        lemma_line_total(x, axis, p);
        lemma_total_eq(
            n,
            |i: int|
                if line_of(d, axis, i) == p {
                    x.data[i]
                } else {
                    zero()
                },
            |i: int|
                if land(i) == p {
                    xi(i)
                } else {
                    zero()
                },
        );
        lemma_mul(g.data[p], y.data[p], zero());
    }
    lemma_total_eq(m, left, summed);
    let read = |i: int| S::mul_spec(xi(i), gp(land(i)));
    let right = |i: int| S::mul_spec(e.data[i], x.data[i]);
    assert forall|i: int| 0 <= i < n implies #[trigger] read(i) == right(i) by {
        lemma_mul(xi(i), gp(land(i)), zero());
    }
    lemma_total_eq(n, read, right);
}

/// The gradient of a mean over an axis.
pub proof fn law_mean_adjoint<S: Scalar>(x: Value<S>, dim: usize, keep_dim: bool, g: Value<S>)
    requires
        exact::<S>(),
        x.wf(),
        g.wf(),
        dim < x.dims.len(),
        g.dims == reduced_dims(x.dims, dim as int, keep_dim),
    ensures
        pairing(g.data, mean_value(x, dim as int, keep_dim).data) == pairing(
            rule_value(OpType::Mean { dim, keep_dim }, seq![x], g)[0].data,
            x.data,
        ),
{
    let d = x.dims;
    let axis = dim as int;
    let n = numel(d);
    let m = numel(g.dims);
    let c = reciprocal::<S>(d[axis]);
    let unit = single(c);
    let e = expand_value(g, d, axis, keep_dim);
    let h = times(e, unit);
    law_sum_adjoint(x, dim, keep_dim, g);
    lemma_expanded(x, axis, keep_dim, g);
    assert forall|k: int| 0 <= k < unit.dims.len() implies #[trigger] stretches_at(
        unit.dims,
        d,
        k,
    ) by {}
    assert(broadcasts_to(unit.dims, d));
    lemma_times(e, unit);
    let y = sum_value(x, axis, keep_dim);
    let z = mean_value(x, axis, keep_dim);
    let fy = |p: int| S::mul_spec(g.data[p], y.data[p]);
    let fz = |p: int| S::mul_spec(g.data[p], z.data[p]);
    assert forall|p: int| 0 <= p < m implies #[trigger] fz(p) == S::mul_spec(c, fy(p)) by {
        lemma_derived(y.data[p], S::count_spec(d[axis]), zero());
        lemma_mul(g.data[p], y.data[p], c);
        lemma_mul(c, fy(p), zero());
    }
    lemma_total_eq(m, fz, |p: int| S::mul_spec(c, fy(p)));
    lemma_total_mul(m, c, fy);
    let fe = |i: int| S::mul_spec(e.data[i], x.data[i]);
    let fh = |i: int| S::mul_spec(h.data[i], x.data[i]);
    assert forall|i: int| 0 <= i < n implies #[trigger] fh(i) == S::mul_spec(c, fe(i)) by {
        reveal_with_fuel(offset_upto, 2);
        assert(stretched(unit, d, i) == c);
        lemma_mul(c, e.data[i], x.data[i]);
        lemma_mul(e.data[i], c, x.data[i]);
    }
    lemma_total_eq(n, fh, |i: int| S::mul_spec(c, fe(i)));
    lemma_total_mul(n, c, fe);
}

/// The gradient of a table, from which rows were taken.
pub proof fn law_embedding_adjoint<S: Scalar>(ids: Value<S>, table: Value<S>, g: Value<S>)
    requires
        exact::<S>(),
        ids.wf(),
        table.wf(),
        g.wf(),
        embedding_ok(ids, table),
        g.dims == ids.dims.push(table.dims[1]),
    ensures
        pairing(g.data, embedding_value(ids, table).data) == pairing(
            rule_value(OpType::Embedding, seq![ids, table], g)[1].data,
            table.data,
        ),
{
    let e = table.dims[1] as int;
    let n = ids.data.len();
    let m = table.data.len();
    let grad = rule_value(OpType::Embedding, seq![ids, table], g)[1];
    let y = embedding_value(ids, table);
    assert(grad == embedding_backward_value(ids, table, g));
    lemma_numel_push(ids.dims, table.dims[1]);
    lemma_numel2(table.dims);
    let rows = table.dims[0] as int;
    let land = |i: int| class_of(ids.data[i / e]) * e + i % e;
    let gi = |i: int| g.data[i];
    let tk = |k: int| table.data[k];
    assert forall|i: int| 0 <= i < n * e implies 0 <= #[trigger] land(i) < m by {
        lemma_split2(i, n as int, e);
        assert(S::index_spec(ids.data[i / e]) is Some);
        lemma_index2(class_of(ids.data[i / e]), rows, i % e, e);
    }
    lemma_scatter((n * e) as nat, m, land, gi, tk);
    let landed = |k: int|
        S::mul_spec(
            total(
                (n * e) as nat,
                |i: int|
                    if land(i) == k {
                        gi(i)
                    } else {
                        zero()
                    },
            ),
            tk(k),
        );
    let right = |k: int| S::mul_spec(grad.data[k], table.data[k]);
    assert forall|k: int| 0 <= k < m implies #[trigger] landed(k) == right(k) by {
        lemma_split2(k, rows, e);
        lemma_gathered(ids.data, g.data, e, k, land);
        let mine = landed_on(land, g.data, k);
        let theirs = |i: int|
            if land(i) == k {
                gi(i)
            } else {
                zero()
            };
        lemma_total_eq((n * e) as nat, theirs, mine);
        assert(grad.data[k] == fold(n, zero(), gather_step(ids.data, g.data, e, k / e, k % e)));
        assert(grad.data[k] == total((n * e) as nat, mine));
        assert(landed(k) == S::mul_spec(total((n * e) as nat, theirs), tk(k)));
    }
    lemma_total_eq(m, landed, right);
    let left = |i: int| S::mul_spec(g.data[i], y.data[i]);
    lemma_total_eq((n * e) as nat, |i: int| S::mul_spec(gi(i), tk(land(i))), left);
}

/// Those elements that land on `k`, zeros in the place of the others.
spec fn landed_on<S: Scalar>(land: spec_fn(int) -> int, go: Seq<S>, k: int) -> spec_fn(int) -> S {
    |i: int|
        if land(i) == k {
            go[i]
        } else {
            zero()
        }
}

/// What lands on entry `k` of a table, position by position.
proof fn lemma_gathered<S: Scalar>(
    ids: Seq<S>,
    go: Seq<S>,
    e: int,
    k: int,
    land: spec_fn(int) -> int,
)
    requires
        exact::<S>(),
        e > 0,
        k >= 0,
        forall|i: int|
            0 <= i < ids.len() * e ==> #[trigger] land(i) == class_of(ids[i / e]) * e + i % e,
    ensures
        fold(ids.len(), zero(), gather_step(ids, go, e, k / e, k % e)) == total(
            (ids.len() * e) as nat,
            landed_on(land, go, k),
        ),
{
    let n = ids.len();
    let f = landed_on(land, go, k);
    lemma_total_runs(n, e as nat, f);
    let row = |t: int| total(e as nat, |d: int| f(t * e + d));
    let taken = |t: int|
        if class_of(ids[t]) == k / e {
            go[t * e + k % e]
        } else {
            zero()
        };
    let step = gather_step(ids, go, e, k / e, k % e);
    assert forall|t: int, acc: S| 0 <= t < n implies #[trigger] step(t, acc) == S::add_spec(
        acc,
        taken(t),
    ) by {
        lemma_add(acc, zero(), zero());
    }
    lemma_fold_total(n, step, taken);
    vstd::arithmetic::div_mod::lemma_fundamental_div_mod(k, e);
    assert(e * (k / e) == (k / e) * e) by (nonlinear_arith);
    assert forall|t: int| 0 <= t < n implies #[trigger] row(t) == taken(t) by {
        let part = |d: int| f(t * e + d);
        assert forall|d: int| 0 <= d < e implies #[trigger] part(d) == (if class_of(ids[t]) == k / e
            && d == k % e {
            go[t * e + d]
        } else {
            zero()
        }) by {
            lemma_index2(t, n as int, d, e);
            lemma_join2(t, d, e);
            let c = class_of(ids[t]);
            assert(land(t * e + d) == c * e + d);
            if c * e + d == k && c >= 0 {
                lemma_join2(c, d, e);
            }
        }
        if class_of(ids[t]) == k / e {
            lemma_total_pick(e as nat, k % e, part);
        } else {
            lemma_total_zero(e as nat, part);
        }
        lemma_total_eq(e as nat, |d: int| f(t * e + d), part);
    }
    lemma_total_eq(n, row, taken);
}

} // verus!
