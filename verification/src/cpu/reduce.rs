//! Reductions along one axis, and softmax.
use vstd::prelude::*;
use crate::cpu::matmul::lemma_head_prefix;
use crate::dense::{copied, filled, Dense, Value};
use crate::index::{
    bounded, head_fits, head_numel, lemma_bounded_fits, lemma_head_times_tail, nonzero, numel,
    tail_fits, tail_numel,
};
use crate::math::{fold, lemma_index2, lemma_join2, lemma_split2};
use crate::scalar::{zero, Constant, Scalar};
use crate::shape::Shape;

verus! {

/// The number of groups that lie before an axis.
pub open spec fn outer(d: Seq<usize>, dim: int) -> int {
    head_numel(d, dim) as int
}

/// The number of elements that lie behind an axis.
pub open spec fn inner(d: Seq<usize>, dim: int) -> int {
    tail_numel(d, dim + 1) as int
}

/// The extents left when axis `dim` is reduced to one element, or dropped.
pub open spec fn reduced_dims(d: Seq<usize>, dim: int, keep_dim: bool) -> Seq<usize> {
    if keep_dim {
        d.update(dim, 1)
    } else {
        d.remove(dim)
    }
}

/// Where entry `k` of line `p` along axis `dim` is stored; lines are counted in row-major order.
pub open spec fn line_index(d: Seq<usize>, dim: int, p: int, k: int) -> int {
    let n = inner(d, dim);
    ((p / n) * d[dim] + k) * n + p % n
}

/// Entry `k` of line `p` along axis `dim`.
pub open spec fn line_at<S>(x: Value<S>, dim: int, p: int, k: int) -> S {
    x.data[line_index(x.dims, dim, p, k)]
}

pub open spec fn sum_step<S: Scalar>(x: Value<S>, dim: int, p: int) -> spec_fn(int, S) -> S {
    |k: int, acc: S| S::add_spec(acc, line_at(x, dim, p, k))
}

/// The sum of line `p`, added up from the first entry to the last.
pub open spec fn line_sum<S: Scalar>(x: Value<S>, dim: int, p: int) -> S {
    fold(x.dims[dim] as nat, zero(), sum_step(x, dim, p))
}

/// The sum over one axis.
pub open spec fn sum_value<S: Scalar>(x: Value<S>, dim: int, keep_dim: bool) -> Value<S> {
    let dims = reduced_dims(x.dims, dim, keep_dim);
    Value { dims, data: Seq::new(numel(dims), |p: int| line_sum(x, dim, p)) }
}

/// The sum over one axis, divided by the length of that axis.
pub open spec fn mean_value<S: Scalar>(x: Value<S>, dim: int, keep_dim: bool) -> Value<S> {
    let dims = reduced_dims(x.dims, dim, keep_dim);
    Value {
        dims,
        data: Seq::new(
            numel(dims),
            |p: int| S::div_spec(line_sum(x, dim, p), S::count_spec(x.dims[dim])),
        ),
    }
}

/// Products of trailing extents depend on these extents alone.
pub proof fn lemma_tail_suffix(a: Seq<usize>, b: Seq<usize>, j: int, k: int)
    requires
        0 <= j <= a.len(),
        0 <= k <= b.len(),
        a.len() - j == b.len() - k,
        forall|t: int| j <= t < a.len() ==> #[trigger] a[t] == b[t - j + k],
    ensures
        tail_numel(a, j) == tail_numel(b, k),
    decreases a.len() - j,
{
    if j < a.len() {
        assert(a[j] == b[k]);
        lemma_tail_suffix(a, b, j + 1, k + 1);
    }
}

/// A shape holds as many elements as its lines along an axis have together, and the reduced
/// shape one for each line.
pub proof fn lemma_axis_numel(d: Seq<usize>, dim: int, keep_dim: bool)
    requires
        0 <= dim < d.len(),
    ensures
        numel(d) == (outer(d, dim) * d[dim]) * inner(d, dim),
        numel(reduced_dims(d, dim, keep_dim)) == outer(d, dim) * inner(d, dim),
{
    lemma_head_times_tail(d, dim);
    let o = outer(d, dim);
    let l = d[dim] as int;
    let n = inner(d, dim);
    assert((o * l) * n == o * (l * n)) by (nonlinear_arith);
    let e = reduced_dims(d, dim, keep_dim);
    lemma_head_times_tail(e, dim);
    lemma_head_prefix(d, e, dim);
    if keep_dim {
        lemma_tail_suffix(d, e, dim + 1, dim + 1);
        assert(tail_numel(e, dim) == 1 * tail_numel(e, dim + 1));
    } else {
        lemma_tail_suffix(d, e, dim + 1, dim);
    }
}

pub proof fn lemma_reduced_bounded(d: Seq<usize>, dim: int, keep_dim: bool)
    requires
        0 <= dim < d.len(),
        bounded(d),
    ensures
        bounded(reduced_dims(d, dim, keep_dim)),
{
    let e = nonzero(d);
    assert(nonzero(reduced_dims(d, dim, keep_dim)) =~= reduced_dims(e, dim, keep_dim));
    lemma_axis_numel(e, dim, keep_dim);
    let o = outer(e, dim);
    let l = e[dim] as int;
    let n = inner(e, dim);
    assert(o * n <= (o * l) * n) by (nonlinear_arith)
        requires
            o >= 0,
            n >= 0,
            l >= 1,
    ;
}

/// Entries of lines lie within the storage.
pub proof fn lemma_line_index(d: Seq<usize>, dim: int, p: int, k: int)
    requires
        0 <= dim < d.len(),
        0 <= p < outer(d, dim) * inner(d, dim),
        0 <= k < d[dim],
    ensures
        inner(d, dim) > 0,
        0 <= p / inner(d, dim) < outer(d, dim),
        0 <= (p / inner(d, dim)) * d[dim],
        0 <= ((p / inner(d, dim)) * d[dim] + k) * inner(d, dim) <= line_index(d, dim, p, k),
        (p / inner(d, dim)) * d[dim] + k <= line_index(d, dim, p, k),
        0 <= line_index(d, dim, p, k) < numel(d),
{
    let o = outer(d, dim);
    let l = d[dim] as int;
    let n = inner(d, dim);
    lemma_axis_numel(d, dim, true);
    lemma_split2(p, o, n);
    lemma_index2(p / n, o, k, l);
    lemma_index2((p / n) * l + k, o * l, p % n, n);
    let q = (p / n) * l + k;
    assert(q <= q * n) by (nonlinear_arith)
        requires
            q >= 0,
            n >= 1,
    ;
}

/// The number of lines along an axis, and the number of elements behind it.
fn axis_extents(shape: &Shape, dim: usize) -> (r: (usize, usize))
    requires
        dim < shape@.len(),
        bounded(shape@),
    ensures
        r.0 == outer(shape@, dim as int) * inner(shape@, dim as int),
        r.1 == inner(shape@, dim as int),
{
    let dims = shape.dims();
    let ghost d = shape@;
    proof {
        lemma_bounded_fits(d);
    }
    let mut o: usize = 1;
    let mut i: usize = 0;
    while i < dim
        invariant
            i <= dim < d.len(),
            dims@ == d,
            head_fits(d),
            o == head_numel(d, i as int),
        decreases dim - i,
    {
        assert(head_numel(d, i + 1) == head_numel(d, i as int) * (d[i as int] as nat));
        o = o * dims[i];
        i = i + 1;
    }
    let mut n: usize = 1;
    let mut j: usize = dims.len();
    while j > dim + 1
        invariant
            dim + 1 <= j <= d.len() == dims@.len(),
            dims@ == d,
            tail_fits(d),
            n == tail_numel(d, j as int),
        decreases j,
    {
        j = j - 1;
        assert(tail_numel(d, j as int) == (d[j as int] as nat) * tail_numel(d, j + 1));
        n = dims[j] * n;
    }
    proof {
        lemma_reduced_bounded(d, dim as int, true);
        lemma_bounded_fits(reduced_dims(d, dim as int, true));
        lemma_axis_numel(d, dim as int, true);
    }
    (o * n, n)
}

/// The shape left when an axis is reduced.
pub(crate) fn reduced_shape(shape: &Shape, dim: usize, keep_dim: bool) -> (s: Shape)
    requires
        dim < shape@.len(),
    ensures
        s.wf(),
        s@ == reduced_dims(shape@, dim as int, keep_dim),
{
    let rank = shape.rank();
    let mut dims: Vec<usize> = copied(shape.dims());
    if keep_dim {
        dims[dim] = 1;
    } else {
        dims.remove(dim);
    }
    Shape::new(&dims)
}

/// The sums of all lines along an axis.
fn reduce_sum_data<S: Scalar>(x: &Dense<S>, dim: usize) -> (r: Vec<S>)
    requires
        x.wf(),
        dim < x@.dims.len(),
    ensures
        r@ == Seq::new(
            (outer(x@.dims, dim as int) * inner(x@.dims, dim as int)) as nat,
            |p: int| line_sum(x@, dim as int, p),
        ),
{
    let len = x.shape().dim(dim);
    let (lines, n) = axis_extents(x.shape(), dim);
    let ghost d = x@.dims;
    proof {
        lemma_bounded_fits(d);
    }
    let mut out: Vec<S> = Vec::with_capacity(lines);
    let mut p: usize = 0;
    while p < lines
        invariant
            p <= lines,
            x.wf(),
            d == x@.dims,
            dim < d.len(),
            len == d[dim as int],
            lines == outer(d, dim as int) * inner(d, dim as int),
            n == inner(d, dim as int),
            numel(d) <= usize::MAX,
            out@.len() == p,
            forall|q: int| 0 <= q < p ==> out@[q] == line_sum(x@, dim as int, q),
        decreases lines - p,
    {
        let ghost step = sum_step(x@, dim as int, p as int);
        let mut acc = S::constant(Constant::Zero);
        let mut k: usize = 0;
        while k < len
            invariant
                k <= len,
                p < lines,
                x.wf(),
                d == x@.dims,
                dim < d.len(),
                len == d[dim as int],
                lines == outer(d, dim as int) * inner(d, dim as int),
                n == inner(d, dim as int),
                numel(d) <= usize::MAX,
                step == sum_step(x@, dim as int, p as int),
                acc == fold(k as nat, zero::<S>(), step),
            decreases len - k,
        {
            proof {
                lemma_line_index(d, dim as int, p as int, k as int);
            }
            acc = acc.add(x.data()[((p / n) * len + k) * n + p % n]);
            k = k + 1;
        }
        out.push(acc);
        p = p + 1;
    }
    out
}

/// Sum over a single axis.
pub fn sum<S: Scalar>(x: &Dense<S>, dim: usize, keep_dim: bool) -> (r: Dense<S>)
    requires
        x.wf(),
        dim < x@.dims.len(),
    ensures
        r.wf(),
        r@ == sum_value(x@, dim as int, keep_dim),
{
    let data = reduce_sum_data(x, dim);
    proof {
        lemma_axis_numel(x@.dims, dim as int, keep_dim);
        lemma_reduced_bounded(x@.dims, dim as int, keep_dim);
    }
    assert(data@ =~= sum_value(x@, dim as int, keep_dim).data);
    Dense::new(reduced_shape(x.shape(), dim, keep_dim), data)
}

/// Mean over a single axis: the sum, then a single division by the axis length.
pub fn mean<S: Scalar>(x: &Dense<S>, dim: usize, keep_dim: bool) -> (r: Dense<S>)
    requires
        x.wf(),
        dim < x@.dims.len(),
    ensures
        r.wf(),
        r@ == mean_value(x@, dim as int, keep_dim),
{
    let mut data = reduce_sum_data(x, dim);
    let count = S::count(x.shape().dim(dim));
    let ghost sums = data@;
    let n: usize = data.len();
    let mut i: usize = 0;
    while i < n
        invariant
            i <= n == sums.len(),
            data@.len() == n,
            count == S::count_spec(x@.dims[dim as int]),
            forall|p: int| 0 <= p < i ==> data@[p] == S::div_spec(sums[p], count),
            forall|p: int| i <= p < n ==> data@[p] == sums[p],
        decreases n - i,
    {
        let v = data[i].div(count);
        data[i] = v;
        i = i + 1;
    }
    proof {
        lemma_axis_numel(x@.dims, dim as int, keep_dim);
        lemma_reduced_bounded(x@.dims, dim as int, keep_dim);
    }
    assert(data@ =~= mean_value(x@, dim as int, keep_dim).data);
    Dense::new(reduced_shape(x.shape(), dim, keep_dim), data)
}

pub open spec fn max_step<S: Scalar>(x: Value<S>, dim: int, p: int) -> spec_fn(int, S) -> S {
    |k: int, acc: S|
        if S::gt_spec(line_at(x, dim, p, k), acc) {
            line_at(x, dim, p, k)
        } else {
            acc
        }
}

/// The largest entry of line `p`.
pub open spec fn line_max<S: Scalar>(x: Value<S>, dim: int, p: int) -> S {
    fold(x.dims[dim] as nat, S::constant_spec(Constant::NegInfinity), max_step(x, dim, p))
}

/// The exponential of entry `k` of line `p`, shifted by the largest entry.
pub open spec fn line_exp<S: Scalar>(x: Value<S>, dim: int, p: int, k: int) -> S {
    S::exp_spec(S::sub_spec(line_at(x, dim, p, k), line_max(x, dim, p)))
}

pub open spec fn exp_step<S: Scalar>(x: Value<S>, dim: int, p: int) -> spec_fn(int, S) -> S {
    |k: int, acc: S| S::add_spec(acc, line_exp(x, dim, p, k))
}

/// The sum of the shifted exponentials of line `p`.
pub open spec fn line_exp_sum<S: Scalar>(x: Value<S>, dim: int, p: int) -> S {
    fold(x.dims[dim] as nat, zero(), exp_step(x, dim, p))
}

/// Each line along the axis replaced by its shifted exponentials, divided by their sum.
pub open spec fn softmax_value<S: Scalar>(x: Value<S>, dim: int) -> Value<S> {
    let n = inner(x.dims, dim);
    let len = x.dims[dim] as int;
    Value {
        dims: x.dims,
        data: Seq::new(
            x.data.len(),
            |i: int|
                {
                    let p = (i / n / len) * n + i % n;
                    S::div_spec(line_exp(x, dim, p, (i / n) % len), line_exp_sum(x, dim, p))
                },
        ),
    }
}

/// The line and the entry that a position belongs to.
pub proof fn lemma_line_of(d: Seq<usize>, dim: int, i: int)
    requires
        0 <= dim < d.len(),
        0 <= i < numel(d),
    ensures
        ({
            let n = inner(d, dim);
            let len = d[dim] as int;
            let p = (i / n / len) * n + i % n;
            let k = (i / n) % len;
            &&& n > 0
            &&& len > 0
            &&& 0 <= p < outer(d, dim) * n
            &&& 0 <= k < len
            &&& line_index(d, dim, p, k) == i
        }),
{
    let o = outer(d, dim);
    let l = d[dim] as int;
    let n = inner(d, dim);
    lemma_axis_numel(d, dim, true);
    assert(0 <= o * l) by (nonlinear_arith)
        requires
            0 <= o,
            0 <= l,
    ;
    lemma_split2(i, o * l, n);
    lemma_split2(i / n, o, l);
    lemma_index2(i / n / l, o, i % n, n);
    lemma_join2(i / n / l, i % n, n);
}

/// Softmax along a single axis.
pub fn softmax<S: Scalar>(x: &Dense<S>, dim: usize) -> (r: Dense<S>)
    requires
        x.wf(),
        dim < x@.dims.len(),
    ensures
        r.wf(),
        r@ == softmax_value(x@, dim as int),
{
    let len = x.shape().dim(dim);
    let (lines, n) = axis_extents(x.shape(), dim);
    let ghost d = x@.dims;
    let ghost a = dim as int;
    proof {
        lemma_bounded_fits(d);
    }
    let total = x.numel();
    let mut out: Vec<S> = filled(total, S::constant(Constant::Zero));
    let mut p: usize = 0;
    while p < lines
        invariant
            p <= lines,
            x.wf(),
            d == x@.dims,
            a == dim,
            dim < d.len(),
            len == d[a],
            lines == outer(d, a) * inner(d, a),
            n == inner(d, a),
            numel(d) <= usize::MAX,
            out@.len() == numel(d),
            forall|q: int, k: int|
                0 <= q < p && 0 <= k < len ==> #[trigger] out@[line_index(d, a, q, k)]
                    == S::div_spec(line_exp(x@, a, q, k), line_exp_sum(x@, a, q)),
        decreases lines - p,
    {
        let ghost mx = max_step(x@, a, p as int);
        let ghost ex = exp_step(x@, a, p as int);
        let mut max_val = S::constant(Constant::NegInfinity);
        let mut k: usize = 0;
        while k < len
            invariant
                k <= len,
                p < lines,
                x.wf(),
                d == x@.dims,
                a == dim,
                dim < d.len(),
                len == d[a],
                lines == outer(d, a) * inner(d, a),
                n == inner(d, a),
                numel(d) <= usize::MAX,
                mx == max_step(x@, a, p as int),
                max_val == fold(k as nat, S::constant_spec(Constant::NegInfinity), mx),
            decreases len - k,
        {
            proof {
                lemma_line_index(d, a, p as int, k as int);
            }
            let v = x.data()[((p / n) * len + k) * n + p % n];
            if v.gt(max_val) {
                max_val = v;
            }
            k = k + 1;
        }
        let mut sum_exp = S::constant(Constant::Zero);
        k = 0;
        while k < len
            invariant
                k <= len,
                p < lines,
                x.wf(),
                d == x@.dims,
                a == dim,
                dim < d.len(),
                len == d[a],
                lines == outer(d, a) * inner(d, a),
                n == inner(d, a),
                numel(d) <= usize::MAX,
                max_val == line_max(x@, a, p as int),
                ex == exp_step(x@, a, p as int),
                sum_exp == fold(k as nat, zero::<S>(), ex),
            decreases len - k,
        {
            proof {
                lemma_line_index(d, a, p as int, k as int);
            }
            let v = x.data()[((p / n) * len + k) * n + p % n];
            sum_exp = sum_exp.add(v.sub(max_val).exp());
            k = k + 1;
        }
        k = 0;
        while k < len
            invariant
                k <= len,
                p < lines,
                x.wf(),
                d == x@.dims,
                a == dim,
                dim < d.len(),
                len == d[a],
                lines == outer(d, a) * inner(d, a),
                n == inner(d, a),
                numel(d) <= usize::MAX,
                max_val == line_max(x@, a, p as int),
                sum_exp == line_exp_sum(x@, a, p as int),
                out@.len() == numel(d),
                forall|q: int, j: int|
                    0 <= q < p && 0 <= j < len || q == p && 0 <= j < k
                        ==> #[trigger] out@[line_index(d, a, q, j)] == S::div_spec(
                        line_exp(x@, a, q, j),
                        line_exp_sum(x@, a, q),
                    ),
            decreases len - k,
        {
            proof {
                lemma_line_index(d, a, p as int, k as int);
                assert forall|q: int, j: int|
                    (0 <= q < p && 0 <= j < len || q == p && 0 <= j < k) implies #[trigger] line_index(
                    d,
                    a,
                    q,
                    j,
                ) != line_index(d, a, p as int, k as int) && 0 <= line_index(d, a, q, j) < numel(
                    d,
                ) by {
                    lemma_line_index(d, a, q, j);
                    lemma_line_injective(d, a, q, j, p as int, k as int);
                }
            }
            let at: usize = ((p / n) * len + k) * n + p % n;
            let v = x.data()[at];
            let e = v.sub(max_val).exp().div(sum_exp);
            out[at] = e;
            k = k + 1;
        }
        p = p + 1;
    }
    proof {
        let want = softmax_value(x@, a);
        assert forall|i: int| 0 <= i < total implies out@[i] == want.data[i] by {
            lemma_line_of(d, a, i);
            let q = (i / n as int / len as int) * n + i % n as int;
            let k = (i / n as int) % len as int;
            assert(out@[line_index(d, a, q, k)] == S::div_spec(
                line_exp(x@, a, q, k),
                line_exp_sum(x@, a, q),
            ));
        }
        assert(out@ =~= want.data);
    }
    Dense::new(*x.shape(), out)
}

/// Different entries are stored at different places.
pub proof fn lemma_line_injective(d: Seq<usize>, dim: int, p: int, k: int, q: int, j: int)
    requires
        0 <= dim < d.len(),
        0 <= p < outer(d, dim) * inner(d, dim),
        0 <= q < outer(d, dim) * inner(d, dim),
        0 <= k < d[dim],
        0 <= j < d[dim],
    ensures
        line_index(d, dim, p, k) == line_index(d, dim, q, j) ==> p == q && k == j,
{
    let o = outer(d, dim);
    let l = d[dim] as int;
    let n = inner(d, dim);
    lemma_split2(p, o, n);
    lemma_split2(q, o, n);
    lemma_index2(p / n, o, k, l);
    lemma_index2(q / n, o, j, l);
    lemma_join2((p / n) * l + k, p % n, n);
    lemma_join2((q / n) * l + j, q % n, n);
    lemma_join2(p / n, k, l);
    lemma_join2(q / n, j, l);
}

} // verus!
