//! Batched matrix multiplication.
use vstd::prelude::*;
use crate::cpu::elementwise::{lemma_broadcast_reads, lemma_stretched_bound};
use crate::dense::{Dense, Value};
use crate::index::{
    bounded, coord_of, lemma_bounded_fits, lemma_flat_of_coord, lemma_head_numel,
    lemma_head_times_tail, lemma_numel_zero, numel, offset, row_major, tail_fits, tail_numel,
};
use crate::math::{fold, lemma_index2, lemma_join2, lemma_split2};
use crate::scalar::{zero, Constant, Scalar};
use crate::shape::{broadcast_dims, broadcastable, broadcasts_to, flat_to_coord, get_offset, Shape};

verus! {

/// The leading extents of a stack of matrices.
pub open spec fn batch_dims(d: Seq<usize>) -> Seq<usize> {
    d.subrange(0, d.len() - 2)
}

/// The number of rows of the matrices in a stack.
pub open spec fn rows(d: Seq<usize>) -> usize {
    d[d.len() - 2]
}

/// The number of columns of the matrices in a stack.
pub open spec fn cols(d: Seq<usize>) -> usize {
    d[d.len() - 1]
}

/// Two stacks of matrices can be multiplied: the inner extents agree, the leading extents
/// broadcast, and the result fits the machine.
pub open spec fn matmul_ok<S>(a: Value<S>, b: Value<S>) -> bool {
    &&& a.dims.len() >= 2
    &&& b.dims.len() >= 2
    &&& cols(a.dims) == rows(b.dims)
    &&& broadcastable(batch_dims(a.dims), batch_dims(b.dims))
    &&& bounded(matmul_dims(a.dims, b.dims))
}

/// The extents of the product of two stacks of matrices.
pub open spec fn matmul_dims(a: Seq<usize>, b: Seq<usize>) -> Seq<usize> {
    broadcast_dims(batch_dims(a), batch_dims(b)).push(rows(a)).push(cols(b))
}

/// The matrix of a stack with leading extents `own` that is read for matrix `batch` of a stack
/// with leading extents `common`.
pub open spec fn batch_of(own: Seq<usize>, common: Seq<usize>, batch: int) -> int {
    offset(coord_of(batch as nat, common), own, row_major(own)) as int
}

/// Adds the product at inner index `t` to the running sum of one output element.
pub open spec fn matmul_step<S: Scalar>(
    a: Value<S>,
    b: Value<S>,
    la: int,
    lb: int,
    r: int,
    c: int,
) -> spec_fn(int, S) -> S {
    let m = rows(a.dims) as int;
    let k = cols(a.dims) as int;
    let n = cols(b.dims) as int;
    |t: int, acc: S|
        S::mul_add_spec(a.data[(la * m + r) * k + t], b.data[(lb * k + t) * n + c], acc)
}

/// Element `c` of row `row` of the product, rows counted over all matrices.
pub open spec fn matmul_at<S: Scalar>(a: Value<S>, b: Value<S>, row: int, c: int) -> S {
    let m = rows(a.dims) as int;
    let common = broadcast_dims(batch_dims(a.dims), batch_dims(b.dims));
    let la = batch_of(batch_dims(a.dims), common, row / m);
    let lb = batch_of(batch_dims(b.dims), common, row / m);
    fold(cols(a.dims) as nat, zero(), matmul_step(a, b, la, lb, row % m, c))
}

/// The product of two stacks of matrices.
pub open spec fn matmul_value<S: Scalar>(a: Value<S>, b: Value<S>) -> Value<S> {
    let dims = matmul_dims(a.dims, b.dims);
    let n = cols(b.dims) as int;
    Value { dims, data: Seq::new(numel(dims), |i: int| matmul_at(a, b, i / n, i % n)) }
}

/// A stack holds as many elements as its matrices have together.
pub proof fn lemma_stack_numel(d: Seq<usize>)
    requires
        d.len() >= 2,
    ensures
        numel(d) == numel(batch_dims(d)) * (rows(d) as nat * cols(d) as nat),
        numel(d) == (numel(batch_dims(d)) * rows(d) as nat) * cols(d) as nat,
{
    let n = d.len() - 2;
    lemma_head_times_tail(d, n);
    lemma_head_prefix(d, batch_dims(d), n);
    lemma_head_numel(batch_dims(d));
    assert(tail_numel(d, d.len() as int) == 1);
    assert(tail_numel(d, n + 1) == cols(d) as nat * tail_numel(d, d.len() as int));
    assert(tail_numel(d, n) == rows(d) as nat * tail_numel(d, n + 1));
    vstd::arithmetic::mul::lemma_mul_basics(cols(d) as int);
    vstd::arithmetic::mul::lemma_mul_is_associative(
        numel(batch_dims(d)) as int,
        rows(d) as int,
        cols(d) as int,
    );
}

/// Products of leading extents depend on these extents alone.
pub proof fn lemma_head_prefix(a: Seq<usize>, b: Seq<usize>, n: int)
    requires
        0 <= n <= a.len(),
        n <= b.len(),
        forall|k: int| 0 <= k < n ==> a[k] == b[k],
    ensures
        crate::index::head_numel(a, n) == crate::index::head_numel(b, n),
    decreases n,
{
    if n > 0 {
        lemma_head_prefix(a, b, n - 1);
    }
}

/// A leading part of bounded extents is bounded.
pub proof fn lemma_batch_bounded(d: Seq<usize>)
    requires
        d.len() >= 2,
        bounded(d),
    ensures
        bounded(batch_dims(d)),
{
    let e = crate::index::nonzero(d);
    let f = crate::index::nonzero(batch_dims(d));
    assert(f =~= batch_dims(e));
    lemma_stack_numel(e);
    let x = numel(f) as int;
    let y = (rows(e) as nat * cols(e) as nat) as int;
    let p = rows(e) as int;
    let q = cols(e) as int;
    assert(x <= x * y) by (nonlinear_arith)
        requires
            x >= 0,
            p >= 1,
            q >= 1,
            y == p * q,
    ;
}

/// The dot product of one row of `lhs` and one column of `rhs`.
fn matmul_dot<S: Scalar>(
    lhs: &Dense<S>,
    rhs: &Dense<S>,
    la: usize,
    lb: usize,
    r: usize,
    c: usize,
) -> (acc: S)
    requires
        lhs.wf(),
        rhs.wf(),
        matmul_ok(lhs@, rhs@),
        la < numel(batch_dims(lhs@.dims)),
        lb < numel(batch_dims(rhs@.dims)),
        r < rows(lhs@.dims),
        c < cols(rhs@.dims),
    ensures
        acc == fold(
            cols(lhs@.dims) as nat,
            zero::<S>(),
            matmul_step(lhs@, rhs@, la as int, lb as int, r as int, c as int),
        ),
{
    let rank_l = lhs.shape().rank();
    let rank_r = rhs.shape().rank();
    let m = lhs.shape().dim(rank_l - 2);
    let k = lhs.shape().dim(rank_l - 1);
    let n = rhs.shape().dim(rank_r - 1);
    let ghost step = matmul_step(lhs@, rhs@, la as int, lb as int, r as int, c as int);
    let mut acc = S::constant(Constant::Zero);
    let mut t: usize = 0;
    proof {
        lemma_stack_numel(lhs@.dims);
        lemma_stack_numel(rhs@.dims);
        lemma_bounded_fits(lhs@.dims);
        lemma_bounded_fits(rhs@.dims);
    }
    while t < k
        invariant
            t <= k,
            m == rows(lhs@.dims),
            k == cols(lhs@.dims),
            k == rows(rhs@.dims),
            n == cols(rhs@.dims),
            lhs.wf(),
            rhs.wf(),
            la < numel(batch_dims(lhs@.dims)),
            lb < numel(batch_dims(rhs@.dims)),
            r < m,
            c < n,
            numel(lhs@.dims) == (numel(batch_dims(lhs@.dims)) * m as nat) * k as nat,
            numel(rhs@.dims) == (numel(batch_dims(rhs@.dims)) * k as nat) * n as nat,
            numel(lhs@.dims) <= usize::MAX,
            numel(rhs@.dims) <= usize::MAX,
            step == matmul_step(lhs@, rhs@, la as int, lb as int, r as int, c as int),
            acc == fold(t as nat, zero::<S>(), step),
        decreases k - t,
    {
        proof {
            let nl = numel(batch_dims(lhs@.dims)) as int;
            let nr = numel(batch_dims(rhs@.dims)) as int;
            lemma_index2(la as int, nl, r as int, m as int);
            lemma_index2(la * m + r, nl * m, t as int, k as int);
            lemma_index2(lb as int, nr, t as int, k as int);
            lemma_index2(lb * k + t, nr * k, c as int, n as int);
            assert(la * m + r <= (la * m + r) * k) by (nonlinear_arith)
                requires
                    k >= 1,
                    la * m + r >= 0,
            ;
            assert(lb * k + t <= (lb * k + t) * n) by (nonlinear_arith)
                requires
                    n >= 1,
                    lb * k + t >= 0,
            ;
        }
        let x = lhs.data()[(la * m + r) * k + t];
        let y = rhs.data()[(lb * k + t) * n + c];
        acc = x.mul_add(y, acc);
        t = t + 1;
    }
    acc
}

/// The rows `start..end` of the product, rows counted over all matrices.
///
/// Different row ranges are independent of each other, so that they can be computed in parallel.
pub fn matmul_rows<S: Scalar>(
    lhs: &Dense<S>,
    rhs: &Dense<S>,
    start: usize,
    end: usize,
) -> (r: Vec<S>)
    requires
        lhs.wf(),
        rhs.wf(),
        matmul_ok(lhs@, rhs@),
        start <= end,
        end * cols(rhs@.dims) <= numel(matmul_dims(lhs@.dims, rhs@.dims)),
        cols(rhs@.dims) > 0,
    ensures
        r@ == matmul_value(lhs@, rhs@).data.subrange(
            start * cols(rhs@.dims),
            end * cols(rhs@.dims),
        ),
{
    let rank_l = lhs.shape().rank();
    let rank_r = rhs.shape().rank();
    let m = lhs.shape().dim(rank_l - 2);
    let n = rhs.shape().dim(rank_r - 1);
    let batch_l = Shape::new(&lhs.shape().dims()[0..rank_l - 2]);
    let batch_r = Shape::new(&rhs.shape().dims()[0..rank_r - 2]);
    let common = match batch_l.broadcast(&batch_r) {
        Some(s) => s,
        None => batch_l,
    };
    let ghost dims = matmul_dims(lhs@.dims, rhs@.dims);
    let ghost value = matmul_value(lhs@, rhs@);
    proof {
        assert(batch_l@ =~= batch_dims(lhs@.dims));
        assert(batch_r@ =~= batch_dims(rhs@.dims));
        lemma_batch_bounded(lhs@.dims);
        lemma_batch_bounded(rhs@.dims);
        lemma_bounded_fits(batch_l@);
        lemma_bounded_fits(batch_r@);
        lemma_bounded_fits(dims);
        assert(batch_dims(dims) =~= common@);
        lemma_batch_bounded(dims);
        lemma_bounded_fits(common@);
        lemma_stack_numel(dims);
        lemma_broadcast_reads(batch_l@, batch_r@);
        let total = numel(common@) * m as nat;
        assert(end <= total) by (nonlinear_arith)
            requires
                end * n <= total * n as nat,
                n > 0,
        ;
        assert(0 <= start * n <= end * n) by (nonlinear_arith)
            requires
                0 <= start <= end,
                n > 0,
        ;
    }
    let strides_l = batch_l.contiguous_strides();
    let strides_r = batch_r.contiguous_strides();
    let mut out: Vec<S> = Vec::new();
    let mut row: usize = start;
    while row < end
        invariant
            start <= row <= end,
            lhs.wf(),
            rhs.wf(),
            matmul_ok(lhs@, rhs@),
            m == rows(lhs@.dims),
            n == cols(rhs@.dims),
            n > 0,
            batch_l@ == batch_dims(lhs@.dims),
            batch_r@ == batch_dims(rhs@.dims),
            common@ == broadcast_dims(batch_l@, batch_r@),
            broadcasts_to(batch_l@, common@),
            broadcasts_to(batch_r@, common@),
            strides_l@ == row_major(batch_l@),
            strides_r@ == row_major(batch_r@),
            tail_fits(batch_l@),
            tail_fits(batch_r@),
            tail_fits(common@),
            numel(batch_l@) <= usize::MAX,
            numel(batch_r@) <= usize::MAX,
            value == matmul_value(lhs@, rhs@),
            value.data.len() == (numel(common@) * m as nat) * n as nat,
            end <= numel(common@) * m as nat,
            start * n <= row * n,
            end * n <= value.data.len(),
            out@ == value.data.subrange(start * n, row * n),
        decreases end - row,
    {
        proof {
            lemma_split2(row as int, numel(common@) as int, m as int);
            lemma_numel_zero(common@);
            lemma_flat_of_coord((row / m) as nat, common@);
            lemma_stretched_bound(batch_l@, common@, coord_of((row / m) as nat, common@));
            lemma_stretched_bound(batch_r@, common@, coord_of((row / m) as nat, common@));
            lemma_index2(row as int, end as int, 0, n as int);
        }
        let batch: usize = row / m;
        let r: usize = row % m;
        let coord = flat_to_coord(batch, &common);
        let la = get_offset(&coord, &batch_l, &strides_l);
        let lb = get_offset(&coord, &batch_r, &strides_r);
        let mut c: usize = 0;
        let ghost before = out@;
        while c < n
            invariant
                c <= n,
                row < end,
                lhs.wf(),
                rhs.wf(),
                matmul_ok(lhs@, rhs@),
                m == rows(lhs@.dims),
                n == cols(rhs@.dims),
                r < m,
                r == row % m,
                la == batch_of(batch_l@, common@, (row / m) as int),
                lb == batch_of(batch_r@, common@, (row / m) as int),
                la < numel(batch_l@),
                lb < numel(batch_r@),
                batch_l@ == batch_dims(lhs@.dims),
                batch_r@ == batch_dims(rhs@.dims),
                common@ == broadcast_dims(batch_l@, batch_r@),
                value == matmul_value(lhs@, rhs@),
                row * n + n <= value.data.len(),
                0 <= start * n <= row * n,
                before == value.data.subrange(start * n, row * n),
                out@ == value.data.subrange(start * n, row * n + c),
            decreases n - c,
        {
            proof {
                lemma_join2(row as int, c as int, n as int);
            }
            let x = matmul_dot(lhs, rhs, la, lb, r, c);
            assert(x == value.data[row * n + c]);
            out.push(x);
            c = c + 1;
            assert(out@ =~= value.data.subrange(start * n, row * n + c));
        }
        row = row + 1;
        proof {
            assert((row - 1) * n + n == row * n) by (nonlinear_arith);
        }
    }
    out
}

/// Matrix multiplication of two stacks of matrices.
pub fn matmul<S: Scalar>(lhs: &Dense<S>, rhs: &Dense<S>) -> (r: Dense<S>)
    requires
        lhs.wf(),
        rhs.wf(),
        matmul_ok(lhs@, rhs@),
    ensures
        r.wf(),
        r@ == matmul_value(lhs@, rhs@),
{
    let rank_l = lhs.shape().rank();
    let rank_r = rhs.shape().rank();
    let m = lhs.shape().dim(rank_l - 2);
    let n = rhs.shape().dim(rank_r - 1);
    let batch_l = Shape::new(&lhs.shape().dims()[0..rank_l - 2]);
    let batch_r = Shape::new(&rhs.shape().dims()[0..rank_r - 2]);
    let common = match batch_l.broadcast(&batch_r) {
        Some(s) => s,
        None => batch_l,
    };
    let mut out_dims: Vec<usize> = crate::dense::copied(common.dims());
    out_dims.push(m);
    out_dims.push(n);
    let out_shape = Shape::new(&out_dims);
    let ghost dims = matmul_dims(lhs@.dims, rhs@.dims);
    proof {
        assert(batch_l@ =~= batch_dims(lhs@.dims));
        assert(batch_r@ =~= batch_dims(rhs@.dims));
        assert(out_shape@ =~= dims);
        assert(batch_dims(dims) =~= common@);
        lemma_bounded_fits(dims);
        lemma_batch_bounded(dims);
        lemma_bounded_fits(common@);
        lemma_stack_numel(dims);
    }
    let total = out_shape.numel();
    if total == 0 {
        let out: Vec<S> = Vec::new();
        assert(out@ =~= matmul_value(lhs@, rhs@).data);
        return Dense::new(out_shape, out);
    }
    proof {
        if n == 0 {
            assert((numel(common@) * m as nat) * n as nat == 0) by (nonlinear_arith)
                requires
                    n == 0,
            ;
        }
        let q = numel(common@) * m as nat;
        assert(q <= q * n as nat) by (nonlinear_arith)
            requires
                n >= 1,
        ;
    }
    let batches = common.numel();
    let total_rows: usize = batches * m;
    let data = matmul_rows(lhs, rhs, 0, total_rows);
    assert(data@ =~= matmul_value(lhs@, rhs@).data);
    Dense::new(out_shape, data)
}

/// Rows can be computed in pieces: two neighbouring ranges make up the range that they cover, and
/// the range of all rows is the whole product.
pub proof fn law_rows_join<S: Scalar>(a: Value<S>, b: Value<S>, i: int, j: int, k: int)
    requires
        0 <= i <= j <= k,
        k * cols(b.dims) <= matmul_value(a, b).data.len(),
    ensures
        ({
            let n = cols(b.dims) as int;
            let whole = matmul_value(a, b).data;
            &&& whole.subrange(i * n, j * n) + whole.subrange(j * n, k * n) == whole.subrange(
                i * n,
                k * n,
            )
            &&& k * n == whole.len() ==> whole.subrange(0 * n, k * n) == whole
        }),
{
    let n = cols(b.dims) as int;
    let whole = matmul_value(a, b).data;
    assert(0 <= i * n <= j * n <= k * n) by (nonlinear_arith)
        requires
            0 <= i <= j <= k,
            0 <= n,
    ;
    assert(whole.subrange(i * n, j * n) + whole.subrange(j * n, k * n) =~= whole.subrange(
        i * n,
        k * n,
    ));
    if k * n == whole.len() {
        assert(whole.subrange(0 * n, k * n) =~= whole);
    }
}

} // verus!
