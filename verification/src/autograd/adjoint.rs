//! What a gradient is: the other side of its operation.
//!
//! An operation that is linear in an input takes a change of that input to a change of its output.
//! Its gradient rule takes the output's gradient back, so that both sides weigh the same: the
//! gradient `g` of the output against what the operation makes of `x` is what the rule makes of `g`
//! against `x`. In exact arithmetic that holds of every such operation, whatever was broadcast.
use vstd::prelude::*;
use crate::autograd::exact::{
    exact, lemma_add, lemma_derived, lemma_distribute, lemma_mul, lemma_scatter, lemma_total_add,
    lemma_total_eq, lemma_total_reorder, pairing, total,
};
use crate::autograd::layout::{inverse_of, lemma_inverse_of};
use crate::autograd::local::{landing, reduce_step, reduce_value, single};
use crate::autograd::rules::{neg_one, over, rule_value, times};
use crate::broadcast::{law_broadcast_absorbs, law_broadcast_commutative, law_broadcast_self};
use crate::cpu::elementwise::{
    lemma_broadcast_reads, lemma_stretched_bound, map_value, stretched, zip_ok, zip_value, BinaryOp,
    UnaryOp,
};
use crate::dense::Value;
use crate::index::{
    bounded, coord_of, lemma_bounded_fits, lemma_dims1, lemma_flat_of_coord, lemma_offset_of_coord,
    numel, offset, offset_upto, row_major,
};
use crate::math::fold;
use crate::op::OpType;
use crate::perm::{
    is_inverse, is_permutation, law_permute_inverse, lemma_bounded_permuted, lemma_inverse,
    lemma_numel_permuted, lemma_strided_row_major, lemma_swap_order, permuted, swap_order,
};
use crate::scalar::{one, zero, Constant, Scalar};
use crate::shape::{broadcast_dims, broadcastable, broadcasts_to, stretches_at};
use crate::views::{
    law_permute_value, lemma_fits_permuted, permute_value, reshape_value, transpose_value,
};

verus! {

/// The sum of what lands on `j`, as one sum over everything.
proof fn lemma_reduce_total<S: Scalar>(g: Value<S>, dims: Seq<usize>, j: int, n: nat)
    requires
        exact::<S>(),
    ensures
        fold(n, zero(), reduce_step(g, dims, j)) == total(
            n,
            |i: int|
                if landing(i, g.dims, dims) == j {
                    g.data[i]
                } else {
                    zero()
                },
        ),
    decreases n,
{
    if n > 0 {
        lemma_reduce_total(g, dims, j, (n - 1) as nat);
        lemma_add(fold((n - 1) as nat, zero(), reduce_step(g, dims, j)), zero(), zero());
    }
}

/// Every element of a value that broadcasts lands inside it.
proof fn lemma_lands(from: Seq<usize>, dims: Seq<usize>, i: int)
    requires
        broadcasts_to(dims, from),
        bounded(dims),
        0 <= i < numel(from),
    ensures
        0 <= landing(i, from, dims) < numel(dims),
{
    lemma_bounded_fits(dims);
    lemma_flat_of_coord(i as nat, from);
    lemma_stretched_bound(dims, from, coord_of(i as nat, from));
}

/// Summing a gradient into an operand's extents is the other side of broadcasting the operand.
pub proof fn law_reduce_adjoint<S: Scalar>(g: Value<S>, x: Value<S>)
    requires
        exact::<S>(),
        g.wf(),
        x.wf(),
        broadcasts_to(x.dims, g.dims),
    ensures
        pairing(reduce_value(g, x.dims).data, x.data) == total(
            numel(g.dims),
            |i: int| S::mul_spec(g.data[i], stretched(x, g.dims, i)),
        ),
{
    let n = numel(g.dims);
    let m = numel(x.dims);
    let r = reduce_value(g, x.dims);
    let land = |i: int| landing(i, g.dims, x.dims);
    let gi = |i: int| g.data[i];
    let xj = |j: int| x.data[j];
    let weighed = |i: int| S::mul_spec(g.data[i], stretched(x, g.dims, i));
    let left = |j: int| S::mul_spec(r.data[j], x.data[j]);
    assert forall|i: int| 0 <= i < n implies 0 <= #[trigger] land(i) < m by {
        lemma_lands(g.dims, x.dims, i);
    }
    if g.dims == x.dims {
        lemma_bounded_fits(x.dims);
        assert forall|i: int| 0 <= i < n implies #[trigger] left(i) == weighed(i) by {
            lemma_offset_of_coord(i as nat, x.dims);
        }
        lemma_total_eq(n, left, weighed);
    } else {
        lemma_scatter(n, m, land, gi, xj);
        let there = |j: int|
            S::mul_spec(
                total(
                    n,
                    |i: int|
                        if land(i) == j {
                            gi(i)
                        } else {
                            zero()
                        },
                ),
                xj(j),
            );
        assert forall|j: int| 0 <= j < m implies #[trigger] left(j) == there(j) by {
            lemma_reduce_total(g, x.dims, j, n);
            lemma_total_eq(
                n,
                |i: int|
                    if landing(i, g.dims, x.dims) == j {
                        g.data[i]
                    } else {
                        zero()
                    },
                |i: int|
                    if land(i) == j {
                        gi(i)
                    } else {
                        zero()
                    },
            );
        }
        lemma_total_eq(m, left, there);
        lemma_total_eq(n, |i: int| S::mul_spec(gi(i), xj(land(i))), weighed);
    }
}

/// The gradients of a sum: against both operands they weigh what the output's gradient weighs
/// against the sum.
pub proof fn law_add_adjoint<S: Scalar>(a: Value<S>, b: Value<S>, g: Value<S>)
    requires
        exact::<S>(),
        a.wf(),
        b.wf(),
        g.wf(),
        zip_ok(a, b),
        g.dims == broadcast_dims(a.dims, b.dims),
    ensures
        ({
            let grads = rule_value(OpType::Add, seq![a, b], g);
            pairing(g.data, zip_value(a, b, BinaryOp::Add).data) == S::add_spec(
                pairing(grads[0].data, a.data),
                pairing(grads[1].data, b.data),
            )
        }),
{
    let n = numel(g.dims);
    let fa = |i: int| S::mul_spec(g.data[i], stretched(a, g.dims, i));
    let fb = |i: int| S::mul_spec(g.data[i], stretched(b, g.dims, i));
    let y = zip_value(a, b, BinaryOp::Add);
    let f = |i: int| S::mul_spec(g.data[i], y.data[i]);
    lemma_broadcast_reads(a.dims, b.dims);
    law_reduce_adjoint(g, a);
    law_reduce_adjoint(g, b);
    lemma_total_add(n, fa, fb);
    let both = |i: int| S::add_spec(fa(i), fb(i));
    assert forall|i: int| 0 <= i < n implies #[trigger] f(i) == both(i) by {
        lemma_distribute(g.data[i], stretched(a, g.dims, i), stretched(b, g.dims, i));
    }
    lemma_total_eq(n, f, both);
}

/// The gradients of a product: each weighs against its own operand what the output's gradient
/// weighs against the product.
pub proof fn law_mul_adjoint<S: Scalar>(a: Value<S>, b: Value<S>, g: Value<S>)
    requires
        exact::<S>(),
        a.wf(),
        b.wf(),
        g.wf(),
        zip_ok(a, b),
        g.dims == broadcast_dims(a.dims, b.dims),
    ensures
        ({
            let grads = rule_value(OpType::Mul, seq![a, b], g);
            let weight = pairing(g.data, zip_value(a, b, BinaryOp::Mul).data);
            &&& weight == pairing(grads[0].data, a.data)
            &&& weight == pairing(grads[1].data, b.data)
        }),
{
    let n = numel(g.dims);
    let y = zip_value(a, b, BinaryOp::Mul);
    let f = |i: int| S::mul_spec(g.data[i], y.data[i]);
    lemma_broadcast_reads(a.dims, b.dims);
    lemma_times(g, a);
    lemma_times(g, b);
    law_reduce_adjoint(times(g, b), a);
    law_reduce_adjoint(times(g, a), b);
    let fa = |i: int| S::mul_spec(times(g, b).data[i], stretched(a, g.dims, i));
    let fb = |i: int| S::mul_spec(times(g, a).data[i], stretched(b, g.dims, i));
    assert forall|i: int| 0 <= i < n implies #[trigger] f(i) == fa(i) && f(i) == fb(i) by {
        let (p, q, r) = (g.data[i], stretched(a, g.dims, i), stretched(b, g.dims, i));
        lemma_mul(p, q, r);
        lemma_mul(p, r, q);
        lemma_mul(q, r, p);
    }
    lemma_total_eq(n, f, fa);
    lemma_total_eq(n, f, fb);
}

/// A gradient times something that broadcasts to it.
pub(crate) proof fn lemma_times<S: Scalar>(g: Value<S>, x: Value<S>)
    requires
        g.wf(),
        broadcasts_to(x.dims, g.dims),
    ensures
        times(g, x).wf(),
        times(g, x).dims == g.dims,
        forall|i: int|
            0 <= i < numel(g.dims) ==> #[trigger] times(g, x).data[i] == S::mul_spec(
                g.data[i],
                stretched(x, g.dims, i),
            ),
{
    law_broadcast_absorbs(x.dims, g.dims);
    lemma_bounded_fits(g.dims);
    assert forall|i: int| 0 <= i < numel(g.dims) implies #[trigger] times(g, x).data[i]
        == S::mul_spec(g.data[i], stretched(x, g.dims, i)) by {
        lemma_offset_of_coord(i as nat, g.dims);
    }
}

/// The gradients of a difference.
pub proof fn law_sub_adjoint<S: Scalar>(a: Value<S>, b: Value<S>, g: Value<S>)
    requires
        exact::<S>(),
        a.wf(),
        b.wf(),
        g.wf(),
        zip_ok(a, b),
        g.dims == broadcast_dims(a.dims, b.dims),
    ensures
        ({
            let grads = rule_value(OpType::Sub, seq![a, b], g);
            pairing(g.data, zip_value(a, b, BinaryOp::Sub).data) == S::add_spec(
                pairing(grads[0].data, a.data),
                pairing(grads[1].data, b.data),
            )
        }),
{
    let n = numel(g.dims);
    let neg = S::constant_spec(Constant::NegOne);
    let h = times(g, neg_one());
    lemma_broadcast_reads(a.dims, b.dims);
    law_reduce_adjoint(g, a);
    lemma_negated(g, b.dims);
    law_reduce_adjoint(h, b);
    let fa = |i: int| S::mul_spec(g.data[i], stretched(a, g.dims, i));
    let fb = |i: int| S::mul_spec(h.data[i], stretched(b, h.dims, i));
    let y = zip_value(a, b, BinaryOp::Sub);
    let f = |i: int| S::mul_spec(g.data[i], y.data[i]);
    lemma_total_add(n, fa, fb);
    let both = |i: int| S::add_spec(fa(i), fb(i));
    assert forall|i: int| 0 <= i < n implies #[trigger] f(i) == both(i) by {
        let (p, q, r) = (g.data[i], stretched(a, g.dims, i), stretched(b, g.dims, i));
        lemma_derived(q, r, zero());
        lemma_distribute(p, q, S::mul_spec(r, neg));
        lemma_mul(p, neg, r);
        lemma_mul(r, neg, p);
        assert(landing(i, h.dims, b.dims) == landing(i, g.dims, b.dims));
    }
    lemma_total_eq(n, f, both);
}

/// A gradient times minus one; without an axis it gets one of extent 1.
proof fn lemma_negated<S: Scalar>(g: Value<S>, dims: Seq<usize>)
    requires
        g.wf(),
        broadcasts_to(dims, g.dims),
    ensures
        ({
            let h = times(g, neg_one::<S>());
            &&& h.wf()
            &&& numel(h.dims) == numel(g.dims)
            &&& broadcasts_to(dims, h.dims)
            &&& forall|i: int|
                0 <= i < numel(g.dims) ==> #[trigger] h.data[i] == S::mul_spec(
                    g.data[i],
                    S::constant_spec(Constant::NegOne),
                )
            &&& forall|i: int|
                0 <= i < numel(g.dims) ==> #[trigger] landing(i, h.dims, dims) == landing(
                    i,
                    g.dims,
                    dims,
                )
        }),
{
    let m = neg_one::<S>();
    let h = times(g, m);
    assert forall|i: int| 0 <= i < numel(g.dims) implies stretched(m, g.dims, i) == m.data[0] by {
        reveal_with_fuel(offset_upto, 2);
    }
    if g.dims.len() > 0 {
        assert(broadcasts_to(m.dims, g.dims)) by {
            assert forall|k: int| 0 <= k < m.dims.len() implies #[trigger] stretches_at(
                m.dims,
                g.dims,
                k,
            ) by {}
        }
        lemma_times(g, m);
    } else {
        assert(dims =~= g.dims);
        assert(h.dims =~= seq![1usize]);
        lemma_dims1(1);
        assert(numel(g.dims) == 1);
        reveal_with_fuel(offset_upto, 2);
        assert(broadcasts_to(dims, h.dims));
    }
}

/// The gradient of another shape for the same elements.
pub proof fn law_reshape_adjoint<S: Scalar>(x: Value<S>, dims: Seq<usize>, g: Value<S>)
    requires
        x.wf(),
        g.wf(),
        g.dims == dims,
        numel(dims) == numel(x.dims),
    ensures
        pairing(g.data, reshape_value(x, dims).data) == pairing(
            rule_value(OpType::Reshape, seq![x], g)[0].data,
            x.data,
        ),
{
}

/// Where an element of a reordered value comes from.
spec fn origin(d: Seq<usize>, p: Seq<usize>, i: int) -> int {
    offset(coord_of(i as nat, permuted(d, p)), permuted(d, p), permuted(row_major(d), p)) as int
}

/// Reordering axes and undoing the order lead each element back.
proof fn lemma_origin(d: Seq<usize>, p: Seq<usize>, q: Seq<usize>, j: int)
    requires
        d.len() <= 8,
        bounded(d),
        is_permutation(p, d.len()),
        is_inverse(q, p),
        0 <= j < numel(d),
    ensures
        0 <= origin(permuted(d, p), q, j) < numel(d),
        origin(d, p, origin(permuted(d, p), q, j)) == j,
{
    let ids = Value { dims: d, data: Seq::new(numel(d), |i: int| i) };
    let e = permuted(d, p);
    law_permute_value(ids, p, q);
    lemma_inverse(p, q);
    lemma_numel_permuted(d, p);
    lemma_bounded_permuted(d, p);
    law_permute_inverse(d, p, q);
    lemma_bounded_fits(d);
    lemma_bounded_fits(e);
    lemma_strided_row_major(ids.data, d);
    lemma_strided_row_major(ids.data, e);
    lemma_fits_permuted(d, row_major(d), p, numel(d));
    lemma_fits_permuted(e, row_major(e), q, numel(e));
    let back = origin(e, q, j);
    lemma_flat_of_coord(j as nat, permuted(e, q));
    assert(0 <= back < numel(d));
    lemma_flat_of_coord(back as nat, e);
    let mid = permute_value(ids, p);
    assert(permute_value(mid, q).data[j] == mid.data[back]);
    assert(mid.data[back] == ids.data[origin(d, p, back)]);
}

/// The gradient of a reordering of axes.
pub proof fn law_permute_adjoint<S: Scalar>(x: Value<S>, axes: Vec<usize>, g: Value<S>)
    requires
        exact::<S>(),
        x.wf(),
        g.wf(),
        is_permutation(axes@, x.dims.len()),
        g.dims == permuted(x.dims, axes@),
    ensures
        pairing(g.data, permute_value(x, axes@).data) == pairing(
            rule_value(OpType::Permute { axes }, seq![x], g)[0].data,
            x.data,
        ),
{
    lemma_inverse_of(axes@);
    lemma_permute_adjoint(x, axes@, inverse_of(axes@), g);
}

/// The gradient of an exchange of two axes.
pub proof fn law_transpose_adjoint<S: Scalar>(x: Value<S>, dim0: usize, dim1: usize, g: Value<S>)
    requires
        exact::<S>(),
        x.wf(),
        g.wf(),
        dim0 < x.dims.len(),
        dim1 < x.dims.len(),
        g.dims == transpose_value(x, dim0 as int, dim1 as int).dims,
    ensures
        pairing(g.data, transpose_value(x, dim0 as int, dim1 as int).data) == pairing(
            rule_value(OpType::Transpose { dim0, dim1 }, seq![x], g)[0].data,
            x.data,
        ),
{
    let p = swap_order(x.dims.len(), dim0 as int, dim1 as int);
    lemma_swap_order(x.dims.len(), dim0 as int, dim1 as int);
    lemma_permute_adjoint(x, p, p, g);
}

proof fn lemma_permute_adjoint<S: Scalar>(x: Value<S>, p: Seq<usize>, q: Seq<usize>, g: Value<S>)
    requires
        exact::<S>(),
        x.wf(),
        g.wf(),
        is_permutation(p, x.dims.len()),
        is_inverse(q, p),
        g.dims == permuted(x.dims, p),
    ensures
        pairing(g.data, permute_value(x, p).data) == pairing(permute_value(g, q).data, x.data),
{
    let d = x.dims;
    let e = g.dims;
    let n = numel(d);
    lemma_numel_permuted(d, p);
    lemma_inverse(p, q);
    law_permute_inverse(d, p, q);
    let to = |j: int| origin(e, q, j);
    let back = |i: int| origin(d, p, i);
    assert forall|j: int| 0 <= j < n implies 0 <= #[trigger] to(j) < n && back(to(j)) == j by {
        lemma_origin(d, p, q, j);
    }
    assert forall|i: int| 0 <= i < n implies 0 <= #[trigger] back(i) < n && to(back(i)) == i by {
        lemma_origin(e, q, p, i);
    }
    let f = |i: int| S::mul_spec(g.data[i], permute_value(x, p).data[i]);
    let h = |j: int| S::mul_spec(permute_value(g, q).data[j], x.data[j]);
    lemma_total_reorder(n, to, back, f);
    assert forall|j: int| 0 <= j < n implies #[trigger] h(j) == f(to(j)) by {
        assert(back(to(j)) == j);
    }
    lemma_total_eq(n, h, |j: int| f(to(j)));
}

/// The gradient of a rectifier, which lets through what is positive.
pub proof fn law_relu_adjoint<S: Scalar>(x: Value<S>, g: Value<S>)
    requires
        exact::<S>(),
        x.wf(),
        g.wf(),
        g.dims == x.dims,
    ensures
        pairing(g.data, map_value(x, UnaryOp::Relu).data) == pairing(
            rule_value(OpType::Relu, seq![x], g)[0].data,
            x.data,
        ),
{
    let n = numel(x.dims);
    let y = map_value(x, UnaryOp::Relu);
    let slope = map_value(x, UnaryOp::ReluSlope);
    let grad = times(g, slope);
    assert(rule_value(OpType::Relu, seq![x], g)[0] == grad);
    law_broadcast_self(x.dims);
    lemma_times(g, slope);
    lemma_bounded_fits(x.dims);
    let f = |i: int| S::mul_spec(g.data[i], y.data[i]);
    let h = |i: int| S::mul_spec(grad.data[i], x.data[i]);
    assert forall|i: int| 0 <= i < n implies #[trigger] f(i) == h(i) by {
        lemma_offset_of_coord(i as nat, x.dims);
        assert(stretched(slope, g.dims, i) == slope.data[i]);
        lemma_mul(g.data[i], zero(), zero());
        lemma_mul(x.data[i], zero(), zero());
    }
    lemma_total_eq(n, f, h);
}

/// An elementwise operation commutes wherever the operation on numbers does.
pub proof fn law_zip_commutes<S: Scalar>(a: Value<S>, b: Value<S>, op: BinaryOp)
    requires
        broadcastable(a.dims, b.dims),
        forall|x: S, y: S| #[trigger] op.apply_spec(x, y) == op.apply_spec(y, x),
    ensures
        zip_value(a, b, op) == zip_value(b, a, op),
{
    law_broadcast_commutative(a.dims, b.dims);
    assert(zip_value(a, b, op).data =~= zip_value(b, a, op).data);
}

/// An elementwise operation with a single number that is neutral for it gives back the operand's
/// elements.
pub proof fn law_zip_neutral<S: Scalar>(a: Value<S>, e: S, op: BinaryOp)
    requires
        a.wf(),
        forall|x: S| #[trigger] op.apply_spec(x, e) == x,
    ensures
        zip_value(a, single(e), op).data == a.data,
        a.dims.len() > 0 ==> zip_value(a, single(e), op).dims == a.dims,
{
    let b = single(e);
    let dims = broadcast_dims(a.dims, b.dims);
    lemma_bounded_fits(a.dims);
    lemma_dims1(1);
    if a.dims.len() > 0 {
        assert(dims =~= a.dims);
        assert(broadcasts_to(b.dims, dims)) by {
            assert(stretches_at(b.dims, dims, 0));
        }
    } else {
        assert(dims =~= seq![1usize]);
        law_broadcast_self(dims);
        assert(numel(a.dims) == 1);
    }
    assert forall|i: int| 0 <= i < numel(dims) implies #[trigger] zip_value(a, b, op).data[i]
        == a.data[i] by {
        lemma_flat_of_coord(i as nat, dims);
        lemma_bounded_fits(b.dims);
        lemma_stretched_bound(b.dims, dims, coord_of(i as nat, dims));
        if a.dims.len() > 0 {
            lemma_offset_of_coord(i as nat, dims);
        } else {
            assert(offset(coord_of(i as nat, dims), a.dims, row_major(a.dims)) == 0);
        }
        assert(stretched(b, dims, i) == e);
    }
    assert(zip_value(a, b, op).data =~= a.data);
}

/// The gradient of a quotient's dividend: it weighs against the dividend what the output's
/// gradient weighs against the quotient.
pub proof fn law_div_adjoint<S: Scalar>(a: Value<S>, b: Value<S>, g: Value<S>)
    requires
        exact::<S>(),
        a.wf(),
        b.wf(),
        g.wf(),
        zip_ok(a, b),
        g.dims == broadcast_dims(a.dims, b.dims),
    ensures
        pairing(g.data, zip_value(a, b, BinaryOp::Div).data) == pairing(
            rule_value(OpType::Div, seq![a, b], g)[0].data,
            a.data,
        ),
{
    let n = numel(g.dims);
    let y = zip_value(a, b, BinaryOp::Div);
    let h = over(g, b);
    let f = |i: int| S::mul_spec(g.data[i], y.data[i]);
    lemma_broadcast_reads(a.dims, b.dims);
    law_broadcast_absorbs(b.dims, g.dims);
    lemma_bounded_fits(g.dims);
    assert(h.dims == g.dims);
    assert(h.wf());
    law_reduce_adjoint(h, a);
    let fa = |i: int| S::mul_spec(h.data[i], stretched(a, g.dims, i));
    assert forall|i: int| 0 <= i < n implies #[trigger] f(i) == fa(i) by {
        lemma_offset_of_coord(i as nat, g.dims);
        let (p, q, r) = (g.data[i], stretched(a, g.dims, i), stretched(b, g.dims, i));
        let w = S::div_spec(one(), r);
        lemma_derived(q, r, zero());
        lemma_derived(p, r, zero());
        lemma_mul(p, q, w);
        lemma_mul(p, w, q);
        lemma_mul(q, w, p);
    }
    lemma_total_eq(n, f, fa);
}

} // verus!
