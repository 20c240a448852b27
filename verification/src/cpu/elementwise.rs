//! Elementwise kernels with broadcasting.
use vstd::prelude::*;
use crate::dense::{Dense, Value};
use crate::index::{
    bounded, clipped, coord_of, flat, in_bounds, lemma_bounded_fits, lemma_coord_of_flat,
    lemma_flat_bound, lemma_offset_row_major, numel, offset, row_major, tail_fits,
};
use crate::scalar::{one, zero, Constant, Scalar};
use crate::shape::{
    agree_at, broadcast_dims, broadcastable, broadcasts_to, get_offset, stretches_at, NdIterator,
};

verus! {

/// The elementwise operations of two operands.
#[derive(Debug, Clone, Copy, PartialEq, Eq, Structural)]
pub enum BinaryOp {
    Add,
    Sub,
    Mul,
    Div,
}

impl BinaryOp {
    pub open spec fn apply_spec<S: Scalar>(self, a: S, b: S) -> S {
        match self {
            BinaryOp::Add => S::add_spec(a, b),
            BinaryOp::Sub => S::sub_spec(a, b),
            BinaryOp::Mul => S::mul_spec(a, b),
            BinaryOp::Div => S::div_spec(a, b),
        }
    }

    /// The operation on two numbers.
    pub(crate) fn apply<S: Scalar>(self, a: S, b: S) -> (r: S)
        ensures
            r == self.apply_spec(a, b),
    {
        match self {
            BinaryOp::Add => a.add(b),
            BinaryOp::Sub => a.sub(b),
            BinaryOp::Mul => a.mul(b),
            BinaryOp::Div => a.div(b),
        }
    }
}

/// The element of `a` that a broadcast to `dims` shows at row-major position `i`.
pub open spec fn stretched<S>(a: Value<S>, dims: Seq<usize>, i: int) -> S {
    a.data[offset(coord_of(i as nat, dims), a.dims, row_major(a.dims)) as int]
}

/// Both operands broadcast to their common shape and combined element by element.
pub open spec fn zip_value<S: Scalar>(a: Value<S>, b: Value<S>, op: BinaryOp) -> Value<S> {
    let dims = broadcast_dims(a.dims, b.dims);
    Value {
        dims,
        data: Seq::new(
            numel(dims),
            |i: int| op.apply_spec(stretched(a, dims, i), stretched(b, dims, i)),
        ),
    }
}

/// Two operands have a common shape, whose element count fits the machine.
pub open spec fn zip_ok<S>(a: Value<S>, b: Value<S>) -> bool {
    &&& broadcastable(a.dims, b.dims)
    &&& bounded(broadcast_dims(a.dims, b.dims))
}

/// Both operands can be read at every coordinate of their common shape.
pub proof fn lemma_broadcast_reads(a: Seq<usize>, b: Seq<usize>)
    requires
        broadcastable(a, b),
    ensures
        broadcasts_to(a, broadcast_dims(a, b)),
        broadcasts_to(b, broadcast_dims(a, b)),
{
    let c = broadcast_dims(a, b);
    assert forall|k: int| 0 <= k < a.len() implies #[trigger] stretches_at(a, c, k) by {
        assert(agree_at(a, b, k));
    }
    assert forall|k: int| 0 <= k < b.len() implies #[trigger] stretches_at(b, c, k) by {
        assert(agree_at(a, b, k));
    }
}

/// A view that broadcasts to `dims` is read within its storage at every coordinate of `dims`.
pub proof fn lemma_stretched_bound(a: Seq<usize>, dims: Seq<usize>, c: Seq<usize>)
    requires
        broadcasts_to(a, dims),
        in_bounds(c, dims),
        tail_fits(a),
    ensures
        in_bounds(clipped(c, a), a),
        offset(c, a, row_major(a)) < numel(a),
{
    let e = clipped(c, a);
    let shift = dims.len() - a.len();
    assert forall|k: int| 0 <= k < a.len() implies #[trigger] e[k] < a[k] by {
        assert(stretches_at(a, dims, a.len() - 1 - k));
        assert(c[shift + k] < dims[shift + k]);
    }
    lemma_offset_row_major(c, a);
    lemma_flat_bound(e, a, 0);
}

/// Combines two operands element by element over their common shape.
pub(crate) fn elementwise_op<S: Scalar>(
    lhs: &Dense<S>,
    rhs: &Dense<S>,
    op: BinaryOp,
) -> (r: Dense<S>)
    requires
        lhs.wf(),
        rhs.wf(),
        zip_ok(lhs@, rhs@),
    ensures
        r.wf(),
        r@ == zip_value(lhs@, rhs@, op),
{
    let out_shape = match lhs.shape().broadcast(rhs.shape()) {
        Some(s) => s,
        None => *lhs.shape(),
    };
    let ghost dims = broadcast_dims(lhs@.dims, rhs@.dims);
    proof {
        lemma_bounded_fits(dims);
        lemma_bounded_fits(lhs@.dims);
        lemma_bounded_fits(rhs@.dims);
        lemma_broadcast_reads(lhs@.dims, rhs@.dims);
    }
    let n = out_shape.numel();
    let mut out: Vec<S> = Vec::with_capacity(n);
    if n == 0 {
        assert(out@ =~= zip_value(lhs@, rhs@, op).data);
        return Dense::new(out_shape, out);
    }
    let l_strides = lhs.shape().contiguous_strides();
    let r_strides = rhs.shape().contiguous_strides();
    let l_shape = *lhs.shape();
    let r_shape = *rhs.shape();
    let mut iter = NdIterator::new(out_shape);
    let mut i: usize = 0;
    proof {
        crate::shape::lemma_zero_coord(dims);
    }
    while i < n
        invariant
            i <= n == numel(dims),
            out@.len() == i,
            lhs.wf(),
            rhs.wf(),
            l_shape@ == lhs@.dims,
            r_shape@ == rhs@.dims,
            l_strides@ == row_major(lhs@.dims),
            r_strides@ == row_major(rhs@.dims),
            tail_fits(lhs@.dims),
            tail_fits(rhs@.dims),
            numel(lhs@.dims) <= usize::MAX,
            numel(rhs@.dims) <= usize::MAX,
            broadcasts_to(lhs@.dims, dims),
            broadcasts_to(rhs@.dims, dims),
            iter.wf(),
            iter.dims() == dims,
            i < n ==> !iter.done() && in_bounds(iter.at(), dims) && flat(iter.at(), dims) == i,
            forall|k: int|
                0 <= k < i ==> out@[k] == op.apply_spec(
                    stretched(lhs@, dims, k),
                    stretched(rhs@, dims, k),
                ),
        decreases n - i,
    {
        let ghost c = iter.at();
        proof {
            lemma_coord_of_flat(c, dims);
            lemma_stretched_bound(lhs@.dims, dims, c);
            lemma_stretched_bound(rhs@.dims, dims, c);
        }
        let l = get_offset(iter.coord(), &l_shape, &l_strides);
        let r = get_offset(iter.coord(), &r_shape, &r_strides);
        out.push(op.apply(lhs.data()[l], rhs.data()[r]));
        iter.step();
        i = i + 1;
    }
    assert(out@ =~= zip_value(lhs@, rhs@, op).data);
    Dense::new(out_shape, out)
}

/// Adds two arrays elementwise.
pub fn add<S: Scalar>(lhs: &Dense<S>, rhs: &Dense<S>) -> (r: Dense<S>)
    requires
        lhs.wf(),
        rhs.wf(),
        zip_ok(lhs@, rhs@),
    ensures
        r.wf(),
        r@ == zip_value(lhs@, rhs@, BinaryOp::Add),
{
    elementwise_op(lhs, rhs, BinaryOp::Add)
}

/// Subtracts two arrays elementwise.
pub fn sub<S: Scalar>(lhs: &Dense<S>, rhs: &Dense<S>) -> (r: Dense<S>)
    requires
        lhs.wf(),
        rhs.wf(),
        zip_ok(lhs@, rhs@),
    ensures
        r.wf(),
        r@ == zip_value(lhs@, rhs@, BinaryOp::Sub),
{
    elementwise_op(lhs, rhs, BinaryOp::Sub)
}

/// Multiplies two arrays elementwise.
pub fn mul<S: Scalar>(lhs: &Dense<S>, rhs: &Dense<S>) -> (r: Dense<S>)
    requires
        lhs.wf(),
        rhs.wf(),
        zip_ok(lhs@, rhs@),
    ensures
        r.wf(),
        r@ == zip_value(lhs@, rhs@, BinaryOp::Mul),
{
    elementwise_op(lhs, rhs, BinaryOp::Mul)
}

/// Divides two arrays elementwise.
pub fn div<S: Scalar>(lhs: &Dense<S>, rhs: &Dense<S>) -> (r: Dense<S>)
    requires
        lhs.wf(),
        rhs.wf(),
        zip_ok(lhs@, rhs@),
    ensures
        r.wf(),
        r@ == zip_value(lhs@, rhs@, BinaryOp::Div),
{
    elementwise_op(lhs, rhs, BinaryOp::Div)
}

/// The elementwise functions of one operand.
#[derive(Debug, Clone, Copy, PartialEq, Eq, Structural)]
pub enum UnaryOp {
    /// `max(0, x)`
    Relu,
    /// The tanh approximation of GELU.
    Gelu,
    /// The derivative of `Relu`: 1 where `x > 0`, else 0.
    ReluSlope,
    /// The derivative of `Gelu`.
    GeluSlope,
}

/// `sqrt(2 / pi) * (v + 0.044715 * (v * v * v))`
pub open spec fn gelu_inner<S: Scalar>(v: S) -> S {
    S::mul_spec(
        S::constant_spec(Constant::GeluScale),
        S::add_spec(
            v,
            S::mul_spec(
                S::constant_spec(Constant::GeluCubic),
                S::mul_spec(S::mul_spec(v, v), v),
            ),
        ),
    )
}

/// `0.5 * v * (1 + tanh(inner))`
pub open spec fn gelu_at<S: Scalar>(v: S) -> S {
    S::mul_spec(
        S::mul_spec(S::constant_spec(Constant::Half), v),
        S::add_spec(one(), S::tanh_spec(gelu_inner(v))),
    )
}

/// `sqrt(2 / pi) * (1 + 0.134145 * v * v)`
pub open spec fn gelu_inner_slope<S: Scalar>(v: S) -> S {
    S::mul_spec(
        S::constant_spec(Constant::GeluScale),
        S::add_spec(
            one(),
            S::mul_spec(S::mul_spec(S::constant_spec(Constant::GeluSlope), v), v),
        ),
    )
}

/// `0.5 * (1 + t) + 0.5 * v * (1 - t * t) * inner'` with `t = tanh(inner)`
pub open spec fn gelu_slope_at<S: Scalar>(v: S) -> S {
    let t = S::tanh_spec(gelu_inner(v));
    let half = S::constant_spec(Constant::Half);
    S::add_spec(
        S::mul_spec(half, S::add_spec(one(), t)),
        S::mul_spec(
            S::mul_spec(S::mul_spec(half, v), S::sub_spec(one(), S::mul_spec(t, t))),
            gelu_inner_slope(v),
        ),
    )
}

impl UnaryOp {
    pub open spec fn apply_spec<S: Scalar>(self, v: S) -> S {
        match self {
            UnaryOp::Relu => if S::gt_spec(v, zero()) {
                v
            } else {
                zero()
            },
            UnaryOp::Gelu => gelu_at(v),
            UnaryOp::ReluSlope => if S::gt_spec(v, zero()) {
                one()
            } else {
                zero()
            },
            UnaryOp::GeluSlope => gelu_slope_at(v),
        }
    }

    /// The function at one number.
    pub(crate) fn apply<S: Scalar>(self, v: S) -> (r: S)
        ensures
            r == self.apply_spec(v),
    {
        match self {
            UnaryOp::Relu => {
                if v.gt(S::constant(Constant::Zero)) {
                    v
                } else {
                    S::constant(Constant::Zero)
                }
            },
            UnaryOp::ReluSlope => {
                if v.gt(S::constant(Constant::Zero)) {
                    S::constant(Constant::One)
                } else {
                    S::constant(Constant::Zero)
                }
            },
            UnaryOp::Gelu => {
                let v3 = v.mul(v).mul(v);
                let inner = S::constant(Constant::GeluScale).mul(
                    v.add(S::constant(Constant::GeluCubic).mul(v3)),
                );
                S::constant(Constant::Half).mul(v).mul(
                    S::constant(Constant::One).add(inner.tanh()),
                )
            },
            UnaryOp::GeluSlope => {
                let one_s = S::constant(Constant::One);
                let half = S::constant(Constant::Half);
                let scale = S::constant(Constant::GeluScale);
                let v3 = v.mul(v).mul(v);
                let inner = scale.mul(v.add(S::constant(Constant::GeluCubic).mul(v3)));
                let t = inner.tanh();
                let sech_sq = one_s.sub(t.mul(t));
                let inner_slope = scale.mul(
                    one_s.add(S::constant(Constant::GeluSlope).mul(v).mul(v)),
                );
                half.mul(one_s.add(t)).add(half.mul(v).mul(sech_sq).mul(inner_slope))
            },
        }
    }
}

/// The function applied to every element.
pub open spec fn map_value<S: Scalar>(a: Value<S>, op: UnaryOp) -> Value<S> {
    Value { dims: a.dims, data: Seq::new(a.data.len(), |i: int| op.apply_spec(a.data[i])) }
}

/// Applies a function to every element.
pub fn map_op<S: Scalar>(x: &Dense<S>, op: UnaryOp) -> (r: Dense<S>)
    requires
        x.wf(),
    ensures
        r.wf(),
        r@ == map_value(x@, op),
{
    let n = x.numel();
    let mut out: Vec<S> = Vec::with_capacity(n);
    let mut i: usize = 0;
    while i < n
        invariant
            i <= n == x@.data.len(),
            x.wf(),
            out@.len() == i,
            forall|k: int| 0 <= k < i ==> out@[k] == op.apply_spec(x@.data[k]),
        decreases n - i,
    {
        out.push(op.apply(x.data()[i]));
        i = i + 1;
    }
    assert(out@ =~= map_value(x@, op).data);
    Dense::new(*x.shape(), out)
}

/// Elementwise `ReLU`: `max(0, x)`.
pub fn relu<S: Scalar>(x: &Dense<S>) -> (r: Dense<S>)
    requires
        x.wf(),
    ensures
        r.wf(),
        r@ == map_value(x@, UnaryOp::Relu),
{
    map_op(x, UnaryOp::Relu)
}

/// Elementwise `GELU` using the tanh approximation.
pub fn gelu<S: Scalar>(x: &Dense<S>) -> (r: Dense<S>)
    requires
        x.wf(),
    ensures
        r.wf(),
        r@ == map_value(x@, UnaryOp::Gelu),
{
    map_op(x, UnaryOp::Gelu)
}

} // verus!
