//! Matrix multiplication on the device.
use vstd::prelude::*;
use crate::cpu::elementwise::lemma_broadcast_reads;
use crate::cpu::matmul::{
    batch_dims, cols, lemma_batch_bounded, lemma_stack_numel, matmul_dims, rows,
};
use crate::create::device_room;
use crate::cuda::command::{Kernel, Launch, LaunchView};
use crate::cuda::forward::{lemma_nothing_queued, list3, made, packed, unless_empty};
use crate::cuda::plan::{as_params, buffers_of, on_device, params_of, planned, queued};
use crate::dense::copied;
use crate::index::{bounded, lemma_bounded_fits, lemma_numel_zero, numel};
use crate::runtime::Runtime;
use crate::scalar::Scalar;
use crate::shape::{broadcast_dims, broadcastable, broadcasts_to, stretches_at, Shape};
use crate::tensor::Tensor;

verus! {

/// How many tiles of 16 cover `n`.
pub open spec fn tiles(n: usize) -> int {
    (n + 15) / 16
}

/// The distance between the matrices of an operand: none, when there is only one.
pub open spec fn batch_stride(d: Seq<usize>) -> usize {
    if numel(batch_dims(d)) > 1 {
        (rows(d) * cols(d)) as usize
    } else {
        0
    }
}

/// The launch of the matrix kernel: tiles of 16 by 16 threads over each product of the stack.
pub open spec fn matmul_launch<S>(lhs: Tensor, rhs: Tensor, out: Tensor) -> Seq<LaunchView<S>> {
    let a = lhs.shape@;
    let b = rhs.shape@;
    let m = rows(a);
    let k = cols(a);
    let n = cols(b);
    let batches = numel(broadcast_dims(batch_dims(a), batch_dims(b))) as usize;
    unless_empty(
        numel(out.shape@),
        LaunchView {
            kernel: Kernel::Matmul,
            grid: (tiles(n) as u32, tiles(m) as u32, batches as u32),
            block: (16u32, 16u32, 1u32),
            buffers: buffers_of(seq![lhs, rhs, out]),
            info: Seq::empty(),
            params: Seq::empty(),
            scalars: as_params(
                seq![m, k, n, batches, batch_stride(a), batch_stride(b), (m * n) as usize],
            ),
        },
    )
}

/// An operand of a product with elements is a stack of at least one matrix.
proof fn lemma_operand(d: Seq<usize>, common: Seq<usize>)
    requires
        d.len() >= 2,
        bounded(d),
        broadcasts_to(batch_dims(d), common),
        numel(common) > 0,
    ensures
        rows(d) * cols(d) <= usize::MAX,
        bounded(batch_dims(d)),
{
    let own = batch_dims(d);
    lemma_batch_bounded(d);
    lemma_stack_numel(d);
    lemma_bounded_fits(d);
    lemma_numel_zero(common);
    lemma_numel_zero(own);
    if numel(own) == 0 {
        let k = choose|k: int| 0 <= k < own.len() && own[k] == 0;
        assert(stretches_at(own, common, own.len() - 1 - k));
    }
    let x = numel(own) as int;
    let y = rows(d) * cols(d);
    assert(y <= x * y) by (nonlinear_arith)
        requires
            x >= 1,
            y >= 0,
    ;
    assert(y >= 0) by (nonlinear_arith)
        requires
            y == rows(d) * cols(d),
    ;
}

fn stride_of(d: &Shape, common: &Shape) -> (r: usize)
    requires
        d@.len() >= 2,
        bounded(d@),
        broadcasts_to(batch_dims(d@), common@),
        numel(common@) > 0,
    ensures
        r == batch_stride(d@),
{
    let rank = d.rank();
    let own = Shape::new(&d.dims()[0..rank - 2]);
    proof {
        assert(own@ =~= batch_dims(d@));
        lemma_operand(d@, common@);
        lemma_bounded_fits(own@);
    }
    if own.numel() > 1 {
        d.dim(rank - 2) * d.dim(rank - 1)
    } else {
        0
    }
}

fn tiles_of(n: usize) -> (r: usize)
    requires
        n + 15 <= usize::MAX,
    ensures
        r == tiles(n),
{
    (n + 15) / 16
}

/// Matrix multiplication of two stacks of row-major matrices.
pub fn matmul<S: Scalar>(lhs: &Tensor, rhs: &Tensor, rt: &mut Runtime<S>) -> (r: Tensor)
    requires
        old(rt).wf(),
        packed(*old(rt), *lhs),
        packed(*old(rt), *rhs),
        lhs.shape@.len() >= 2,
        rhs.shape@.len() >= 2,
        cols(lhs.shape@) == rows(rhs.shape@),
        broadcastable(batch_dims(lhs.shape@), batch_dims(rhs.shape@)),
        bounded(matmul_dims(lhs.shape@, rhs.shape@)),
        old(rt).mem.cells.room() > 0,
        device_room(*old(rt), numel(matmul_dims(lhs.shape@, rhs.shape@)) as usize),
        rows(lhs.shape@) + 15 <= u32::MAX,
        cols(rhs.shape@) + 15 <= u32::MAX,
        numel(broadcast_dims(batch_dims(lhs.shape@), batch_dims(rhs.shape@))) <= u32::MAX,
    ensures
        made(*old(rt), *final(rt)),
        on_device(*final(rt), r, matmul_dims(lhs.shape@, rhs.shape@)),
        planned(*old(rt), *final(rt), r, matmul_launch(*lhs, *rhs, r)),
{
    let ghost before = *rt;
    let ghost a = lhs.shape@;
    let ghost b = rhs.shape@;
    let rank_l = lhs.shape.rank();
    let rank_r = rhs.shape.rank();
    let m = lhs.shape.dim(rank_l - 2);
    let k = lhs.shape.dim(rank_l - 1);
    let n = rhs.shape.dim(rank_r - 1);
    let batch_l = Shape::new(&lhs.shape.dims()[0..rank_l - 2]);
    let batch_r = Shape::new(&rhs.shape.dims()[0..rank_r - 2]);
    proof {
        assert(batch_l@ =~= batch_dims(a));
        assert(batch_r@ =~= batch_dims(b));
    }
    let common = match batch_l.broadcast(&batch_r) {
        Some(s) => s,
        None => batch_l,
    };
    let mut dims: Vec<usize> = copied(common.dims());
    dims.push(m);
    dims.push(n);
    let shape = Shape::new(&dims);
    proof {
        assert(shape@ =~= matmul_dims(a, b));
        assert(batch_dims(shape@) =~= common@);
        lemma_bounded_fits(shape@);
        lemma_batch_bounded(shape@);
        lemma_bounded_fits(common@);
        lemma_stack_numel(shape@);
        lemma_broadcast_reads(batch_dims(a), batch_dims(b));
    }
    let total = shape.numel();
    let out = rt.device_zeros(shape);
    let ghost mid = *rt;
    if total == 0 {
        proof {
            lemma_nothing_queued(before, mid, out);
        }
        return out;
    }
    proof {
        let x = numel(common@) as int;
        let y = m * n;
        assert(y >= 0) by (nonlinear_arith)
            requires
                y == m * n,
        ;
        assert(x >= 1 && y <= x * y) by (nonlinear_arith)
            requires
                x >= 0,
                y >= 0,
                x * y > 0,
        ;
    }
    let batches = common.numel();
    let stride_l = stride_of(&lhs.shape, &common);
    let stride_r = stride_of(&rhs.shape, &common);
    let scalars: [usize; 7] = [m, k, n, batches, stride_l, stride_r, m * n];
    proof {
        assert(scalars@ =~= seq![
            m,
            k,
            n,
            batches,
            batch_stride(a),
            batch_stride(b),
            (m * n) as usize,
        ]);
    }
    let l = Launch {
        kernel: Kernel::Matmul,
        grid: (tiles_of(n) as u32, tiles_of(m) as u32, batches as u32),
        block: (16u32, 16u32, 1u32),
        buffers: list3(lhs, rhs, &out),
        info: Vec::new(),
        params: Vec::new(),
        scalars: params_of(scalars.as_slice()),
    };
    rt.enqueue(l);
    proof {
        assert(l@.info =~= Seq::<i32>::empty());
        assert(l@.params =~= Seq::<S>::empty());
        assert(queued(mid, *rt, matmul_launch(*lhs, *rhs, out)));
    }
    out
}

} // verus!
