//! Computations, one change of the runtime after the other.
use vstd::prelude::*;
use crate::autograd::launch::{kernel_queued, lemma_kernel_state, GradKernel};
use crate::cells::Meta;
use crate::create::{device_added, device_filled, shared};
use crate::cuda::command::LaunchView;
use crate::cuda::dispatch::{launched, lemma_planned_new};
use crate::cuda::plan::planned;
use crate::dense::Value;
use crate::device::Device;
use crate::dtype::DType;
use crate::forward::{forward_value, metas, tracks, values};
use crate::handle::{added, meta_set, no_meta};
use crate::op::OpType;
use crate::ops::methods::done;
use crate::record::recorded;
use crate::shape::swapped_dims;
use crate::runtime::{given_back, Runtime};
use crate::scalar::Scalar;
use crate::storage::Block;
use crate::tape::{leaf_node, name_inputs, pack_spec, pushed};
use crate::tensor::Tensor;
use crate::track::{taped, with_grad};
use crate::views::reshaped;

verus! {

/// One change of the runtime.
pub enum Move<S> {
    /// The operation `op` on `ins` makes `out`.
    Op { op: OpType, ins: Seq<Tensor>, out: Tensor },
    /// `out` is `x` with two axes swapped.
    Transpose { x: Tensor, dim0: usize, dim1: usize, out: Tensor },
    /// `out` is `x` in another shape.
    Reshape { x: Tensor, dims: Seq<usize>, out: Tensor },
    /// `out` is a new tensor that needs no gradient.
    New { value: Value<S>, out: Tensor },
    /// `out` is another handle to the block of `x`.
    Share { x: Tensor, out: Tensor },
    /// `out` is a new tensor on a device, with its contents written there.
    Fill { value: Value<S>, device: Device, out: Tensor },
    /// `out` is a new tensor of zeros on a device.
    Blank { dims: Seq<usize>, device: Device, out: Tensor },
    /// The kernels of a gradient are queued, which fill `outs`.
    Launch { kernel: GradKernel, ins: Seq<Tensor>, outs: Seq<Tensor> },
    /// The handle `t` is given back.
    Drop { t: Tensor },
}

/// A view was taken, and recorded where gradients flow.
pub open spec fn turned<S: Scalar>(
    a: Runtime<S>,
    b: Runtime<S>,
    x: Tensor,
    dim0: usize,
    dim1: usize,
    out: Tensor,
) -> bool {
    &&& out.shape@ == swapped_dims(x.shape@, dim0 as int, dim1 as int)
    &&& out.strides@ == swapped_dims(x.strides@, dim0 as int, dim1 as int)
    &&& exists|mid: Runtime<S>|
        #[trigger] shared(a, mid, x, out, out.shape, out.strides) && taped(
            mid,
            b,
            OpType::Transpose { dim0, dim1 },
            seq![x],
            0,
            out,
            x.meta(a.mem).requires_grad,
        )
}

/// A tensor was given another shape, and that was recorded where gradients flow.
pub open spec fn refitted<S: Scalar>(
    a: Runtime<S>,
    b: Runtime<S>,
    x: Tensor,
    dims: Seq<usize>,
    out: Tensor,
) -> bool {
    &&& out.shape@ == dims
    &&& out.contiguous_spec()
    &&& exists|mid: Runtime<S>|
        #[trigger] reshaped(a, mid, x, out) && taped(
            mid,
            b,
            OpType::Reshape,
            seq![x],
            0,
            out,
            x.meta(a.mem).requires_grad,
        )
}

/// A change takes the runtime from `a` to `b`.
pub open spec fn made<S: Scalar>(a: Runtime<S>, m: Move<S>, b: Runtime<S>) -> bool {
    match m {
        Move::Op { op, ins, out } => done(a, b, op, ins, out),
        Move::Transpose { x, dim0, dim1, out } => turned(a, b, x, dim0, dim1, out),
        Move::Reshape { x, dims, out } => refitted(a, b, x, dims, out),
        Move::New { value, out } => {
            &&& added(a, b, out, Block::F32(value.data), no_meta())
            &&& out.shape@ == value.dims
            &&& out.contiguous_spec()
            &&& out.dtype == DType::F32
        },
        Move::Share { x, out } => shared(a, b, x, out, x.shape, x.strides),
        Move::Fill { value, device, out } => {
            &&& device_filled(a, b, out, no_meta(), value.data)
            &&& fresh(out, value.dims, device)
        },
        Move::Blank { dims, device, out } => {
            &&& device_added(a, b, out, no_meta())
            &&& fresh(out, dims, device)
        },
        Move::Launch { kernel, ins, outs } => kernel_queued(a, b, kernel, ins, outs),
        Move::Drop { t } => given_back(a, b, t),
    }
}

/// A row-major tensor of 32-bit floats on a device.
pub open spec fn fresh(t: Tensor, dims: Seq<usize>, device: Device) -> bool {
    &&& t.shape@ == dims
    &&& t.contiguous_spec()
    &&& t.dtype == DType::F32
    &&& t.device == device
}

/// Changes, one after the other, take the runtime from `a` to `b`.
#[verifier::opaque]
pub open spec fn trail<S: Scalar>(a: Runtime<S>, b: Runtime<S>, moves: Seq<Move<S>>) -> bool
    decreases moves.len(),
{
    if moves.len() == 0 {
        a == b
    } else {
        exists|mid: Runtime<S>|
            trail(a, mid, moves.drop_last()) && #[trigger] made(mid, moves.last(), b)
    }
}

/// Some of the handles that a computation makes.
pub open spec fn part(outs: Seq<Tensor>, from: nat, n: nat) -> Seq<Tensor> {
    outs.subrange(from as int, (from + n) as int)
}

/// Handles are given back, the last one first.
pub open spec fn drops<S>(ts: Seq<Tensor>) -> Seq<Move<S>> {
    Seq::new(ts.len(), |i: int| Move::Drop { t: ts[ts.len() - 1 - i] })
}

/// A computation makes the handles `outs`, the last of which is `r`, by the given changes.
pub open spec fn walked<S: Scalar>(
    a: Runtime<S>,
    b: Runtime<S>,
    moves: Seq<Move<S>>,
    outs: Seq<Tensor>,
    n: nat,
    r: Tensor,
) -> bool {
    &&& outs.len() == n
    &&& outs.last() == r
    &&& trail(a, b, moves)
}

/// Nothing has changed yet.
pub proof fn lemma_still<S: Scalar>(a: Runtime<S>)
    ensures
        trail(a, a, Seq::empty()),
{
    reveal(trail);
}

/// One change more.
pub proof fn lemma_move<S: Scalar>(
    a: Runtime<S>,
    mid: Runtime<S>,
    b: Runtime<S>,
    moves: Seq<Move<S>>,
    m: Move<S>,
)
    requires
        trail(a, mid, moves),
        made(mid, m, b),
    ensures
        trail(a, b, moves.push(m)),
{
    reveal(trail);
    let all = moves.push(m);
    assert(all.drop_last() =~= moves);
    assert(made(mid, all.last(), b));
}

/// The first change.
pub proof fn lemma_once<S: Scalar>(a: Runtime<S>, b: Runtime<S>, m: Move<S>)
    requires
        made(a, m, b),
    ensures
        trail(a, b, seq![m]),
{
    lemma_still(a);
    lemma_move(a, a, b, Seq::empty(), m);
    assert(Seq::empty().push(m) =~= seq![m]);
}

/// Changes, and then more of them.
pub proof fn lemma_join<S: Scalar>(
    a: Runtime<S>,
    mid: Runtime<S>,
    b: Runtime<S>,
    first: Seq<Move<S>>,
    second: Seq<Move<S>>,
)
    requires
        trail(a, mid, first),
        trail(mid, b, second),
    ensures
        trail(a, b, first + second),
    decreases second.len(),
{
    if second.len() == 0 {
        reveal(trail);
        assert(first + second =~= first);
    } else {
        assert(exists|c: Runtime<S>|
            trail(mid, c, second.drop_last()) && #[trigger] made(c, second.last(), b)) by {
            reveal(trail);
        }
        let c = choose|c: Runtime<S>|
            trail(mid, c, second.drop_last()) && #[trigger] made(c, second.last(), b);
        lemma_join(a, mid, c, first, second.drop_last());
        lemma_move(a, c, b, first + second.drop_last(), second.last());
        assert((first + second.drop_last()).push(second.last()) =~= first + second);
    }
}

/// What is recorded stays recorded: the tape from before is the beginning of the tape.
pub open spec fn tape_kept<S>(a: Runtime<S>, b: Runtime<S>) -> bool {
    &&& a.tape@.len() <= b.tape@.len()
    &&& b.tape@.subrange(0, a.tape@.len() as int) == a.tape@
}

/// Naming inputs adds nodes at the end and leaves alone which handles require gradients.
proof fn lemma_named(
    generation: u32,
    cells: Map<usize, Meta>,
    count: nat,
    inputs: Seq<Tensor>,
    n: int,
    c: usize,
)
    requires
        cells.contains_key(c),
    ensures
        ({
            let r = name_inputs(generation, cells, count, inputs, n);
            &&& count <= r.count
            &&& r.cells.contains_key(c)
            &&& r.cells[c].requires_grad == cells[c].requires_grad
        }),
    decreases n,
{
    if n > 0 {
        lemma_named(generation, cells, count, inputs, n - 1, c);
    }
}

/// What recording does to the tape and to the output.
pub proof fn lemma_taped<S>(
    a: Runtime<S>,
    b: Runtime<S>,
    op: OpType,
    ins: Seq<Tensor>,
    out: Tensor,
    track: bool,
)
    requires
        taped(a, b, op, ins, 0, out, track),
        a.mem.cells@.contains_key(out.cell),
    ensures
        tape_kept(a, b),
        b.mode == a.mode,
        b.hooks == a.hooks,
        a.mode.autograd_enabled && track ==> out.meta(b.mem).requires_grad,
        !(a.mode.autograd_enabled && track) ==> b == a,
        a.mode.autograd_enabled && track && a.hooks.record_op ==> newest(b, op, out),
{
    if a.mode.autograd_enabled && track {
        let mid = choose|mid: Runtime<S>|
            {
                &&& #[trigger] meta_set(a, mid, out.cell, with_grad(out.meta(a.mem)))
                &&& if a.hooks.record_op {
                    recorded(mid, b, op, ins, 0, out)
                } else {
                    b == mid
                }
            };
        if a.hooks.record_op {
            let cells = choose|cells: Map<usize, Meta>|
                {
                    &&& #[trigger] pushed(
                        mid.tape@,
                        b.tape@,
                        mid.mem.cells@,
                        cells,
                        mid.tape.generation,
                        op,
                        ins,
                        0,
                    )
                    &&& b.mem.cells@ == cells.insert(
                        out.cell,
                        Meta {
                            node_id: Some(
                                pack_spec(mid.tape.generation, (b.tape@.len() - 1) as u32),
                            ),
                            ..cells[out.cell]
                        },
                    )
                };
            let r = name_inputs(
                mid.tape.generation,
                mid.mem.cells@,
                mid.tape@.len(),
                ins,
                ins.len() as int,
            );
            lemma_named(
                mid.tape.generation,
                mid.mem.cells@,
                mid.tape@.len(),
                ins,
                ins.len() as int,
                out.cell,
            );
            let leaves = Seq::new(
                (r.count - mid.tape@.len()) as nat,
                |i: int| leaf_node((mid.tape@.len() + i) as u32),
            );
            assert(b.tape@.drop_last() == mid.tape@ + leaves);
            assert(b.tape@.subrange(0, a.tape@.len() as int) =~= (mid.tape@ + leaves).subrange(
                0,
                a.tape@.len() as int,
            ));
            assert((mid.tape@ + leaves).subrange(0, a.tape@.len() as int) =~= a.tape@);
        } else {
            assert(b.tape@.subrange(0, a.tape@.len() as int) =~= a.tape@);
        }
    } else {
        assert(b.tape@.subrange(0, a.tape@.len() as int) =~= a.tape@);
    }
}

/// `out` names the newest node of the tape, which records `op`.
pub open spec fn newest<S>(rt: Runtime<S>, op: OpType, out: Tensor) -> bool {
    &&& rt.tape@.len() > 0
    &&& rt.tape@.last().op == op
    &&& out.meta(rt.mem).node_id == Some(
        pack_spec(rt.tape.generation, (rt.tape@.len() - 1) as u32),
    )
}

/// The handle that a change makes, if it makes one by an operation or a view.
pub open spec fn product<S>(m: Move<S>) -> Option<Tensor> {
    match m {
        Move::Op { out, .. } => Some(out),
        Move::Transpose { out, .. } => Some(out),
        Move::Reshape { out, .. } => Some(out),
        _ => None,
    }
}

/// What a change records, where it records anything.
pub open spec fn label<S>(m: Move<S>) -> OpType {
    match m {
        Move::Op { op, .. } => op,
        Move::Transpose { dim0, dim1, .. } => OpType::Transpose { dim0, dim1 },
        _ => OpType::Reshape,
    }
}

/// Gradients flow through a change.
pub open spec fn flows<S: Scalar>(a: Runtime<S>, m: Move<S>) -> bool {
    a.mode.autograd_enabled && match m {
        Move::Op { op, ins, .. } => tracks(op, metas(ins, a.mem)),
        Move::Transpose { x, .. } => x.meta(a.mem).requires_grad,
        Move::Reshape { x, .. } => x.meta(a.mem).requires_grad,
        _ => false,
    }
}

/// A handle asks for gradients.
pub open spec fn wants<S>(rt: Runtime<S>, t: Tensor) -> bool {
    t.meta(rt.mem).requires_grad
}

/// One of some handles asks for gradients.
pub open spec fn any_wants<S>(rt: Runtime<S>, ts: Seq<Tensor>) -> bool {
    exists|i: int| 0 <= i < ts.len() && #[trigger] wants(rt, ts[i])
}

/// Whether handles of two lists ask for gradients.
pub proof fn lemma_any_wants<S>(rt: Runtime<S>, ts: Seq<Tensor>, us: Seq<Tensor>)
    ensures
        any_wants(rt, ts + us) == (any_wants(rt, ts) || any_wants(rt, us)),
{
    let all = ts + us;
    if any_wants(rt, ts) {
        let i = choose|i: int| 0 <= i < ts.len() && #[trigger] wants(rt, ts[i]);
        assert(wants(rt, all[i]));
    }
    if any_wants(rt, us) {
        let i = choose|i: int| 0 <= i < us.len() && #[trigger] wants(rt, us[i]);
        assert(wants(rt, all[ts.len() + i]));
    }
    if any_wants(rt, all) {
        let i = choose|i: int| 0 <= i < all.len() && #[trigger] wants(rt, all[i]);
        if i < ts.len() {
            assert(wants(rt, ts[i]));
        } else {
            assert(wants(rt, us[i - ts.len()]));
        }
    }
}

/// When gradients flow through an operation on few tensors.
pub proof fn lemma_tracks<S: Scalar>(rt: Runtime<S>, op: OpType, ins: Seq<Tensor>)
    requires
        !(op is Embedding),
        !(op is CrossEntropy),
        0 < ins.len() <= 3,
    ensures
        tracks(op, metas(ins, rt.mem)) == any_wants(rt, ins),
        ins.len() == 1 ==> any_wants(rt, ins) == wants(rt, ins[0]),
        ins.len() == 2 ==> any_wants(rt, ins) == (wants(rt, ins[0]) || wants(rt, ins[1])),
        ins.len() == 3 ==> any_wants(rt, ins) == (wants(rt, ins[0]) || wants(rt, ins[1]) || wants(
            rt,
            ins[2],
        )),
{
    let ms = metas(ins, rt.mem);
    if any_wants(rt, ins) {
        let i = choose|i: int| 0 <= i < ins.len() && #[trigger] wants(rt, ins[i]);
        assert(ms[i].requires_grad);
    }
    if tracks(op, ms) {
        let i = choose|i: int| 0 <= i < ms.len() && i < 3 && (#[trigger] ms[i]).requires_grad;
        assert(wants(rt, ins[i]));
    }
}

/// A change is no loss on a device, where an error flag goes with the loss.
pub open spec fn at_home<S>(m: Move<S>) -> bool {
    match m {
        Move::Op { op, ins, .. } => ins[0].device is Cpu || !(op is CrossEntropy),
        _ => true,
    }
}

/// A change keeps what is recorded; the output of an operation requires gradients if and only if
/// they flow through it, a view, where autograd is enabled, if and only if its tensor does, and
/// what gradients flow through names the newest node.
pub proof fn law_move<S: Scalar>(a: Runtime<S>, m: Move<S>, b: Runtime<S>)
    requires
        made(a, m, b),
        at_home(m),
    ensures
        tape_kept(a, b),
        b.mode == a.mode,
        b.hooks == a.hooks,
        m is Op ==> wants(b, m->Op_out) == flows(a, m),
        m is Transpose ==> wants(b, m->Transpose_out) == wants(a, m->Transpose_x),
        m is Reshape && a.mode.autograd_enabled ==> wants(b, m->Reshape_out) == wants(
            a,
            m->Reshape_x,
        ),
        flows(a, m) && a.hooks.record_op ==> newest(b, label(m), product(m)->0),
{
    match m {
        Move::Op { op, ins, out } => {
            let track = tracks(op, metas(ins, a.mem));
            if ins[0].device is Cpu {
                let v = forward_value(op, values(ins, a.mem));
                let mid = choose|mid: Runtime<S>|
                    #[trigger] added(a, mid, out, Block::F32(v.data), no_meta()) && taped(
                        mid,
                        b,
                        op,
                        ins,
                        0,
                        out,
                        track,
                    );
                lemma_taped(mid, b, op, ins, out, track);
            } else {
                let mid = choose|mid: Runtime<S>|
                    #[trigger] launched(a, mid, op, ins, out) && taped(
                        mid,
                        b,
                        op,
                        ins,
                        0,
                        out,
                        track,
                    );
                let ls = choose|ls: Seq<LaunchView<S>>| planned(a, mid, out, ls);
                lemma_planned_new(a, mid, out, ls);
                lemma_taped(mid, b, op, ins, out, track);
            }
        },
        Move::Transpose { x, dim0, dim1, out } => {
            let track = x.meta(a.mem).requires_grad;
            let op = OpType::Transpose { dim0, dim1 };
            let mid = choose|mid: Runtime<S>|
                #[trigger] shared(a, mid, x, out, out.shape, out.strides) && taped(
                    mid,
                    b,
                    op,
                    seq![x],
                    0,
                    out,
                    track,
                );
            lemma_taped(mid, b, op, seq![x], out, track);
        },
        Move::Reshape { x, dims, out } => {
            let track = x.meta(a.mem).requires_grad;
            let mid = choose|mid: Runtime<S>|
                #[trigger] reshaped(a, mid, x, out) && taped(
                    mid,
                    b,
                    OpType::Reshape,
                    seq![x],
                    0,
                    out,
                    track,
                );
            lemma_taped(mid, b, OpType::Reshape, seq![x], out, track);
        },
        Move::Launch { kernel, ins, outs } => {
            lemma_kernel_state(a, b, kernel, ins, outs);
            assert(b.tape@.subrange(0, a.tape@.len() as int) =~= a.tape@);
        },
        _ => {
            assert(b.tape@.subrange(0, a.tape@.len() as int) =~= a.tape@);
        },
    }
}

/// A computation that is one operation.
pub proof fn lemma_single<S: Scalar>(
    a: Runtime<S>,
    b: Runtime<S>,
    op: OpType,
    ins: Seq<Tensor>,
    r: Tensor,
)
    requires
        done(a, b, op, ins, r),
        ins[0].device is Cpu || !(op is CrossEntropy),
    ensures
        walked(a, b, seq![Move::Op { op, ins, out: r }], seq![r], 1, r),
        wants(b, r) == (a.mode.autograd_enabled && tracks(op, metas(ins, a.mem))),
{
    let m = Move::Op { op, ins, out: r };
    assert(made(a, m, b));
    lemma_once(a, b, m);
    law_move(a, m, b);
}

/// Whatever a computation does, what was recorded before is the beginning of what is recorded
/// after it, and the switches of the runtime stay as they are.
pub proof fn law_trail_keeps_tape<S: Scalar>(a: Runtime<S>, b: Runtime<S>, moves: Seq<Move<S>>)
    requires
        trail(a, b, moves),
        forall|i: int| 0 <= i < moves.len() ==> at_home(#[trigger] moves[i]),
    ensures
        tape_kept(a, b),
        b.mode == a.mode,
        b.hooks == a.hooks,
    decreases moves.len(),
{
    if moves.len() == 0 {
        reveal(trail);
        assert(a.tape@.subrange(0, a.tape@.len() as int) =~= a.tape@);
    } else {
        assert(exists|c: Runtime<S>|
            trail(a, c, moves.drop_last()) && #[trigger] made(c, moves.last(), b)) by {
            reveal(trail);
        }
        let c = choose|c: Runtime<S>|
            trail(a, c, moves.drop_last()) && #[trigger] made(c, moves.last(), b);
        assert forall|i: int| 0 <= i < moves.drop_last().len() implies at_home(
            #[trigger] moves.drop_last()[i],
        ) by {
            assert(moves.drop_last()[i] == moves[i]);
        }
        law_trail_keeps_tape(a, c, moves.drop_last());
        assert(moves.last() == moves[moves.len() - 1]);
        law_move(c, moves.last(), b);
        assert(b.tape@.subrange(0, a.tape@.len() as int) =~= c.tape@.subrange(
            0,
            a.tape@.len() as int,
        )) by {
            assert forall|i: int| 0 <= i < a.tape@.len() implies b.tape@[i] == c.tape@[i] by {
                assert(b.tape@.subrange(0, c.tape@.len() as int)[i] == c.tape@[i]);
            }
        }
    }
}

/// Two axes swapped, and swapped again: the same block in the layout of before.
pub proof fn law_transpose_twice<S: Scalar>(
    a: Runtime<S>,
    b: Runtime<S>,
    c: Runtime<S>,
    x: Tensor,
    dim0: usize,
    dim1: usize,
    y: Tensor,
    z: Tensor,
)
    requires
        turned(a, b, x, dim0, dim1, y),
        turned(b, c, y, dim0, dim1, z),
        dim0 < x.shape@.len(),
        dim1 < x.shape@.len(),
        x.strides@.len() == x.shape@.len(),
    ensures
        z.shape@ == x.shape@,
        z.strides@ == x.strides@,
        z.storage_id == x.storage_id,
        z.device == x.device,
        z.dtype == x.dtype,
{
    assert(z.shape@ =~= x.shape@);
    assert(z.strides@ =~= x.strides@);
}

} // verus!
