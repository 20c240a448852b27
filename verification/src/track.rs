//! What an operation leaves on the tape.
use vstd::prelude::*;
use crate::cells::Meta;
use crate::handle::{meta_set, undisturbed};
use crate::op::OpType;
use crate::record::{can_record, recorded};
use crate::runtime::Runtime;
use crate::tape::{count_key, derefs};
use crate::tensor::{Key, Tensor};

verus! {

/// Inputs are valid, and tape, references and cells have room for recording an operation on them
/// after its output was made.
pub open spec fn can_op<S>(rt: Runtime<S>, inputs: Seq<Tensor>) -> bool {
    &&& rt.tape.nodes@.len() + inputs.len() + 1 <= u32::MAX
    &&& rt.mem.cells.room() >= inputs.len() + 1
    &&& forall|i: int|
        0 <= i < inputs.len() ==> (#[trigger] inputs[i]).valid(rt.mem) && rt.mem.refs(
            inputs[i].key(),
        ) + inputs.len() + 1 <= usize::MAX
}

/// Metadata that asks for gradients.
pub open spec fn with_grad(m: Meta) -> Meta {
    Meta { node_id: m.node_id, requires_grad: true }
}

/// The step from `a` to `b` that follows the computation of `output`: where autograd is enabled
/// and an input requires gradients, the output requires gradients and the operation is recorded.
pub open spec fn taped<S>(
    a: Runtime<S>,
    b: Runtime<S>,
    op: OpType,
    inputs: Seq<Tensor>,
    rng_counter: u64,
    output: Tensor,
    track: bool,
) -> bool {
    if a.mode.autograd_enabled && track {
        exists|mid: Runtime<S>|
            {
                &&& #[trigger] meta_set(
                    a,
                    mid,
                    output.cell,
                    with_grad(output.meta(a.mem)),
                )
                &&& if a.hooks.record_op {
                    recorded(mid, b, op, inputs, rng_counter, output)
                } else {
                    b == mid
                }
            }
    } else {
        b == a
    }
}

/// Every handle but one requires gradients or not as before.
pub open spec fn grads_kept_but<S>(a: Runtime<S>, b: Runtime<S>, cell: usize) -> bool {
    forall|c: usize| #[trigger]
        a.mem.cells@.contains_key(c) ==> b.mem.cells@.contains_key(c) && (c != cell
            ==> b.mem.cells@[c].requires_grad == a.mem.cells@[c].requires_grad)
}

/// No block has more handles in a list than the list is long.
pub proof fn lemma_count_bound(ts: Seq<Tensor>, k: Key)
    ensures
        count_key(ts, k) <= ts.len(),
    decreases ts.len(),
{
    if ts.len() > 0 {
        lemma_count_bound(ts.drop_last(), k);
    }
}

/// Finishes an operation: where autograd is enabled and an input requires gradients, marks the output and
/// records the operation.
pub(crate) fn track_op<S>(
    op: OpType,
    inputs: &[&Tensor],
    rng_counter: u64,
    output: &Tensor,
    track: bool,
    rt: &mut Runtime<S>,
)
    requires
        old(rt).wf(),
        can_record(*old(rt), derefs(inputs@)),
        output.owned(*old(rt)),
    ensures
        final(rt).wf(),
        taped(*old(rt), *final(rt), op, derefs(inputs@), rng_counter, *output, track),
        undisturbed(*old(rt), *final(rt)),
        output.owned(*final(rt)),
        output.device is Cpu ==> output.block(final(rt).mem) == output.block(old(rt).mem),
        forall|k: Key| #[trigger] final(rt).owners(k) == old(rt).owners(k),
        final(rt).mode == old(rt).mode,
        final(rt).hooks == old(rt).hooks,
        final(rt).gradients == old(rt).gradients,
        final(rt).checkpoint_gradients == old(rt).checkpoint_gradients,
        final(rt).queue == old(rt).queue,
        final(rt).tape.generation == old(rt).tape.generation,
        final(rt).mem.arena.room() == old(rt).mem.arena.room(),
        grads_kept_but(*old(rt), *final(rt), output.cell),
        final(rt).mem.cells.room() >= old(rt).mem.cells.room() - inputs@.len(),
        final(rt).tape@.len() <= old(rt).tape@.len() + inputs@.len() + 1,
        forall|k: Key| #[trigger] final(rt).mem.refs(k) <= old(rt).mem.refs(k) + inputs@.len(),
{
    if rt.mode.autograd_enabled && track {
        let ghost before = *rt;
        output.set_requires_grad(true, rt);
        let ghost mid = *rt;
        proof {
            assert(meta_set(
                before,
                mid,
                output.cell,
                with_grad(output.meta(before.mem)),
            ));
            assert forall|i: int| 0 <= i < inputs@.len() implies (#[trigger] derefs(
                inputs@,
            )[i]).valid(mid.mem) && mid.mem.refs(derefs(inputs@)[i].key()) + inputs@.len()
                <= usize::MAX by {
                assert(derefs(inputs@)[i].valid(before.mem));
                assert(before.mem.refs(derefs(inputs@)[i].key()) + inputs@.len() <= usize::MAX);
            }
        }
        if rt.hooks.record_op {
            rt.record_op(op, inputs, rng_counter, output);
            proof {
                assert forall|k: Key| #[trigger] rt.mem.refs(k) <= before.mem.refs(k)
                    + inputs@.len() by {
                    lemma_count_bound(derefs(inputs@), k);
                    assert(rt.mem.refs(k) == mid.mem.refs(k) + count_key(derefs(inputs@), k));
                }
                assert forall|c: usize| #[trigger] before.mem.cells@.contains_key(c) implies
                    rt.mem.cells@.contains_key(c) && (c != output.cell
                    ==> rt.mem.cells@[c].requires_grad == before.mem.cells@[c].requires_grad) by {
                    assert(mid.mem.cells@.contains_key(c));
                }
            }
        }
    }
}

} // verus!
