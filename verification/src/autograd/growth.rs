//! Recording keeps the tape fit for a backward pass.
use vstd::prelude::*;
use crate::autograd::backward::{first_progress, readable, sweepable, swept, tape_steps};
use crate::autograd::collect::{blocks_ok, leaves, lemma_on_tape, tokens_ok};
use crate::autograd::grads::tape_handles;
use crate::autograd::sweep::{law_run_ends, named};
use crate::autograd::totality::{
    applies, grads_fit, inputs_wf, law_backward_total, shaped, well_shaped,
};
use crate::cells::Meta;
use crate::dense::Value;
use crate::forward::values;
use crate::handle::has_room;
use crate::op::OpType;
use crate::record::{can_record, lemma_saved_pushed, recorded};
use crate::runtime::{holds_cell, GradKey, Runtime};
use crate::scalar::Scalar;
use crate::tape::{
    law_token_round_trip, leaf_node, lemma_name_inputs, lemma_valid_kept, lemma_valid_refs,
    live_index, name_inputs, pack_spec, pushed, token_index,
};
use crate::tensor::{Key, Tensor};

verus! {

/// If a handle's metadata name a node, the output of that node has the extents `dims`.
pub open spec fn cell_fits(
    cells: Map<usize, Meta>,
    generation: u32,
    outs: Seq<Seq<usize>>,
    cell: usize,
    dims: Seq<usize>,
) -> bool {
    live_index(cells[cell].node_id, generation) matches Some(id) ==> id < outs.len()
        && outs[id as int] == dims
}

/// If a handle names a node, it has the extents of that node's output.
pub open spec fn names_fitting<S>(rt: Runtime<S>, outs: Seq<Seq<usize>>, t: Tensor) -> bool {
    cell_fits(rt.mem.cells@, rt.tape.generation, outs, t.cell, t.shape@)
}

/// The tape fits together, where `outs` are the extents of its nodes' outputs: every operation
/// applies to the values that it keeps, and every handle that names a node has the extents of
/// that node's output.
pub open spec fn fitting<S: Scalar>(rt: Runtime<S>, outs: Seq<Seq<usize>>) -> bool {
    &&& well_shaped(tape_steps(rt), outs)
    &&& readable(rt)
    &&& forall|t: Tensor| #[trigger]
        tape_handles(rt).contains(t) ==> names_fitting(rt, outs, t)
    &&& forall|i: int| 0 <= i < rt.tape@.len() ==> named((#[trigger] rt.tape@[i]).inputs, i as nat)
}

/// The extents of the leaves among the first `n` inputs that get nodes of their own.
pub open spec fn leaf_dims(
    generation: u32,
    cells: Map<usize, Meta>,
    count: nat,
    inputs: Seq<Tensor>,
    n: int,
) -> Seq<Seq<usize>>
    decreases n,
{
    if n <= 0 {
        Seq::empty()
    } else {
        let before = leaf_dims(generation, cells, count, inputs, n - 1);
        let m = name_inputs(generation, cells, count, inputs, n - 1).cells[inputs[n - 1].cell];
        if live_index(m.node_id, generation) is None && m.requires_grad {
            before.push(inputs[n - 1].shape@)
        } else {
            before
        }
    }
}

/// The extents of the nodes' outputs after an operation was recorded.
pub open spec fn outs_after<S>(
    rt: Runtime<S>,
    outs: Seq<Seq<usize>>,
    inputs: Seq<Tensor>,
    output: Tensor,
) -> Seq<Seq<usize>> {
    let new = leaf_dims(
        rt.tape.generation,
        rt.mem.cells@,
        rt.tape@.len(),
        inputs,
        inputs.len() as int,
    );
    (outs + new).push(output.shape@)
}

/// A metadata cell belongs to one handle: inputs with the same cell have the same extents.
pub open spec fn one_shape(inputs: Seq<Tensor>, cell: usize, dims: Seq<usize>) -> bool {
    forall|i: int|
        0 <= i < inputs.len() && (#[trigger] inputs[i]).cell == cell ==> inputs[i].shape@ == dims
}

/// Naming inputs keeps what handles say about nodes.
proof fn lemma_named_fits(
    generation: u32,
    cells: Map<usize, Meta>,
    outs: Seq<Seq<usize>>,
    inputs: Seq<Tensor>,
    n: int,
    cell: usize,
    dims: Seq<usize>,
)
    requires
        0 <= n <= inputs.len(),
        outs.len() + inputs.len() <= u32::MAX,
        forall|i: int| 0 <= i < inputs.len() ==> cells.contains_key((#[trigger] inputs[i]).cell),
        cells.contains_key(cell),
        cell_fits(cells, generation, outs, cell, dims),
        one_shape(inputs, cell, dims),
    ensures
        ({
            let r = name_inputs(generation, cells, outs.len(), inputs, n);
            let new = leaf_dims(generation, cells, outs.len(), inputs, n);
            &&& r.count == outs.len() + new.len()
            &&& cell_fits(r.cells, generation, outs + new, cell, dims)
        }),
    decreases n,
{
    if n > 0 {
        lemma_named_fits(generation, cells, outs, inputs, n - 1, cell, dims);
        lemma_name_inputs(generation, cells, outs.len(), inputs, n - 1);
        let p = name_inputs(generation, cells, outs.len(), inputs, n - 1);
        let before = leaf_dims(generation, cells, outs.len(), inputs, n - 1);
        let new = leaf_dims(generation, cells, outs.len(), inputs, n);
        let t = inputs[n - 1];
        let m = p.cells[t.cell];
        if live_index(m.node_id, generation) is None && m.requires_grad {
            law_token_round_trip(generation, p.count as u32);
            assert((outs + new)[p.count as int] == t.shape@);
        }
        assert forall|i: int| 0 <= i < (outs + before).len() implies (outs + new)[i] == (outs
            + before)[i] by {}
    } else {
        assert(outs + leaf_dims(generation, cells, outs.len(), inputs, n) =~= outs);
    }
}

/// The nodes that inputs are named by have their extents.
proof fn lemma_ids_fit(
    generation: u32,
    cells: Map<usize, Meta>,
    outs: Seq<Seq<usize>>,
    inputs: Seq<Tensor>,
    n: int,
)
    requires
        0 <= n <= inputs.len(),
        outs.len() + inputs.len() <= u32::MAX,
        forall|i: int| 0 <= i < inputs.len() ==> cells.contains_key((#[trigger] inputs[i]).cell),
        forall|i: int|
            0 <= i < inputs.len() ==> cell_fits(
                cells,
                generation,
                outs,
                (#[trigger] inputs[i]).cell,
                inputs[i].shape@,
            ),
        forall|i: int|
            0 <= i < inputs.len() ==> one_shape(
                inputs,
                (#[trigger] inputs[i]).cell,
                inputs[i].shape@,
            ),
    ensures
        ({
            let r = name_inputs(generation, cells, outs.len(), inputs, n);
            let new = leaf_dims(generation, cells, outs.len(), inputs, n);
            &&& r.ids.len() == n
            &&& r.count == outs.len() + new.len()
            &&& forall|i: int|
                0 <= i < n ==> ((#[trigger] r.ids[i]) matches Some(id) ==> id < (outs + new).len()
                    && (outs + new)[id as int] == inputs[i].shape@)
        }),
    decreases n,
{
    if n > 0 {
        lemma_ids_fit(generation, cells, outs, inputs, n - 1);
        let t = inputs[n - 1];
        lemma_named_fits(generation, cells, outs, inputs, n - 1, t.cell, t.shape@);
        lemma_name_inputs(generation, cells, outs.len(), inputs, n - 1);
        let p = name_inputs(generation, cells, outs.len(), inputs, n - 1);
        let r = name_inputs(generation, cells, outs.len(), inputs, n);
        let before = leaf_dims(generation, cells, outs.len(), inputs, n - 1);
        let new = leaf_dims(generation, cells, outs.len(), inputs, n);
        assert forall|i: int| 0 <= i < (outs + before).len() implies (outs + new)[i] == (outs
            + before)[i] by {}
        assert forall|i: int| 0 <= i < n implies ((#[trigger] r.ids[i]) matches Some(id) ==> id
            < (outs + new).len() && (outs + new)[id as int] == inputs[i].shape@) by {
            if i < n - 1 {
                assert(r.ids[i] == p.ids[i]);
            } else {
                let m = p.cells[t.cell];
                match live_index(m.node_id, generation) {
                    Some(id) => {
                        assert(r.ids[i] == Some(id));
                        assert((outs + new)[id as int] == (outs + before)[id as int]);
                    },
                    None => {
                        if m.requires_grad {
                            assert(r.ids[i] == Some(p.count as u32));
                            assert(new == before.push(t.shape@));
                            assert((outs + new)[p.count as int] == t.shape@);
                        }
                    },
                }
            }
        }
    }
}

/// The value of a tensor of 32-bit floats on the CPU is well formed.
proof fn lemma_value_wf<S>(rt: Runtime<S>, t: Tensor)
    requires
        t.is_f32(rt.mem),
    ensures
        t.value(rt.mem).wf(),
{
}

/// An empty tape fits together.
pub proof fn law_empty_fits<S: Scalar>(rt: Runtime<S>)
    requires
        rt.tape@.len() == 0,
    ensures
        fitting(rt, Seq::empty()),
{
    assert(tape_handles(rt) =~= Seq::<Tensor>::empty());
}

/// Whatever held a block in both states shows the same value.
proof fn lemma_same_value<S>(a: Runtime<S>, b: Runtime<S>, t: Tensor)
    requires
        t.is_f32(a.mem),
        a.mem.wf(),
        crate::tape::same_blocks(a.mem, b.mem),
        forall|k: Key| #[trigger] b.mem.refs(k) >= a.mem.refs(k),
        b.mem.cells@.contains_key(t.cell),
    ensures
        t.is_f32(b.mem),
        t.value(b.mem) == t.value(a.mem),
{
    lemma_valid_refs(a.mem, t);
    assert(b.mem.refs(t.key()) >= a.mem.refs(t.key()));
    lemma_valid_kept(a.mem, b.mem, t);
}

/// What stays as it was when an operation is recorded.
proof fn lemma_old_steps<S: Scalar>(
    a: Runtime<S>,
    b: Runtime<S>,
    op: OpType,
    inputs: Seq<Tensor>,
    rng_counter: u64,
    output: Tensor,
    i: int,
)
    requires
        a.wf(),
        b.wf(),
        readable(a),
        recorded(a, b, op, inputs, rng_counter, output),
        a.tape@.len() < b.tape@.len(),
        forall|k: int| 0 <= k < a.tape@.len() ==> b.tape@[k] == a.tape@[k],
        forall|c: usize| #[trigger] a.mem.cells@.contains_key(c) ==> b.mem.cells@.contains_key(c),
        0 <= i < a.tape@.len(),
    ensures
        tape_steps(b)[i] == tape_steps(a)[i],
{
    let saved = a.tape@[i].saved;
    assert forall|k: int| 0 <= k < saved.len() implies #[trigger] values(saved, b.mem)[k]
        == values(saved, a.mem)[k] by {
        lemma_on_tape(a, i, k);
        assert(saved[k].is_f32(a.mem));
        lemma_same_value(a, b, saved[k]);
    }
    assert(values(saved, b.mem) =~= values(saved, a.mem));
}

/// Recording an operation that applies to its inputs keeps the tape fitting together, and so
/// does the output, which names the new node. What else the caller owns goes on fitting.
pub proof fn law_recording_fits<S: Scalar>(
    a: Runtime<S>,
    b: Runtime<S>,
    op: OpType,
    inputs: Seq<Tensor>,
    rng_counter: u64,
    output: Tensor,
    outs: Seq<Seq<usize>>,
)
    requires
        a.wf(),
        b.wf(),
        fitting(a, outs),
        can_record(a, inputs),
        recorded(a, b, op, inputs, rng_counter, output),
        output.owned(a),
        forall|i: int|
            0 <= i < inputs.len() ==> {
                let t = #[trigger] inputs[i];
                &&& t.owned(a)
                &&& t.is_f32(a.mem)
                &&& names_fitting(a, outs, t)
                &&& one_shape(inputs, t.cell, t.shape@)
                &&& t.cell != output.cell
            },
        applies(op, values(inputs, a.mem), output.shape@),
    ensures
        fitting(b, outs_after(a, outs, inputs, output)),
        names_fitting(b, outs_after(a, outs, inputs, output), output),
        forall|u: Tensor|
            #![trigger u.owned(a)]
            u.owned(a) && u.cell != output.cell && names_fitting(a, outs, u) && one_shape(
                inputs,
                u.cell,
                u.shape@,
            ) ==> names_fitting(b, outs_after(a, outs, inputs, output), u),
{
    let g = a.tape.generation;
    let n = inputs.len() as int;
    let mid = choose|mid: Map<usize, Meta>|
        #[trigger] pushed(a.tape@, b.tape@, a.mem.cells@, mid, g, op, inputs, rng_counter)
            && b.mem.cells@ == mid.insert(
            output.cell,
            Meta {
                node_id: Some(pack_spec(g, (b.tape@.len() - 1) as u32)),
                ..mid[output.cell]
            },
        );
    let r = name_inputs(g, a.mem.cells@, a.tape@.len(), inputs, n);
    let new = leaf_dims(g, a.mem.cells@, a.tape@.len(), inputs, n);
    let next = outs_after(a, outs, inputs, output);
    let node = b.tape@.last();
    let leaf_nodes = Seq::new(
        (r.count - a.tape@.len()) as nat,
        |i: int| leaf_node((a.tape@.len() + i) as u32),
    );
    assert(tape_steps(a).len() == outs.len());
    assert forall|i: int| 0 <= i < inputs.len() implies a.mem.cells@.contains_key(
        (#[trigger] inputs[i]).cell,
    ) by {
        assert(inputs[i].valid(a.mem));
    }
    lemma_name_inputs(g, a.mem.cells@, a.tape@.len(), inputs, n);
    assert forall|i: int| 0 <= i < inputs.len() implies cell_fits(
        a.mem.cells@,
        g,
        outs,
        (#[trigger] inputs[i]).cell,
        inputs[i].shape@,
    ) && one_shape(inputs, inputs[i].cell, inputs[i].shape@) by {
        assert(names_fitting(a, outs, inputs[i]));
    }
    lemma_ids_fit(g, a.mem.cells@, outs, inputs, n);
    assert(next.len() == b.tape@.len());
    assert(b.tape@.drop_last() == a.tape@ + leaf_nodes);
    assert forall|k: int| 0 <= k < b.tape@.len() - 1 implies b.tape@[k] == (a.tape@
        + leaf_nodes)[k] by {
        assert(b.tape@.drop_last()[k] == b.tape@[k]);
    }
    assert forall|c: usize| #[trigger] a.mem.cells@.contains_key(c) implies
        b.mem.cells@.contains_key(c) by {
        assert(r.cells.dom() == a.mem.cells@.dom());
        assert(r.cells.contains_key(c));
    }
    assert forall|i: int| 0 <= i < next.len() - 1 implies next[i] == (outs + new)[i] by {}

    lemma_saved_pushed(a.tape@, b.tape@, leaf_nodes);
    assert(tape_handles(b) == tape_handles(a) + node.saved);

    // The handles of the new node show the values of the inputs.
    assert forall|i: int| 0 <= i < inputs.len() implies {
        let s = #[trigger] node.saved[i];
        &&& s.is_f32(b.mem)
        &&& s.value(b.mem) == inputs[i].value(a.mem)
        &&& names_fitting(b, next, s)
    } by {
        let s = node.saved[i];
        let t = inputs[i];
        assert(tape_handles(b)[tape_handles(a).len() + i] == s);
        assert(tape_handles(b).contains(s));
        crate::autograd::checkpoint::lemma_tape_valid(b, s);
        assert(s == (Tensor { cell: s.cell, ..t }));
        lemma_same_value(a, b, t);
        lemma_named_fits(g, a.mem.cells@, outs, inputs, n, t.cell, t.shape@);
        assert(!r.cells.contains_key(s.cell));
        assert(s.cell != output.cell) by {
            assert(output.valid(a.mem));
            assert(r.cells.contains_key(output.cell));
        }
        assert(b.mem.cells@[s.cell] == r.cells[t.cell]);
    }
    assert(values(node.saved, b.mem) =~= values(inputs, a.mem));
    assert(inputs_wf(values(inputs, a.mem))) by {
        assert forall|i: int| 0 <= i < values(inputs, a.mem).len() implies (
        #[trigger] values(inputs, a.mem)[i]).wf() by {
            assert(inputs[i].is_f32(a.mem));
            lemma_value_wf(a, inputs[i]);
        }
    }

    // Every step fits.
    let steps = tape_steps(b);
    assert forall|i: int| 0 <= i < steps.len() implies #[trigger] shaped(steps, next, i) by {
        if i < a.tape@.len() {
            lemma_old_steps(a, b, op, inputs, rng_counter, output, i);
            assert(shaped(tape_steps(a), outs, i));
            assert(tape_steps(a)[i] == steps[i]);
            let s = steps[i];
            if s.saved.len() > 0 && !(s.op is Checkpoint) {
                assert forall|j: int| 0 <= j < s.inputs.len() implies ((
                #[trigger] s.inputs[j]) matches Some(id) ==> id < i && next[id as int]
                    == s.saved[j].dims) by {
                    assert(tape_steps(a)[i].inputs[j] == s.inputs[j]);
                }
            }
        } else if i < steps.len() - 1 {
            assert(b.tape@[i] == leaf_nodes[i - a.tape@.len()]);
            assert(steps[i].saved.len() == 0);
        } else {
            let s = steps[i];
            assert(s.inputs == r.ids);
            assert(s.saved == values(inputs, a.mem));
            assert forall|j: int| 0 <= j < s.inputs.len() implies ((
            #[trigger] s.inputs[j]) matches Some(id) ==> id < i && next[id as int]
                == s.saved[j].dims) by {
                assert(r.ids[j] == s.inputs[j]);
            }
        }
    }
    assert(well_shaped(steps, next));

    // Every handle on the tape fits.
    assert forall|t: Tensor| #[trigger] tape_handles(b).contains(t) implies t.is_f32(b.mem)
        && names_fitting(b, next, t) by {
        let k = tape_handles(b).index_of(t);
        if k < tape_handles(a).len() {
            assert(tape_handles(a)[k] == t);
            assert(tape_handles(a).contains(t));
            assert(a.holds()[k] == t);
            assert(holds_cell(a.holds(), t.cell));
            crate::autograd::checkpoint::lemma_tape_valid(a, t);
            assert(t.is_f32(a.mem));
            lemma_same_value(a, b, t);
            assert(one_shape(inputs, t.cell, t.shape@)) by {
                assert forall|i: int|
                    0 <= i < inputs.len() && (#[trigger] inputs[i]).cell == t.cell implies
                    inputs[i].shape@ == t.shape@ by {
                    assert(inputs[i].owned(a));
                }
            }
            assert(names_fitting(a, outs, t));
            lemma_kept_name(a, b, op, inputs, rng_counter, output, outs, mid, t);
        } else {
            assert(node.saved[k - tape_handles(a).len()] == t);
        }
    }
    assert forall|i: int| 0 <= i < b.tape@.len() implies named(
        (#[trigger] b.tape@[i]).inputs,
        i as nat,
    ) by {
        if i < a.tape@.len() {
            assert(b.tape@[i] == a.tape@[i]);
            assert(named(a.tape@[i].inputs, i as nat));
        } else if i < b.tape@.len() - 1 {
            assert(b.tape@[i] == leaf_nodes[i - a.tape@.len()]);
        } else {
            assert forall|j: int| 0 <= j < node.inputs.len() implies ((
            #[trigger] node.inputs[j]) matches Some(id) ==> id < i) by {
                assert(r.ids[j] == node.inputs[j]);
            }
        }
    }

    law_token_round_trip(g, (b.tape@.len() - 1) as u32);
    assert forall|u: Tensor| #[trigger]
        u.owned(a) && u.cell != output.cell && names_fitting(a, outs, u) && one_shape(
            inputs,
            u.cell,
            u.shape@,
        ) implies names_fitting(b, next, u) by {
        lemma_kept_name(a, b, op, inputs, rng_counter, output, outs, mid, u);
    }
}

/// A handle of before goes on naming a node with its extents.
proof fn lemma_kept_name<S: Scalar>(
    a: Runtime<S>,
    b: Runtime<S>,
    op: OpType,
    inputs: Seq<Tensor>,
    rng_counter: u64,
    output: Tensor,
    outs: Seq<Seq<usize>>,
    mid: Map<usize, Meta>,
    u: Tensor,
)
    requires
        outs.len() == a.tape@.len(),
        outs.len() + inputs.len() <= u32::MAX,
        recorded(a, b, op, inputs, rng_counter, output),
        pushed(
            a.tape@,
            b.tape@,
            a.mem.cells@,
            mid,
            a.tape.generation,
            op,
            inputs,
            rng_counter,
        ),
        b.mem.cells@ == mid.insert(
            output.cell,
            Meta {
                node_id: Some(pack_spec(a.tape.generation, (b.tape@.len() - 1) as u32)),
                ..mid[output.cell]
            },
        ),
        forall|i: int|
            0 <= i < inputs.len() ==> a.mem.cells@.contains_key((#[trigger] inputs[i]).cell),
        a.mem.cells@.contains_key(u.cell),
        u.cell != output.cell,
        names_fitting(a, outs, u),
        one_shape(inputs, u.cell, u.shape@),
    ensures
        names_fitting(b, outs_after(a, outs, inputs, output), u),
{
    let g = a.tape.generation;
    let n = inputs.len() as int;
    lemma_named_fits(g, a.mem.cells@, outs, inputs, n, u.cell, u.shape@);
    lemma_name_inputs(g, a.mem.cells@, outs.len(), inputs, n);
    let r = name_inputs(g, a.mem.cells@, outs.len(), inputs, n);
    assert(r.cells.contains_key(u.cell));
    assert(mid[u.cell] == r.cells[u.cell]);
}

/// Whatever was recorded can be differentiated: over a tape that fits together and holds no
/// checkpointed block, a backward pass from an output with a node runs to its end, as far as
/// there is room for the gradients.
pub proof fn law_recorded_differentiates<S: Scalar>(
    rt: Runtime<S>,
    outs: Seq<Seq<usize>>,
    output: Tensor,
    grad: Value<S>,
)
    requires
        fitting(rt, outs),
        live_index(output.meta(rt.mem).node_id, rt.tape.generation) is Some,
        names_fitting(rt, outs, output),
        grad.wf(),
        grad.dims == output.shape@,
        forall|i: int| 0 <= i < rt.tape@.len() ==> !((#[trigger] rt.tape@[i]).op is Checkpoint),
        rt.checkpoint_gradients@ == Map::<GradKey, Tensor>::empty(),
        has_room(
            rt,
            (tape_handles(rt).len() + rt.checkpoint_gradients.held().len()) as int,
            (tape_handles(rt).len() + rt.checkpoint_gradients.held().len()) as int,
        ),
    ensures
        sweepable(rt, output, grad),
{
    let steps = tape_steps(rt);
    let at = token_index(output.meta(rt.mem).node_id->0);
    let p = first_progress(rt.tape@.len(), at, grad);
    assert(grads_fit(p.grads, outs));
    law_backward_total(steps, outs, p);
    assert forall|i: int| 0 <= i < p.left implies !((#[trigger] steps[i]).op is Checkpoint) by {
        assert(!(rt.tape@[i].op is Checkpoint));
    }
    law_run_ends(steps, p);
    assert(tokens_ok(rt)) by {
        assert forall|t: Tensor| #[trigger] tape_handles(rt).contains(t) implies (live_index(
            t.meta(rt.mem).node_id,
            rt.tape.generation,
        ) matches Some(i) ==> i < rt.tape@.len()) by {
            assert(names_fitting(rt, outs, t));
        }
        assert forall|i: int| 0 <= i < rt.tape@.len() implies named(
            (#[trigger] rt.tape@[i]).inputs,
            rt.tape@.len(),
        ) by {
            let ids = rt.tape@[i].inputs;
            assert(named(ids, i as nat));
            assert forall|j: int| 0 <= j < ids.len() implies ((#[trigger] ids[j]) matches Some(
                id,
            ) ==> id < rt.tape@.len()) by {}
        }
    }
    assert(blocks_ok(rt, leaves(rt, swept(rt, output, grad).grads, rt.tape@.len() as int)));
}

} // verus!
