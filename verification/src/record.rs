//! Recording operations on the tape.
use vstd::prelude::*;
use crate::cells::Meta;
use crate::handle::undisturbed;
use crate::op::OpType;
use crate::runtime::{holds_cell, saved_upto, Runtime};
use crate::tape::{
    count_key, derefs, leaf_node, lemma_count_add, lemma_count_same, lemma_name_inputs,
    lemma_valid_kept, lemma_valid_refs, name_inputs, pack_spec, pushed, same_blocks, NodeView,
};
use crate::tensor::{same_room, Key, Tensor};

verus! {

/// Handles kept by the first nodes do not depend on what follows.
pub proof fn lemma_saved_prefix(a: Seq<NodeView>, b: Seq<NodeView>, n: int)
    requires
        0 <= n <= a.len(),
        n <= b.len(),
        forall|i: int| 0 <= i < n ==> a[i] == b[i],
    ensures
        saved_upto(a, n) == saved_upto(b, n),
    decreases n,
{
    if n > 0 {
        lemma_saved_prefix(a, b, n - 1);
    }
}

proof fn lemma_saved_leaves(a: Seq<NodeView>, m: int, n: int)
    requires
        0 <= m <= n <= a.len(),
        forall|i: int| m <= i < n ==> (#[trigger] a[i]).saved.len() == 0,
    ensures
        saved_upto(a, n) == saved_upto(a, m),
    decreases n - m,
{
    if m < n {
        lemma_saved_leaves(a, m, n - 1);
        assert(a[n - 1].saved.len() == 0);
        assert(saved_upto(a, n) =~= saved_upto(a, n - 1));
    }
}

/// Recording a node adds the handles that it keeps.
pub proof fn lemma_saved_pushed(
    before: Seq<NodeView>,
    after: Seq<NodeView>,
    leaves: Seq<NodeView>,
)
    requires
        after.len() > 0,
        after.drop_last() == before + leaves,
        forall|i: int| 0 <= i < leaves.len() ==> (#[trigger] leaves[i]).saved.len() == 0,
    ensures
        saved_upto(after, after.len() as int) == saved_upto(before, before.len() as int)
            + after.last().saved,
{
    let n = after.len() - 1;
    let mid = before + leaves;
    assert(after.drop_last().len() == n);
    assert(mid.len() == n);
    assert forall|i: int| before.len() <= i < n implies (#[trigger] mid[i]).saved.len() == 0 by {
        assert(mid[i] == leaves[i - before.len()]);
    }
    lemma_saved_leaves(mid, before.len() as int, n);
    lemma_saved_prefix(mid, before, before.len() as int);
    assert forall|i: int| 0 <= i < n implies after[i] == mid[i] by {
        assert(after.drop_last()[i] == mid[i]);
    }
    lemma_saved_prefix(after, mid, n);
}

/// An operation can be recorded: its inputs are valid, and tape, references and cells have room.
pub open spec fn can_record<S>(rt: Runtime<S>, inputs: Seq<Tensor>) -> bool {
    &&& rt.tape.nodes@.len() + inputs.len() + 1 <= u32::MAX
    &&& rt.mem.cells.room() >= inputs.len()
    &&& forall|i: int|
        0 <= i < inputs.len() ==> (#[trigger] inputs[i]).valid(rt.mem) && rt.mem.refs(
            inputs[i].key(),
        ) + inputs.len() <= usize::MAX
}

/// An operation was recorded on the tape, and its output got the token of the node.
pub open spec fn recorded<S>(
    a: Runtime<S>,
    b: Runtime<S>,
    op: OpType,
    inputs: Seq<Tensor>,
    rng_counter: u64,
    output: Tensor,
) -> bool {
    let token = pack_spec(a.tape.generation, (b.tape@.len() - 1) as u32);
    &&& b.mode == a.mode
    &&& b.hooks == a.hooks
    &&& b.gradients == a.gradients
    &&& b.checkpoint_gradients == a.checkpoint_gradients
    &&& b.queue == a.queue
    &&& b.tape.generation == a.tape.generation
    &&& same_blocks(a.mem, b.mem)
    &&& forall|k: Key| #[trigger] b.mem.refs(k) == a.mem.refs(k) + count_key(inputs, k)
    &&& exists|mid: Map<usize, Meta>|
        {
            &&& #[trigger] pushed(
                a.tape@,
                b.tape@,
                a.mem.cells@,
                mid,
                a.tape.generation,
                op,
                inputs,
                rng_counter,
            )
            &&& b.mem.cells@ == mid.insert(
                output.cell,
                Meta { node_id: Some(token), ..mid[output.cell] },
            )
        }
    &&& b.mem.cells.room() == a.mem.cells.room() - inputs.len()
    &&& same_room(a.mem, b.mem)
}

/// Every handle requires gradients or not as before.
pub open spec fn grads_kept<S>(a: Runtime<S>, b: Runtime<S>) -> bool {
    forall|c: usize| #[trigger]
        a.mem.cells@.contains_key(c) ==> b.mem.cells@.contains_key(c)
            && b.mem.cells@[c].requires_grad == a.mem.cells@[c].requires_grad
}

/// The handles that a recorded node keeps join those that the runtime holds.
proof fn lemma_pushed<S>(a: Runtime<S>, b: Runtime<S>, inputs: Seq<Tensor>, op: OpType, rng: u64)
    requires
        a.wf(),
        can_record(a, inputs),
        b.mem.wf(),
        b.tape.wf(),
        b.gradients == a.gradients,
        b.checkpoint_gradients == a.checkpoint_gradients,
        same_blocks(a.mem, b.mem),
        forall|k: Key| #[trigger] b.mem.refs(k) == a.mem.refs(k) + count_key(inputs, k),
        pushed(
            a.tape@,
            b.tape@,
            a.mem.cells@,
            b.mem.cells@,
            a.tape.generation,
            op,
            inputs,
            rng,
        ),
    ensures
        b.wf(),
        undisturbed(a, b),
        forall|c: usize| #[trigger]
            a.mem.cells@.contains_key(c) ==> b.mem.cells@.contains_key(c)
                && b.mem.cells@[c].requires_grad == a.mem.cells@[c].requires_grad,
        b.tape@.len() <= a.tape@.len() + inputs.len() + 1,
        forall|k: Key| #[trigger] b.owners(k) == a.owners(k),
        forall|i: int|
            0 <= i < b.tape@.last().saved.len() ==> !a.mem.cells@.contains_key(
                (#[trigger] b.tape@.last().saved[i]).cell,
            ),
        b.holds() == saved_upto(a.tape@, a.tape@.len() as int) + b.tape@.last().saved
            + a.gradients.held() + a.checkpoint_gradients.held(),
{
    let r = name_inputs(
        a.tape.generation,
        a.mem.cells@,
        a.tape@.len(),
        inputs,
        inputs.len() as int,
    );
    assert forall|i: int| 0 <= i < inputs.len() implies a.mem.cells@.contains_key(
        (#[trigger] inputs[i]).cell,
    ) by {
        assert(inputs[i].valid(a.mem));
    }
    lemma_name_inputs(
        a.tape.generation,
        a.mem.cells@,
        a.tape@.len(),
        inputs,
        inputs.len() as int,
    );
    let leaves = Seq::new(
        (r.count - a.tape@.len()) as nat,
        |i: int| leaf_node((a.tape@.len() + i) as u32),
    );
    lemma_saved_pushed(a.tape@, b.tape@, leaves);
    let kept = b.tape@.last().saved;
    let t0 = saved_upto(a.tape@, a.tape@.len() as int);
    let rest = a.gradients.held() + a.checkpoint_gradients.held();
    let ha = a.holds();
    let hb = b.holds();
    assert(ha =~= t0 + rest);
    assert(hb =~= (t0 + kept) + rest);
    assert forall|c: usize| #[trigger] a.mem.cells@.contains_key(c) implies b.mem.cells@.contains_key(
        c,
    ) && b.mem.cells@[c].requires_grad == a.mem.cells@[c].requires_grad by {
        assert(r.cells.dom().contains(c));
        assert(r.cells.contains_key(c));
    }
    assert forall|k: Key| #[trigger] b.owners(k) == a.owners(k) && count_key(hb, k) <= b.mem.refs(
        k,
    ) by {
        lemma_count_add(t0, rest, k);
        lemma_count_add(t0, kept, k);
        lemma_count_add(t0 + kept, rest, k);
        lemma_count_same(kept, inputs, k);
        assert(count_key(ha, k) <= a.mem.refs(k));
    }
    assert forall|k: Key| #[trigger] count_key(hb, k) <= b.mem.refs(k) by {
        assert(b.owners(k) == a.owners(k));
        assert(count_key(ha, k) <= a.mem.refs(k));
    }
    assert forall|i: int| 0 <= i < kept.len() implies (#[trigger] kept[i]).valid(b.mem)
        && !a.mem.cells@.contains_key(kept[i].cell) by {
        assert(inputs[i].valid(a.mem));
        lemma_valid_refs(a.mem, inputs[i]);
        assert(b.mem.refs(inputs[i].key()) == a.mem.refs(inputs[i].key()) + count_key(
            inputs,
            inputs[i].key(),
        ));
        assert(b.mem.cells@.contains_key(inputs[i].cell));
        lemma_valid_kept(a.mem, b.mem, inputs[i]);
        if a.mem.cells@.contains_key(kept[i].cell) {
            assert(r.cells.dom().contains(kept[i].cell));
            assert(r.cells.contains_key(kept[i].cell));
        }
    }
    assert forall|i: int| 0 <= i < ha.len() implies (#[trigger] ha[i]).valid(b.mem)
        && a.mem.cells@.contains_key(ha[i].cell) by {
        assert(ha[i].valid(a.mem));
        lemma_valid_refs(a.mem, ha[i]);
        assert(b.mem.refs(ha[i].key()) >= a.mem.refs(ha[i].key()));
        lemma_valid_kept(a.mem, b.mem, ha[i]);
    }
    let n0 = t0.len();
    let nk = kept.len();
    assert forall|i: int| 0 <= i < hb.len() implies (#[trigger] hb[i]).valid(b.mem) by {
        if i < n0 {
            assert(hb[i] == ha[i]);
        } else if i < n0 + nk {
            assert(hb[i] == kept[i - n0]);
        } else {
            assert(hb[i] == ha[i - nk]);
        }
    }
    assert forall|i: int, j: int| 0 <= i < j < hb.len() implies hb[i].cell != hb[j].cell by {
        let ai = if i < n0 {
            i
        } else {
            i - nk
        };
        let aj = if j < n0 {
            j
        } else {
            j - nk
        };
        let ki = n0 <= i < n0 + nk;
        let kj = n0 <= j < n0 + nk;
        if ki && kj {
            assert(kept[i - n0].cell != kept[j - n0].cell);
        } else if ki {
            assert(hb[i] == kept[i - n0]);
            assert(hb[j] == ha[aj]);
            assert(a.mem.cells@.contains_key(ha[aj].cell));
        } else if kj {
            assert(hb[j] == kept[j - n0]);
            assert(hb[i] == ha[ai]);
            assert(a.mem.cells@.contains_key(ha[ai].cell));
        } else {
            assert(hb[i] == ha[ai]);
            assert(hb[j] == ha[aj]);
            assert(ha[ai].cell != ha[aj].cell);
        }
    }
    assert forall|u: Tensor| #[trigger] u.owned(a) implies {
        &&& u.owned(b)
        &&& u.device is Cpu ==> u.block(b.mem) == u.block(a.mem)
    } by {
        lemma_valid_refs(a.mem, u);
        assert(b.mem.refs(u.key()) >= a.mem.refs(u.key()));
        lemma_valid_kept(a.mem, b.mem, u);
        assert(b.owners(u.key()) == a.owners(u.key()));
        if holds_cell(hb, u.cell) {
            let i = choose|i: int| 0 <= i < hb.len() && (#[trigger] hb[i]).cell == u.cell;
            if i < n0 {
                assert(hb[i] == ha[i]);
            } else if i < n0 + nk {
                assert(hb[i] == kept[i - n0]);
                assert(!a.mem.cells@.contains_key(kept[i - n0].cell));
            } else {
                assert(hb[i] == ha[i - nk]);
            }
            assert(holds_cell(ha, u.cell));
        }
    }
}

impl<S> Runtime<S> {
    /// Records an operation on the tape and gives its output the token of the node.
    pub(crate) fn record_op(
        &mut self,
        op: OpType,
        inputs: &[&Tensor],
        rng_counter: u64,
        output: &Tensor,
    )
        requires
            old(self).wf(),
            can_record(*old(self), derefs(inputs@)),
            output.valid(old(self).mem),
        ensures
            final(self).wf(),
            recorded(*old(self), *final(self), op, derefs(inputs@), rng_counter, *output),
            undisturbed(*old(self), *final(self)),
            forall|k: Key| #[trigger] final(self).owners(k) == old(self).owners(k),
            output.valid(final(self).mem),
            grads_kept(*old(self), *final(self)),
            final(self).tape@.len() <= old(self).tape@.len() + inputs@.len() + 1,
    {
        let ghost before = *self;
        let ghost ins = derefs(inputs@);
        proof {
            assert forall|i: int| 0 <= i < inputs@.len() implies (#[trigger] inputs@[i]).valid(
                self.mem,
            ) && self.mem.refs(inputs@[i].key()) + inputs@.len() <= usize::MAX by {
                assert(ins[i] == *inputs@[i]);
                assert(ins[i].valid(self.mem));
            }
        }
        let token = self.tape.push(op, inputs, rng_counter, &mut self.mem);
        let ghost mid = *self;
        proof {
            lemma_pushed(before, mid, ins, op, rng_counter);
            lemma_valid_refs(before.mem, *output);
            assert(mid.mem.refs(output.key()) >= before.mem.refs(output.key()));
            lemma_valid_kept(before.mem, mid.mem, *output);
        }
        let m = self.mem.cells.get(output.cell);
        self.mem.cells.set(
            output.cell,
            Meta { node_id: Some(token), requires_grad: m.requires_grad },
        );
        proof {
            assert(self.holds() == mid.holds());
            crate::handle::lemma_undisturbed(mid, *self);
            assert forall|k: Key| #[trigger] self.owners(k) == before.owners(k) by {
                assert(mid.owners(k) == before.owners(k));
            }
            assert(pushed(
                before.tape@,
                self.tape@,
                before.mem.cells@,
                mid.mem.cells@,
                before.tape.generation,
                op,
                ins,
                rng_counter,
            ));
            assert forall|k: Key| #[trigger]
                self.mem.refs(k) == before.mem.refs(k) + count_key(ins, k) by {
                assert(mid.mem.refs(k) == before.mem.refs(k) + count_key(ins, k));
            }
        }
    }
}

} // verus!
