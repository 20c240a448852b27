//! Activation checkpointing.
//!
//! A checkpointed block runs twice: once forward with nothing recorded but its input, and once
//! more during the backward pass, to rebuild what its gradients need. Whoever calls the block
//! does so between the steps below.
use vstd::prelude::*;
use crate::autograd::collect::lemma_on_tape;
use crate::autograd::grads::tape_handles;
use crate::autograd::store::{lemma_taken, next_generation};
use crate::custody::loose;
use crate::handle::{meta_set, undisturbed};
use crate::op::OpType;
use crate::record::{can_record, recorded};
use crate::runtime::{saved_upto, GradKey, Gradients, Mode, Runtime};
use crate::tape::{count_key, derefs, NodeView, Tape};
use crate::tensor::Tensor;
use crate::track::with_grad;

verus! {

/// What is put back after the forward run of a checkpointed block.
#[derive(Debug, Clone, Copy, PartialEq, Eq, Structural)]
pub struct Suspended {
    /// Whether operations were recorded before.
    pub was_enabled: bool,
    /// The randomness counter before the block ran.
    pub rng_counter: u64,
}

/// The runtime with other switches.
pub open spec fn with_mode<S>(rt: Runtime<S>, mode: Mode) -> Runtime<S> {
    Runtime { mode, ..rt }
}

/// Prepares the forward run of a checkpointed block: nothing is recorded while it runs, and the
/// randomness counter is noted so that the block can be replayed from there.
pub fn begin_checkpoint<S>(rt: &mut Runtime<S>) -> (s: Suspended)
    requires
        old(rt).wf(),
    ensures
        final(rt).wf(),
        *final(rt) == with_mode(*old(rt), Mode { autograd_enabled: false, ..old(rt).mode }),
        s == (Suspended {
            was_enabled: old(rt).mode.autograd_enabled,
            rng_counter: old(rt).mode.rng_counter,
        }),
{
    let ghost before = *rt;
    let s = Suspended {
        was_enabled: rt.mode.autograd_enabled,
        rng_counter: rt.mode.rng_counter,
    };
    rt.mode.autograd_enabled = false;
    proof {
        assert(rt.holds() == before.holds());
    }
    s
}

/// The step from `a` to `b` that follows the forward run of a checkpointed block.
pub open spec fn checkpointed<S>(
    a: Runtime<S>,
    b: Runtime<S>,
    x: Tensor,
    out: Tensor,
    s: Suspended,
) -> bool {
    let start = with_mode(a, Mode { autograd_enabled: s.was_enabled, ..a.mode });
    if s.was_enabled && (x.meta(a.mem).requires_grad || out.meta(a.mem).requires_grad) {
        exists|mid: Runtime<S>|
            #[trigger] meta_set(start, mid, out.cell, with_grad(out.meta(a.mem))) && recorded(
                mid,
                b,
                OpType::Checkpoint,
                seq![x],
                s.rng_counter,
                out,
            )
    } else {
        b == start
    }
}

/// Finishes the forward run of a checkpointed block with input `x` and output `out`: recording is
/// switched back, and where gradients flow the block is recorded as one node. Returns that node,
/// under which the block has to be found for the backward pass.
pub fn checkpoint<S>(
    x: &Tensor,
    out: &Tensor,
    s: Suspended,
    rt: &mut Runtime<S>,
) -> (r: Option<u32>)
    requires
        old(rt).wf(),
        can_record(*old(rt), seq![*x]),
        out.owned(*old(rt)),
    ensures
        final(rt).wf(),
        checkpointed(*old(rt), *final(rt), *x, *out, s),
        undisturbed(*old(rt), *final(rt)),
        out.owned(*final(rt)),
        r == (if s.was_enabled && (x.meta(old(rt).mem).requires_grad || out.meta(
            old(rt).mem,
        ).requires_grad) {
            Some((final(rt).tape@.len() - 1) as u32)
        } else {
            None::<u32>
        }),
{
    let ghost before = *rt;
    proof {
        assert(seq![*x][0] == *x);
        assert(x.valid(rt.mem));
    }
    rt.mode.autograd_enabled = s.was_enabled;
    let ghost start = *rt;
    proof {
        assert(start == with_mode(
            before,
            Mode { autograd_enabled: s.was_enabled, ..before.mode },
        ));
        assert(rt.holds() == before.holds());
        assert forall|u: Tensor| #[trigger] u.owned(before) implies u.owned(start) by {
            assert(start.owners(u.key()) == before.owners(u.key()));
        }
        assert(out.owned(before));
    }
    if s.was_enabled && (x.requires_grad(rt) || out.requires_grad(rt)) {
        out.set_requires_grad(true, rt);
        let ghost mid = *rt;
        let inputs: [&Tensor; 1] = [x];
        proof {
            assert(meta_set(start, mid, out.cell, with_grad(out.meta(before.mem))));
            assert(derefs(inputs@) =~= seq![*x]);
            assert forall|i: int| 0 <= i < seq![*x].len() implies (#[trigger] seq![*x][i]).valid(
                mid.mem,
            ) && mid.mem.refs(seq![*x][i].key()) + seq![*x].len() <= usize::MAX by {
                assert(seq![*x][i].valid(before.mem));
                assert(before.mem.refs(seq![*x][i].key()) + seq![*x].len() <= usize::MAX);
            }
            assert(out.owned(start));
            assert(out.owned(mid));
        }
        rt.record_op(OpType::Checkpoint, inputs.as_slice(), s.rng_counter, out);
        proof {
            assert(recorded(mid, *rt, OpType::Checkpoint, seq![*x], s.rng_counter, *out));
            assert forall|u: Tensor| #[trigger] u.owned(before) implies {
                &&& u.owned(*rt)
                &&& u.device is Cpu ==> u.block(rt.mem) == u.block(before.mem)
            } by {
                assert(u.owned(start));
                assert(u.owned(mid));
            }
        }
        Some((rt.tape.nodes.len() - 1) as u32)
    } else {
        None
    }
}

/// What is put aside while a checkpointed block is replayed.
pub struct Replay {
    /// The tape of the pass that the block belongs to.
    pub tape: Tape,
    /// Gradients of the last pass.
    pub gradients: Gradients,
    /// The randomness counter.
    pub rng_counter: u64,
    /// The input of the block.
    pub x: Tensor,
}

impl Replay {
    /// The handles that are put aside.
    pub open spec fn handles(self) -> Seq<Tensor> {
        saved_upto(self.tape@, self.tape@.len() as int) + self.gradients.held()
    }

    pub open spec fn wf(self) -> bool {
        self.tape.wf() && self.gradients.wf()
    }
}

/// The step from `a` to `b` that prepares the replay of the block at a node: the block will find
/// an empty tape of the next generation, recording switched on, and the randomness counter where
/// it was before its forward run, so that every draw is repeated.
pub open spec fn replaying<S>(a: Runtime<S>, b: Runtime<S>, node: int, r: Replay) -> bool {
    &&& r.tape == a.tape
    &&& r.gradients == a.gradients
    &&& r.rng_counter == a.mode.rng_counter
    &&& r.x == (Tensor { cell: r.x.cell, ..a.tape@[node].saved[0] })
    &&& !a.mem.cells@.contains_key(r.x.cell)
    &&& b.mem.cells@ == a.mem.cells@.insert(r.x.cell, a.tape@[node].saved[0].meta(a.mem))
    &&& b.tape@ == Seq::<NodeView>::empty()
    &&& b.tape.generation == next_generation(a.tape.generation)
    &&& b.gradients@ == Map::<GradKey, Tensor>::empty()
    &&& b.gradients.held() == Seq::<Tensor>::empty()
    &&& b.checkpoint_gradients == a.checkpoint_gradients
    &&& b.hooks == a.hooks
    &&& b.queue == a.queue
    &&& b.mode == (Mode {
        autograd_enabled: true,
        recomputing: true,
        rng_counter: a.tape@[node].rng_counter,
        ..a.mode
    })
}

/// Prepares the replay of the checkpointed block at a node of the tape.
pub fn begin_replay<S>(node: u32, rt: &mut Runtime<S>) -> (r: Replay)
    requires
        old(rt).wf(),
        node < old(rt).tape@.len(),
        old(rt).tape@[node as int].saved.len() > 0,
        old(rt).mem.refs(old(rt).tape@[node as int].saved[0].key()) < usize::MAX,
        old(rt).mem.cells.room() > 0,
    ensures
        final(rt).wf(),
        r.wf(),
        replaying(*old(rt), *final(rt), node as int, r),
        r.x.owned(*final(rt)),
        loose(*final(rt), r.handles()),
        undisturbed(*old(rt), *final(rt)),
{
    let ghost first = *rt;
    let ghost saved = rt.tape@[node as int].saved[0];
    proof {
        lemma_on_tape(first, node as int, 0);
        lemma_tape_valid(first, saved);
        assert(rt.tape.nodes@[node as int]@ == rt.tape@[node as int]);
    }
    let handle = crate::autograd::backward::alias(&rt.tape.nodes[node as usize].saved_tensors[0]);
    let counter = rt.tape.nodes[node as usize].rng_counter;
    let x = handle.clone(rt);
    let ghost second = *rt;
    let generation = rt.tape.generation.wrapping_add(1);
    let mut tape = Tape { nodes: Vec::new(), generation };
    assert(tape@ =~= Seq::<NodeView>::empty());
    std::mem::swap(&mut tape, &mut rt.tape);
    let mut gradients = Gradients::new();
    std::mem::swap(&mut gradients, &mut rt.gradients);
    let saved_counter = rt.mode.rng_counter;
    rt.mode.autograd_enabled = true;
    rt.mode.recomputing = true;
    rt.mode.rng_counter = counter;
    let r = Replay { tape, gradients, rng_counter: saved_counter, x };
    proof {
        let none = Seq::<Tensor>::empty();
        let c = first.checkpoint_gradients.held();
        assert(second.holds() =~= none + r.handles() + c);
        assert(rt.holds() =~= none + c);
        lemma_taken(second, *rt, none, r.handles(), c);
        assert forall|u: Tensor| #[trigger] u.owned(second) implies u.owned(*rt) by {
            assert(rt.owners(u.key()) == second.owners(u.key()) + count_key(
                r.handles(),
                u.key(),
            ));
        }
        assert(x.owned(second));
        assert forall|u: Tensor| #[trigger] u.owned(first) implies {
            &&& u.owned(*rt)
            &&& u.device is Cpu ==> u.block(rt.mem) == u.block(first.mem)
        } by {
            assert(u.owned(second));
        }
    }
    r
}

/// A handle on the tape is valid.
pub proof fn lemma_tape_valid<S>(rt: Runtime<S>, t: Tensor)
    requires
        rt.wf(),
        tape_handles(rt).contains(t),
    ensures
        t.valid(rt.mem),
{
    let i = tape_handles(rt).index_of(t);
    assert(rt.holds()[i] == t);
    assert(rt.holds()[i].valid(rt.mem));
}

/// Ends the run of a replayed block: its gradients are computed with recording switched off, and
/// the randomness counter is where it was before the replay.
pub fn end_replay<S>(r: &Replay, rt: &mut Runtime<S>)
    requires
        old(rt).wf(),
    ensures
        final(rt).wf(),
        *final(rt) == with_mode(
            *old(rt),
            Mode {
                autograd_enabled: false,
                recomputing: false,
                rng_counter: r.rng_counter,
                ..old(rt).mode
            },
        ),
{
    let ghost before = *rt;
    rt.mode.recomputing = false;
    rt.mode.rng_counter = r.rng_counter;
    rt.mode.autograd_enabled = false;
    proof {
        assert(rt.holds() == before.holds());
    }
}

/// A block that is replayed finds the randomness counter where its forward run found it, and the
/// pass goes on with the counter that it had.
pub proof fn law_replay_counter<S>(
    a: Runtime<S>,
    b: Runtime<S>,
    x: Tensor,
    out: Tensor,
    s: Suspended,
    c: Runtime<S>,
    d: Runtime<S>,
    node: int,
    r: Replay,
)
    requires
        recorded(a, b, OpType::Checkpoint, seq![x], s.rng_counter, out),
        c.tape@[node] == b.tape@.last(),
        replaying(c, d, node, r),
    ensures
        d.mode.rng_counter == s.rng_counter,
        r.rng_counter == c.mode.rng_counter,
        d.mode.recomputing,
{
}

} // verus!
