//! Keeping gradients, and letting go of the tape.
use vstd::prelude::*;
use crate::custody::{apart, dropped, kept, lemma_owners, loose};
use crate::runtime::{holds_cell, saved_upto, GradKey, Gradients, Runtime};
use crate::tape::{count_key, lemma_count_add, Node, NodeView, Tape};
use crate::tensor::{Key, Tensor};

verus! {

/// Handles that the runtime lets go of become loose.
pub proof fn lemma_taken<S>(
    a: Runtime<S>,
    b: Runtime<S>,
    p: Seq<Tensor>,
    ts: Seq<Tensor>,
    q: Seq<Tensor>,
)
    requires
        a.wf(),
        b.mem == a.mem,
        a.holds() == p + ts + q,
        b.holds() == p + q,
        b.tape.wf(),
        b.gradients.wf(),
        b.checkpoint_gradients.wf(),
    ensures
        b.wf(),
        loose(b, ts),
        kept(a, b, ts),
{
    let ha = a.holds();
    let hb = b.holds();
    let np = p.len();
    let nt = ts.len();
    assert forall|k: Key| #[trigger]
        b.owners(k) == a.owners(k) + count_key(ts, k) && count_key(hb, k) <= b.mem.refs(k) by {
        lemma_count_add(p, ts, k);
        lemma_count_add(p + ts, q, k);
        lemma_count_add(p, q, k);
        assert(count_key(ha, k) <= a.mem.refs(k));
    }
    assert forall|k: Key| #[trigger] count_key(hb, k) <= b.mem.refs(k) by {
        assert(b.owners(k) == a.owners(k) + count_key(ts, k));
    }
    assert forall|k: Key| count_key(ts, k) <= #[trigger] b.owners(k) by {
        lemma_owners(a, k);
        assert(b.owners(k) == a.owners(k) + count_key(ts, k));
    }
    assert forall|i: int| 0 <= i < hb.len() implies (#[trigger] hb[i]).valid(b.mem) by {
        if i < np {
            assert(hb[i] == ha[i]);
        } else {
            assert(hb[i] == ha[i + nt]);
        }
    }
    assert forall|i: int, j: int| 0 <= i < j < hb.len() implies hb[i].cell != hb[j].cell by {
        let si = if i < np {
            i
        } else {
            i + nt
        };
        let sj = if j < np {
            j
        } else {
            j + nt
        };
        assert(hb[i] == ha[si]);
        assert(hb[j] == ha[sj]);
        assert(ha[si].cell != ha[sj].cell);
    }
    assert forall|i: int| 0 <= i < nt implies (#[trigger] ts[i]).valid(b.mem) && !holds_cell(
        hb,
        ts[i].cell,
    ) by {
        assert(ha[np + i] == ts[i]);
        if holds_cell(hb, ts[i].cell) {
            let j = choose|j: int| 0 <= j < hb.len() && (#[trigger] hb[j]).cell == ts[i].cell;
            if j < np {
                assert(hb[j] == ha[j]);
                assert(ha[j].cell != ha[np + i].cell);
            } else {
                assert(hb[j] == ha[j + nt]);
                assert(ha[np + i].cell != ha[j + nt].cell);
            }
        }
    }
    assert forall|i: int, j: int| 0 <= i < j < nt implies ts[i].cell != ts[j].cell by {
        assert(ha[np + i] == ts[i]);
        assert(ha[np + j] == ts[j]);
        assert(ha[np + i].cell != ha[np + j].cell);
    }
    assert forall|u: Tensor| #[trigger] u.owned(a) implies {
        &&& u.valid(b.mem)
        &&& u.device is Cpu ==> u.block(b.mem) == u.block(a.mem)
        &&& u.meta(b.mem) == u.meta(a.mem)
        &&& !holds_cell(b.holds(), u.cell)
        &&& !holds_cell(ts, u.cell)
    } by {
        if holds_cell(hb, u.cell) {
            let j = choose|j: int| 0 <= j < hb.len() && (#[trigger] hb[j]).cell == u.cell;
            let sj = if j < np {
                j
            } else {
                j + nt
            };
            assert(hb[j] == ha[sj]);
            assert(holds_cell(ha, u.cell));
        }
        if holds_cell(ts, u.cell) {
            let j = choose|j: int| 0 <= j < ts.len() && (#[trigger] ts[j]).cell == u.cell;
            assert(ha[np + j] == ts[j]);
            assert(holds_cell(ha, u.cell));
        }
    }
}

/// Moving the saved handles of nodes into one list.
fn saved_of(nodes: Vec<Node>, Ghost(tape): Ghost<Tape>) -> (r: Vec<Tensor>)
    requires
        nodes@ == tape.nodes@,
    ensures
        r@ == saved_upto(tape@, tape@.len() as int),
{
    let mut nodes = nodes;
    let mut out: Vec<Tensor> = Vec::new();
    let ghost n = nodes@.len();
    // The nodes are taken from the back, so that their handles come in front of those taken
    // before.
    while nodes.len() > 0
        invariant
            nodes@.len() <= n == tape.nodes@.len(),
            nodes@ == tape.nodes@.take(nodes@.len() as int),
            saved_upto(tape@, n as int) == saved_upto(tape@, nodes@.len() as int) + out@,
        decreases nodes@.len(),
    {
        let ghost m = nodes@.len();
        let ghost later = out@;
        match nodes.pop() {
            Some(node) => {
                let mut saved = node.saved_tensors;
                let ghost own = saved@;
                saved.append(&mut out);
                out = saved;
                proof {
                    assert(node == tape.nodes@[m - 1]);
                    assert(tape@[m - 1] == node@);
                    assert(out@ == own + later);
                    assert(saved_upto(tape@, m as int) == saved_upto(tape@, m - 1) + own);
                    assert(saved_upto(tape@, m as int) + later =~= saved_upto(tape@, m - 1) + (own
                        + later));
                    assert(nodes@ =~= tape.nodes@.take(nodes@.len() as int));
                }
            },
            None => {},
        }
    }
    assert(saved_upto(tape@, n as int) =~= out@);
    out
}

/// The generation after `g`.
pub open spec fn next_generation(g: u32) -> u32 {
    if g == u32::MAX {
        0
    } else {
        (g + 1) as u32
    }
}

/// Resets the active autograd tape: its nodes are dropped, and every node token that was given
/// out becomes stale.
pub fn reset_active_tape<S>(rt: &mut Runtime<S>)
    requires
        old(rt).wf(),
    ensures
        final(rt).wf(),
        final(rt).tape@ == Seq::<NodeView>::empty(),
        final(rt).tape.generation == next_generation(old(rt).tape.generation),
        final(rt).mode == old(rt).mode,
        final(rt).hooks == old(rt).hooks,
        final(rt).checkpoint_gradients == old(rt).checkpoint_gradients,
        final(rt).queue == old(rt).queue,
        crate::tape::same_blocks(old(rt).mem, final(rt).mem),
        kept(*old(rt), *final(rt), Seq::empty()),
        dropped(
            *old(rt),
            *final(rt),
            saved_upto(old(rt).tape@, old(rt).tape@.len() as int),
        ),
        forall|k: Key| #[trigger] final(rt).mem.refs(k) <= old(rt).mem.refs(k),
        forall|c: usize| #[trigger]
            holds_cell(final(rt).holds(), c) ==> final(rt).mem.cells@[c] == old(rt).mem.cells@[c],
        final(rt).mem.arena.room() >= old(rt).mem.arena.room(),
        final(rt).mem.cells.room() >= old(rt).mem.cells.room(),
{
    let ghost before = *rt;
    let ghost tape = rt.tape;
    let ghost hs = saved_upto(tape@, tape@.len() as int);
    let nodes = rt.tape.reset();
    let saved = saved_of(nodes, Ghost(tape));
    let ghost mid = *rt;
    proof {
        let rest = before.gradients.held() + before.checkpoint_gradients.held();
        let none = Seq::<Tensor>::empty();
        assert(before.holds() =~= none + hs + rest);
        assert(mid.holds() =~= none + rest);
        lemma_taken(before, mid, none, hs, rest);
    }
    rt.release_all(saved, Ghost(before));
    proof {
        assert(dropped(mid, *rt, hs));
        if apart(before, hs) {
            assert(apart(mid, hs));
        }
        assert(dropped(before, *rt, hs));
    }
}

/// Drops all gradients.
pub fn zero_gradients<S>(rt: &mut Runtime<S>)
    requires
        old(rt).wf(),
    ensures
        final(rt).wf(),
        final(rt).gradients@ == Map::<GradKey, Tensor>::empty(),
        final(rt).gradients.held() == Seq::<Tensor>::empty(),
        final(rt).mode == old(rt).mode,
        final(rt).hooks == old(rt).hooks,
        final(rt).tape == old(rt).tape,
        final(rt).checkpoint_gradients == old(rt).checkpoint_gradients,
        final(rt).queue == old(rt).queue,
        kept(*old(rt), *final(rt), Seq::empty()),
        final(rt).mem.arena.room() >= old(rt).mem.arena.room(),
        final(rt).mem.cells.room() >= old(rt).mem.cells.room(),
        forall|c: usize| #[trigger]
            holds_cell(final(rt).holds(), c) ==> final(rt).mem.cells@[c] == old(rt).mem.cells@[c],
        forall|t: Tensor| #[trigger]
            final(rt).holds().contains(t) ==> t.valid(old(rt).mem) && t.valid(final(rt).mem) && (
            t.device is Cpu ==> t.block(final(rt).mem) == t.block(old(rt).mem)) && t.meta(
                final(rt).mem,
            ) == t.meta(old(rt).mem),
{
    let ghost before = *rt;
    let mut grads = Gradients::new();
    std::mem::swap(&mut grads, &mut rt.gradients);
    let ghost mid = *rt;
    let ghost ts = before.gradients.held();
    let handles = grads.into_handles();
    proof {
        let t0 = saved_upto(before.tape@, before.tape@.len() as int);
        let c = before.checkpoint_gradients.held();
        assert(before.holds() =~= t0 + ts + c);
        assert(mid.holds() =~= t0 + c);
        lemma_taken(before, mid, t0, ts, c);
    }
    rt.discard_all(handles, Ghost(before));
    proof {
        assert(rt.holds() == mid.holds());
        assert forall|t: Tensor| #[trigger] rt.holds().contains(t) implies t.valid(before.mem)
            && t.valid(rt.mem) && (t.device is Cpu ==> t.block(rt.mem) == t.block(before.mem))
            && t.meta(rt.mem) == t.meta(before.mem) by {
            let i = rt.holds().index_of(t);
            assert(mid.holds()[i] == t);
            assert(mid.holds()[i].valid(mid.mem));
            assert(rt.holds()[i].valid(rt.mem));
            assert(holds_cell(mid.holds(), mid.holds()[i].cell));
        }
        assert forall|c: usize| #[trigger] holds_cell(rt.holds(), c) implies rt.mem.cells@[c]
            == before.mem.cells@[c] by {
            let i = choose|i: int| 0 <= i < rt.holds().len() && (#[trigger] rt.holds()[i]).cell == c;
            assert(rt.holds().contains(rt.holds()[i]));
        }
    }
}

} // verus!
