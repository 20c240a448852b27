//! The gradients that a backward pass leaves behind.
use vstd::prelude::*;
use crate::autograd::grads::{
    all_stored, grad_values, lemma_apart, lemma_in_holds, lemma_kept_trans, rest_untouched, stored,
    tape_handles, untouched,
};
use crate::autograd::store::{lemma_taken, next_generation, reset_active_tape, zero_gradients};
use crate::autograd::sweep::{Grads, Sweep};
use crate::cpu::elementwise::{elementwise_op, zip_ok, zip_value, BinaryOp};
use crate::custody::{
    dropped, grad_key, kept, lemma_given_back, lemma_loose_owned, lemma_owners, loose,
};
use crate::dense::{Dense, Value};
use crate::handle::has_room;
use crate::runtime::{holds_cell, saved_upto, GradKey, Gradients, Runtime};
use crate::scalar::Scalar;
use crate::tape::{count_key, lemma_valid_refs, live_index, NodeView};
use crate::tensor::{Key, Tensor};

verus! {

/// A handle on the tape whose token names a leaf of this tape.
pub open spec fn is_leaf<S>(rt: Runtime<S>, t: Tensor) -> bool {
    match live_index(t.meta(rt.mem).node_id, rt.tape.generation) {
        Some(i) => rt.tape@[i as int].inputs.len() == 0,
        None => false,
    }
}

/// The gradient that handle `i` of node `n` takes, if any.
pub open spec fn leaf_grad<S>(rt: Runtime<S>, grads: Grads<S>, n: int, i: int) -> Option<Value<S>> {
    let node = rt.tape@[n];
    if is_leaf(rt, node.saved[i]) {
        match node.inputs[i] {
            Some(id) => if grads.contains_key(id as int) {
                Some(grads[id as int])
            } else {
                None
            },
            None => None,
        }
    } else {
        None
    }
}

/// The gradients of leaves, looked up for the first `k` handles of node `n` on top of `m`.
pub open spec fn node_leaves<S>(
    rt: Runtime<S>,
    grads: Grads<S>,
    m: Map<GradKey, Value<S>>,
    n: int,
    k: int,
) -> Map<GradKey, Value<S>>
    decreases k,
{
    if k <= 0 {
        m
    } else {
        let p = node_leaves(rt, grads, m, n, k - 1);
        match leaf_grad(rt, grads, n, k - 1) {
            Some(g) => p.insert(grad_key(rt.tape@[n].saved[k - 1]), g),
            None => p,
        }
    }
}

/// The gradients of the leaves among the inputs of the first `n` nodes.
pub open spec fn leaves<S>(rt: Runtime<S>, grads: Grads<S>, n: int) -> Map<GradKey, Value<S>>
    decreases n,
{
    if n <= 0 {
        Map::empty()
    } else {
        node_leaves(
            rt,
            grads,
            leaves(rt, grads, n - 1),
            n - 1,
            rt.tape@[n - 1].saved.len() as int,
        )
    }
}

/// Tokens of handles on the tape name nodes of the tape, and so do their inputs.
pub open spec fn tokens_ok<S>(rt: Runtime<S>) -> bool {
    let n = rt.tape@.len();
    &&& forall|t: Tensor| #[trigger]
        tape_handles(rt).contains(t) ==> (live_index(
            t.meta(rt.mem).node_id,
            rt.tape.generation,
        ) matches Some(i) ==> i < n)
    &&& forall|i: int|
        0 <= i < n ==> crate::autograd::sweep::named((#[trigger] rt.tape@[i]).inputs, n)
}

/// Both maps; where a tensor has two gradients they are added.
pub open spec fn merge<S: Scalar>(
    m: Map<GradKey, Value<S>>,
    c: Map<GradKey, Value<S>>,
) -> Map<GradKey, Value<S>> {
    Map::new(
        |k: GradKey| m.contains_key(k) || c.contains_key(k),
        |k: GradKey|
            if m.contains_key(k) && c.contains_key(k) {
                zip_value(m[k], c[k], BinaryOp::Add)
            } else if m.contains_key(k) {
                m[k]
            } else {
                c[k]
            },
    )
}

/// The gradients of checkpointed blocks.
pub open spec fn block_values<S>(rt: Runtime<S>) -> Map<GradKey, Value<S>> {
    rt.checkpoint_gradients@.map_values(|t: Tensor| t.value(rt.mem))
}

/// Gradients of checkpointed blocks can be read, and added to those of the pass.
pub open spec fn blocks_ok<S: Scalar>(rt: Runtime<S>, m: Map<GradKey, Value<S>>) -> bool {
    forall|k: GradKey| #[trigger]
        rt.checkpoint_gradients@.contains_key(k) ==> {
            &&& rt.checkpoint_gradients@[k].is_f32(rt.mem)
            &&& m.contains_key(k) ==> zip_ok(m[k], block_values(rt)[k])
        }
}

/// Handles on node `n` are handles on the tape.
pub proof fn lemma_on_tape<S>(rt: Runtime<S>, n: int, i: int)
    requires
        0 <= n < rt.tape@.len(),
        0 <= i < rt.tape@[n].saved.len(),
    ensures
        tape_handles(rt).contains(rt.tape@[n].saved[i]),
{
    lemma_upto_contains(rt.tape@, rt.tape@.len() as int, n, i);
}

proof fn lemma_upto_contains(nodes: Seq<NodeView>, m: int, n: int, i: int)
    requires
        0 <= n < m <= nodes.len(),
        0 <= i < nodes[n].saved.len(),
    ensures
        saved_upto(nodes, m).contains(nodes[n].saved[i]),
    decreases m,
{
    let prev = saved_upto(nodes, m - 1);
    let own = nodes[m - 1].saved;
    if n == m - 1 {
        assert(saved_upto(nodes, m)[prev.len() + i] == own[i]);
    } else {
        lemma_upto_contains(nodes, m - 1, n, i);
        let j = prev.index_of(nodes[n].saved[i]);
        assert(saved_upto(nodes, m)[j] == prev[j]);
    }
}

/// The handles on the first `n` nodes are no more than those on the tape.
proof fn lemma_upto_len(nodes: Seq<NodeView>, n: int, m: int)
    requires
        0 <= n <= m <= nodes.len(),
    ensures
        saved_upto(nodes, n).len() <= saved_upto(nodes, m).len(),
    decreases m,
{
    if n < m {
        lemma_upto_len(nodes, n, m - 1);
    }
}

/// Steps that leave the tape's handles alone can follow each other.
pub proof fn lemma_rest_trans<S>(a: Runtime<S>, b: Runtime<S>, c: Runtime<S>)
    requires
        rest_untouched(a, b),
        rest_untouched(b, c),
    ensures
        rest_untouched(a, c),
{
    assert forall|t: Tensor| #[trigger] tape_handles(a).contains(t) implies untouched(a, c, t) by {
        assert(untouched(a, b, t));
        assert(tape_handles(b).contains(t));
    }
    assert forall|t: Tensor| #[trigger]
        a.checkpoint_gradients.held().contains(t) implies untouched(a, c, t) by {
        assert(untouched(a, b, t));
        assert(b.checkpoint_gradients.held().contains(t));
    }
}

impl<S: Scalar> Runtime<S> {
    /// Stores the gradients of the leaves among the handles of one node.
    fn collect_node(&mut self, sweep: &Sweep<S>, n: usize, Ghost(first): Ghost<Runtime<S>>)
        requires
            first.wf(),
            tokens_ok(first),
            old(self).wf(),
            all_stored(*old(self)),
            kept(first, *old(self), Seq::empty()),
            rest_untouched(first, *old(self)),
            sweep.wf(),
            sweep.nodes() == first.tape@.len(),
            n < first.tape@.len(),
            has_room(
                *old(self),
                first.tape@[n as int].saved.len() as int,
                first.tape@[n as int].saved.len() as int,
            ),
        ensures
            final(self).wf(),
            all_stored(*final(self)),
            kept(first, *final(self), Seq::empty()),
            rest_untouched(first, *final(self)),
            grad_values(*final(self)) == node_leaves(
                first,
                sweep@.grads,
                grad_values(*old(self)),
                n as int,
                first.tape@[n as int].saved.len() as int,
            ),
            has_room(
                *final(self),
                old(self).mem.arena.room() - first.tape@[n as int].saved.len(),
                old(self).mem.cells.room() - first.tape@[n as int].saved.len(),
            ),
    {
        let ghost start = *self;
        let ghost node = first.tape@[n as int];
        let ghost count = node.saved.len();
        let mut i: usize = 0;
        assert(self.tape.nodes@[n as int]@ == node);
        while i < self.tape.nodes[n].saved_tensors.len()
            invariant
                first.wf(),
                tokens_ok(first),
                self.wf(),
                all_stored(*self),
                kept(first, *self, Seq::empty()),
                rest_untouched(first, *self),
                sweep.wf(),
                sweep.nodes() == first.tape@.len(),
                n < first.tape@.len(),
                node == first.tape@[n as int],
                self.tape.nodes@[n as int]@ == node,
                count == node.saved.len(),
                i <= count,
                has_room(
                    *self,
                    start.mem.arena.room() - i,
                    start.mem.cells.room() - i,
                ),
                has_room(start, count as int, count as int),
                grad_values(*self) == node_leaves(
                    first,
                    sweep@.grads,
                    grad_values(start),
                    n as int,
                    i as int,
                ),
            decreases count - i,
        {
            let ghost t = node.saved[i as int];
            proof {
                lemma_on_tape(first, n as int, i as int);
                assert(untouched(first, *self, t));
                assert(crate::autograd::sweep::named(node.inputs, first.tape@.len()));
                assert(first.tape.nodes@[n as int].inputs@.len() == count);
                assert(node.inputs[i as int] matches Some(id) ==> id < first.tape@.len());
            }
            let handle = &self.tape.nodes[n].saved_tensors[i];
            let key = (handle.storage_id, handle.device);
            let leaf = match self.tape.live(handle.node_id(self)) {
                Some(at) => {
                    assert(first.tape@[at as int] == self.tape.nodes@[at as int]@);
                    self.tape.nodes[at as usize].inputs.len() == 0
                },
                None => false,
            };
            assert(leaf == is_leaf(first, t));
            let found: Option<Dense<S>> = if leaf {
                match self.tape.nodes[n].inputs[i] {
                    Some(id) => match sweep.gradient(id) {
                        Some(d) => Some(d.duplicate()),
                        None => None,
                    },
                    None => None,
                }
            } else {
                None
            };
            let ghost before = *self;
            match found {
                Some(d) => {
                    assert(leaf_grad(first, sweep@.grads, n as int, i as int) == Some(d@));
                    self.set_gradient(key, d);
                    proof {
                        lemma_kept_trans(first, before, *self);
                        lemma_rest_trans(first, before, *self);
                    }
                },
                None => {
                    assert(leaf_grad(first, sweep@.grads, n as int, i as int) is None);
                },
            }
            i = i + 1;
        }
    }

    /// Stores the gradients of all leaves in place of those of the last pass.
    fn collect(&mut self, sweep: &Sweep<S>)
        requires
            old(self).wf(),
            tokens_ok(*old(self)),
            sweep.wf(),
            sweep.nodes() == old(self).tape@.len(),
            has_room(
                *old(self),
                tape_handles(*old(self)).len() as int,
                tape_handles(*old(self)).len() as int,
            ),
        ensures
            final(self).wf(),
            all_stored(*final(self)),
            kept(*old(self), *final(self), Seq::empty()),
            rest_untouched(*old(self), *final(self)),
            grad_values(*final(self)) == leaves(
                *old(self),
                sweep@.grads,
                old(self).tape@.len() as int,
            ),
            has_room(
                *final(self),
                old(self).mem.arena.room() - tape_handles(*old(self)).len(),
                old(self).mem.cells.room() - tape_handles(*old(self)).len(),
            ),
    {
        let ghost first = *self;
        zero_gradients(self);
        proof {
            first.lemma_members();
            self.lemma_members();
            assert(tape_handles(*self) == tape_handles(first));
            assert forall|t: Tensor| #[trigger] tape_handles(first).contains(t) implies untouched(
                first,
                *self,
                t,
            ) by {
                lemma_in_holds(*self, t);
            }
            assert forall|t: Tensor| #[trigger]
                first.checkpoint_gradients.held().contains(t) implies untouched(
                first,
                *self,
                t,
            ) by {
                lemma_in_holds(*self, t);
            }
            assert(grad_values(*self) =~= Map::<GradKey, Value<S>>::empty());
        }
        let n: usize = self.tape.nodes.len();
        let mut i: usize = 0;
        while i < n
            invariant
                i <= n == first.tape@.len(),
                first == *old(self),
                first.wf(),
                tokens_ok(first),
                self.wf(),
                all_stored(*self),
                kept(first, *self, Seq::empty()),
                rest_untouched(first, *self),
                sweep.wf(),
                sweep.nodes() == n,
                has_room(
                    first,
                    tape_handles(first).len() as int,
                    tape_handles(first).len() as int,
                ),
                has_room(
                    *self,
                    first.mem.arena.room() - saved_upto(first.tape@, i as int).len(),
                    first.mem.cells.room() - saved_upto(first.tape@, i as int).len(),
                ),
                grad_values(*self) == leaves(first, sweep@.grads, i as int),
            decreases n - i,
        {
            proof {
                lemma_upto_len(first.tape@, i + 1, n as int);
            }
            self.collect_node(sweep, i, Ghost(first));
            i = i + 1;
        }
    }
}

/// Loose handles stay loose while what the caller owns is kept.
proof fn lemma_loose_kept<S>(a: Runtime<S>, b: Runtime<S>, c: Runtime<S>, ts: Seq<Tensor>)
    requires
        loose(b, ts),
        kept(a, b, ts),
        kept(b, c, Seq::empty()),
    ensures
        loose(c, ts),
        kept(a, c, ts),
        forall|i: int| 0 <= i < ts.len() ==> untouched(b, c, #[trigger] ts[i]),
{
    let none = Seq::<Tensor>::empty();
    assert forall|k: Key| #[trigger] c.owners(k) == b.owners(k) by {
        assert(c.owners(k) == b.owners(k) + count_key(none, k));
    }
    assert forall|i: int| 0 <= i < ts.len() implies untouched(b, c, #[trigger] ts[i])
        && !holds_cell(c.holds(), ts[i].cell) by {
        lemma_loose_owned(b, ts, i);
    }
    assert forall|k: Key| count_key(ts, k) <= #[trigger] c.owners(k) by {
        assert(count_key(ts, k) <= b.owners(k));
    }
    assert forall|k: Key| #[trigger] c.owners(k) == a.owners(k) + count_key(ts, k) by {
        assert(b.owners(k) == a.owners(k) + count_key(ts, k));
    }
    assert forall|u: Tensor| #[trigger] u.owned(a) implies {
        &&& u.valid(c.mem)
        &&& u.device is Cpu ==> u.block(c.mem) == u.block(a.mem)
        &&& u.meta(c.mem) == u.meta(a.mem)
        &&& !holds_cell(c.holds(), u.cell)
        &&& !holds_cell(ts, u.cell)
    } by {
        assert(b.owners(u.key()) == a.owners(u.key()) + count_key(ts, u.key()));
        assert(u.owned(b));
    }
}


/// Giving a loose handle back leaves gradients and tape alone.
proof fn lemma_discarded<S: Scalar>(a: Runtime<S>, b: Runtime<S>, t: Tensor)
    requires
        a.wf(),
        b.wf(),
        t.owned(a),
        all_stored(a),
        crate::handle::same_state(a, b),
        b.queue == a.queue,
        b.holds() == a.holds(),
        crate::tape::same_blocks(a.mem, b.mem),
        b.mem.cells@ == a.mem.cells@.remove(t.cell),
        forall|k: Key| #[trigger]
            b.mem.refs(k) == a.mem.refs(k) - (if k == t.key() {
                1int
            } else {
                0int
            }),
    ensures
        all_stored(b),
        grad_values(b) == grad_values(a),
        rest_untouched(a, b),
{
    assert forall|u: Tensor| #[trigger] a.holds().contains(u) implies untouched(a, b, u) by {
        let i = a.holds().index_of(u);
        assert(a.holds()[i].valid(a.mem));
        assert(b.holds()[i].valid(b.mem));
        assert(holds_cell(a.holds(), u.cell));
    }
    assert forall|u: Tensor| #[trigger] tape_handles(a).contains(u) implies untouched(a, b, u) by {
        lemma_in_holds(a, u);
    }
    assert forall|u: Tensor| #[trigger]
        a.checkpoint_gradients.held().contains(u) implies untouched(a, b, u) by {
        lemma_in_holds(a, u);
    }
    assert forall|k: GradKey| #[trigger] b.gradients@.contains_key(k) implies stored(
        b,
        b.gradients@[k],
    ) && untouched(a, b, b.gradients@[k]) by {
        let g = a.gradients@[k];
        assert(a.gradients@.contains_key(k));
        a.gradients.lemma_held(k);
        lemma_in_holds(a, g);
        assert(stored(a, g));
        let i = a.holds().index_of(g);
        crate::tape::lemma_count_at(a.holds(), i);
        lemma_owners(a, g.key());
        assert(a.owners(t.key()) > 0);
        assert(g.key() != t.key());
        assert(b.mem.refs(g.key()) == a.mem.refs(g.key()));
    }
    assert(grad_values(b) =~= grad_values(a)) by {
        assert(grad_values(b).dom() =~= grad_values(a).dom());
        assert forall|k: GradKey| #[trigger] grad_values(b).contains_key(k) implies grad_values(
            b,
        )[k] == grad_values(a)[k] by {
            assert(b.gradients@.contains_key(k));
            assert(stored(b, b.gradients@[k]));
        }
    }
}

/// The gradients of blocks that have been merged, with those in `left` still to come.
spec fn merged_so_far<S>(
    c: Map<GradKey, Value<S>>,
    left: Map<GradKey, Tensor>,
) -> Map<GradKey, Value<S>> {
    Map::new(|k: GradKey| c.contains_key(k) && !left.contains_key(k), |k: GradKey| c[k])
}

proof fn lemma_merge_step<S: Scalar>(
    m: Map<GradKey, Value<S>>,
    c: Map<GradKey, Value<S>>,
    left: Map<GradKey, Tensor>,
    k: GradKey,
    v: Value<S>,
)
    requires
        c.contains_key(k),
        left.contains_key(k),
        v == (if m.contains_key(k) {
            zip_value(m[k], c[k], BinaryOp::Add)
        } else {
            c[k]
        }),
    ensures
        merge(m, merged_so_far(c, left)).insert(k, v) == merge(
            m,
            merged_so_far(c, left.remove(k)),
        ),
        merge(m, merged_so_far(c, left)).contains_key(k) <==> m.contains_key(k),
        m.contains_key(k) ==> merge(m, merged_so_far(c, left))[k] == m[k],
{
    let a = merge(m, merged_so_far(c, left)).insert(k, v);
    let b = merge(m, merged_so_far(c, left.remove(k)));
    assert forall|x: GradKey| (#[trigger] a.contains_key(x)) == b.contains_key(x) && (
    a.contains_key(x) ==> a[x] == b[x]) by {
        assert(left.remove(k).contains_key(x) == (left.contains_key(x) && x != k));
        assert(merged_so_far(c, left).contains_key(x) == (c.contains_key(x) && !left.contains_key(
            x,
        )));
    }
    assert(a.dom() =~= b.dom()) by {
        assert forall|x: GradKey| #[trigger] a.dom().contains(x) == b.dom().contains(x) by {
            assert(a.contains_key(x) == b.contains_key(x));
        }
    }
    assert(a =~= b);
}

impl<S: Scalar> Runtime<S> {
    /// Adds the gradients of checkpointed blocks to those of the pass.
    pub(crate) fn merge_blocks(&mut self)
        requires
            old(self).wf(),
            all_stored(*old(self)),
            blocks_ok(*old(self), grad_values(*old(self))),
            has_room(
                *old(self),
                old(self).checkpoint_gradients.held().len() as int,
                old(self).checkpoint_gradients.held().len() as int,
            ),
        ensures
            final(self).wf(),
            all_stored(*final(self)),
            kept(*old(self), *final(self), Seq::empty()),
            final(self).mode == old(self).mode,
            final(self).hooks == old(self).hooks,
            final(self).tape == old(self).tape,
            final(self).queue == old(self).queue,
            final(self).checkpoint_gradients@ == Map::<GradKey, Tensor>::empty(),
            final(self).checkpoint_gradients.held() == Seq::<Tensor>::empty(),
            grad_values(*final(self)) == merge(
                grad_values(*old(self)),
                block_values(*old(self)),
            ),
    {
        let ghost first = *self;
        let ghost m0 = grad_values(first);
        let ghost c0 = block_values(first);
        let ghost tens = first.checkpoint_gradients@;
        let ghost len0 = first.checkpoint_gradients.held().len();
        let mut blocks = Gradients::new();
        std::mem::swap(&mut blocks, &mut self.checkpoint_gradients);
        let ghost mid = *self;
        proof {
            let p = tape_handles(first) + first.gradients.held();
            let none = Seq::<Tensor>::empty();
            assert(first.holds() =~= p + blocks.held() + none);
            assert(mid.holds() =~= p + none);
            lemma_taken(first, mid, p, blocks.held(), none);
            assert(grad_values(mid) =~= m0);
            assert(all_stored(mid)) by {
                assert forall|k: GradKey| #[trigger] mid.gradients@.contains_key(k) implies stored(
                    mid,
                    mid.gradients@[k],
                ) by {
                    assert(first.gradients@.contains_key(k));
                }
            }
            assert(merge(m0, merged_so_far(c0, tens)) =~= m0);
            assert forall|t: Tensor| #[trigger] tape_handles(mid).contains(t) implies untouched(
                mid,
                mid,
                t,
            ) by {
                lemma_in_holds(mid, t);
            }
            assert forall|k: GradKey| #[trigger] tens.contains_key(k) implies untouched(
                first,
                mid,
                tens[k],
            ) by {
                assert(tens[k].is_f32(first.mem));
            }
        }
        let mut more = true;
        while more
            invariant
                first.wf(),
                first == *old(self),
                m0 == grad_values(first),
                c0 == block_values(first),
                tens == first.checkpoint_gradients@,
                blocks_ok(first, m0),
                self.wf(),
                blocks.wf(),
                loose(*self, blocks.held()),
                kept(first, *self, blocks.held()),
                all_stored(*self),
                mid.mode == first.mode,
                mid.hooks == first.hooks,
                mid.tape == first.tape,
                mid.queue == first.queue,
                mid.checkpoint_gradients@ == Map::<GradKey, Tensor>::empty(),
                mid.checkpoint_gradients.held() == Seq::<Tensor>::empty(),
                rest_untouched(mid, *self),
                blocks.held().len() <= len0,
                has_room(first, len0 as int, len0 as int),
                has_room(
                    *self,
                    first.mem.arena.room() - (len0 - blocks.held().len()),
                    first.mem.cells.room() - (len0 - blocks.held().len()),
                ),
                forall|k: GradKey| #[trigger]
                    blocks@.contains_key(k) ==> tens.contains_key(k) && blocks@[k] == tens[k]
                        && untouched(first, *self, tens[k]),
                grad_values(*self) == merge(m0, merged_so_far(c0, blocks@)),
                !more ==> blocks.held().len() == 0 && blocks@ == Map::<GradKey, Tensor>::empty(),
            decreases blocks.held().len() + (if more {
                1int
            } else {
                0int
            }),
        {
            let ghost all = blocks.held();
            let ghost left = blocks@;
            let ghost before = *self;
            match blocks.pop() {
                Some(entry) => {
                    let (key, t) = entry;
                    proof {
                        assert(left.contains_key(key));
                        assert(tens.contains_key(key));
                        assert(tens[key].is_f32(first.mem));
                        assert(all.last() == t);
                        assert(t.is_f32(self.mem));
                    }
                    let v = t.read(self);
                    let ghost want = if m0.contains_key(key) {
                        zip_value(m0[key], c0[key], BinaryOp::Add)
                    } else {
                        c0[key]
                    };
                    proof {
                        assert(c0.contains_key(key));
                        assert(v@ == c0[key]);
                        lemma_merge_step(m0, c0, left, key, want);
                    }
                    let d = match self.gradients.get(key) {
                        Some(g) => {
                            proof {
                                assert(self.gradients@.contains_key(key));
                                assert(stored(*self, *g));
                                assert(grad_values(*self).contains_key(key));
                            }
                            let e = g.read(self);
                            assert(e@ == m0[key]);
                            elementwise_op(&e, &v, BinaryOp::Add)
                        },
                        None => {
                            assert(!grad_values(*self).contains_key(key));
                            v
                        },
                    };
                    assert(d@ == want);
                    self.set_gradient(key, d);
                    let ghost mid2 = *self;
                    proof {
                        lemma_rest_trans(mid, before, mid2);
                        lemma_loose_kept(first, before, mid2, all);
                        lemma_loose_owned(mid2, all, all.len() - 1);
                    }
                    self.discard(t);
                    proof {
                        assert forall|k: Key| #[trigger]
                            self.owners(k) == mid2.owners(k) - (if k == all.last().key() {
                                1int
                            } else {
                                0int
                            }) by {
                            assert(self.mem.refs(k) == mid2.mem.refs(k) - (if k == t.key() {
                                1int
                            } else {
                                0int
                            }));
                        }
                        lemma_given_back(first, mid2, *self, all);
                        lemma_discarded(mid2, *self, t);
                        lemma_rest_trans(mid, mid2, *self);
                        assert(all.drop_last() =~= blocks.held());
                        assert forall|k: GradKey| #[trigger] blocks@.contains_key(k) implies
                            tens.contains_key(k) && blocks@[k] == tens[k] && untouched(
                            first,
                            *self,
                            tens[k],
                        ) by {
                            assert(left.contains_key(k));
                            blocks.lemma_held(k);
                            let i = blocks.held().index_of(tens[k]);
                            assert(all[i] == tens[k]);
                            assert(untouched(before, mid2, all[i]));
                            assert(blocks.held()[i].valid(self.mem));
                            assert(all[i].cell != all[all.len() - 1].cell);
                        }
                    }
                },
                None => {
                    more = false;
                },
            }
        }
        proof {
            assert(blocks.held() =~= Seq::<Tensor>::empty());
            assert(merged_so_far(c0, blocks@) =~= c0);
        }
    }

    /// Ends a backward pass: stores the gradients of the leaves, adds those of checkpointed
    /// blocks, lets go of the tape and records operations again.
    pub fn finish_backward(&mut self, sweep: &Sweep<S>)
        requires
            old(self).wf(),
            finishable(*old(self), sweep@.grads),
            sweep.wf(),
            sweep.nodes() == old(self).tape@.len(),
        ensures
            final(self).wf(),
            finished(*old(self), *final(self), sweep@.grads),
    {
        let ghost first = *self;
        self.collect(sweep);
        let ghost second = *self;
        proof {
            assert(blocks_ok(second, grad_values(second))) by {
                assert forall|k: GradKey| #[trigger]
                    second.checkpoint_gradients@.contains_key(k) implies
                    second.checkpoint_gradients@[k].is_f32(second.mem) && (grad_values(
                    second,
                ).contains_key(k) ==> zip_ok(grad_values(second)[k], block_values(second)[k])) by {
                    assert(first.checkpoint_gradients@.contains_key(k));
                    first.checkpoint_gradients.lemma_held(k);
                    assert(untouched(first, second, first.checkpoint_gradients@[k]));
                }
            }
            assert(block_values(second) =~= block_values(first)) by {
                assert forall|k: GradKey| #[trigger]
                    block_values(first).contains_key(k) implies block_values(second)[k]
                    == block_values(first)[k] by {
                    assert(first.checkpoint_gradients@.contains_key(k));
                    first.checkpoint_gradients.lemma_held(k);
                    assert(untouched(first, second, first.checkpoint_gradients@[k]));
                    assert(first.checkpoint_gradients@[k].is_f32(first.mem));
                }
            }
        }
        self.merge_blocks();
        let ghost third = *self;
        proof {
            lemma_kept_trans(first, second, third);
            lemma_apart(third);
        }
        reset_active_tape(self);
        let ghost fourth = *self;
        self.mode.autograd_enabled = true;
        proof {
            lemma_kept_trans(first, third, fourth);
            lemma_kept_switch(first, fourth, *self);
            let ts = tape_handles(first);
            let m = all_gradients(first, sweep@.grads);
            assert(grad_values(third) == m);
            assert(tape_handles(third) == ts);
            assert(dropped(third, *self, ts));
            assert forall|k: GradKey| #[trigger] self.gradients@.contains_key(k) implies stored(
                *self,
                self.gradients@[k],
            ) && m.contains_key(k) && self.gradients@[k].value(self.mem) == m[k] by {
                let g = self.gradients@[k];
                assert(third.gradients@.contains_key(k));
                assert(stored(third, g));
                assert(grad_values(third).contains_key(k));
                self.gradients.lemma_held(k);
                lemma_in_holds(*self, g);
                lemma_valid_refs(self.mem, g);
                let i = self.holds().index_of(g);
                assert(holds_cell(self.holds(), self.holds()[i].cell));
                assert(self.mem.refs(g.key()) <= third.mem.refs(g.key()));
            }
            assert forall|k: GradKey|
                m.contains_key(k) && !(#[trigger] self.gradients@.contains_key(k)) implies
                first.hooks.drop && exists|i: int|
                    0 <= i < ts.len() && #[trigger] grad_key(ts[i]) == k && self.mem.refs(
                        ts[i].key(),
                    ) == 0 by {
                assert(grad_values(third).contains_key(k));
                assert(third.gradients@.contains_key(k));
            }
            assert forall|i: int|
                #![trigger ts[i]]
                0 <= i < ts.len() && m.contains_key(grad_key(ts[i])) && !(first.hooks.drop
                    && self.mem.refs(ts[i].key()) == 0) implies self.gradients@.contains_key(
                grad_key(ts[i]),
            ) by {
                if !self.gradients@.contains_key(grad_key(ts[i])) {
                    let j = choose|j: int|
                        0 <= j < ts.len() && #[trigger] grad_key(ts[j]) == grad_key(ts[i])
                            && self.mem.refs(ts[j].key()) == 0;
                    assert(ts[j].key() == ts[i].key());
                }
            }
            assert forall|i: int|
                #![trigger ts[i]]
                0 <= i < ts.len() && ts[i].device is Cpu implies (self.gradients@.contains_key(
                    grad_key(ts[i]),
                ) <==> m.contains_key(grad_key(ts[i])) && !(first.hooks.drop && self.mem.refs(
                    ts[i].key(),
                ) == 0)) by {
                assert(grad_values(third).contains_key(grad_key(ts[i]))
                    == third.gradients@.contains_key(grad_key(ts[i])));
            }
            assert forall|u: Tensor| #[trigger] u.owned(first) implies (
            self.gradients@.contains_key(grad_key(u)) <==> m.contains_key(grad_key(u))) by {
                lemma_valid_refs(self.mem, u);
                if m.contains_key(grad_key(u)) && !self.gradients@.contains_key(grad_key(u)) {
                    let i = choose|i: int|
                        0 <= i < ts.len() && #[trigger] grad_key(ts[i]) == grad_key(u)
                            && self.mem.refs(ts[i].key()) == 0;
                    assert(ts[i].key() == u.key());
                }
            }
        }
    }
}

/// Changing switches keeps everything that is owned.
pub proof fn lemma_kept_switch<S>(a: Runtime<S>, b: Runtime<S>, c: Runtime<S>)
    requires
        kept(a, b, Seq::empty()),
        c.mem == b.mem,
        c.tape == b.tape,
        c.gradients == b.gradients,
        c.checkpoint_gradients == b.checkpoint_gradients,
    ensures
        kept(a, c, Seq::empty()),
        c.holds() == b.holds(),
{
    assert(c.holds() == b.holds());
    assert forall|k: Key| #[trigger] c.owners(k) == a.owners(k) + count_key(Seq::empty(), k) by {
        assert(b.owners(k) == a.owners(k) + count_key(Seq::empty(), k));
    }
}

/// The gradients that a pass ends with, before tensors without handles lose theirs.
pub open spec fn all_gradients<S: Scalar>(
    rt: Runtime<S>,
    grads: Grads<S>,
) -> Map<GradKey, Value<S>> {
    merge(leaves(rt, grads, rt.tape@.len() as int), block_values(rt))
}

/// A pass that has come to the gradients `grads` can end.
pub open spec fn finishable<S: Scalar>(rt: Runtime<S>, grads: Grads<S>) -> bool {
    let n = (tape_handles(rt).len() + rt.checkpoint_gradients.held().len()) as int;
    &&& tokens_ok(rt)
    &&& blocks_ok(rt, leaves(rt, grads, rt.tape@.len() as int))
    &&& has_room(rt, n, n)
}

/// The step from `a` to `b` that ends a pass with the gradients `grads`.
///
/// The tape is empty, with all its references given back. What the caller owns is still the
/// caller's, and each of those tensors has the gradient that the pass came to. A tensor of
/// which the tape had the last handle loses its gradient, once the drop hook is registered.
pub open spec fn finished<S: Scalar>(a: Runtime<S>, b: Runtime<S>, grads: Grads<S>) -> bool {
    let m = all_gradients(a, grads);
    let ts = tape_handles(a);
    &&& kept(a, b, Seq::empty())
    &&& b.tape@ == Seq::<NodeView>::empty()
    &&& b.tape.generation == next_generation(a.tape.generation)
    &&& b.mode == (crate::runtime::Mode { autograd_enabled: true, ..a.mode })
    &&& b.hooks == a.hooks
    &&& b.queue == a.queue
    &&& b.checkpoint_gradients@ == Map::<GradKey, Tensor>::empty()
    &&& b.checkpoint_gradients.held() == Seq::<Tensor>::empty()
    &&& forall|k: GradKey| #[trigger]
        b.gradients@.contains_key(k) ==> {
            &&& m.contains_key(k)
            &&& stored(b, b.gradients@[k])
            &&& b.gradients@[k].value(b.mem) == m[k]
        }
    &&& forall|i: int|
        #![trigger ts[i]]
        0 <= i < ts.len() && ts[i].device is Cpu ==> (b.gradients@.contains_key(grad_key(ts[i]))
            <==> m.contains_key(grad_key(ts[i])) && !(a.hooks.drop && b.mem.refs(ts[i].key())
            == 0))
    &&& forall|i: int|
        #![trigger ts[i]]
        0 <= i < ts.len() && m.contains_key(grad_key(ts[i])) && !(a.hooks.drop && b.mem.refs(
            ts[i].key(),
        ) == 0) ==> b.gradients@.contains_key(grad_key(ts[i]))
    &&& forall|k: GradKey|
        m.contains_key(k) && !(#[trigger] b.gradients@.contains_key(k)) ==> a.hooks.drop && exists|
            i: int,
        |
            0 <= i < ts.len() && #[trigger] grad_key(ts[i]) == k && b.mem.refs(ts[i].key()) == 0
    &&& forall|u: Tensor| #[trigger]
        u.owned(a) ==> (b.gradients@.contains_key(grad_key(u)) <==> m.contains_key(grad_key(u)))
}

} // verus!
