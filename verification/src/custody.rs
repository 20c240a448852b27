//! Handles that the runtime gives up.
use vstd::prelude::*;
use crate::handle::same_state;
use crate::runtime::{holds_cell, lemma_held_kept, lemma_released, GradKey, Runtime};
use crate::tape::{count_key, lemma_count_at, lemma_valid_kept, lemma_valid_refs, same_blocks};
use crate::tensor::{Key, Tensor};

verus! {

/// Handles that are neither the runtime's nor the caller's yet: valid, counted, with cells of
/// their own.
pub open spec fn loose<S>(rt: Runtime<S>, ts: Seq<Tensor>) -> bool {
    &&& forall|i: int|
        0 <= i < ts.len() ==> (#[trigger] ts[i]).valid(rt.mem) && !holds_cell(
            rt.holds(),
            ts[i].cell,
        )
    &&& forall|i: int, j: int| 0 <= i < j < ts.len() ==> ts[i].cell != ts[j].cell
    &&& forall|k: Key| count_key(ts, k) <= #[trigger] rt.owners(k)
}

/// What the caller owned in `a` is still there in `b`, apart from the loose handles `ts`.
pub open spec fn kept<S>(a: Runtime<S>, b: Runtime<S>, ts: Seq<Tensor>) -> bool {
    &&& forall|k: Key| #[trigger] b.owners(k) == a.owners(k) + count_key(ts, k)
    &&& forall|u: Tensor|
        #![trigger u.owned(a)]
        u.owned(a) ==> {
            &&& u.valid(b.mem)
            &&& u.device is Cpu ==> u.block(b.mem) == u.block(a.mem)
            &&& u.meta(b.mem) == u.meta(a.mem)
            &&& !holds_cell(b.holds(), u.cell)
            &&& !holds_cell(ts, u.cell)
        }
}

/// The references that are counted are there.
pub proof fn lemma_owners<S>(rt: Runtime<S>, k: Key)
    requires
        rt.wf(),
    ensures
        0 <= rt.owners(k) <= rt.mem.refs(k),
{
    assert(count_key(rt.holds(), k) <= rt.mem.refs(k));
}

/// A handle that is loose can be given away.
pub proof fn lemma_loose_owned<S>(rt: Runtime<S>, ts: Seq<Tensor>, i: int)
    requires
        loose(rt, ts),
        0 <= i < ts.len(),
    ensures
        ts[i].owned(rt),
{
    lemma_count_at(ts, i);
    assert(rt.owners(ts[i].key()) >= count_key(ts, ts[i].key()));
}

/// After one loose handle was given back the others are still loose, and the caller's handles
/// are still there.
pub proof fn lemma_given_back<S>(a: Runtime<S>, b: Runtime<S>, c: Runtime<S>, ts: Seq<Tensor>)
    requires
        a.wf(),
        b.wf(),
        c.wf(),
        ts.len() > 0,
        loose(b, ts),
        kept(a, b, ts),
        same_blocks(b.mem, c.mem),
        forall|k: Key| #[trigger]
            c.owners(k) == b.owners(k) - (if k == ts.last().key() {
                1int
            } else {
                0int
            }),
        forall|x: usize| #[trigger] holds_cell(c.holds(), x) ==> holds_cell(b.holds(), x),
        forall|x: usize| #[trigger]
            b.mem.cells@.contains_key(x) && x != ts.last().cell && !holds_cell(b.holds(), x)
                ==> c.mem.cells@.contains_key(x) && c.mem.cells@[x] == b.mem.cells@[x],
    ensures
        loose(c, ts.drop_last()),
        kept(a, c, ts.drop_last()),
{
    let rest = ts.drop_last();
    assert forall|k: Key| #[trigger] c.owners(k) == a.owners(k) + count_key(rest, k) by {
        assert(b.owners(k) == a.owners(k) + count_key(ts, k));
    }
    assert forall|k: Key| count_key(rest, k) <= #[trigger] c.owners(k) by {
        assert(count_key(ts, k) <= b.owners(k));
    }
    assert forall|i: int| 0 <= i < rest.len() implies (#[trigger] rest[i]).valid(c.mem)
        && !holds_cell(c.holds(), rest[i].cell) by {
        assert(ts[i].valid(b.mem) && !holds_cell(b.holds(), ts[i].cell));
        assert(ts[i].cell != ts[ts.len() - 1].cell);
        assert(b.mem.cells@.contains_key(ts[i].cell));
        lemma_count_at(rest, i);
        lemma_owners(c, rest[i].key());
        assert(count_key(rest, rest[i].key()) <= c.owners(rest[i].key()));
        lemma_valid_kept(b.mem, c.mem, rest[i]);
    }
    assert forall|i: int, j: int| 0 <= i < j < rest.len() implies rest[i].cell != rest[j].cell by {
        assert(ts[i].cell != ts[j].cell);
    }
    assert forall|u: Tensor| #[trigger] u.owned(a) implies {
        &&& u.valid(c.mem)
        &&& u.device is Cpu ==> u.block(c.mem) == u.block(a.mem)
        &&& u.meta(c.mem) == u.meta(a.mem)
        &&& !holds_cell(c.holds(), u.cell)
        &&& !holds_cell(rest, u.cell)
    } by {
        assert(u.cell != ts.last().cell) by {
            if u.cell == ts.last().cell {
                assert(ts[ts.len() - 1].cell == u.cell);
            }
        }
        assert(b.mem.cells@.contains_key(u.cell));
        lemma_owners(c, u.key());
        assert(c.owners(u.key()) == a.owners(u.key()) + count_key(rest, u.key()));
        lemma_valid_kept(b.mem, c.mem, u);
        if holds_cell(rest, u.cell) {
            let i = choose|i: int| 0 <= i < rest.len() && (#[trigger] rest[i]).cell == u.cell;
            assert(ts[i].cell == u.cell);
        }
    }
}

/// The step from `a` to `b` that gives a handle back without looking for a gradient.
pub open spec fn discarded<S>(a: Runtime<S>, b: Runtime<S>, t: Tensor) -> bool {
    &&& same_state(a, b)
    &&& b.holds() == a.holds()
    &&& b.queue == a.queue
    &&& same_blocks(a.mem, b.mem)
    &&& b.mem.cells@ == a.mem.cells@.remove(t.cell)
    &&& b.mem.arena.room() >= a.mem.arena.room()
    &&& b.mem.arena.shard() == a.mem.arena.shard()
    &&& b.mem.cells.room() == a.mem.cells.room() + 1
    &&& forall|k: Key| #[trigger]
        b.mem.refs(k) == a.mem.refs(k) - (if k == t.key() {
            1int
        } else {
            0int
        })
}

impl<S> Runtime<S> {
    /// Gives a handle back without looking for a gradient.
    pub(crate) fn discard(&mut self, t: Tensor)
        requires
            old(self).wf(),
            t.owned(*old(self)),
        ensures
            final(self).wf(),
            discarded(*old(self), *final(self), t),
    {
        let ghost before = *self;
        let ghost hs = self.holds();
        let ghost key = t.key();
        let _freed = self.mem.give_back(t);
        proof {
            lemma_released(before.mem, self.mem, key);
            assert forall|k: Key| count_key(hs, k) <= #[trigger] self.mem.refs(k) by {
                assert(count_key(hs, k) <= before.mem.refs(k));
                assert(before.owners(key) > 0);
            }
            assert forall|i: int| 0 <= i < hs.len() implies self.mem.cells@.contains_key(
                (#[trigger] hs[i]).cell,
            ) by {
                assert(hs[i].valid(before.mem));
            }
            lemma_held_kept(before.mem, self.mem, hs);
            assert(self.holds() == hs);
        }
    }

    /// Gives loose handles back without looking for gradients.
    pub(crate) fn discard_all(&mut self, ts: Vec<Tensor>, Ghost(start): Ghost<Runtime<S>>)
        requires
            start.wf(),
            old(self).wf(),
            loose(*old(self), ts@),
            kept(start, *old(self), ts@),
        ensures
            final(self).wf(),
            same_state(*old(self), *final(self)),
            final(self).holds() == old(self).holds(),
            final(self).queue == old(self).queue,
            kept(start, *final(self), Seq::empty()),
            final(self).mem.arena.room() >= old(self).mem.arena.room(),
            final(self).mem.cells.room() == old(self).mem.cells.room() + ts@.len(),
            same_blocks(old(self).mem, final(self).mem),
            forall|c: usize| #[trigger]
                holds_cell(old(self).holds(), c) ==> final(self).mem.cells@[c]
                    == old(self).mem.cells@[c],
    {
        let mut ts = ts;
        let ghost n = ts@.len();
        while ts.len() > 0
            invariant
                start.wf(),
                self.wf(),
                ts@.len() <= n,
                loose(*self, ts@),
                kept(start, *self, ts@),
                same_state(*old(self), *self),
                self.holds() == old(self).holds(),
                self.queue == old(self).queue,
                self.mem.arena.room() >= old(self).mem.arena.room(),
                self.mem.cells.room() == old(self).mem.cells.room() + n - ts@.len(),
                same_blocks(old(self).mem, self.mem),
                forall|c: usize| #[trigger]
                    holds_cell(old(self).holds(), c) ==> self.mem.cells@[c]
                        == old(self).mem.cells@[c],
            decreases ts@.len(),
        {
            let ghost before = *self;
            let ghost all = ts@;
            match ts.pop() {
                Some(t) => {
                    proof {
                        lemma_loose_owned(*self, all, all.len() - 1);
                    }
                    self.discard(t);
                    proof {
                        assert(ts@ == all.drop_last());
                        assert forall|k: Key| #[trigger]
                            self.owners(k) == before.owners(k) - (if k == all.last().key() {
                                1int
                            } else {
                                0int
                            }) by {
                            assert(self.mem.refs(k) == before.mem.refs(k) - (if k
                                == all.last().key() {
                                1int
                            } else {
                                0int
                            }));
                        }
                        lemma_given_back(start, before, *self, all);
                    }
                },
                None => {},
            }
        }
        assert(ts@ =~= Seq::<Tensor>::empty());
    }
}


/// The key of a tensor's gradient.
pub open spec fn grad_key(t: Tensor) -> GradKey {
    (t.storage_id, t.device)
}

/// No gradient shares a block with one of the handles.
pub open spec fn apart<S>(rt: Runtime<S>, ts: Seq<Tensor>) -> bool {
    forall|key: GradKey, i: int|
        #![trigger rt.gradients@[key], ts[i]]
        rt.gradients@.contains_key(key) && 0 <= i < ts.len() ==> rt.gradients@[key].key()
            != ts[i].key()
}

/// Which gradients are left in `b` of those in `a` after handles were given back: a gradient is
/// dropped with the last handle to its tensor, once the drop hook is registered.
pub open spec fn dropped<S>(a: Runtime<S>, b: Runtime<S>, ts: Seq<Tensor>) -> bool {
    &&& forall|key: GradKey| #[trigger]
        b.gradients@.contains_key(key) ==> a.gradients@.contains_key(key) && b.gradients@[key]
            == a.gradients@[key]
    &&& !a.hooks.drop ==> b.gradients@ == a.gradients@
    &&& apart(a, ts) ==> forall|i: int|
        #![trigger ts[i]]
        0 <= i < ts.len() && ts[i].device is Cpu ==> (b.gradients@.contains_key(grad_key(ts[i]))
            <==> a.gradients@.contains_key(grad_key(ts[i])) && !(a.hooks.drop && b.mem.refs(
            ts[i].key(),
        ) == 0))
    &&& forall|key: GradKey|
        a.gradients@.contains_key(key) && !(#[trigger] b.gradients@.contains_key(key))
            ==> a.hooks.drop && exists|i: int|
            0 <= i < ts.len() && #[trigger] grad_key(ts[i]) == key && b.mem.refs(ts[i].key()) == 0
}

proof fn lemma_dropped_step<S>(a: Runtime<S>, b: Runtime<S>, c: Runtime<S>, ts: Seq<Tensor>, n: int)
    requires
        b.wf(),
        0 < n <= ts.len(),
        ts[n - 1].owned(b),
        dropped(a, b, ts),
        b.hooks == a.hooks,
        ({
            let t = ts[n - 1];
            let last = b.mem.refs(t.key()) == 1;
            let key = grad_key(t);
            let drops = last && b.hooks.drop && b.gradients@.contains_key(key);
            let g = b.gradients@[key];
            &&& c.gradients@ == (if drops {
                b.gradients@.remove(key)
            } else {
                b.gradients@
            })
            &&& forall|k: Key| #[trigger]
                c.mem.refs(k) == b.mem.refs(k) - (if k == t.key() {
                    1int
                } else {
                    0int
                }) - (if drops && k == g.key() {
                    1int
                } else {
                    0int
                })
        }),
    ensures
        dropped(a, c, ts),
{
    let t = ts[n - 1];
    let key = grad_key(t);
    lemma_valid_refs(b.mem, t);
    assert forall|k: GradKey| #[trigger] c.gradients@.contains_key(k) implies
        a.gradients@.contains_key(k) && c.gradients@[k] == a.gradients@[k] by {
        assert(b.gradients@.contains_key(k));
    }
    if apart(a, ts) {
        assert forall|i: int|
            #![trigger ts[i]]
            0 <= i < ts.len() && ts[i].device is Cpu implies (c.gradients@.contains_key(
                grad_key(ts[i]),
            ) <==> a.gradients@.contains_key(grad_key(ts[i])) && !(a.hooks.drop && c.mem.refs(
                ts[i].key(),
            ) == 0)) by {
            let u = ts[i];
            assert(b.gradients@.contains_key(grad_key(u)) <==> a.gradients@.contains_key(
                grad_key(u),
            ) && !(a.hooks.drop && b.mem.refs(u.key()) == 0));
            if b.gradients@.contains_key(key) {
                assert(a.gradients@.contains_key(key));
                assert(a.gradients@[key].key() != u.key());
            }
            assert(c.mem.refs(u.key()) == b.mem.refs(u.key()) - (if u.key() == t.key() {
                1int
            } else {
                0int
            }));
        }
    }
    assert forall|k: GradKey|
        a.gradients@.contains_key(k) && !(#[trigger] c.gradients@.contains_key(k)) implies
        a.hooks.drop && exists|i: int|
            0 <= i < ts.len() && #[trigger] grad_key(ts[i]) == k && c.mem.refs(ts[i].key()) == 0 by {
        assert(c.mem.refs(t.key()) <= b.mem.refs(t.key()));
        if b.gradients@.contains_key(k) {
            assert(grad_key(ts[n - 1]) == k);
            assert(c.mem.refs(ts[n - 1].key()) == 0);
        } else {
            let i = choose|i: int|
                0 <= i < ts.len() && #[trigger] grad_key(ts[i]) == k && b.mem.refs(ts[i].key())
                    == 0;
            assert(c.mem.refs(ts[i].key()) <= b.mem.refs(ts[i].key()));
        }
    }
}

impl<S> Runtime<S> {
    /// Gives loose handles back; gradients go with the last handle to their tensor.
    pub(crate) fn release_all(&mut self, ts: Vec<Tensor>, Ghost(start): Ghost<Runtime<S>>)
        requires
            start.wf(),
            old(self).wf(),
            loose(*old(self), ts@),
            kept(start, *old(self), ts@),
        ensures
            final(self).wf(),
            final(self).mode == old(self).mode,
            final(self).hooks == old(self).hooks,
            final(self).tape == old(self).tape,
            final(self).checkpoint_gradients == old(self).checkpoint_gradients,
            final(self).queue == old(self).queue,
            same_blocks(old(self).mem, final(self).mem),
            kept(start, *final(self), Seq::empty()),
            dropped(*old(self), *final(self), ts@),
            forall|k: Key| #[trigger] final(self).mem.refs(k) <= old(self).mem.refs(k),
            forall|c: usize| #[trigger]
                holds_cell(final(self).holds(), c) ==> final(self).mem.cells@[c]
                    == old(self).mem.cells@[c],
            final(self).mem.arena.room() >= old(self).mem.arena.room(),
            final(self).mem.cells.room() >= old(self).mem.cells.room() + ts@.len(),
    {
        let mut ts = ts;
        let ghost whole = ts@;
        let ghost first = *self;
        proof {
            assert forall|i: int| 0 <= i < whole.len() implies first.mem.refs(
                (#[trigger] whole[i]).key(),
            ) > 0 by {
                assert(whole[i].valid(first.mem));
                lemma_valid_refs(first.mem, whole[i]);
            }
            assert(dropped(first, first, whole));
        }
        while ts.len() > 0
            invariant
                start.wf(),
                self.wf(),
                first == *old(self),
                ts@.len() <= whole.len(),
                ts@ == whole.take(ts@.len() as int),
                loose(*self, ts@),
                kept(start, *self, ts@),
                dropped(first, *self, whole),
                self.mode == first.mode,
                self.hooks == first.hooks,
                self.tape == first.tape,
                self.checkpoint_gradients == first.checkpoint_gradients,
                self.queue == first.queue,
                same_blocks(first.mem, self.mem),
                forall|k: Key| #[trigger] self.mem.refs(k) <= first.mem.refs(k),
                forall|c: usize| #[trigger]
                    holds_cell(self.holds(), c) ==> self.mem.cells@[c] == first.mem.cells@[c],
                self.mem.arena.room() >= first.mem.arena.room(),
                self.mem.cells.room() >= first.mem.cells.room() + whole.len() - ts@.len(),
            decreases ts@.len(),
        {
            let ghost before = *self;
            let ghost all = ts@;
            match ts.pop() {
                Some(t) => {
                    proof {
                        lemma_loose_owned(*self, all, all.len() - 1);
                    }
                    self.release(t);
                    proof {
                        assert(ts@ == all.drop_last());
                        assert(all[all.len() - 1] == whole[all.len() - 1]);
                        assert forall|x: usize| #[trigger]
                            before.mem.cells@.contains_key(x) && x != all.last().cell
                                && !holds_cell(before.holds(), x)
                                implies self.mem.cells@.contains_key(x) && self.mem.cells@[x]
                            == before.mem.cells@[x] by {
                            let key = grad_key(t);
                            if before.gradients@.contains_key(key) {
                                before.gradients.lemma_held(key);
                                let g = before.gradients@[key];
                                let i = before.gradients.held().index_of(g);
                                let m = crate::runtime::saved_upto(
                                    before.tape@,
                                    before.tape@.len() as int,
                                ).len();
                                assert(before.holds()[m + i] == g);
                                assert(holds_cell(before.holds(), g.cell));
                            }
                        }
                        assert forall|k: Key| #[trigger]
                            self.mem.refs(k) <= first.mem.refs(k) by {
                            assert(self.mem.refs(k) <= before.mem.refs(k));
                        }
                        assert forall|c: usize| #[trigger] holds_cell(self.holds(), c) implies
                            self.mem.cells@[c] == first.mem.cells@[c] by {
                            assert(holds_cell(before.holds(), c));
                            let i = choose|i: int|
                                0 <= i < self.holds().len() && (#[trigger] self.holds()[i]).cell
                                    == c;
                            assert(self.holds()[i].valid(self.mem));
                            assert(self.mem.cells@.contains_key(c));
                        }
                        lemma_given_back(start, before, *self, all);
                        lemma_dropped_step(first, before, *self, whole, all.len() as int);
                        assert(ts@ =~= whole.take(ts@.len() as int));
                    }
                },
                None => {},
            }
        }
        assert(ts@ =~= Seq::<Tensor>::empty());
    }
}

} // verus!
