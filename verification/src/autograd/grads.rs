//! Storing the gradient of one tensor.
use vstd::prelude::*;
use crate::autograd::store::lemma_taken;
use crate::cells::Meta;
use crate::custody::{apart, kept, lemma_owners};
use crate::dense::{Dense, Value};
use crate::dtype::DType;
use crate::handle::{added, has_room, no_meta, undisturbed};
use crate::index::lemma_bounded_fits;
use crate::perm::lemma_strided_row_major;
use crate::runtime::{holds_cell, saved_upto, GradKey, Runtime};
use crate::scalar::Scalar;
use crate::storage::CpuStorage;
use crate::tape::{
    count_key, lemma_count_add, lemma_count_at, lemma_count_push, lemma_valid_refs, same_blocks,
};
use crate::tensor::{Key, Tensor};

verus! {

/// Steps that keep what the caller owns can follow each other.
pub proof fn lemma_kept_trans<S>(a: Runtime<S>, b: Runtime<S>, c: Runtime<S>)
    requires
        kept(a, b, Seq::empty()),
        kept(b, c, Seq::empty()),
    ensures
        kept(a, c, Seq::empty()),
{
    let none = Seq::<Tensor>::empty();
    assert forall|k: Key| #[trigger] c.owners(k) == a.owners(k) + count_key(none, k) by {
        assert(b.owners(k) == a.owners(k) + count_key(none, k));
        assert(c.owners(k) == b.owners(k) + count_key(none, k));
    }
    assert forall|u: Tensor| #[trigger] u.owned(a) implies {
        &&& u.valid(c.mem)
        &&& u.device is Cpu ==> u.block(c.mem) == u.block(a.mem)
        &&& u.meta(c.mem) == u.meta(a.mem)
        &&& !holds_cell(c.holds(), u.cell)
        &&& !holds_cell(none, u.cell)
    } by {
        assert(b.owners(u.key()) == a.owners(u.key()) + count_key(none, u.key()));
        assert(u.owned(b));
    }
}

/// A handle with its contents and metadata was left alone.
pub open spec fn untouched<S>(a: Runtime<S>, b: Runtime<S>, t: Tensor) -> bool {
    &&& t.valid(a.mem)
    &&& t.valid(b.mem)
    &&& t.device is Cpu ==> t.block(b.mem) == t.block(a.mem)
    &&& t.meta(b.mem) == t.meta(a.mem)
}

/// The handles on the tape.
pub open spec fn tape_handles<S>(rt: Runtime<S>) -> Seq<Tensor> {
    saved_upto(rt.tape@, rt.tape@.len() as int)
}

/// Handles on the tape and gradients of checkpointed blocks were left alone.
pub open spec fn rest_untouched<S>(a: Runtime<S>, b: Runtime<S>) -> bool {
    &&& b.mode == a.mode
    &&& b.hooks == a.hooks
    &&& b.tape == a.tape
    &&& b.checkpoint_gradients == a.checkpoint_gradients
    &&& b.queue == a.queue
    &&& forall|t: Tensor| #[trigger] tape_handles(a).contains(t) ==> untouched(a, b, t)
    &&& forall|t: Tensor| #[trigger]
        a.checkpoint_gradients.held().contains(t) ==> untouched(a, b, t)
}

/// A gradient that is stored: a row-major CPU tensor of its own.
pub open spec fn stored<S>(rt: Runtime<S>, t: Tensor) -> bool {
    &&& t.is_f32(rt.mem)
    &&& t.contiguous_spec()
    &&& rt.mem.refs(t.key()) == 1
    &&& t.meta(rt.mem) == no_meta()
}

/// All gradients are stored as row-major CPU tensors of their own.
pub open spec fn all_stored<S>(rt: Runtime<S>) -> bool {
    forall|key: GradKey| #[trigger]
        rt.gradients@.contains_key(key) ==> stored(rt, rt.gradients@[key])
}

/// The values of the gradients.
pub open spec fn grad_values<S>(rt: Runtime<S>) -> Map<GradKey, Value<S>> {
    rt.gradients@.map_values(|t: Tensor| t.value(rt.mem))
}

/// Gradients with blocks of their own share none with the tape.
pub proof fn lemma_apart<S>(rt: Runtime<S>)
    requires
        rt.wf(),
        all_stored(rt),
    ensures
        apart(rt, tape_handles(rt)),
{
    let ts = tape_handles(rt);
    let c = rt.checkpoint_gradients.held();
    assert forall|key: GradKey, i: int|
        #![trigger rt.gradients@[key], ts[i]]
        rt.gradients@.contains_key(key) && 0 <= i < ts.len() implies rt.gradients@[key].key()
        != ts[i].key() by {
        let g = rt.gradients@[key];
        let k = g.key();
        rt.gradients.lemma_held(key);
        assert(stored(rt, g));
        if k == ts[i].key() {
            lemma_count_at(ts, i);
            lemma_count_at(rt.gradients.held(), rt.gradients.held().index_of(g));
            lemma_count_add(ts, rt.gradients.held(), k);
            lemma_count_add(ts + rt.gradients.held(), c, k);
            assert(count_key(rt.holds(), k) <= rt.mem.refs(k));
        }
    }
}

proof fn lemma_inserted<S>(a: Runtime<S>, b: Runtime<S>, c: Runtime<S>, key: GradKey, t: Tensor)
    requires
        a.wf(),
        b.wf(),
        b.holds() == a.holds(),
        added(a, b, t, b.mem.arena@[t.storage_id].block, no_meta()),
        t.owned(b),
        undisturbed(a, b),
        !a.gradients@.contains_key(key),
        c.mem == b.mem,
        c.tape == b.tape,
        c.checkpoint_gradients == b.checkpoint_gradients,
        c.gradients.wf(),
        c.gradients@ == a.gradients@.insert(key, t),
        c.gradients.held() == a.gradients.held().push(t),
    ensures
        c.wf(),
        kept(a, c, Seq::empty()),
        forall|u: Tensor| #[trigger] a.holds().contains(u) ==> untouched(a, c, u),
{
    let p = tape_handles(a) + a.gradients.held();
    let q = a.checkpoint_gradients.held();
    let ha = a.holds();
    let hc = c.holds();
    let np = p.len();
    assert(ha =~= p + q);
    assert(hc =~= (p.push(t)) + q);
    let none = Seq::<Tensor>::empty();
    assert forall|k: Key| #[trigger]
        c.owners(k) == a.owners(k) + count_key(none, k) && count_key(hc, k) <= c.mem.refs(k) by {
        lemma_count_add(p, q, k);
        lemma_count_add(p.push(t), q, k);
        lemma_count_push(p, t, k);
        assert(count_key(ha, k) <= a.mem.refs(k));
    }
    assert forall|k: Key| #[trigger] count_key(hc, k) <= c.mem.refs(k) by {
        assert(c.owners(k) == a.owners(k) + count_key(none, k));
        lemma_owners(a, k);
    }
    assert forall|i: int| 0 <= i < hc.len() implies (#[trigger] hc[i]).valid(c.mem) by {
        if i < np {
            assert(hc[i] == b.holds()[i]);
        } else if i > np {
            assert(hc[i] == b.holds()[i - 1]);
        }
    }
    assert forall|i: int, j: int| 0 <= i < j < hc.len() implies hc[i].cell != hc[j].cell by {
        let si = if i < np {
            i
        } else {
            i - 1
        };
        let sj = if j < np {
            j
        } else {
            j - 1
        };
        if i != np && j != np {
            assert(hc[i] == ha[si]);
            assert(hc[j] == ha[sj]);
            assert(ha[si].cell != ha[sj].cell);
        } else if i == np {
            assert(hc[j] == b.holds()[sj]);
            assert(!holds_cell(b.holds(), t.cell));
        } else {
            assert(hc[i] == b.holds()[si]);
            assert(!holds_cell(b.holds(), t.cell));
        }
    }
    assert forall|u: Tensor| #[trigger] u.owned(a) implies {
        &&& u.valid(c.mem)
        &&& u.device is Cpu ==> u.block(c.mem) == u.block(a.mem)
        &&& u.meta(c.mem) == u.meta(a.mem)
        &&& !holds_cell(c.holds(), u.cell)
        &&& !holds_cell(none, u.cell)
    } by {
        assert(u.owned(b));
        if holds_cell(hc, u.cell) {
            let i = choose|i: int| 0 <= i < hc.len() && (#[trigger] hc[i]).cell == u.cell;
            if i == np {
                assert(!a.mem.cells@.contains_key(t.cell));
            } else {
                let si = if i < np {
                    i
                } else {
                    i - 1
                };
                assert(hc[i] == ha[si]);
                assert(holds_cell(ha, u.cell));
            }
        }
    }
    assert forall|u: Tensor| #[trigger] a.holds().contains(u) implies untouched(a, c, u) by {
        let i = ha.index_of(u);
        assert(ha[i].valid(a.mem));
        assert(b.holds()[i].valid(b.mem));
    }
}

/// Letting go of one handle leaves the others alone.
proof fn lemma_rest<S>(a: Runtime<S>, b: Runtime<S>, hs: Seq<Tensor>, t: Tensor)
    requires
        a.wf(),
        b.wf(),
        same_blocks(a.mem, b.mem),
        b.mem.cells@ == a.mem.cells@.remove(t.cell),
        forall|i: int| 0 <= i < hs.len() ==> b.holds().contains(#[trigger] hs[i]),
        forall|i: int| 0 <= i < hs.len() ==> a.holds().contains(#[trigger] hs[i]),
    ensures
        forall|u: Tensor| #[trigger] hs.contains(u) ==> untouched(a, b, u),
{
    assert forall|u: Tensor| #[trigger] hs.contains(u) implies untouched(a, b, u) by {
        let i = hs.index_of(u);
        assert(b.holds().contains(hs[i]));
        assert(a.holds().contains(hs[i]));
        let j = b.holds().index_of(u);
        assert(b.holds()[j].valid(b.mem));
        let m = a.holds().index_of(u);
        assert(a.holds()[m].valid(a.mem));
    }
}

impl<S: Scalar> Runtime<S> {
    /// Drops the gradient of a tensor.
    pub(crate) fn clear_gradient(&mut self, key: GradKey)
        requires
            old(self).wf(),
            all_stored(*old(self)),
        ensures
            final(self).wf(),
            all_stored(*final(self)),
            final(self).gradients@ == old(self).gradients@.remove(key),
            kept(*old(self), *final(self), Seq::empty()),
            rest_untouched(*old(self), *final(self)),
            grad_values(*final(self)) == grad_values(*old(self)).remove(key),
            final(self).gradients.held().len() <= old(self).gradients.held().len(),
            forall|k: Key| #[trigger] final(self).mem.refs(k) <= old(self).mem.refs(k),
            final(self).mem.arena.room() >= old(self).mem.arena.room(),
            final(self).mem.cells.room() >= old(self).mem.cells.room(),
    {
        let ghost before = *self;
        let ghost t0 = tape_handles(before);
        let ghost c = before.checkpoint_gradients.held();
        let ghost gs = before.gradients.held();
        proof {
            assert forall|u: Tensor| t0.contains(u) || c.contains(u) implies untouched(
                before,
                before,
                u,
            ) by {
                lemma_in_holds(before, u);
            }
        }
        match self.gradients.remove(key) {
            Some(g) => {
                let ghost mid = *self;
                let ghost i = choose|i: int|
                    0 <= i < gs.len() && #[trigger] gs[i] == g && self.gradients.held()
                        == gs.remove(i);
                let ghost one = seq![g];
                proof {
                    let p = t0 + gs.take(i);
                    let q = gs.skip(i + 1) + c;
                    assert(before.holds() =~= p + one + q);
                    assert(mid.holds() =~= p + q);
                    lemma_taken(before, mid, p, one, q);
                    crate::custody::lemma_loose_owned(mid, one, 0);
                }
                self.discard(g);
                proof {
                    assert forall|k: Key| #[trigger]
                        self.owners(k) == mid.owners(k) - (if k == one.last().key() {
                            1int
                        } else {
                            0int
                        }) by {
                        assert(self.mem.refs(k) == mid.mem.refs(k) - (if k == g.key() {
                            1int
                        } else {
                            0int
                        }));
                    }
                    crate::custody::lemma_given_back(before, mid, *self, one);
                    assert(one.drop_last() =~= Seq::<Tensor>::empty());
                    self.lemma_members();
                    before.lemma_members();
                    assert(tape_handles(*self) == t0);
                    lemma_rest(before, *self, t0, g);
                    lemma_rest(before, *self, c, g);
                    assert forall|k2: GradKey| #[trigger]
                        self.gradients@.contains_key(k2) implies stored(*self, self.gradients@[k2])
                        && untouched(before, *self, self.gradients@[k2]) by {
                        let u = self.gradients@[k2];
                        assert(before.gradients@.contains_key(k2));
                        assert(stored(before, u));
                        self.gradients.lemma_held(k2);
                        before.gradients.lemma_held(k2);
                        lemma_in_holds(*self, u);
                        lemma_in_holds(before, u);
                        lemma_rest(before, *self, seq![u], g);
                        assert(seq![u].contains(u)) by {
                            assert(seq![u][0] == u);
                        }
                        lemma_valid_refs(self.mem, u);
                    }
                    assert(grad_values(*self) =~= grad_values(before).remove(key)) by {
                        assert forall|k2: GradKey| #[trigger]
                            grad_values(*self).contains_key(k2) implies grad_values(*self)[k2]
                            == grad_values(before).remove(key)[k2] by {
                            assert(self.gradients@.contains_key(k2));
                            assert(untouched(before, *self, self.gradients@[k2]));
                        }
                        assert(grad_values(*self).dom() =~= grad_values(before).remove(key).dom());
                    }
                }
            },
            None => {
                proof {
                    assert(self.gradients@ =~= before.gradients@);
                    assert(self.holds() =~= before.holds());
                    assert(grad_values(*self) =~= grad_values(before).remove(key));
                    assert(all_stored(*self)) by {
                        assert forall|k2: GradKey| #[trigger]
                            self.gradients@.contains_key(k2) implies stored(
                            *self,
                            self.gradients@[k2],
                        ) by {
                            assert(before.gradients@.contains_key(k2));
                        }
                    }
                }
            },
        }
    }

    /// What is on the tape and among the gradients is held.
    pub proof fn lemma_members(self)
        ensures
            forall|i: int|
                0 <= i < tape_handles(self).len() ==> self.holds().contains(
                    #[trigger] tape_handles(self)[i],
                ),
            forall|i: int|
                0 <= i < self.checkpoint_gradients.held().len() ==> self.holds().contains(
                    #[trigger] self.checkpoint_gradients.held()[i],
                ),
            forall|i: int|
                0 <= i < self.gradients.held().len() ==> self.holds().contains(
                    #[trigger] self.gradients.held()[i],
                ),
    {
        let t0 = tape_handles(self);
        let gs = self.gradients.held();
        let c = self.checkpoint_gradients.held();
        let hs = self.holds();
        assert forall|i: int| 0 <= i < t0.len() implies hs.contains(#[trigger] t0[i]) by {
            assert(hs[i] == t0[i]);
        }
        assert forall|i: int| 0 <= i < gs.len() implies hs.contains(#[trigger] gs[i]) by {
            assert(hs[t0.len() + i] == gs[i]);
        }
        assert forall|i: int| 0 <= i < c.len() implies hs.contains(#[trigger] c[i]) by {
            assert(hs[t0.len() + gs.len() + i] == c[i]);
        }
    }

    /// Stores the gradient of a tensor in place of the one that it had.
    pub(crate) fn set_gradient(&mut self, key: GradKey, grad: Dense<S>)
        requires
            old(self).wf(),
            all_stored(*old(self)),
            grad.wf(),
            has_room(*old(self), 1, 1),
        ensures
            final(self).wf(),
            all_stored(*final(self)),
            final(self).gradients@.dom() == old(self).gradients@.dom().insert(key),
            kept(*old(self), *final(self), Seq::empty()),
            rest_untouched(*old(self), *final(self)),
            grad_values(*final(self)) == grad_values(*old(self)).insert(key, grad@),
            final(self).mem.arena.room() >= old(self).mem.arena.room() - 1,
            final(self).mem.cells.room() >= old(self).mem.cells.room() - 1,
    {
        let ghost first = *self;
        self.clear_gradient(key);
        let ghost before = *self;
        let ghost v = grad@;
        let shape = *grad.shape();
        let storage = CpuStorage::F32(grad.into_data());
        let meta = Meta { node_id: None, requires_grad: false };
        let t = self.adopt(storage, shape, DType::F32, meta);
        let ghost mid = *self;
        self.gradients.insert(key, t);
        proof {
            lemma_inserted(before, mid, *self, key, t);
            lemma_kept_trans(first, before, *self);
            before.lemma_members();
            lemma_bounded_fits(shape@);
            lemma_strided_row_major(v.data, shape@);
            assert(t.value(self.mem) == v);
            assert forall|u: Tensor| tape_handles(first).contains(u) implies untouched(
                first,
                *self,
                u,
            ) by {
                let i = tape_handles(before).index_of(u);
                assert(before.holds().contains(tape_handles(before)[i]));
                assert(untouched(first, before, u));
            }
            assert forall|u: Tensor|
                first.checkpoint_gradients.held().contains(u) implies untouched(
                first,
                *self,
                u,
            ) by {
                let i = before.checkpoint_gradients.held().index_of(u);
                assert(before.holds().contains(before.checkpoint_gradients.held()[i]));
                assert(untouched(first, before, u));
            }
            assert forall|k2: GradKey| #[trigger] self.gradients@.contains_key(k2) implies stored(
                *self,
                self.gradients@[k2],
            ) && (k2 != key ==> untouched(before, *self, self.gradients@[k2])) by {
                if k2 != key {
                    let u = before.gradients@[k2];
                    assert(before.gradients@.contains_key(k2));
                    before.gradients.lemma_held(k2);
                    let i = before.gradients.held().index_of(u);
                    assert(before.holds().contains(before.gradients.held()[i]));
                    assert(stored(before, u));
                    assert(untouched(before, *self, u));
                }
            }
            let want = grad_values(first).insert(key, v);
            assert(grad_values(*self).dom() =~= want.dom());
            assert forall|k2: GradKey| #[trigger] want.contains_key(k2) implies grad_values(
                *self,
            )[k2] == want[k2] by {
                assert(self.gradients@.contains_key(k2));
                if k2 != key {
                    assert(grad_values(first).contains_key(k2));
                    assert(grad_values(before)[k2] == grad_values(first)[k2]);
                    assert(before.gradients@.contains_key(k2));
                    assert(self.gradients@[k2] == before.gradients@[k2]);
                    assert(untouched(before, *self, self.gradients@[k2]));
                    assert(stored(before, before.gradients@[k2]));
                }
            }
            assert(grad_values(*self) =~= want);
            assert(self.gradients@.dom() =~= first.gradients@.dom().insert(key));
        }
    }
}

/// A handle on the tape, or a gradient, is held and valid.
pub proof fn lemma_in_holds<S: Scalar>(rt: Runtime<S>, u: Tensor)
    requires
        rt.wf(),
        tape_handles(rt).contains(u) || rt.checkpoint_gradients.held().contains(u)
            || rt.gradients.held().contains(u),
    ensures
        rt.holds().contains(u),
        u.valid(rt.mem),
{
    rt.lemma_members();
    if tape_handles(rt).contains(u) {
        let i = tape_handles(rt).index_of(u);
        assert(rt.holds().contains(tape_handles(rt)[i]));
    } else if rt.checkpoint_gradients.held().contains(u) {
        let i = rt.checkpoint_gradients.held().index_of(u);
        assert(rt.holds().contains(rt.checkpoint_gradients.held()[i]));
    } else {
        let i = rt.gradients.held().index_of(u);
        assert(rt.holds().contains(rt.gradients.held()[i]));
    }
    let j = rt.holds().index_of(u);
    assert(rt.holds()[j].valid(rt.mem));
}

} // verus!
