//! The state that tensors, autograd and the backends share.
use vstd::prelude::*;
use crate::cells::Meta;
use crate::cuda::command::Command;
use crate::device::Device;
use crate::storage::{Slot, StorageId};
use crate::tape::{
    blocks_agree, count_key, lemma_count_at, lemma_valid_kept, same_blocks, NodeView, Tape,
};
use crate::tensor::{released, Key, Memory, Tensor};

verus! {

/// Switches that change what operations do.
#[derive(Debug, Clone, Copy, PartialEq, Eq, Structural)]
pub struct Mode {
    /// Operations are recorded on the tape.
    pub autograd_enabled: bool,
    /// Layers like dropout and batch normalisation behave as in training.
    pub training: bool,
    /// A checkpointed block is being replayed: layers skip their side effects.
    pub recomputing: bool,
    /// How many random draws were made.
    pub rng_counter: u64,
}

/// What has been registered.
#[derive(Debug, Clone, Copy, PartialEq, Eq, Structural)]
pub struct Hooks {
    /// The CPU backend's operations.
    pub cpu_ops: bool,
    /// The CUDA backend's operations.
    pub cuda_ops: bool,
    /// Reading, writing and allocating device memory.
    pub cuda_memory: bool,
    /// Counting references to device buffers.
    pub refcount_inc: bool,
    /// Counting references to device buffers down.
    pub refcount_dec: bool,
    /// Recording operations on the tape.
    pub record_op: bool,
    /// The backward pass.
    pub backward: bool,
    /// Looking up gradients.
    pub grad: bool,
    /// Dropping the gradient of a tensor with its last handle.
    pub drop: bool,
}

/// Identifies the tensor that a gradient belongs to.
///
/// CPU and CUDA have independent id spaces that overlap numerically, so that a bare storage id
/// would let one device's tensor evict the other's gradient.
pub type GradKey = (StorageId, Device);

/// Gradients by the tensor that they belong to.
#[derive(Debug)]
pub struct Gradients {
    keys: Vec<GradKey>,
    tensors: Vec<Tensor>,
}

impl Gradients {
    /// The gradient handles that are held.
    pub closed spec fn held(self) -> Seq<Tensor> {
        self.tensors@
    }

    /// No two gradients belong to one tensor.
    pub closed spec fn wf(self) -> bool {
        &&& self.keys@.len() == self.tensors@.len()
        &&& forall|i: int, j: int| 0 <= i < j < self.keys@.len() ==> self.keys@[i] != self.keys@[j]
    }

    /// The gradients by key.
    pub closed spec fn view(self) -> Map<GradKey, Tensor> {
        Map::new(
            |k: GradKey| self.keys@.contains(k),
            |k: GradKey| self.tensors@[self.keys@.index_of(k)],
        )
    }

    /// No gradient.
    pub fn new() -> (g: Self)
        ensures
            g.wf(),
            g@ == Map::<GradKey, Tensor>::empty(),
            g.held() == Seq::<Tensor>::empty(),
    {
        let g = Gradients { keys: Vec::new(), tensors: Vec::new() };
        assert(g@ =~= Map::<GradKey, Tensor>::empty());
        g
    }

    proof fn lemma_at(self, i: int)
        requires
            self.wf(),
            0 <= i < self.keys@.len(),
        ensures
            self@.contains_key(self.keys@[i]),
            self@[self.keys@[i]] == self.tensors@[i],
            self.keys@.index_of(self.keys@[i]) == i,
    {
        let k = self.keys@[i];
        assert(self.keys@.contains(k));
        let j = self.keys@.index_of(k);
        assert(self.keys@[j] == k);
        if j < i {
            assert(self.keys@[j] != self.keys@[i]);
        } else if i < j {
            assert(self.keys@[i] != self.keys@[j]);
        }
    }

    /// A gradient that is stored is one of the handles held.
    pub proof fn lemma_held(self, key: GradKey)
        requires
            self.wf(),
            self@.contains_key(key),
        ensures
            self.held().contains(self@[key]),
    {
        let i = self.keys@.index_of(key);
        assert(self.keys@[i] == key);
        self.lemma_at(i);
        assert(self.tensors@[i] == self@[key]);
    }

    fn find(&self, key: GradKey) -> (r: Option<usize>)
        requires
            self.wf(),
        ensures
            r is Some <==> self@.contains_key(key),
            r matches Some(i) ==> i < self.keys@.len() && self.keys@[i as int] == key
                && self@[key] == self.tensors@[i as int],
    {
        let mut i: usize = 0;
        while i < self.keys.len()
            invariant
                i <= self.keys@.len(),
                self.wf(),
                forall|j: int| 0 <= j < i ==> self.keys@[j] != key,
            decreases self.keys@.len() - i,
        {
            let k = self.keys[i];
            if k.0 == key.0 && k.1 == key.1 {
                proof {
                    self.lemma_at(i as int);
                }
                return Some(i);
            }
            i = i + 1;
        }
        None
    }

    /// The gradient of a tensor.
    pub fn get(&self, key: GradKey) -> (r: Option<&Tensor>)
        requires
            self.wf(),
        ensures
            r is Some <==> self@.contains_key(key),
            r matches Some(t) ==> *t == self@[key] && self.held().contains(*t),
    {
        match self.find(key) {
            Some(i) => {
                assert(self.tensors@[i as int] == self@[key]);
                Some(&self.tensors[i])
            },
            None => None,
        }
    }

    /// Takes the gradient of a tensor out.
    pub(crate) fn remove(&mut self, key: GradKey) -> (r: Option<Tensor>)
        requires
            old(self).wf(),
        ensures
            final(self).wf(),
            r is Some <==> old(self)@.contains_key(key),
            final(self)@ == old(self)@.remove(key),
            r matches Some(t) ==> t == old(self)@[key] && exists|i: int|
                0 <= i < old(self).held().len() && #[trigger] old(self).held()[i] == t
                    && final(self).held() == old(self).held().remove(i),
            r is None ==> final(self).held() == old(self).held(),
    {
        let ghost before = *self;
        match self.find(key) {
            Some(i) => {
                let _k = self.keys.remove(i);
                let t = self.tensors.remove(i);
                proof {
                    self.lemma_removed(before, i as int);
                    assert(before.held()[i as int] == t);
                    assert(self.held() == before.held().remove(i as int));
                }
                Some(t)
            },
            None => {
                assert(self@ =~= before@.remove(key));
                None
            },
        }
    }

    proof fn lemma_removed(self, before: Gradients, i: int)
        requires
            before.wf(),
            0 <= i < before.keys@.len(),
            self.keys@ == before.keys@.remove(i),
            self.tensors@ == before.tensors@.remove(i),
        ensures
            self.wf(),
            self@ == before@.remove(before.keys@[i]),
    {
        let key = before.keys@[i];
        assert forall|a: int, b: int| 0 <= a < b < self.keys@.len() implies self.keys@[a]
            != self.keys@[b] by {
            let sa = if a < i {
                a
            } else {
                a + 1
            };
            let sb = if b < i {
                b
            } else {
                b + 1
            };
            assert(self.keys@[a] == before.keys@[sa]);
            assert(self.keys@[b] == before.keys@[sb]);
            assert(before.keys@[sa] != before.keys@[sb]);
        }
        let want = before@.remove(key);
        assert forall|k: GradKey|
            (#[trigger] self@.contains_key(k)) == want.contains_key(k) && (self@.contains_key(k)
                ==> self@[k] == want[k]) by {
            if self.keys@.contains(k) {
                let a = self.keys@.index_of(k);
                let sa = if a < i {
                    a
                } else {
                    a + 1
                };
                assert(before.keys@[sa] == k);
                self.lemma_at(a);
                before.lemma_at(sa);
                before.lemma_at(i);
                assert(k != key) by {
                    if sa < i {
                        assert(before.keys@[sa] != before.keys@[i]);
                    } else {
                        assert(before.keys@[i] != before.keys@[sa]);
                    }
                }
            }
            if want.contains_key(k) {
                let b = before.keys@.index_of(k);
                assert(before.keys@[b] == k);
                let a = if b < i {
                    b
                } else {
                    b - 1
                };
                assert(self.keys@[a] == k);
            }
        }
        assert(self@.dom() =~= want.dom()) by {
            assert forall|k: GradKey| #[trigger] self@.dom().contains(k) == want.dom().contains(k) by {
                assert(self@.contains_key(k) == want.contains_key(k));
            }
        }
        assert(self@ =~= want);
    }

    /// Stores the gradient of a tensor, which has none yet.
    pub fn insert(&mut self, key: GradKey, t: Tensor)
        requires
            old(self).wf(),
            !old(self)@.contains_key(key),
        ensures
            final(self).wf(),
            final(self)@ == old(self)@.insert(key, t),
            final(self).held() == old(self).held().push(t),
    {
        let ghost before = *self;
        self.keys.push(key);
        self.tensors.push(t);
        proof {
            assert forall|a: int, b: int| 0 <= a < b < self.keys@.len() implies self.keys@[a]
                != self.keys@[b] by {
                if b == before.keys@.len() {
                    assert(before.keys@.contains(before.keys@[a]));
                }
            }
            let want = before@.insert(key, t);
            assert forall|k: GradKey|
                (#[trigger] self@.contains_key(k)) == want.contains_key(k) && (self@.contains_key(k)
                    ==> self@[k] == want[k]) by {
                self.lemma_at(before.keys@.len() as int);
                if before.keys@.contains(k) {
                    let a = before.keys@.index_of(k);
                    assert(self.keys@[a] == k);
                    self.lemma_at(a);
                    before.lemma_at(a);
                }
                if self.keys@.contains(k) && k != key {
                    let a = self.keys@.index_of(k);
                    assert(before.keys@[a] == k);
                }
            }
            assert(self@.dom() =~= want.dom()) by {
                assert forall|k: GradKey| #[trigger] self@.dom().contains(k) == want.dom().contains(
                    k,
                ) by {
                    assert(self@.contains_key(k) == want.contains_key(k));
                }
            }
            assert(self@ =~= want);
        }
    }

    /// The gradient handles themselves.
    pub(crate) fn into_handles(self) -> (r: Vec<Tensor>)
        ensures
            r@ == self.held(),
    {
        self.tensors
    }

    /// Takes one of the gradients out, if there is any.
    pub(crate) fn pop(&mut self) -> (r: Option<(GradKey, Tensor)>)
        requires
            old(self).wf(),
        ensures
            final(self).wf(),
            r is None ==> old(self).held().len() == 0 && *final(self) == *old(self) && old(self)@
                == Map::<GradKey, Tensor>::empty(),
            r matches Some(e) ==> {
                &&& old(self)@.contains_key(e.0)
                &&& old(self)@[e.0] == e.1
                &&& final(self)@ == old(self)@.remove(e.0)
                &&& old(self).held() == final(self).held().push(e.1)
            },
    {
        let ghost before = *self;
        if self.keys.len() == 0 {
            assert(before@ =~= Map::<GradKey, Tensor>::empty());
            return None;
        }
        match (self.keys.pop(), self.tensors.pop()) {
            (Some(k), Some(t)) => {
                proof {
                    let n = before.keys@.len() - 1;
                    before.lemma_at(n);
                    assert(self.keys@ =~= before.keys@.remove(n));
                    assert(self.tensors@ =~= before.tensors@.remove(n));
                    self.lemma_removed(before, n);
                    assert(before.held() =~= self.held().push(t));
                }
                Some((k, t))
            },
            _ => None,
        }
    }
}

/// Handles that the runtime holds: they are valid, have cells of their own, and their references
/// are counted.
pub open spec fn held_ok<S>(mem: Memory<S>, hs: Seq<Tensor>) -> bool {
    &&& forall|i: int| 0 <= i < hs.len() ==> (#[trigger] hs[i]).valid(mem)
    &&& forall|i: int, j: int| 0 <= i < j < hs.len() ==> hs[i].cell != hs[j].cell
    &&& forall|k: Key| #[trigger] count_key(hs, k) <= mem.refs(k)
}

/// A metadata cell belongs to a held handle.
pub open spec fn holds_cell(hs: Seq<Tensor>, cell: usize) -> bool {
    exists|i: int| 0 <= i < hs.len() && (#[trigger] hs[i]).cell == cell
}

/// The handles that the first `n` nodes keep.
pub open spec fn saved_upto(nodes: Seq<NodeView>, n: int) -> Seq<Tensor>
    decreases n,
{
    if n <= 0 {
        Seq::empty()
    } else {
        saved_upto(nodes, n - 1) + nodes[n - 1].saved
    }
}

/// The shared state.
#[derive(Debug)]
pub struct Runtime<S> {
    /// Storage and handle metadata.
    pub mem: Memory<S>,
    /// Switches.
    pub mode: Mode,
    /// Registrations.
    pub hooks: Hooks,
    /// The active tape.
    pub tape: Tape,
    /// Gradients of the last backward pass.
    pub gradients: Gradients,
    /// Gradients of checkpointed blocks, to be merged.
    pub checkpoint_gradients: Gradients,
    /// Commands for the CUDA device that have not been run yet.
    pub queue: Vec<Command<S>>,
}

impl<S> Runtime<S> {
    /// The handles that tape and gradients hold.
    pub open spec fn holds(self) -> Seq<Tensor> {
        saved_upto(self.tape@, self.tape@.len() as int) + self.gradients.held()
            + self.checkpoint_gradients.held()
    }

    pub open spec fn wf(self) -> bool {
        &&& self.mem.wf()
        &&& self.tape.wf()
        &&& self.gradients.wf()
        &&& self.checkpoint_gradients.wf()
        &&& held_ok(self.mem, self.holds())
    }

    /// How many references to a block are not the runtime's own.
    pub open spec fn owners(self, key: Key) -> int {
        self.mem.refs(key) - count_key(self.holds(), key)
    }
}

impl Tensor {
    /// The handle is the caller's: valid, counted, and not one that the runtime holds.
    pub open spec fn owned<S>(self, rt: Runtime<S>) -> bool {
        &&& self.valid(rt.mem)
        &&& rt.owners(self.key()) > 0
        &&& !holds_cell(rt.holds(), self.cell)
    }
}

/// One reference less, in numbers.
pub proof fn lemma_released<S>(a: Memory<S>, b: Memory<S>, key: Key)
    requires
        a.wf(),
        released(a, b, key),
        match key {
            Key::Cpu(id) => a.arena@.contains_key(id),
            Key::Cuda(i) => a.cuda@.contains_key(i),
        },
    ensures
        same_blocks(a, b),
        a.refs(key) > 0,
        forall|k: Key| #[trigger]
            b.refs(k) == a.refs(k) - (if k == key {
                1int
            } else {
                0int
            }),
{
    a.arena.lemma_wf();
}

/// Held handles stay in order while their references and cells do.
pub proof fn lemma_held_kept<S>(a: Memory<S>, b: Memory<S>, hs: Seq<Tensor>)
    requires
        held_ok(a, hs),
        blocks_agree(a, b),
        forall|k: Key| count_key(hs, k) <= #[trigger] b.refs(k),
        forall|i: int| 0 <= i < hs.len() ==> b.cells@.contains_key((#[trigger] hs[i]).cell),
    ensures
        held_ok(b, hs),
{
    assert forall|i: int| 0 <= i < hs.len() implies (#[trigger] hs[i]).valid(b) by {
        lemma_count_at(hs, i);
        assert(count_key(hs, hs[i].key()) <= b.refs(hs[i].key()));
        assert(hs[i].valid(a));
        lemma_valid_kept(a, b, hs[i]);
    }
}

pub proof fn lemma_count_remove(ts: Seq<Tensor>, i: int, key: Key)
    requires
        0 <= i < ts.len(),
    ensures
        count_key(ts, key) == count_key(ts.remove(i), key) + (if ts[i].key() == key {
            1nat
        } else {
            0nat
        }),
    decreases ts.len(),
{
    if i == ts.len() - 1 {
        assert(ts.remove(i) =~= ts.drop_last());
    } else {
        lemma_count_remove(ts.drop_last(), i, key);
        assert(ts.remove(i).drop_last() =~= ts.drop_last().remove(i));
        assert(ts.remove(i).last() == ts.last());
    }
}

/// Held handles without one of them, after it was given back.
pub proof fn lemma_held_removed<S>(a: Memory<S>, b: Memory<S>, hs: Seq<Tensor>, i: int)
    requires
        a.wf(),
        held_ok(a, hs),
        0 <= i < hs.len(),
        released(a, b, hs[i].key()),
        b.cells@ == a.cells@.remove(hs[i].cell),
    ensures
        held_ok(b, hs.remove(i)),
        same_blocks(a, b),
        forall|k: Key| #[trigger]
            b.refs(k) == a.refs(k) - (if k == hs[i].key() {
                1int
            } else {
                0int
            }),
{
    let t = hs[i];
    assert(t.valid(a));
    lemma_released(a, b, t.key());
    let rest = hs.remove(i);
    assert forall|k: Key| count_key(rest, k) <= #[trigger] b.refs(k) by {
        lemma_count_remove(hs, i, k);
        assert(count_key(hs, k) <= a.refs(k));
    }
    assert forall|j: int| 0 <= j < rest.len() implies (#[trigger] rest[j]).valid(b) by {
        let sj = if j < i {
            j
        } else {
            j + 1
        };
        assert(rest[j] == hs[sj]);
        assert(hs[sj].valid(a));
        assert(hs[sj].cell != t.cell) by {
            if sj < i {
                assert(hs[sj].cell != hs[i].cell);
            } else {
                assert(hs[i].cell != hs[sj].cell);
            }
        }
        lemma_count_at(rest, j);
        assert(count_key(rest, rest[j].key()) <= b.refs(rest[j].key()));
        lemma_valid_kept(a, b, hs[sj]);
    }
    assert forall|x: int, y: int| 0 <= x < y < rest.len() implies rest[x].cell != rest[y].cell by {
        let sx = if x < i {
            x
        } else {
            x + 1
        };
        let sy = if y < i {
            y
        } else {
            y + 1
        };
        assert(hs[sx].cell != hs[sy].cell);
    }
}

/// The block of a handle is of the shard that new blocks go to: freed, it is the next to be used.
pub open spec fn reusable<S>(rt: Runtime<S>, t: Tensor) -> bool {
    t.device is Cpu && t.storage_id.shard_idx == rt.mem.arena.shard()
}

/// The step from `a` to `b` that gives a handle back: one reference less, and with the last one
/// the gradient of the tensor goes too, once the drop hook is registered. A block that is freed
/// last is the next that its shard hands out.
pub open spec fn given_back<S>(a: Runtime<S>, b: Runtime<S>, t: Tensor) -> bool {
    let last = a.mem.refs(t.key()) == 1;
    let key = (t.storage_id, t.device);
    let drops = last && a.hooks.drop && a.gradients@.contains_key(key);
    let g = a.gradients@[key];
    &&& b.mode == a.mode
    &&& b.hooks == a.hooks
    &&& b.tape == a.tape
    &&& b.checkpoint_gradients == a.checkpoint_gradients
    &&& b.queue == a.queue
    &&& same_blocks(a.mem, b.mem)
    &&& b.mem.arena.room() >= a.mem.arena.room()
    &&& b.mem.arena.shard() == a.mem.arena.shard()
    &&& last && !drops && reusable(a, t) ==> b.mem.arena.next() == t.storage_id
    &&& drops && a.mem.refs(g.key()) == 1 && reusable(a, g) ==> b.mem.arena.next() == g.storage_id
    &&& b.mem.cells.room() > a.mem.cells.room()
    &&& forall|k: Key| #[trigger]
        b.owners(k) == a.owners(k) - (if k == t.key() {
            1int
        } else {
            0int
        })
    &&& forall|c: usize| #[trigger] holds_cell(b.holds(), c) ==> holds_cell(a.holds(), c)
    &&& b.gradients@ == (if drops {
        a.gradients@.remove(key)
    } else {
        a.gradients@
    })
    &&& forall|k: Key| #[trigger]
        b.mem.refs(k) == a.mem.refs(k) - (if k == t.key() {
            1int
        } else {
            0int
        }) - (if drops && k == g.key() {
            1int
        } else {
            0int
        })
    &&& b.mem.cells@ == (if drops {
        a.mem.cells@.remove(t.cell).remove(g.cell)
    } else {
        a.mem.cells@.remove(t.cell)
    })
}

impl<S> Runtime<S> {
    /// A runtime in which nothing is registered; autograd is enabled.
    pub fn new() -> (rt: Self)
        ensures
            rt.wf(),
            rt.holds() == Seq::<Tensor>::empty(),
            rt.tape@ == Seq::<NodeView>::empty(),
            rt.gradients@ == Map::<GradKey, Tensor>::empty(),
            rt.checkpoint_gradients@ == Map::<GradKey, Tensor>::empty(),
            rt.mem.arena@ == Map::<StorageId, Slot<S>>::empty(),
            rt.mem.arena.shard() == 0,
            rt.mem.arena.room() == u32::MAX + 1,
            rt.mem.cells@ == Map::<usize, Meta>::empty(),
            rt.mem.cells.room() == usize::MAX,
            rt.queue@ == Seq::<Command<S>>::empty(),
            rt.mode == (Mode {
                autograd_enabled: true,
                training: true,
                recomputing: false,
                rng_counter: 0,
            }),
            rt.hooks == (Hooks {
                cpu_ops: false,
                cuda_ops: false,
                cuda_memory: false,
                refcount_inc: false,
                refcount_dec: false,
                record_op: false,
                backward: false,
                grad: false,
                drop: false,
            }),
    {
        let rt = Runtime {
            mem: Memory::new(),
            mode: Mode {
                autograd_enabled: true,
                training: true,
                recomputing: false,
                rng_counter: 0,
            },
            hooks: Hooks {
                cpu_ops: false,
                cuda_ops: false,
                cuda_memory: false,
                refcount_inc: false,
                refcount_dec: false,
                record_op: false,
                backward: false,
                grad: false,
                drop: false,
            },
            tape: Tape::new(),
            gradients: Gradients::new(),
            checkpoint_gradients: Gradients::new(),
            queue: Vec::new(),
        };
        assert(rt.holds() =~= Seq::<Tensor>::empty());
        rt
    }

    /// Gives a handle back.
    ///
    /// With the last handle to a block the block is freed and, once the drop hook is registered,
    /// the gradient of the tensor is dropped too, so that a block that is used again starts
    /// without one.
    pub fn release(&mut self, t: Tensor)
        requires
            old(self).wf(),
            t.owned(*old(self)),
        ensures
            final(self).wf(),
            given_back(*old(self), *final(self), t),
    {
        let ghost before = *self;
        let ghost hs = self.holds();
        let key = (t.storage_id, t.device);
        let drop_hook = self.hooks.drop;
        let freed = self.mem.give_back(t);
        let ghost mid = self.mem;
        proof {
            lemma_released(before.mem, mid, t.key());
            assert forall|k: Key| count_key(hs, k) <= #[trigger] mid.refs(k) by {
                assert(count_key(hs, k) <= before.mem.refs(k));
            }
            lemma_held_kept(before.mem, mid, hs);
        }
        if freed && drop_hook {
            let ghost grads = self.gradients;
            match self.gradients.remove(key) {
                Some(g) => {
                    proof {
                        let i = choose|i: int|
                            0 <= i < grads.held().len() && #[trigger] grads.held()[i] == g
                                && self.gradients.held() == grads.held().remove(i);
                        let n = saved_upto(self.tape@, self.tape@.len() as int).len();
                        assert(hs[n + i] == g);
                        assert(g.valid(mid));
                        assert(self.holds() =~= hs.remove(n + i));
                    }
                    let _freed = self.mem.give_back(g);
                    proof {
                        let i = choose|i: int|
                            0 <= i < grads.held().len() && #[trigger] grads.held()[i] == g
                                && self.gradients.held() == grads.held().remove(i);
                        let n = saved_upto(self.tape@, self.tape@.len() as int).len();
                        lemma_held_removed(mid, self.mem, hs, n + i);
                        assert forall|k: Key| #[trigger]
                            self.owners(k) == before.owners(k) - (if k == t.key() {
                                1int
                            } else {
                                0int
                            }) by {
                            lemma_count_remove(hs, n + i, k);
                        }
                        assert forall|c: usize| #[trigger]
                            holds_cell(self.holds(), c) implies holds_cell(hs, c) by {
                            let j = choose|j: int|
                                0 <= j < self.holds().len() && (#[trigger] self.holds()[j]).cell
                                    == c;
                            assert(hs[if j < n + i {
                                j
                            } else {
                                j + 1
                            }].cell == c);
                        }
                    }
                },
                None => {
                    assert(self.gradients@ =~= before.gradients@);
                },
            }
        }
    }
}

} // verus!
