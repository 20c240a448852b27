//! The sharded CPU arena: all shards, and the one that new blocks go to.
use vstd::prelude::*;
use crate::storage::{CpuArenaShard, CpuStorage, Slot, StorageId, NUM_SHARDS};

verus! {

/// Hands out shard indices to threads, one after the other and round again.
#[derive(Debug)]
pub struct ShardCounter {
    next: usize,
}

impl ShardCounter {
    /// How many indices were handed out, up to wrapping.
    pub closed spec fn count(self) -> usize {
        self.next
    }

    /// No index handed out yet.
    pub fn new() -> (c: Self)
        ensures
            c.count() == 0,
    {
        ShardCounter { next: 0 }
    }

    /// The shard index of the next thread.
    pub fn assign(&mut self) -> (i: u8)
        ensures
            i == old(self).count() % NUM_SHARDS,
            final(self).count() == (if old(self).count() == usize::MAX {
                0
            } else {
                old(self).count() + 1
            }),
    {
        let i: u8 = (self.next % NUM_SHARDS) as u8;
        self.next = self.next.wrapping_add(1);
        i
    }
}

/// All CPU storage, in shards.
#[derive(Debug)]
pub struct Arena<S> {
    shards: Vec<CpuArenaShard<S>>,
    current: u8,
}

impl<S> Arena<S> {
    /// The blocks in use.
    pub closed spec fn view(self) -> Map<StorageId, Slot<S>> {
        Map::new(
            |id: StorageId|
                id.shard_idx < NUM_SHARDS && self.shards@[id.shard_idx as int].slot(
                    id.slot_idx as int,
                ) is Some,
            |id: StorageId| self.shards@[id.shard_idx as int].slot(id.slot_idx as int)->0,
        )
    }

    pub closed spec fn wf(self) -> bool {
        &&& self.shards@.len() == NUM_SHARDS
        &&& self.current < NUM_SHARDS
        &&& forall|i: int| 0 <= i < NUM_SHARDS ==> (#[trigger] self.shards@[i]).wf()
    }

    /// How many more blocks the current shard can hold.
    pub closed spec fn room(self) -> int {
        self.shards@[self.current as int].room()
    }

    /// The shard that new blocks go to.
    pub closed spec fn shard(self) -> u8 {
        self.current
    }

    /// The shards themselves.
    pub closed spec fn shards_spec(self) -> Seq<CpuArenaShard<S>> {
        self.shards@
    }

    /// Where the next block will be put.
    pub closed spec fn next(self) -> StorageId {
        StorageId {
            shard_idx: self.current,
            slot_idx: self.shards@[self.current as int].next(),
        }
    }

    /// Blocks in use have owners, and the room is never negative.
    pub proof fn lemma_wf(self)
        requires
            self.wf(),
        ensures
            forall|id: StorageId| #[trigger] self@.contains_key(id) ==> self@[id].refs > 0,
            self.room() >= 0,
    {
        assert forall|id: StorageId| #[trigger] self@.contains_key(id) implies self@[id].refs
            > 0 by {
            let sh = self.shards@[id.shard_idx as int];
            assert(sh.wf());
            assert(sh.slots@[id.slot_idx as int] is Some);
        }
        assert(self.shards@[self.current as int].wf());
    }

    /// An arena without blocks, whose new blocks go to shard 0.
    pub fn new() -> (a: Self)
        ensures
            a.wf(),
            a@ == Map::<StorageId, Slot<S>>::empty(),
            a.shard() == 0,
            a.room() == u32::MAX + 1,
    {
        let mut shards: Vec<CpuArenaShard<S>> = Vec::with_capacity(NUM_SHARDS);
        let mut i: usize = 0;
        while i < NUM_SHARDS
            invariant
                i <= NUM_SHARDS,
                shards@.len() == i,
                forall|k: int|
                    0 <= k < i ==> (#[trigger] shards@[k]).wf() && shards@[k].slots@.len() == 0
                        && shards@[k].free_indices@.len() == 0,
            decreases NUM_SHARDS - i,
        {
            shards.push(CpuArenaShard::new());
            i = i + 1;
        }
        let a = Arena { shards, current: 0 };
        assert(a@ =~= Map::<StorageId, Slot<S>>::empty());
        a
    }

    /// Makes new blocks go to another shard.
    pub fn set_shard(&mut self, shard_idx: u8)
        requires
            old(self).wf(),
            shard_idx < NUM_SHARDS,
        ensures
            final(self).wf(),
            final(self)@ == old(self)@,
            final(self).shards_spec() == old(self).shards_spec(),
            final(self).shard() == shard_idx,
    {
        self.current = shard_idx;
        assert(self@ =~= old(self)@);
    }

    /// Puts a block into the current shard, with one owner.
    pub fn alloc_raw(&mut self, storage: CpuStorage<S>) -> (id: StorageId)
        requires
            old(self).wf(),
            old(self).room() > 0,
        ensures
            final(self).wf(),
            id == old(self).next(),
            id.shard_idx == old(self).shard(),
            !old(self)@.contains_key(id),
            final(self)@ == old(self)@.insert(id, Slot { block: storage@, refs: 1nat }),
            final(self).room() == old(self).room() - 1,
            final(self).shard() == old(self).shard(),
    {
        let c: usize = self.current as usize;
        let ghost before = *self;
        assert(self.shards@[c as int].wf());
        let id = self.shards[c].alloc_raw(storage, self.current);
        proof {
            assert(self@ =~= before@.insert(id, Slot { block: storage@, refs: 1nat })) by {
                assert forall|k: StorageId|
                    self@.contains_key(k) == before@.insert(
                        id,
                        Slot { block: storage@, refs: 1nat },
                    ).contains_key(k) && (self@.contains_key(k) ==> self@[k] == before@.insert(
                        id,
                        Slot { block: storage@, refs: 1nat },
                    )[k]) by {
                    if k.shard_idx == c {
                        if k.slot_idx != id.slot_idx {
                            assert(self.shards@[c as int].slot(k.slot_idx as int)
                                == before.shards@[c as int].slot(k.slot_idx as int));
                        } else {
                            assert(k == id);
                        }
                    }
                }
            }
        }
        id
    }

    /// Adds an owner to a block; an id that is not in use is ignored.
    pub fn increment(&mut self, id: StorageId)
        requires
            old(self).wf(),
            old(self)@.contains_key(id) ==> old(self)@[id].refs < usize::MAX,
        ensures
            final(self).wf(),
            final(self)@ == (if old(self)@.contains_key(id) {
                old(self)@.insert(
                    id,
                    Slot { block: old(self)@[id].block, refs: old(self)@[id].refs + 1 },
                )
            } else {
                old(self)@
            }),
            final(self).room() == old(self).room(),
            final(self).shard() == old(self).shard(),
            final(self).next() == old(self).next(),
    {
        let ghost before = *self;
        let s: usize = id.shard_idx as usize;
        if s < NUM_SHARDS {
            assert(self.shards@[s as int].wf());
            self.shards[s].increment(id.slot_idx);
        }
        proof {
            let want = if before@.contains_key(id) {
                before@.insert(
                    id,
                    Slot { block: before@[id].block, refs: before@[id].refs + 1 },
                )
            } else {
                before@
            };
            assert forall|k: StorageId|
                self@.contains_key(k) == want.contains_key(k) && (self@.contains_key(k)
                    ==> self@[k] == want[k]) by {
                if k.shard_idx == id.shard_idx && s < NUM_SHARDS {
                    if k.slot_idx != id.slot_idx {
                        assert(self.shards@[s as int].slot(k.slot_idx as int)
                            == before.shards@[s as int].slot(k.slot_idx as int));
                    } else {
                        assert(k == id);
                    }
                }
            }
            assert(self@ =~= want);
        }
    }

    /// Takes an owner from a block, and frees the block when it was the last; an id that is not
    /// in use is ignored. Returns whether the block was freed.
    pub fn decrement(&mut self, id: StorageId) -> (freed: bool)
        requires
            old(self).wf(),
        ensures
            final(self).wf(),
            freed == (old(self)@.contains_key(id) && old(self)@[id].refs == 1),
            final(self)@ == (if !old(self)@.contains_key(id) {
                old(self)@
            } else if freed {
                old(self)@.remove(id)
            } else {
                old(self)@.insert(
                    id,
                    Slot {
                        block: old(self)@[id].block,
                        refs: (old(self)@[id].refs - 1) as nat,
                    },
                )
            }),
            final(self).room() == old(self).room() + (if freed && id.shard_idx == old(
                self,
            ).shard() {
                1int
            } else {
                0int
            }),
            final(self).shard() == old(self).shard(),
            freed && id.shard_idx == old(self).shard() ==> final(self).next() == id,
    {
        let ghost before = *self;
        let s: usize = id.shard_idx as usize;
        if s >= NUM_SHARDS {
            return false;
        }
        assert(self.shards@[s as int].wf());
        let i: usize = id.slot_idx as usize;
        let last = if i < self.shards[s].slots.len() {
            match &self.shards[s].slots[i] {
                Some(slot) => slot.ref_count == 1,
                None => false,
            }
        } else {
            false
        };
        self.shards[s].decrement(id.slot_idx);
        proof {
            let freed = before@.contains_key(id) && before@[id].refs == 1;
            let want = if !before@.contains_key(id) {
                before@
            } else if freed {
                before@.remove(id)
            } else {
                before@.insert(
                    id,
                    Slot { block: before@[id].block, refs: (before@[id].refs - 1) as nat },
                )
            };
            assert forall|k: StorageId|
                self@.contains_key(k) == want.contains_key(k) && (self@.contains_key(k)
                    ==> self@[k] == want[k]) by {
                if k.shard_idx == id.shard_idx {
                    if k.slot_idx != id.slot_idx {
                        assert(self.shards@[s as int].slot(k.slot_idx as int)
                            == before.shards@[s as int].slot(k.slot_idx as int));
                    } else {
                        assert(k == id);
                    }
                }
            }
            assert(self@ =~= want);
        }
        last
    }

    /// The block behind an id.
    pub fn storage(&self, id: StorageId) -> (r: &CpuStorage<S>)
        requires
            self.wf(),
            self@.contains_key(id),
        ensures
            r@ == self@[id].block,
    {
        let shard = &self.shards[id.shard_idx as usize];
        match &shard.slots[id.slot_idx as usize] {
            Some(slot) => &slot.storage,
            None => {
                proof {
                    assert(false);
                }
                vstd::pervasive::unreached()
            },
        }
    }

    /// The number of owners of a block, if it is in use.
    pub fn ref_count(&self, id: StorageId) -> (r: Option<usize>)
        requires
            self.wf(),
        ensures
            r is Some <==> self@.contains_key(id),
            r matches Some(n) ==> n == self@[id].refs,
    {
        if id.shard_idx as usize >= NUM_SHARDS {
            return None;
        }
        let shard = &self.shards[id.shard_idx as usize];
        if id.slot_idx as usize >= shard.slots.len() {
            return None;
        }
        match &shard.slots[id.slot_idx as usize] {
            Some(slot) => Some(slot.ref_count),
            None => None,
        }
    }

    /// Replaces the contents of a block; its owners stay.
    pub(crate) fn replace(&mut self, id: StorageId, storage: CpuStorage<S>)
        requires
            old(self).wf(),
            old(self)@.contains_key(id),
        ensures
            final(self).wf(),
            final(self)@ == old(self)@.insert(
                id,
                Slot { block: storage@, refs: old(self)@[id].refs },
            ),
            final(self).room() == old(self).room(),
            final(self).shard() == old(self).shard(),
            final(self).next() == old(self).next(),
    {
        let ghost before = *self;
        let s: usize = id.shard_idx as usize;
        assert(before.shards@[s as int].wf());
        replace_slot(&mut self.shards[s], id.slot_idx, storage);
        proof {
            let want = before@.insert(id, Slot { block: storage@, refs: before@[id].refs });
            assert forall|k: StorageId|
                self@.contains_key(k) == want.contains_key(k) && (self@.contains_key(k)
                    ==> self@[k] == want[k]) by {
                if k.shard_idx == id.shard_idx {
                    if k.slot_idx != id.slot_idx {
                        assert(self.shards@[s as int].slot(k.slot_idx as int)
                            == before.shards@[s as int].slot(k.slot_idx as int));
                    } else {
                        assert(k == id);
                    }
                }
            }
            assert(self@ =~= want);
        }
    }

    /// A shard of the arena.
    pub fn get_cpu_shard(&self, shard_idx: usize) -> (s: &CpuArenaShard<S>)
        requires
            self.wf(),
            shard_idx < NUM_SHARDS,
        ensures
            *s == self.shards_spec()[shard_idx as int],
            s.wf(),
            forall|slot: u32|
                #![trigger s.slot(slot as int)]
                self@.contains_key(StorageId { shard_idx: shard_idx as u8, slot_idx: slot })
                    <==> s.slot(slot as int) is Some,
    {
        &self.shards[shard_idx]
    }

    /// The shard that new blocks go to.
    pub fn current_thread_shard_idx(&self) -> (i: u8)
        requires
            self.wf(),
        ensures
            i == self.shard(),
            i < NUM_SHARDS,
    {
        self.current
    }
}

/// Replaces the contents of a slot in use.
fn replace_slot<S>(shard: &mut CpuArenaShard<S>, slot_idx: u32, storage: CpuStorage<S>)
    requires
        old(shard).wf(),
        old(shard).slot(slot_idx as int) is Some,
    ensures
        final(shard).wf(),
        final(shard).slot(slot_idx as int) == Some(
            Slot { block: storage@, refs: (old(shard).slot(slot_idx as int)->0).refs },
        ),
        forall|i: int| i != slot_idx ==> #[trigger] final(shard).slot(i) == old(shard).slot(i),
        final(shard).free_indices@ == old(shard).free_indices@,
        final(shard).slots@.len() == old(shard).slots@.len(),
{
    let ghost before = *shard;
    match &mut shard.slots[slot_idx as usize] {
        Some(slot) => {
            slot.storage = storage;
        },
        None => {},
    }
    proof {
        assert forall|k: int|
            0 <= k < shard.slots@.len() && (#[trigger] shard.slots@[k]) is None
            implies shard.free_indices@.contains(k as u32) by {
            assert(before.slots@[k] is None);
        }
    }
}

} // verus!
