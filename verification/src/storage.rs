//! CPU storage arena and allocation logic.
use vstd::prelude::*;
use crate::dense::filled;
use crate::dtype::DType;
use crate::scalar::{zero, Constant, Scalar};

verus! {

/// The number of shards in the sharded CPU arena.
pub const NUM_SHARDS: usize = 32;

/// Unique identifier for a storage block in the sharded arena.
#[derive(Debug, Clone, Copy, PartialEq, Eq, Hash, Structural)]
pub struct StorageId {
    /// The shard index this storage belongs to.
    pub shard_idx: u8,
    /// The slot index within that shard.
    pub slot_idx: u32,
}

/// Backing memory for CPU tensors.
#[derive(Debug)]
pub enum CpuStorage<S> {
    /// 32-bit float storage.
    F32(Vec<S>),
    /// 16-bit float storage.
    F16(Vec<u16>),
    /// 16-bit brain float storage.
    BF16(Vec<u16>),
    /// 32-bit integer storage.
    I32(Vec<i32>),
    /// 64-bit integer storage.
    I64(Vec<i64>),
    /// Boolean storage.
    Bool(Vec<bool>),
}

/// What a storage block holds.
#[verifier::ext_equal]
pub ghost enum Block<S> {
    F32(Seq<S>),
    F16(Seq<u16>),
    BF16(Seq<u16>),
    I32(Seq<i32>),
    I64(Seq<i64>),
    Bool(Seq<bool>),
}

impl<S> Block<S> {
    /// The element type of the block.
    pub open spec fn dtype(self) -> DType {
        match self {
            Block::F32(_) => DType::F32,
            Block::F16(_) => DType::F16,
            Block::BF16(_) => DType::BF16,
            Block::I32(_) => DType::I32,
            Block::I64(_) => DType::I64,
            Block::Bool(_) => DType::Bool,
        }
    }

    /// How many elements the block holds.
    pub open spec fn len(self) -> nat {
        match self {
            Block::F32(v) => v.len(),
            Block::F16(v) => v.len(),
            Block::BF16(v) => v.len(),
            Block::I32(v) => v.len(),
            Block::I64(v) => v.len(),
            Block::Bool(v) => v.len(),
        }
    }
}

impl<S> CpuStorage<S> {
    pub open spec fn view(self) -> Block<S> {
        match self {
            CpuStorage::F32(v) => Block::F32(v@),
            CpuStorage::F16(v) => Block::F16(v@),
            CpuStorage::BF16(v) => Block::BF16(v@),
            CpuStorage::I32(v) => Block::I32(v@),
            CpuStorage::I64(v) => Block::I64(v@),
            CpuStorage::Bool(v) => Block::Bool(v@),
        }
    }
}

/// A block of `n` zeros.
pub open spec fn zero_block<S: Scalar>(n: nat, dtype: DType) -> Block<S> {
    match dtype {
        DType::F32 => Block::F32(Seq::new(n, |i: int| zero::<S>())),
        DType::F16 => Block::F16(Seq::new(n, |i: int| 0u16)),
        DType::BF16 => Block::BF16(Seq::new(n, |i: int| 0u16)),
        DType::I32 => Block::I32(Seq::new(n, |i: int| 0i32)),
        DType::I64 => Block::I64(Seq::new(n, |i: int| 0i64)),
        DType::Bool => Block::Bool(Seq::new(n, |i: int| false)),
    }
}

/// Zero-filled storage.
pub(crate) fn zero_storage<S: Scalar>(numel: usize, dtype: DType) -> (r: CpuStorage<S>)
    ensures
        r@ == zero_block::<S>(numel as nat, dtype),
{
    match dtype {
        DType::F32 => CpuStorage::F32(filled(numel, S::constant(Constant::Zero))),
        DType::F16 => CpuStorage::F16(filled(numel, 0)),
        DType::BF16 => CpuStorage::BF16(filled(numel, 0)),
        DType::I32 => CpuStorage::I32(filled(numel, 0)),
        DType::I64 => CpuStorage::I64(filled(numel, 0)),
        DType::Bool => CpuStorage::Bool(filled(numel, false)),
    }
}

/// A slot in a CPU storage arena shard.
#[derive(Debug)]
pub struct CpuStorageSlot<S> {
    /// The actual data storage.
    pub storage: CpuStorage<S>,
    /// Reference count of tensors pointing to this slot.
    pub ref_count: usize,
}

/// What a slot holds, and how many tensors point to it.
#[verifier::ext_equal]
pub ghost struct Slot<S> {
    pub block: Block<S>,
    pub refs: nat,
}

impl<S> CpuStorageSlot<S> {
    pub open spec fn view(self) -> Slot<S> {
        Slot { block: self.storage@, refs: self.ref_count as nat }
    }
}

/// A single shard of the CPU arena.
#[derive(Debug)]
pub struct CpuArenaShard<S> {
    /// Storage slots in the shard.
    pub slots: Vec<Option<CpuStorageSlot<S>>>,
    /// Reusable slot indices.
    pub free_indices: Vec<u32>,
}

impl<S> CpuArenaShard<S> {
    /// The slot at an index, if it is in use.
    pub open spec fn slot(self, i: int) -> Option<Slot<S>> {
        if 0 <= i < self.slots@.len() {
            match self.slots@[i] {
                Some(s) => Some(s@),
                None => None,
            }
        } else {
            None
        }
    }

    /// The free list names every slot that is not in use once, and no other; slots in use have
    /// owners.
    pub open spec fn wf(self) -> bool {
        &&& self.slots@.len() <= u32::MAX + 1
        &&& forall|i: int, j: int|
            0 <= i < j < self.free_indices@.len() ==> self.free_indices@[i]
                != self.free_indices@[j]
        &&& forall|i: int|
            0 <= i < self.free_indices@.len() ==> (#[trigger] self.free_indices@[i])
                < self.slots@.len()
                && self.slots@[self.free_indices@[i] as int] is None
        &&& forall|i: int|
            0 <= i < self.slots@.len() && (#[trigger] self.slots@[i]) is None
                ==> self.free_indices@.contains(i as u32)
        &&& forall|i: int|
            0 <= i < self.slots@.len() ==> ((#[trigger] self.slots@[i]) matches Some(s)
                ==> s.ref_count > 0)
    }

    /// How many more blocks the shard can hold.
    pub open spec fn room(self) -> int {
        self.free_indices@.len() + (u32::MAX + 1 - self.slots@.len())
    }

    /// The slot that the next block will be put in: the one freed last, or a new one.
    pub open spec fn next(self) -> u32 {
        if self.free_indices@.len() > 0 {
            self.free_indices@.last()
        } else {
            self.slots@.len() as u32
        }
    }

    /// Creates an empty shard.
    #[must_use]
    pub fn new() -> (s: Self)
        ensures
            s.wf(),
            s.slots@.len() == 0,
            s.free_indices@.len() == 0,
    {
        CpuArenaShard { slots: Vec::new(), free_indices: Vec::new() }
    }

    /// Inserts a pre-populated storage block in this shard.
    pub fn alloc_raw(&mut self, storage: CpuStorage<S>, shard_idx: u8) -> (id: StorageId)
        requires
            old(self).wf(),
            old(self).room() > 0,
        ensures
            final(self).wf(),
            id == (StorageId { shard_idx, slot_idx: old(self).next() }),
            old(self).slot(id.slot_idx as int) is None,
            final(self).slot(id.slot_idx as int) == Some(
                Slot { block: storage@, refs: 1nat },
            ),
            forall|i: int|
                i != id.slot_idx ==> #[trigger] final(self).slot(i) == old(self).slot(i),
            final(self).room() == old(self).room() - 1,
            old(self).free_indices@.len() > 0 ==> {
                &&& final(self).free_indices@ == old(self).free_indices@.drop_last()
                &&& final(self).slots@.len() == old(self).slots@.len()
            },
            old(self).free_indices@.len() == 0 ==> {
                &&& final(self).free_indices@ == old(self).free_indices@
                &&& final(self).slots@.len() == old(self).slots@.len() + 1
            },
    {
        let slot = CpuStorageSlot { storage, ref_count: 1 };
        let ghost before = *self;
        if let Some(idx) = self.free_indices.pop() {
            self.slots[idx as usize] = Some(slot);
            proof {
                assert(before.free_indices@.last() == idx);
                assert(before.free_indices@[before.free_indices@.len() - 1] == idx);
                assert forall|i: int|
                    0 <= i < self.slots@.len() && (#[trigger] self.slots@[i]) is None
                    implies self.free_indices@.contains(i as u32) by {
                    assert(before.slots@[i] is None);
                    assert(before.free_indices@.contains(i as u32));
                    let k = choose|k: int|
                        0 <= k < before.free_indices@.len() && before.free_indices@[k] == i as u32;
                    assert(self.free_indices@[k] == i as u32);
                }
                assert forall|i: int| 0 <= i < self.free_indices@.len() implies (
                #[trigger] self.free_indices@[i]) < self.slots@.len()
                    && self.slots@[self.free_indices@[i] as int] is None by {
                    assert(self.free_indices@[i] == before.free_indices@[i]);
                }
            }
            StorageId { shard_idx, slot_idx: idx }
        } else {
            let idx: u32 = self.slots.len() as u32;
            self.slots.push(Some(slot));
            proof {
                assert forall|i: int|
                    0 <= i < self.slots@.len() && (#[trigger] self.slots@[i]) is None
                    implies self.free_indices@.contains(i as u32) by {
                    assert(before.slots@[i] is None);
                }
            }
            StorageId { shard_idx, slot_idx: idx }
        }
    }

    /// Increments the reference count of a storage slot.
    pub fn increment(&mut self, slot_idx: u32)
        requires
            old(self).wf(),
            old(self).slot(slot_idx as int) matches Some(s) ==> s.refs < usize::MAX,
        ensures
            final(self).wf(),
            final(self).slot(slot_idx as int) == (match old(self).slot(slot_idx as int) {
                Some(s) => Some(Slot { block: s.block, refs: s.refs + 1 }),
                None => None,
            }),
            forall|i: int| i != slot_idx ==> #[trigger] final(self).slot(i) == old(self).slot(i),
            final(self).free_indices@ == old(self).free_indices@,
            final(self).slots@.len() == old(self).slots@.len(),
    {
        let ghost before = *self;
        let i: usize = slot_idx as usize;
        if i < self.slots.len() {
            match &mut self.slots[i] {
                Some(slot) => {
                    slot.ref_count = slot.ref_count + 1;
                },
                None => {},
            }
        }
        proof {
            assert forall|k: int|
                0 <= k < self.slots@.len() && (#[trigger] self.slots@[k]) is None
                implies self.free_indices@.contains(k as u32) by {
                assert(before.slots@[k] is None);
            }
        }
    }

    /// Decrements the reference count of a storage slot, freeing it if it reaches 0.
    pub fn decrement(&mut self, slot_idx: u32)
        requires
            old(self).wf(),
        ensures
            final(self).wf(),
            final(self).slot(slot_idx as int) == (match old(self).slot(slot_idx as int) {
                Some(s) => if s.refs == 1 {
                    None
                } else {
                    Some(Slot { block: s.block, refs: (s.refs - 1) as nat })
                },
                None => None,
            }),
            forall|i: int| i != slot_idx ==> #[trigger] final(self).slot(i) == old(self).slot(i),
            final(self).free_indices@ == (match old(self).slot(slot_idx as int) {
                Some(s) => if s.refs == 1 {
                    old(self).free_indices@.push(slot_idx)
                } else {
                    old(self).free_indices@
                },
                None => old(self).free_indices@,
            }),
            final(self).slots@.len() == old(self).slots@.len(),
    {
        let ghost before = *self;
        let i: usize = slot_idx as usize;
        let mut free = false;
        if i < self.slots.len() {
            assert(before.slots@[i as int] matches Some(s) ==> s.ref_count > 0);
            match &mut self.slots[i] {
                Some(slot) => {
                    slot.ref_count = slot.ref_count - 1;
                    if slot.ref_count == 0 {
                        free = true;
                    }
                },
                None => {},
            }
        }
        if free {
            self.slots[i] = None;
            self.free_indices.push(slot_idx);
        }
        proof {
            assert forall|k: int|
                0 <= k < self.slots@.len() && (#[trigger] self.slots@[k]) is None
                implies self.free_indices@.contains(k as u32) by {
                if k == i {
                    if before.slots@[k] is Some {
                        assert(self.free_indices@[self.free_indices@.len() - 1] == k as u32);
                    } else {
                        assert(before.free_indices@.contains(k as u32));
                    }
                } else {
                    assert(before.slots@[k] is None);
                    assert(before.free_indices@.contains(k as u32));
                    let j = choose|j: int|
                        0 <= j < before.free_indices@.len() && before.free_indices@[j] == k as u32;
                    assert(self.free_indices@[j] == k as u32);
                }
            }
            assert forall|k: int| 0 <= k < self.free_indices@.len() implies (
            #[trigger] self.free_indices@[k]) < self.slots@.len()
                && self.slots@[self.free_indices@[k] as int] is None by {
                if k < before.free_indices@.len() {
                    assert(before.free_indices@[k] == self.free_indices@[k]);
                    assert(before.slots@[before.free_indices@[k] as int] is None);
                }
            }
            assert forall|a: int, b: int| 0 <= a < b < self.free_indices@.len() implies
                self.free_indices@[a] != self.free_indices@[b] by {
                if b == before.free_indices@.len() {
                    assert(before.slots@[before.free_indices@[a] as int] is None);
                }
            }
        }
    }
}

impl<S: Scalar> CpuArenaShard<S> {
    /// Allocates a new zero-filled storage block in this shard.
    pub fn alloc_zeros(&mut self, numel: usize, dtype: DType, shard_idx: u8) -> (id: StorageId)
        requires
            old(self).wf(),
            old(self).room() > 0,
        ensures
            final(self).wf(),
            id == (StorageId { shard_idx, slot_idx: old(self).next() }),
            old(self).slot(id.slot_idx as int) is None,
            final(self).slot(id.slot_idx as int) == Some(
                Slot { block: zero_block::<S>(numel as nat, dtype), refs: 1nat },
            ),
            forall|i: int|
                i != id.slot_idx ==> #[trigger] final(self).slot(i) == old(self).slot(i),
            final(self).room() == old(self).room() - 1,
            old(self).free_indices@.len() > 0 ==> {
                &&& final(self).free_indices@ == old(self).free_indices@.drop_last()
                &&& final(self).slots@.len() == old(self).slots@.len()
            },
            old(self).free_indices@.len() == 0 ==> {
                &&& final(self).free_indices@ == old(self).free_indices@
                &&& final(self).slots@.len() == old(self).slots@.len() + 1
            },
    {
        self.alloc_raw(zero_storage(numel, dtype), shard_idx)
    }
}

impl<S> Default for CpuArenaShard<S> {
    fn default() -> (s: Self)
        ensures
            s.wf(),
            s.slots@.len() == 0,
            s.free_indices@.len() == 0,
    {
        CpuArenaShard::new()
    }
}

} // verus!
