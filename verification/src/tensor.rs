//! Tensor handles and the memory behind them.
use vstd::prelude::*;
use crate::arena::Arena;
use crate::cells::{Cells, Meta};
use crate::cuda::slots::{CudaSlot, CudaSlots};
use crate::dense::Value;
use crate::device::Device;
use crate::dtype::DType;
use crate::index::{bounded, numel, row_major, sized};
use crate::perm::{fits_storage, strided};
use crate::shape::Shape;
use crate::storage::{Block, Slot, StorageId};

verus! {

/// A tensor handle: where its elements are stored, and how they are laid out there.
///
/// Several handles can share one storage block. Each holds one reference to the block and has a
/// metadata cell of its own; both are given back when the handle is released.
#[derive(Debug)]
pub struct Tensor {
    pub storage_id: StorageId,
    pub shape: Shape,
    pub strides: Shape,
    pub dtype: DType,
    pub device: Device,
    pub cell: usize,
}

/// A storage block on one of the devices.
pub ghost enum Key {
    Cpu(StorageId),
    Cuda(u32),
}

/// Storage blocks, their owners, and the metadata of the handles.
#[derive(Debug)]
pub struct Memory<S> {
    /// CPU storage.
    pub arena: Arena<S>,
    /// CUDA storage.
    pub cuda: CudaSlots,
    /// Handle metadata.
    pub cells: Cells,
}

impl<S> Memory<S> {
    pub open spec fn wf(self) -> bool {
        &&& self.arena.wf()
        &&& self.cuda.wf()
        &&& self.cells.wf()
    }

    /// How many references a block has; 0 when it is not in use.
    pub open spec fn refs(self, key: Key) -> nat {
        match key {
            Key::Cpu(id) => if self.arena@.contains_key(id) {
                self.arena@[id].refs
            } else {
                0
            },
            Key::Cuda(i) => if self.cuda@.contains_key(i) {
                self.cuda@[i].ref_count as nat
            } else {
                0
            },
        }
    }

    /// Memory without blocks and handles.
    pub fn new() -> (m: Self)
        ensures
            m.wf(),
            m.arena@ == Map::<StorageId, Slot<S>>::empty(),
            m.arena.shard() == 0,
            m.arena.room() == u32::MAX + 1,
            m.cells.room() == usize::MAX,
            m.cuda@ == Map::<u32, CudaSlot>::empty(),
            m.cells@ == Map::<usize, Meta>::empty(),
    {
        let m = Memory { arena: Arena::new(), cuda: CudaSlots::new(), cells: Cells::new() };
        assert(m.cuda@ =~= Map::<u32, CudaSlot>::empty());
        m
    }
}

impl Tensor {
    /// The extents.
    pub open spec fn dims(self) -> Seq<usize> {
        self.shape@
    }

    /// The block behind the handle.
    pub open spec fn key(self) -> Key {
        match self.device {
            Device::Cpu => Key::Cpu(self.storage_id),
            Device::Cuda(_) => Key::Cuda(self.storage_id.slot_idx),
        }
    }

    /// The layout reads every element within a block of as many elements as the shape has.
    pub open spec fn laid_out(self) -> bool {
        &&& self.shape.wf()
        &&& self.strides.wf()
        &&& self.strides@.len() == self.shape@.len()
        &&& self.shape@.len() <= 8
        &&& sized(self.shape@)
        &&& fits_storage(self.shape@, self.strides@, numel(self.shape@))
    }

    /// The block behind the handle is in use and holds what the handle says.
    pub open spec fn backed<S>(self, mem: Memory<S>) -> bool {
        match self.device {
            Device::Cpu => {
                &&& mem.arena@.contains_key(self.storage_id)
                &&& mem.arena@[self.storage_id].block.dtype() == self.dtype
                &&& mem.arena@[self.storage_id].block.len() == numel(self.shape@)
            },
            Device::Cuda(_) => {
                &&& mem.cuda@.contains_key(self.storage_id.slot_idx)
                &&& mem.cuda@[self.storage_id.slot_idx].len == numel(self.shape@)
                &&& self.dtype == DType::F32
            },
        }
    }

    /// The handle can be used.
    pub open spec fn valid<S>(self, mem: Memory<S>) -> bool {
        &&& self.laid_out()
        &&& self.backed(mem)
        &&& mem.cells@.contains_key(self.cell)
    }

    /// The metadata of the handle.
    pub open spec fn meta<S>(self, mem: Memory<S>) -> Meta {
        mem.cells@[self.cell]
    }

    /// The block of a CPU tensor.
    pub open spec fn block<S>(self, mem: Memory<S>) -> Block<S> {
        mem.arena@[self.storage_id].block
    }

    /// The tensor holds 32-bit floats on the CPU.
    pub open spec fn is_f32<S>(self, mem: Memory<S>) -> bool {
        &&& self.valid(mem)
        &&& bounded(self.shape@)
        &&& self.device is Cpu
        &&& self.dtype == DType::F32
    }

    /// The elements of a CPU tensor of 32-bit floats in row-major order.
    pub open spec fn value<S>(self, mem: Memory<S>) -> Value<S> {
        Value {
            dims: self.shape@,
            data: strided(self.block(mem)->F32_0, self.shape@, self.strides@),
        }
    }

    /// The layout is row-major.
    pub open spec fn contiguous_spec(self) -> bool {
        self.strides@ == row_major(self.shape@)
    }
}

/// `m` with one more reference to a block in use.
pub open spec fn retained<S>(old_mem: Memory<S>, new_mem: Memory<S>, key: Key) -> bool {
    match key {
        Key::Cpu(id) => {
            &&& new_mem.cuda@ == old_mem.cuda@
            &&& new_mem.arena@ == old_mem.arena@.insert(
                id,
                Slot { block: old_mem.arena@[id].block, refs: old_mem.arena@[id].refs + 1 },
            )
        },
        Key::Cuda(i) => {
            &&& new_mem.arena@ == old_mem.arena@
            &&& new_mem.cuda@ == old_mem.cuda@.insert(
                i,
                CudaSlot {
                    len: old_mem.cuda@[i].len,
                    ref_count: (old_mem.cuda@[i].ref_count + 1) as usize,
                },
            )
        },
    }
}

/// `m` with one reference to a block less; the block is freed with its last one.
pub open spec fn released<S>(old_mem: Memory<S>, new_mem: Memory<S>, key: Key) -> bool {
    match key {
        Key::Cpu(id) => {
            &&& new_mem.cuda@ == old_mem.cuda@
            &&& new_mem.arena@ == (if old_mem.arena@[id].refs == 1 {
                old_mem.arena@.remove(id)
            } else {
                old_mem.arena@.insert(
                    id,
                    Slot {
                        block: old_mem.arena@[id].block,
                        refs: (old_mem.arena@[id].refs - 1) as nat,
                    },
                )
            })
        },
        Key::Cuda(i) => {
            &&& new_mem.arena@ == old_mem.arena@
            &&& new_mem.cuda@ == (if old_mem.cuda@[i].ref_count == 1 {
                old_mem.cuda@.remove(i)
            } else {
                old_mem.cuda@.insert(
                    i,
                    CudaSlot {
                        len: old_mem.cuda@[i].len,
                        ref_count: (old_mem.cuda@[i].ref_count - 1) as usize,
                    },
                )
            })
        },
    }
}

/// Both memories can hold as many further blocks and cells.
pub open spec fn same_room<S>(a: Memory<S>, b: Memory<S>) -> bool {
    &&& a.arena.room() == b.arena.room()
    &&& a.arena.shard() == b.arena.shard()
}

impl<S> Memory<S> {
    /// Another handle to a tensor's block, with the given layout; it starts with the metadata of
    /// the tensor.
    pub fn share(&mut self, t: &Tensor, shape: Shape, strides: Shape) -> (r: Tensor)
        requires
            old(self).wf(),
            t.valid(*old(self)),
            old(self).refs(t.key()) < usize::MAX,
            old(self).cells.room() > 0,
        ensures
            final(self).wf(),
            r == (Tensor { shape, strides, cell: r.cell, ..*t }),
            !old(self).cells@.contains_key(r.cell),
            final(self).cells@ == old(self).cells@.insert(r.cell, t.meta(*old(self))),
            final(self).cells.room() == old(self).cells.room() - 1,
            retained(*old(self), *final(self), t.key()),
            same_room(*old(self), *final(self)),
    {
        match t.device {
            Device::Cpu => {
                self.arena.increment(t.storage_id);
            },
            Device::Cuda(_) => {
                self.cuda.cuda_refcount_inc(t.storage_id, t.device);
            },
        }
        let meta = self.cells.get(t.cell);
        let cell = self.cells.create(meta);
        Tensor {
            storage_id: t.storage_id,
            shape,
            strides,
            dtype: t.dtype,
            device: t.device,
            cell,
        }
    }

    /// Gives a handle back: its reference to the block, and its metadata cell. Returns whether
    /// the block was freed.
    pub(crate) fn give_back(&mut self, t: Tensor) -> (freed: bool)
        requires
            old(self).wf(),
            t.valid(*old(self)),
        ensures
            final(self).wf(),
            freed == (old(self).refs(t.key()) == 1),
            final(self).cells@ == old(self).cells@.remove(t.cell),
            final(self).cells.room() == old(self).cells.room() + 1,
            released(*old(self), *final(self), t.key()),
            final(self).arena.room() >= old(self).arena.room(),
            final(self).arena.shard() == old(self).arena.shard(),
            freed && t.device is Cpu && t.storage_id.shard_idx == old(self).arena.shard()
                ==> final(self).arena.next() == t.storage_id,
    {
        let freed = match t.device {
            Device::Cpu => self.arena.decrement(t.storage_id),
            Device::Cuda(_) => self.cuda.cuda_refcount_dec(t.storage_id, t.device),
        };
        self.cells.discard(t.cell);
        freed
    }
}

} // verus!
