//! Constructing tensors and moving them between devices.
use vstd::prelude::*;
use crate::cells::Meta;
use crate::cuda::command::{requests, Command, Request};
use crate::cuda::slots::{no_fit, total_bytes, CudaSlot, Served};
use crate::dense::{copied, Dense, Value};
use crate::device::Device;
use crate::dtype::DType;
use crate::handle::{
    added, gather, has_room, lemma_undisturbed, no_meta, same_meta, same_state, undisturbed,
};
use crate::index::{lemma_sized_fits, numel, sized};
use crate::perm::lemma_strided_row_major;
use crate::runtime::{holds_cell, Runtime};
use crate::scalar::Scalar;
use crate::shape::Shape;
use crate::storage::{zero_block, zero_storage, Block, CpuStorage, StorageId};
use crate::tape::{count_key, lemma_retained, lemma_valid_kept, lemma_valid_refs};
use crate::tensor::{retained, same_room, Key, Memory, Tensor};

verus! {

/// The command that serves an allocation on the device.
pub open spec fn serve_request<S>(slot: u32, len: usize, reused: bool) -> Request<S> {
    if reused {
        Request::Clear { slot }
    } else {
        Request::Create { slot, len }
    }
}

/// A new buffer was made on the device, with `t` as its only handle.
pub open spec fn device_added<S>(a: Runtime<S>, b: Runtime<S>, t: Tensor, meta: Meta) -> bool {
    let len = numel(t.shape@) as usize;
    let slot = t.storage_id.slot_idx;
    &&& same_state(a, b)
    &&& t.device is Cuda
    &&& t.storage_id.shard_idx == 0
    &&& !a.mem.cuda@.contains_key(slot)
    &&& b.mem.cuda@ == a.mem.cuda@.insert(slot, CudaSlot { len, ref_count: 1 })
    &&& b.mem.arena == a.mem.arena
    &&& !a.mem.cells@.contains_key(t.cell)
    &&& b.mem.cells@ == a.mem.cells@.insert(t.cell, meta)
    &&& b.mem.cells.room() == a.mem.cells.room() - 1
    &&& requests(b.queue@) == requests(a.queue@).push(
        serve_request(slot, len, !no_fit(a.mem.cuda.pool(), len)),
    )
}

/// The device can hold `count` more buffers with `elems` elements in all.
pub open spec fn device_roomy<S>(rt: Runtime<S>, count: int, elems: int) -> bool {
    rt.mem.cuda.can_grow_by(count, elems)
}

/// The device can hold a buffer of `len` elements.
pub open spec fn device_room<S>(rt: Runtime<S>, len: usize) -> bool {
    no_fit(rt.mem.cuda.pool(), len) ==> rt.mem.cuda.can_grow(len)
}

impl<S> Runtime<S> {
    /// Makes a row-major tensor of zeros on a CUDA device.
    pub(crate) fn adopt_cuda(&mut self, shape: Shape, device: Device, meta: Meta) -> (t: Tensor)
        requires
            old(self).wf(),
            old(self).mem.cells.room() > 0,
            sized(shape@),
            device is Cuda,
            device_room(*old(self), numel(shape@) as usize),
        ensures
            final(self).wf(),
            device_added(*old(self), *final(self), t, meta),
            final(self).mem.cuda.slots_spec().len() <= old(self).mem.cuda.slots_spec().len() + 1,
            total_bytes(final(self).mem.cuda.slots_spec()) <= total_bytes(
                old(self).mem.cuda.slots_spec(),
            ) + numel(shape@) * 4,
            t.owned(*final(self)),
            undisturbed(*old(self), *final(self)),
            same_meta(*old(self), *final(self)),
            final(self).holds() == old(self).holds(),
            t.shape == shape,
            t.contiguous_spec(),
            t.dtype == DType::F32,
            t.device == device,
    {
        let ghost before = *self;
        let _ = shape.rank();
        proof {
            lemma_sized_fits(shape@);
            lemma_strided_row_major(Seq::new(numel(shape@), |i: int| 0u8), shape@);
        }
        let strides = shape.contiguous_strides();
        let len = shape.numel();
        let (storage_id, served) = self.mem.cuda.cuda_alloc(len);
        let command: Command<S> = match served {
            Served::Reused => Command::Clear { slot: storage_id.slot_idx },
            Served::Fresh => Command::Create { slot: storage_id.slot_idx, len },
        };
        let ghost queue0 = self.queue@;
        self.queue.push(command);
        assert(requests(self.queue@) =~= requests(queue0).push(command@));
        let cell = self.mem.cells.create(meta);
        let t = Tensor { storage_id, shape, strides, dtype: DType::F32, device, cell };
        proof {
            assert(self.holds() == before.holds());
            let hs = before.holds();
            assert forall|k: Key| #[trigger] self.mem.refs(k) >= before.mem.refs(k) by {}
            lemma_undisturbed(before, *self);
            assert(count_key(hs, t.key()) <= before.mem.refs(t.key()));
            if holds_cell(hs, t.cell) {
                let i = choose|i: int| 0 <= i < hs.len() && (#[trigger] hs[i]).cell == t.cell;
                assert(hs[i].valid(before.mem));
            }
        }
        t
    }

    /// Asks the device to copy numbers into a tensor's buffer.
    pub(crate) fn write_cuda(&mut self, t: &Tensor, data: Vec<S>)
        requires
            t.device is Cuda,
        ensures
            same_state(*old(self), *final(self)),
            final(self).mem == old(self).mem,
            requests(final(self).queue@) == requests(old(self).queue@).push(
                Request::Write { slot: t.storage_id.slot_idx, data: data@ },
            ),
    {
        let ghost queue0 = self.queue@;
        let command: Command<S> = Command::Write { slot: t.storage_id.slot_idx, data };
        self.queue.push(command);
        assert(requests(self.queue@) =~= requests(queue0).push(command@));
    }
}

impl Tensor {
    /// Creates a zero-filled tensor on a specific device.
    #[must_use]
    pub fn zeros_on<S: Scalar>(
        shape: Shape,
        dtype: DType,
        device: Device,
        rt: &mut Runtime<S>,
    ) -> (t: Tensor)
        requires
            old(rt).wf(),
            sized(shape@),
            old(rt).mem.cells.room() > 0,
            device is Cpu ==> old(rt).mem.arena.room() > 0,
            device is Cuda ==> {
                &&& old(rt).hooks.cuda_memory
                &&& dtype == DType::F32
                &&& device_room(*old(rt), numel(shape@) as usize)
            },
        ensures
            final(rt).wf(),
            t.owned(*final(rt)),
            undisturbed(*old(rt), *final(rt)),
            same_meta(*old(rt), *final(rt)),
            final(rt).holds() == old(rt).holds(),
            t.shape == shape,
            t.contiguous_spec(),
            t.dtype == dtype,
            t.device == device,
            device is Cpu ==> added(
                *old(rt),
                *final(rt),
                t,
                zero_block::<S>(numel(shape@), dtype),
                no_meta(),
            ),
            device is Cuda ==> device_added(*old(rt), *final(rt), t, no_meta()),
    {
        let _ = shape.rank();
        proof {
            lemma_sized_fits(shape@);
        }
        let meta = Meta { node_id: None, requires_grad: false };
        match device {
            Device::Cpu => {
                let storage = zero_storage(shape.numel(), dtype);
                rt.adopt(storage, shape, dtype, meta)
            },
            Device::Cuda(_) => rt.adopt_cuda(shape, device, meta),
        }
    }

    /// Creates a zero-filled CPU tensor.
    #[must_use]
    pub fn zeros<S: Scalar>(shape: Shape, dtype: DType, rt: &mut Runtime<S>) -> (t: Tensor)
        requires
            old(rt).wf(),
            sized(shape@),
            has_room(*old(rt), 1, 1),
        ensures
            final(rt).wf(),
            t.owned(*final(rt)),
            undisturbed(*old(rt), *final(rt)),
            same_meta(*old(rt), *final(rt)),
            final(rt).holds() == old(rt).holds(),
            t.shape == shape,
            t.contiguous_spec(),
            t.dtype == dtype,
            t.device == Device::Cpu,
            added(
                *old(rt),
                *final(rt),
                t,
                zero_block::<S>(numel(shape@), dtype),
                no_meta(),
            ),
    {
        Tensor::zeros_on(shape, dtype, Device::Cpu, rt)
    }

    /// Creates a CPU tensor of 32-bit floats from a slice.
    #[must_use]
    pub fn from_f32<S: Scalar>(data: &[S], shape: Shape, rt: &mut Runtime<S>) -> (t: Tensor)
        requires
            old(rt).wf(),
            sized(shape@),
            data@.len() == numel(shape@),
            has_room(*old(rt), 1, 1),
        ensures
            final(rt).wf(),
            t.owned(*final(rt)),
            undisturbed(*old(rt), *final(rt)),
            same_meta(*old(rt), *final(rt)),
            final(rt).holds() == old(rt).holds(),
            t.shape == shape,
            t.contiguous_spec(),
            t.dtype == DType::F32,
            t.device == Device::Cpu,
            t.value(final(rt).mem) == (Value { dims: shape@, data: data@ }),
            added(*old(rt), *final(rt), t, Block::F32(data@), no_meta()),
    {
        proof {
            lemma_sized_fits(shape@);
            lemma_strided_row_major(data@, shape@);
        }
        let meta = Meta { node_id: None, requires_grad: false };
        rt.adopt(CpuStorage::F32(copied(data)), shape, DType::F32, meta)
    }

    /// Creates a CPU tensor from an i32 slice.
    #[must_use]
    pub fn from_i32<S: Scalar>(data: &[i32], shape: Shape, rt: &mut Runtime<S>) -> (t: Tensor)
        requires
            old(rt).wf(),
            sized(shape@),
            data@.len() == numel(shape@),
            has_room(*old(rt), 1, 1),
        ensures
            final(rt).wf(),
            t.owned(*final(rt)),
            undisturbed(*old(rt), *final(rt)),
            same_meta(*old(rt), *final(rt)),
            final(rt).holds() == old(rt).holds(),
            t.shape == shape,
            t.contiguous_spec(),
            t.dtype == DType::I32,
            t.device == Device::Cpu,
            added(*old(rt), *final(rt), t, Block::I32(data@), no_meta()),
    {
        let meta = Meta { node_id: None, requires_grad: false };
        rt.adopt(CpuStorage::I32(copied(data)), shape, DType::I32, meta)
    }

    /// Creates a CPU tensor from an i64 slice.
    #[must_use]
    pub fn from_i64<S: Scalar>(data: &[i64], shape: Shape, rt: &mut Runtime<S>) -> (t: Tensor)
        requires
            old(rt).wf(),
            sized(shape@),
            data@.len() == numel(shape@),
            has_room(*old(rt), 1, 1),
        ensures
            final(rt).wf(),
            t.owned(*final(rt)),
            undisturbed(*old(rt), *final(rt)),
            same_meta(*old(rt), *final(rt)),
            final(rt).holds() == old(rt).holds(),
            t.shape == shape,
            t.contiguous_spec(),
            t.dtype == DType::I64,
            t.device == Device::Cpu,
            added(*old(rt), *final(rt), t, Block::I64(data@), no_meta()),
    {
        let meta = Meta { node_id: None, requires_grad: false };
        rt.adopt(CpuStorage::I64(copied(data)), shape, DType::I64, meta)
    }

    /// Creates a CPU tensor from a bool slice.
    #[must_use]
    pub fn from_bool<S: Scalar>(data: &[bool], shape: Shape, rt: &mut Runtime<S>) -> (t: Tensor)
        requires
            old(rt).wf(),
            sized(shape@),
            data@.len() == numel(shape@),
            has_room(*old(rt), 1, 1),
        ensures
            final(rt).wf(),
            t.owned(*final(rt)),
            undisturbed(*old(rt), *final(rt)),
            same_meta(*old(rt), *final(rt)),
            final(rt).holds() == old(rt).holds(),
            t.shape == shape,
            t.contiguous_spec(),
            t.dtype == DType::Bool,
            t.device == Device::Cpu,
            added(*old(rt), *final(rt), t, Block::Bool(data@), no_meta()),
    {
        let meta = Meta { node_id: None, requires_grad: false };
        rt.adopt(CpuStorage::Bool(copied(data)), shape, DType::Bool, meta)
    }

    /// Creates a CUDA tensor from CPU data.
    #[must_use]
    pub fn from_f32_cuda<S: Scalar>(
        data: &[S],
        shape: Shape,
        device: Device,
        rt: &mut Runtime<S>,
    ) -> (t: Tensor)
        requires
            old(rt).wf(),
            old(rt).hooks.cuda_memory,
            sized(shape@),
            data@.len() == numel(shape@),
            device is Cuda,
            old(rt).mem.cells.room() > 0,
            device_room(*old(rt), numel(shape@) as usize),
        ensures
            final(rt).wf(),
            t.owned(*final(rt)),
            undisturbed(*old(rt), *final(rt)),
            same_meta(*old(rt), *final(rt)),
            final(rt).holds() == old(rt).holds(),
            t.shape == shape,
            t.contiguous_spec(),
            t.dtype == DType::F32,
            t.device == device,
            device_filled(*old(rt), *final(rt), t, no_meta(), data@),
    {
        let meta = Meta { node_id: None, requires_grad: false };
        device_tensor(data, shape, device, meta, rt)
    }

    /// Creates a handle directly from components. It takes over one reference to the block.
    #[must_use]
    pub fn from_components<S>(
        storage_id: StorageId,
        shape: Shape,
        strides: Shape,
        dtype: DType,
        device: Device,
        rt: &mut Runtime<S>,
    ) -> (t: Tensor)
        requires
            old(rt).wf(),
            old(rt).mem.cells.room() > 0,
        ensures
            final(rt).wf(),
            t == (Tensor { storage_id, shape, strides, dtype, device, cell: t.cell }),
            same_state(*old(rt), *final(rt)),
            final(rt).queue == old(rt).queue,
            final(rt).mem.arena == old(rt).mem.arena,
            final(rt).mem.cuda == old(rt).mem.cuda,
            !old(rt).mem.cells@.contains_key(t.cell),
            final(rt).mem.cells@ == old(rt).mem.cells@.insert(t.cell, no_meta()),
            final(rt).mem.cells.room() == old(rt).mem.cells.room() - 1,
            undisturbed(*old(rt), *final(rt)),
            t.laid_out() && t.backed(old(rt).mem) ==> t.valid(final(rt).mem),
            t.laid_out() && t.backed(old(rt).mem) && old(rt).owners(t.key()) > 0 ==> t.owned(
                *final(rt),
            ),
    {
        let ghost before = *rt;
        let cell = rt.mem.cells.create(Meta { node_id: None, requires_grad: false });
        let t = Tensor { storage_id, shape, strides, dtype, device, cell };
        proof {
            assert(rt.holds() == before.holds());
            lemma_undisturbed(before, *rt);
            let hs = before.holds();
            if holds_cell(hs, t.cell) {
                let i = choose|i: int| 0 <= i < hs.len() && (#[trigger] hs[i]).cell == t.cell;
                assert(hs[i].valid(before.mem));
            }
        }
        t
    }

    /// Another handle to the same block, with the same metadata.
    #[must_use]
    pub fn clone<S>(&self, rt: &mut Runtime<S>) -> (r: Tensor)
        requires
            old(rt).wf(),
            self.valid(old(rt).mem),
            old(rt).mem.refs(self.key()) < usize::MAX,
            old(rt).mem.cells.room() > 0,
        ensures
            final(rt).wf(),
            shared(*old(rt), *final(rt), *self, r, self.shape, self.strides),
            r.owned(*final(rt)),
            undisturbed(*old(rt), *final(rt)),
            same_meta(*old(rt), *final(rt)),
            final(rt).holds() == old(rt).holds(),
    {
        share(self, self.shape, self.strides, rt)
    }

    /// Whether the elements can be taken to another device from the host.
    pub open spec fn movable<S>(self, rt: Runtime<S>, device: Device) -> bool {
        &&& rt.mem.cells.room() > 0
        &&& device is Cpu ==> rt.mem.arena.room() > 0
        &&& device is Cuda ==> rt.hooks.cuda_memory && device_room(
            rt,
            numel(self.shape@) as usize,
        )
    }

    /// Makes a copy on another device out of the elements in row-major order.
    ///
    /// The copy requires gradients if the tensor does; it has no node on the tape.
    #[must_use]
    pub fn moved<S: Scalar>(&self, data: &[S], device: Device, rt: &mut Runtime<S>) -> (t: Tensor)
        requires
            old(rt).wf(),
            self.valid(old(rt).mem),
            data@.len() == numel(self.shape@),
            self.movable(*old(rt), device),
        ensures
            final(rt).wf(),
            t.owned(*final(rt)),
            undisturbed(*old(rt), *final(rt)),
            same_meta(*old(rt), *final(rt)),
            final(rt).holds() == old(rt).holds(),
            t.shape == self.shape,
            t.contiguous_spec(),
            t.dtype == DType::F32,
            t.device == device,
            ({
                let meta = Meta {
                    node_id: None,
                    requires_grad: self.meta(old(rt).mem).requires_grad,
                };
                &&& device is Cpu ==> added(*old(rt), *final(rt), t, Block::F32(data@), meta)
                    && t.value(final(rt).mem) == (Value { dims: self.shape@, data: data@ })
                &&& device is Cuda ==> device_filled(*old(rt), *final(rt), t, meta, data@)
            }),
    {
        let requires_grad = self.requires_grad(rt);
        let meta = Meta { node_id: None, requires_grad };
        match device {
            Device::Cpu => {
                proof {
                    lemma_sized_fits(self.shape@);
                    lemma_strided_row_major(data@, self.shape@);
                }
                rt.adopt(CpuStorage::F32(copied(data)), self.shape, DType::F32, meta)
            },
            Device::Cuda(_) => device_tensor(data, self.shape, device, meta, rt),
        }
    }

    /// Moves a CPU tensor of 32-bit floats to a device; on the same device, another handle.
    ///
    /// The elements of a CUDA tensor have to be read from the device first: see
    /// [`moved`](Self::moved).
    #[must_use]
    pub fn to<S: Scalar>(&self, device: Device, rt: &mut Runtime<S>) -> (t: Tensor)
        requires
            old(rt).wf(),
            self.valid(old(rt).mem),
            self.device == device ==> old(rt).mem.refs(self.key()) < usize::MAX && old(
                rt,
            ).mem.cells.room() > 0,
            self.device != device ==> {
                &&& self.is_f32(old(rt).mem)
                &&& self.contiguous_spec()
                &&& self.movable(*old(rt), device)
            },
        ensures
            final(rt).wf(),
            t.owned(*final(rt)),
            undisturbed(*old(rt), *final(rt)),
            same_meta(*old(rt), *final(rt)),
            final(rt).holds() == old(rt).holds(),
            t.shape == self.shape,
            t.device == device,
            self.device != device ==> t.contiguous_spec() && t.dtype == DType::F32,
            self.device == device ==> shared(
                *old(rt),
                *final(rt),
                *self,
                t,
                self.shape,
                self.strides,
            ),
            self.device != device ==> device_filled(
                *old(rt),
                *final(rt),
                t,
                Meta { node_id: None, requires_grad: self.meta(old(rt).mem).requires_grad },
                self.value(old(rt).mem).data,
            ),
    {
        if self.device == device {
            return self.clone(rt);
        }
        let data = self.to_vec_f32(rt);
        self.moved(&data, device, rt)
    }

    /// Reads all values of a contiguous F32 tensor.
    #[must_use]
    pub fn to_vec_f32<S: Scalar>(&self, rt: &Runtime<S>) -> (v: Vec<S>)
        requires
            rt.wf(),
            self.is_f32(rt.mem),
            self.contiguous_spec(),
        ensures
            v@ == self.value(rt.mem).data,
    {
        proof {
            lemma_contiguous_value(*self, rt.mem);
        }
        match rt.mem.arena.storage(self.storage_id) {
            CpuStorage::F32(data) => copied(data),
            _ => Vec::new(),
        }
    }

    /// Reads a value at a flat index of a contiguous F32 tensor.
    #[must_use]
    pub fn get_f32<S: Scalar>(&self, index: usize, rt: &Runtime<S>) -> (v: S)
        requires
            rt.wf(),
            self.is_f32(rt.mem),
            self.contiguous_spec(),
            index < numel(self.shape@),
        ensures
            v == self.value(rt.mem).data[index as int],
    {
        proof {
            lemma_contiguous_value(*self, rt.mem);
        }
        match rt.mem.arena.storage(self.storage_id) {
            CpuStorage::F32(data) => data[index],
            _ => S::constant(crate::scalar::Constant::Zero),
        }
    }

    /// The elements of an F32 tensor in row-major order, whatever its layout.
    #[must_use]
    pub fn read<S: Scalar>(&self, rt: &Runtime<S>) -> (d: Dense<S>)
        requires
            rt.wf(),
            self.is_f32(rt.mem),
        ensures
            d.wf(),
            d@ == self.value(rt.mem),
            d.shape_spec() == self.shape,
    {
        proof {
            lemma_sized_fits(self.shape@);
        }
        match rt.mem.arena.storage(self.storage_id) {
            CpuStorage::F32(data) => Dense::new(
                self.shape,
                gather(data, &self.shape, &self.strides),
            ),
            _ => {
                assert(false);
                vstd::pervasive::unreached()
            },
        }
    }
}

/// A contiguous tensor shows its block as it is.
pub proof fn lemma_contiguous_value<S>(t: Tensor, mem: Memory<S>)
    requires
        t.is_f32(mem),
        t.contiguous_spec(),
    ensures
        t.value(mem).data == t.block(mem)->F32_0,
        t.block(mem) is F32,
        t.value(mem).data.len() == numel(t.shape@),
{
    lemma_sized_fits(t.shape@);
    lemma_strided_row_major(t.block(mem)->F32_0, t.shape@);
}

/// A new buffer was made on the device and filled.
pub open spec fn device_filled<S>(
    a: Runtime<S>,
    b: Runtime<S>,
    t: Tensor,
    meta: Meta,
    data: Seq<S>,
) -> bool {
    let len = numel(t.shape@) as usize;
    let slot = t.storage_id.slot_idx;
    &&& same_state(a, b)
    &&& t.device is Cuda
    &&& t.storage_id.shard_idx == 0
    &&& !a.mem.cuda@.contains_key(slot)
    &&& b.mem.cuda@ == a.mem.cuda@.insert(slot, CudaSlot { len, ref_count: 1 })
    &&& b.mem.arena == a.mem.arena
    &&& !a.mem.cells@.contains_key(t.cell)
    &&& b.mem.cells@ == a.mem.cells@.insert(t.cell, meta)
    &&& b.mem.cells.room() == a.mem.cells.room() - 1
    &&& b.mem.cuda.slots_spec().len() <= a.mem.cuda.slots_spec().len() + 1
    &&& total_bytes(b.mem.cuda.slots_spec()) <= total_bytes(a.mem.cuda.slots_spec()) + numel(
        t.shape@,
    ) * 4
    &&& requests(b.queue@) == requests(a.queue@).push(
        serve_request(slot, len, !no_fit(a.mem.cuda.pool(), len)),
    ).push(Request::Write { slot, data })
}

/// A device tensor with the given elements.
fn device_tensor<S: Scalar>(
    data: &[S],
    shape: Shape,
    device: Device,
    meta: Meta,
    rt: &mut Runtime<S>,
) -> (t: Tensor)
    requires
        old(rt).wf(),
        sized(shape@),
        data@.len() == numel(shape@),
        device is Cuda,
        old(rt).mem.cells.room() > 0,
        device_room(*old(rt), numel(shape@) as usize),
    ensures
        final(rt).wf(),
        t.owned(*final(rt)),
        undisturbed(*old(rt), *final(rt)),
        same_meta(*old(rt), *final(rt)),
        final(rt).holds() == old(rt).holds(),
        t.shape == shape,
        t.contiguous_spec(),
        t.dtype == DType::F32,
        t.device == device,
        device_filled(*old(rt), *final(rt), t, meta, data@),
{
    let t = rt.adopt_cuda(shape, device, meta);
    let ghost mid = *rt;
    rt.write_cuda(&t, copied(data));
    proof {
        assert(rt.holds() == mid.holds());
        lemma_undisturbed(mid, *rt);
    }
    t
}

/// `r` is another handle to the block of `t`, with the given layout and the metadata of `t`.
pub open spec fn shared<S>(
    a: Runtime<S>,
    b: Runtime<S>,
    t: Tensor,
    r: Tensor,
    shape: Shape,
    strides: Shape,
) -> bool {
    &&& same_state(a, b)
    &&& b.queue == a.queue
    &&& r == (Tensor { shape, strides, cell: r.cell, ..t })
    &&& !a.mem.cells@.contains_key(r.cell)
    &&& b.mem.cells@ == a.mem.cells@.insert(r.cell, t.meta(a.mem))
    &&& b.mem.cells.room() == a.mem.cells.room() - 1
    &&& retained(a.mem, b.mem, t.key())
    &&& same_room(a.mem, b.mem)
}

/// Another handle to the block of a tensor, with a layout that reads within it.
pub fn share<S>(t: &Tensor, shape: Shape, strides: Shape, rt: &mut Runtime<S>) -> (r: Tensor)
    requires
        old(rt).wf(),
        t.valid(old(rt).mem),
        old(rt).mem.refs(t.key()) < usize::MAX,
        old(rt).mem.cells.room() > 0,
        (Tensor { shape, strides, ..*t }).laid_out(),
        numel(shape@) == numel(t.shape@),
    ensures
        final(rt).wf(),
        shared(*old(rt), *final(rt), *t, r, shape, strides),
        r.owned(*final(rt)),
        undisturbed(*old(rt), *final(rt)),
        same_meta(*old(rt), *final(rt)),
        final(rt).holds() == old(rt).holds(),
{
    let ghost before = *rt;
    let r = rt.mem.share(t, shape, strides);
    proof {
        let hs = before.holds();
        assert(rt.holds() == hs);
        lemma_valid_refs(before.mem, *t);
        lemma_retained(before.mem, rt.mem, t.key());
        assert forall|k: Key| #[trigger] rt.mem.refs(k) >= before.mem.refs(k) by {}
        lemma_undisturbed(before, *rt);
        lemma_valid_kept(before.mem, rt.mem, *t);
        if holds_cell(hs, r.cell) {
            let i = choose|i: int| 0 <= i < hs.len() && (#[trigger] hs[i]).cell == r.cell;
            assert(hs[i].valid(before.mem));
        }
        assert(count_key(hs, t.key()) <= before.mem.refs(t.key()));
        assert(rt.mem.refs(t.key()) == before.mem.refs(t.key()) + 1);
    }
    r
}

/// To a device and back: where the device holds what was written to it, the copy on the CPU has
/// the value of the tensor, and asks for gradients if and only if the tensor does.
pub proof fn law_device_round_trip<S>(
    a: Runtime<S>,
    b: Runtime<S>,
    c: Runtime<S>,
    d: Runtime<S>,
    t: Tensor,
    u: Tensor,
    r: Tensor,
)
    requires
        t.is_f32(a.mem),
        t.laid_out(),
        device_filled(
            a,
            b,
            u,
            Meta { node_id: None, requires_grad: t.meta(a.mem).requires_grad },
            t.value(a.mem).data,
        ),
        u.shape == t.shape,
        same_meta(b, c),
        added(
            c,
            d,
            r,
            Block::F32(t.value(a.mem).data),
            Meta { node_id: None, requires_grad: u.meta(c.mem).requires_grad },
        ),
        r.shape == u.shape,
        r.contiguous_spec(),
    ensures
        r.value(d.mem) == t.value(a.mem),
        r.meta(d.mem).requires_grad == t.meta(a.mem).requires_grad,
{
    let data = t.value(a.mem).data;
    lemma_sized_fits(t.shape@);
    assert(b.mem.cells@.contains_key(u.cell));
    lemma_strided_row_major(data, t.shape@);
}

} // verus!
