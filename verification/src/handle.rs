//! Making tensors, looking at them, and viewing them differently.
use vstd::prelude::*;
use crate::cells::Meta;
use crate::device::Device;
use crate::dtype::DType;
use crate::index::{
    flat, in_bounds, lemma_coord_of_flat, lemma_sized_fits, numel, offset, sized,
};
use crate::perm::{fits_storage, lemma_strided_row_major, strided};
use crate::runtime::{held_ok, holds_cell, lemma_held_kept, Runtime};
use crate::shape::{get_offset, NdIterator, Shape};
use crate::storage::{Block, CpuStorage, Slot, StorageId};
use crate::tape::{blocks_agree, count_key, lemma_valid_kept, lemma_valid_refs};
use crate::tensor::{Key, Tensor};

verus! {

/// Everything but storage and metadata is the same.
pub open spec fn same_state<S>(a: Runtime<S>, b: Runtime<S>) -> bool {
    &&& a.mode == b.mode
    &&& a.hooks == b.hooks
    &&& a.tape == b.tape
    &&& a.gradients == b.gradients
    &&& a.checkpoint_gradients == b.checkpoint_gradients
}

/// There is room for `blocks` more CPU blocks and `handles` more handles.
pub open spec fn has_room<S>(rt: Runtime<S>, blocks: int, handles: int) -> bool {
    &&& rt.mem.arena.room() >= blocks
    &&& rt.mem.cells.room() >= handles
}

/// The metadata of a new tensor.
pub open spec fn no_meta() -> Meta {
    Meta { node_id: None, requires_grad: false }
}

/// A new block was made on the CPU, with `t` as its only handle.
pub open spec fn added<S>(
    old_rt: Runtime<S>,
    new_rt: Runtime<S>,
    t: Tensor,
    block: Block<S>,
    meta: Meta,
) -> bool {
    &&& same_state(old_rt, new_rt)
    &&& new_rt.queue == old_rt.queue
    &&& t.device is Cpu
    &&& t.storage_id == old_rt.mem.arena.next()
    &&& !old_rt.mem.arena@.contains_key(t.storage_id)
    &&& new_rt.mem.arena@ == old_rt.mem.arena@.insert(t.storage_id, Slot { block, refs: 1nat })
    &&& new_rt.mem.cuda == old_rt.mem.cuda
    &&& !old_rt.mem.cells@.contains_key(t.cell)
    &&& new_rt.mem.cells@ == old_rt.mem.cells@.insert(t.cell, meta)
    &&& new_rt.mem.arena.room() == old_rt.mem.arena.room() - 1
    &&& new_rt.mem.arena.shard() == old_rt.mem.arena.shard()
    &&& new_rt.mem.cells.room() == old_rt.mem.cells.room() - 1
}

/// What the caller owns stays the caller's, with the same contents.
pub open spec fn undisturbed<S>(a: Runtime<S>, b: Runtime<S>) -> bool {
    forall|u: Tensor|
        #![trigger u.owned(a)]
        #![trigger u.owned(b)]
        u.owned(a) ==> {
            &&& u.owned(b)
            &&& u.device is Cpu ==> u.block(b.mem) == u.block(a.mem)
        }
}

/// Handles that are not touched keep their metadata.
pub open spec fn same_meta<S>(a: Runtime<S>, b: Runtime<S>) -> bool {
    forall|c: usize| #[trigger]
        a.mem.cells@.contains_key(c) ==> b.mem.cells@.contains_key(c) && b.mem.cells@[c]
            == a.mem.cells@[c]
}

/// A step that keeps what the runtime holds, all blocks and all cells, disturbs nobody.
pub proof fn lemma_undisturbed<S>(a: Runtime<S>, b: Runtime<S>)
    requires
        a.wf(),
        b.mem.wf(),
        b.holds() == a.holds(),
        blocks_agree(a.mem, b.mem),
        forall|k: Key| #[trigger] b.mem.refs(k) >= a.mem.refs(k),
        forall|c: usize| #[trigger] a.mem.cells@.contains_key(c) ==> b.mem.cells@.contains_key(c),
    ensures
        held_ok(b.mem, b.holds()),
        undisturbed(a, b),
{
    let hs = a.holds();
    assert forall|k: Key| count_key(hs, k) <= #[trigger] b.mem.refs(k) by {
        assert(count_key(hs, k) <= a.mem.refs(k));
    }
    assert forall|i: int| 0 <= i < hs.len() implies b.mem.cells@.contains_key(
        (#[trigger] hs[i]).cell,
    ) by {
        assert(hs[i].valid(a.mem));
    }
    lemma_held_kept(a.mem, b.mem, hs);
    assert forall|u: Tensor| #[trigger] u.owned(a) implies {
        &&& u.owned(b)
        &&& u.device is Cpu ==> u.block(b.mem) == u.block(a.mem)
    } by {
        lemma_valid_refs(a.mem, u);
        assert(b.mem.refs(u.key()) >= a.mem.refs(u.key()));
        lemma_valid_kept(a.mem, b.mem, u);
    }
}

/// After a block was added the runtime is in order, and the new handle is the caller's.
pub proof fn lemma_added<S>(
    a: Runtime<S>,
    b: Runtime<S>,
    t: Tensor,
    block: Block<S>,
    meta: Meta,
)
    requires
        a.wf(),
        b.mem.wf(),
        added(a, b, t, block, meta),
        t.laid_out(),
        block.dtype() == t.dtype,
        block.len() == numel(t.shape@),
    ensures
        b.wf(),
        t.owned(b),
        t.block(b.mem) == block,
        t.meta(b.mem) == meta,
        undisturbed(a, b),
        same_meta(a, b),
        b.holds() == a.holds(),
{
    assert forall|k: Key| #[trigger] b.mem.refs(k) >= a.mem.refs(k) by {}
    lemma_undisturbed(a, b);
    let hs = a.holds();
    assert(count_key(hs, t.key()) == 0) by {
        assert(count_key(hs, t.key()) <= a.mem.refs(t.key()));
    }
    assert(!holds_cell(hs, t.cell)) by {
        if holds_cell(hs, t.cell) {
            let i = choose|i: int| 0 <= i < hs.len() && (#[trigger] hs[i]).cell == t.cell;
            assert(hs[i].valid(a.mem));
        }
    }
}

/// The elements that a layout shows, in row-major order.
pub fn gather<T: Copy>(src: &[T], shape: &Shape, strides: &Shape) -> (r: Vec<T>)
    requires
        sized(shape@),
        strides@.len() == shape@.len(),
        fits_storage(shape@, strides@, src@.len()),
    ensures
        r@ == strided(src@, shape@, strides@),
{
    let ghost d = shape@;
    proof {
        lemma_sized_fits(d);
    }
    let n = shape.numel();
    let len: usize = src.len();
    let mut out: Vec<T> = Vec::with_capacity(n);
    if n == 0 {
        assert(out@ =~= strided(src@, d, strides@));
        return out;
    }
    let mut iter = NdIterator::new(*shape);
    let mut i: usize = 0;
    proof {
        crate::shape::lemma_zero_coord(d);
    }
    while i < n
        invariant
            i <= n == numel(d),
            d == shape@,
            len == src@.len(),
            strides@.len() == d.len(),
            fits_storage(d, strides@, src@.len()),
            iter.wf(),
            iter.dims() == d,
            i < n ==> !iter.done() && in_bounds(iter.at(), d) && flat(iter.at(), d) == i,
            out@.len() == i,
            forall|k: int| 0 <= k < i ==> out@[k] == strided(src@, d, strides@)[k],
        decreases n - i,
    {
        proof {
            lemma_coord_of_flat(iter.at(), d);
            assert(offset(iter.at(), d, strides@) < src@.len());
        }
        let at = get_offset(iter.coord(), shape, strides);
        out.push(src[at]);
        iter.step();
        i = i + 1;
    }
    assert(out@ =~= strided(src@, d, strides@));
    out
}

impl<S> Runtime<S> {
    /// Makes a row-major CPU tensor out of a storage block.
    pub(crate) fn adopt(
        &mut self,
        storage: CpuStorage<S>,
        shape: Shape,
        dtype: DType,
        meta: Meta,
    ) -> (t: Tensor)
        requires
            old(self).wf(),
            has_room(*old(self), 1, 1),
            sized(shape@),
            storage@.dtype() == dtype,
            storage@.len() == numel(shape@),
        ensures
            final(self).wf(),
            added(*old(self), *final(self), t, storage@, meta),
            t.owned(*final(self)),
            undisturbed(*old(self), *final(self)),
            same_meta(*old(self), *final(self)),
            final(self).holds() == old(self).holds(),
            t.shape == shape,
            t.contiguous_spec(),
            t.dtype == dtype,
            t.device == Device::Cpu,
            t.block(final(self).mem) == storage@,
            t.meta(final(self).mem) == meta,
    {
        let ghost before = *self;
        let _ = shape.rank();
        proof {
            lemma_sized_fits(shape@);
            lemma_strided_row_major(Seq::new(numel(shape@), |i: int| 0u8), shape@);
        }
        let strides = shape.contiguous_strides();
        let ghost block = storage@;
        let storage_id = self.mem.arena.alloc_raw(storage);
        let cell = self.mem.cells.create(meta);
        let t = Tensor { storage_id, shape, strides, dtype, device: Device::Cpu, cell };
        proof {
            assert(self.holds() == before.holds());
            lemma_added(before, *self, t, block, meta);
        }
        t
    }
}

impl Tensor {
    /// Shape.
    #[must_use]
    pub fn shape(&self) -> (r: &Shape)
        ensures
            *r == self.shape,
    {
        &self.shape
    }

    /// Strides.
    #[must_use]
    pub fn strides(&self) -> (r: &Shape)
        ensures
            *r == self.strides,
    {
        &self.strides
    }

    /// Element type.
    #[must_use]
    pub fn dtype(&self) -> (r: DType)
        ensures
            r == self.dtype,
    {
        self.dtype
    }

    /// Device.
    #[must_use]
    pub fn device(&self) -> (r: Device)
        ensures
            r == self.device,
    {
        self.device
    }

    /// Storage id.
    #[must_use]
    pub fn storage_id(&self) -> (r: StorageId)
        ensures
            r == self.storage_id,
    {
        self.storage_id
    }

    /// Whether this tensor requires gradient.
    #[must_use]
    pub fn requires_grad<S>(&self, rt: &Runtime<S>) -> (r: bool)
        requires
            rt.wf(),
            self.valid(rt.mem),
        ensures
            r == self.meta(rt.mem).requires_grad,
    {
        rt.mem.cells.get(self.cell).requires_grad
    }

    /// The tape node token of this tensor.
    ///
    /// The token is opaque here - autograd packs a `(generation, index)` pair into it so that
    /// tokens from a previous tape invalidate themselves.
    #[must_use]
    pub fn node_id<S>(&self, rt: &Runtime<S>) -> (r: Option<u64>)
        requires
            rt.wf(),
            self.valid(rt.mem),
        ensures
            r == self.meta(rt.mem).node_id,
    {
        rt.mem.cells.get(self.cell).node_id
    }

    /// Sets whether this tensor requires gradient computation.
    pub fn set_requires_grad<S>(&self, requires_grad: bool, rt: &mut Runtime<S>)
        requires
            old(rt).wf(),
            self.valid(old(rt).mem),
        ensures
            final(rt).wf(),
            meta_set(
                *old(rt),
                *final(rt),
                self.cell,
                Meta { requires_grad, ..self.meta(old(rt).mem) },
            ),
            undisturbed(*old(rt), *final(rt)),
    {
        let ghost before = *rt;
        let m = rt.mem.cells.get(self.cell);
        rt.mem.cells.set(self.cell, Meta { node_id: m.node_id, requires_grad });
        proof {
            assert(rt.holds() == before.holds());
            lemma_undisturbed(before, *rt);
        }
    }

    /// Sets the tape node token of this tensor.
    pub fn set_node_id<S>(&self, node_id: Option<u64>, rt: &mut Runtime<S>)
        requires
            old(rt).wf(),
            self.valid(old(rt).mem),
        ensures
            final(rt).wf(),
            meta_set(
                *old(rt),
                *final(rt),
                self.cell,
                Meta { node_id, ..self.meta(old(rt).mem) },
            ),
            undisturbed(*old(rt), *final(rt)),
    {
        let ghost before = *rt;
        let m = rt.mem.cells.get(self.cell);
        rt.mem.cells.set(self.cell, Meta { node_id, requires_grad: m.requires_grad });
        proof {
            assert(rt.holds() == before.holds());
            lemma_undisturbed(before, *rt);
        }
    }

    /// Whether the tensor is contiguous in row-major order.
    #[must_use]
    pub fn is_contiguous(&self) -> (r: bool)
        requires
            self.laid_out(),
        ensures
            r == self.contiguous_spec(),
    {
        proof {
            lemma_sized_fits(self.shape@);
        }
        self.strides == self.shape.contiguous_strides()
    }
}

/// One metadata cell was changed, and nothing else.
pub open spec fn meta_set<S>(a: Runtime<S>, b: Runtime<S>, cell: usize, meta: Meta) -> bool {
    &&& same_state(a, b)
    &&& b.queue == a.queue
    &&& b.mem.arena == a.mem.arena
    &&& b.mem.cuda == a.mem.cuda
    &&& b.mem.cells@ == a.mem.cells@.insert(cell, meta)
    &&& b.mem.cells.room() == a.mem.cells.room()
}

} // verus!
