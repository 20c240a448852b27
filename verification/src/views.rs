//! Looking at the same elements through another shape.
use vstd::prelude::*;
use crate::cells::Meta;
use crate::create::{share, shared};
use crate::dense::Value;
use crate::handle::{added, gather, has_room, no_meta, same_meta, undisturbed};
use crate::index::{
    bounded, coord_of, in_bounds, lemma_bounded_fits, lemma_clipped_id, lemma_coord_of_flat,
    lemma_flat_of_coord, lemma_offset_row_major, lemma_sized_fits, numel, offset, row_major, sized,
};
use crate::op::OpType;
use crate::perm::{
    fits_storage, is_permutation, lemma_bounded_permuted, lemma_numel_permuted,
    lemma_offset_permuted, lemma_strided_row_major, lemma_swap_order, lemma_swapped_is_permuted,
    lemma_unpermuted, permuted, strided, swap_order,
};
use crate::record::can_record;
use crate::runtime::Runtime;
use crate::scalar::Scalar;
use crate::scope::{grown, lemma_op_grown, spent};
use crate::shape::{swapped_dims, Shape};
use crate::storage::{zero_block, Block, CpuStorage};
use crate::tape::{derefs, lemma_valid_refs};
use crate::tensor::{Memory, Tensor};
use crate::track::{can_op, taped, track_op};

verus! {

/// The elements of `v` with the axes in the order `p`.
pub open spec fn permute_value<S>(v: Value<S>, p: Seq<usize>) -> Value<S> {
    let dims = permuted(v.dims, p);
    Value { dims, data: strided(v.data, dims, permuted(row_major(v.dims), p)) }
}

/// The elements of `v` with axes `i` and `j` exchanged.
pub open spec fn transpose_value<S>(v: Value<S>, i: int, j: int) -> Value<S> {
    permute_value(v, swap_order(v.dims.len(), i, j))
}

/// The elements of `v` in the same order, with other extents.
pub open spec fn reshape_value<S>(v: Value<S>, dims: Seq<usize>) -> Value<S> {
    Value { dims, data: v.data }
}

/// A layout with its axes reordered reads within the same storage.
pub proof fn lemma_fits_permuted(d: Seq<usize>, s: Seq<usize>, p: Seq<usize>, len: nat)
    requires
        d.len() <= 8,
        s.len() == d.len(),
        is_permutation(p, d.len()),
        fits_storage(d, s, len),
    ensures
        fits_storage(permuted(d, p), permuted(s, p), len),
{
    assert forall|c: Seq<usize>| in_bounds(c, permuted(d, p)) implies #[trigger] offset(
        c,
        permuted(d, p),
        permuted(s, p),
    ) < len by {
        let b = lemma_unpermuted(c, d, p);
        lemma_offset_permuted(b, d, s, p);
        assert(offset(b, d, s) < len);
    }
}

/// Reordering the axes of a layout reorders the axes of what it shows.
pub proof fn lemma_strided_permuted<S>(
    src: Seq<S>,
    d: Seq<usize>,
    s: Seq<usize>,
    p: Seq<usize>,
)
    requires
        d.len() <= 8,
        s.len() == d.len(),
        bounded(d),
        is_permutation(p, d.len()),
    ensures
        (Value { dims: permuted(d, p), data: strided(src, permuted(d, p), permuted(s, p)) })
            == permute_value(Value { dims: d, data: strided(src, d, s) }, p),
{
    let e = permuted(d, p);
    lemma_numel_permuted(d, p);
    lemma_bounded_fits(d);
    let v = Value { dims: d, data: strided(src, d, s) };
    let left = strided(src, e, permuted(s, p));
    let right = permute_value(v, p).data;
    assert forall|i: int| 0 <= i < left.len() implies left[i] == right[i] by {
        let c = coord_of(i as nat, e);
        lemma_flat_of_coord(i as nat, e);
        let b = lemma_unpermuted(c, d, p);
        lemma_offset_permuted(b, d, s, p);
        lemma_offset_permuted(b, d, row_major(d), p);
        lemma_offset_row_major(b, d);
        lemma_clipped_id(b, d);
        lemma_coord_of_flat(b, d);
    }
    assert(left =~= right);
}

/// The axes exchanged in a tensor are exchanged in its elements.
pub proof fn law_transpose_value<S>(v: Value<S>, i: int, j: int)
    requires
        v.wf(),
        0 <= i < v.dims.len(),
        0 <= j < v.dims.len(),
    ensures
        transpose_value(transpose_value(v, i, j), i, j) == v,
{
    lemma_swap_order(v.dims.len(), i, j);
    law_permute_value(v, swap_order(v.dims.len(), i, j), swap_order(v.dims.len(), i, j));
}

/// Reordering axes and then undoing the order gives the elements back.
pub proof fn law_permute_value<S>(v: Value<S>, p: Seq<usize>, q: Seq<usize>)
    requires
        v.wf(),
        is_permutation(p, v.dims.len()),
        crate::perm::is_inverse(q, p),
    ensures
        permute_value(permute_value(v, p), q) == v,
{
    let d = v.dims;
    lemma_bounded_fits(d);
    lemma_strided_row_major(v.data, d);
    crate::perm::lemma_inverse(p, q);
    crate::perm::law_permute_inverse(d, p, q);
    crate::perm::law_permute_inverse(row_major(d), p, q);
    // The permuted elements are a layout of the same storage; permuting again composes layouts.
    let e = permuted(d, p);
    let s = permuted(row_major(d), p);
    lemma_bounded_permuted(d, p);
    lemma_strided_permuted(v.data, e, s, q);
    assert(permuted(e, q) == d);
    assert(permuted(s, q) == row_major(d));
}

/// A storage block in row-major order.
fn gather_storage<S: Copy>(
    storage: &CpuStorage<S>,
    shape: &Shape,
    strides: &Shape,
) -> (r: CpuStorage<S>)
    requires
        sized(shape@),
        strides@.len() == shape@.len(),
        fits_storage(shape@, strides@, storage@.len()),
    ensures
        r@ == gathered(storage@, shape@, strides@),
        r@.dtype() == storage@.dtype(),
        r@.len() == numel(shape@),
{
    match storage {
        CpuStorage::F32(v) => CpuStorage::F32(gather(v, shape, strides)),
        CpuStorage::F16(v) => CpuStorage::F16(gather(v, shape, strides)),
        CpuStorage::BF16(v) => CpuStorage::BF16(gather(v, shape, strides)),
        CpuStorage::I32(v) => CpuStorage::I32(gather(v, shape, strides)),
        CpuStorage::I64(v) => CpuStorage::I64(gather(v, shape, strides)),
        CpuStorage::Bool(v) => CpuStorage::Bool(gather(v, shape, strides)),
    }
}

/// The elements of a block that a layout shows, in row-major order.
pub open spec fn gathered<S>(b: Block<S>, d: Seq<usize>, s: Seq<usize>) -> Block<S> {
    match b {
        Block::F32(v) => Block::F32(strided(v, d, s)),
        Block::F16(v) => Block::F16(strided(v, d, s)),
        Block::BF16(v) => Block::BF16(strided(v, d, s)),
        Block::I32(v) => Block::I32(strided(v, d, s)),
        Block::I64(v) => Block::I64(strided(v, d, s)),
        Block::Bool(v) => Block::Bool(strided(v, d, s)),
    }
}

/// What a contiguous copy of a CPU tensor holds, and its metadata: an empty tensor is made anew,
/// any other keeps the metadata.
pub open spec fn contiguous_copy<S: Scalar>(t: Tensor, mem: Memory<S>) -> (Block<S>, Meta) {
    if numel(t.shape@) == 0 {
        (zero_block::<S>(0, t.dtype), no_meta())
    } else {
        (gathered(t.block(mem), t.shape@, t.strides@), t.meta(mem))
    }
}

impl Tensor {
    /// Returns a contiguous tensor with the same elements: another handle where the layout is
    /// row-major already, and a copy otherwise.
    #[must_use]
    pub fn contiguous<S: Scalar>(&self, rt: &mut Runtime<S>) -> (r: Tensor)
        requires
            old(rt).wf(),
            self.valid(old(rt).mem),
            self.device is Cpu || self.contiguous_spec(),
            old(rt).mem.refs(self.key()) < usize::MAX,
            has_room(*old(rt), 1, 1),
        ensures
            final(rt).wf(),
            r.owned(*final(rt)),
            undisturbed(*old(rt), *final(rt)),
            same_meta(*old(rt), *final(rt)),
            final(rt).holds() == old(rt).holds(),
            r.shape == self.shape,
            r.contiguous_spec(),
            r.dtype == self.dtype,
            r.device == self.device,
            self.is_f32(old(rt).mem) ==> r.value(final(rt).mem) == self.value(old(rt).mem),
            self.contiguous_spec() ==> shared(
                *old(rt),
                *final(rt),
                *self,
                r,
                self.shape,
                self.strides,
            ),
            !self.contiguous_spec() ==> added(
                *old(rt),
                *final(rt),
                r,
                contiguous_copy(*self, old(rt).mem).0,
                contiguous_copy(*self, old(rt).mem).1,
            ),
    {
        if self.is_contiguous() {
            let r = self.clone(rt);
            return r;
        }
        proof {
            lemma_sized_fits(self.shape@);
            lemma_strided_row_major(
                strided(self.block(rt.mem)->F32_0, self.shape@, self.strides@),
                self.shape@,
            );
        }
        if self.shape.numel() == 0 {
            let r = Tensor::zeros(self.shape, self.dtype, rt);
            assert(self.is_f32(old(rt).mem) ==> r.value(rt.mem).data =~= self.value(
                old(rt).mem,
            ).data);
            return r;
        }
        let storage = gather_storage(
            rt.mem.arena.storage(self.storage_id),
            &self.shape,
            &self.strides,
        );
        let meta = rt.mem.cells.get(self.cell);
        rt.adopt(storage, self.shape, self.dtype, meta)
    }

    /// Makes a contiguous copy of a CUDA tensor out of the raw contents of its buffer. The copy
    /// starts with fresh metadata.
    #[must_use]
    pub fn contiguous_cuda<S: Scalar>(&self, raw: &[S], rt: &mut Runtime<S>) -> (r: Tensor)
        requires
            old(rt).wf(),
            self.valid(old(rt).mem),
            self.device is Cuda,
            raw@.len() == numel(self.shape@),
            self.movable(*old(rt), self.device),
        ensures
            final(rt).wf(),
            r.owned(*final(rt)),
            undisturbed(*old(rt), *final(rt)),
            same_meta(*old(rt), *final(rt)),
            r.shape == self.shape,
            r.contiguous_spec(),
            r.device == self.device,
            crate::create::device_filled(
                *old(rt),
                *final(rt),
                r,
                no_meta(),
                strided(raw@, self.shape@, self.strides@),
            ),
    {
        let data = gather(raw, &self.shape, &self.strides);
        Tensor::from_f32_cuda(&data, self.shape, self.device, rt)
    }

    /// Reshapes the tensor: the same elements in row-major order, with another shape.
    ///
    /// The result shares the block of a contiguous tensor; the elements of any other are copied.
    #[must_use]
    pub fn reshape<S: Scalar>(&self, new_shape: Shape, rt: &mut Runtime<S>) -> (r: Tensor)
        requires
            old(rt).wf(),
            can_op(*old(rt), seq![*self]),
            self.device is Cpu || self.contiguous_spec(),
            sized(new_shape@),
            numel(new_shape@) == numel(self.shape@),
            old(rt).mem.arena.room() > 0,
        ensures
            final(rt).wf(),
            r.owned(*final(rt)),
            undisturbed(*old(rt), *final(rt)),
            grown(*old(rt), *final(rt), seq![r]),
            spent(*old(rt), *final(rt), 1),
            r.shape == new_shape,
            r.contiguous_spec(),
            r.dtype == self.dtype,
            r.device == self.device,
            self.is_f32(old(rt).mem) ==> r.value(final(rt).mem) == reshape_value(
                self.value(old(rt).mem),
                new_shape@,
            ),
            exists|mid: Runtime<S>|
                #[trigger] reshaped(*old(rt), mid, *self, r) && taped(
                    mid,
                    *final(rt),
                    OpType::Reshape,
                    seq![*self],
                    0,
                    r,
                    self.meta(old(rt).mem).requires_grad,
                ),
    {
        let ghost before = *rt;
        proof {
            assert(seq![*self][0] == *self);
            assert(self.valid(rt.mem));
            lemma_sized_fits(self.shape@);
            lemma_sized_fits(new_shape@);
        }
        let track = self.requires_grad(rt);
        let new_strides = new_shape.contiguous_strides();
        let _ = new_shape.rank();
        let r = if self.is_contiguous() {
            proof {
                lemma_strided_row_major(
                    Seq::new(numel(new_shape@), |i: int| 0u8),
                    new_shape@,
                );
                if self.is_f32(rt.mem) {
                    crate::create::lemma_contiguous_value(*self, rt.mem);
                    lemma_strided_row_major(self.block(rt.mem)->F32_0, new_shape@);
                }
            }
            share(self, new_shape, new_strides, rt)
        } else if self.shape.numel() == 0 {
            Tensor::zeros(new_shape, self.dtype, rt)
        } else {
            let storage = gather_storage(
                rt.mem.arena.storage(self.storage_id),
                &self.shape,
                &self.strides,
            );
            let meta = rt.mem.cells.get(self.cell);
            rt.adopt(storage, new_shape, self.dtype, meta)
        };
        let ghost mid = *rt;
        proof {
            assert(reshaped(before, mid, *self, r));
            if self.is_f32(before.mem) {
                let b = r.block(mid.mem)->F32_0;
                if !self.contiguous_spec() {
                    assert(b =~= self.value(before.mem).data);
                }
                lemma_strided_row_major(b, new_shape@);
                assert(r.value(mid.mem) =~= reshape_value(self.value(before.mem), new_shape@));
            }
            lemma_still_recordable(before, mid, *self);
        }
        let inputs: [&Tensor; 1] = [self];
        proof {
            assert(derefs(inputs@) =~= seq![*self]);
        }
        track_op(OpType::Reshape, inputs.as_slice(), 0, &r, track, rt);
        proof {
            lemma_op_grown(before, mid, *rt, r, 1);
        }
        r
    }

    /// Swaps two dimensions of the tensor. The result shares the block.
    #[must_use]
    pub fn transpose<S: Scalar>(&self, dim0: usize, dim1: usize, rt: &mut Runtime<S>) -> (r: Tensor)
        requires
            old(rt).wf(),
            can_op(*old(rt), seq![*self]),
            dim0 < self.shape@.len(),
            dim1 < self.shape@.len(),
            bounded(self.shape@) || sized(swapped_dims(self.shape@, dim0 as int, dim1 as int)),
        ensures
            final(rt).wf(),
            r.owned(*final(rt)),
            undisturbed(*old(rt), *final(rt)),
            grown(*old(rt), *final(rt), seq![r]),
            spent(*old(rt), *final(rt), 1),
            r.shape@ == swapped_dims(self.shape@, dim0 as int, dim1 as int),
            bounded(self.shape@) ==> bounded(r.shape@),
            r.strides@ == swapped_dims(self.strides@, dim0 as int, dim1 as int),
            r.storage_id == self.storage_id,
            r.dtype == self.dtype,
            r.device == self.device,
            self.is_f32(old(rt).mem) ==> r.value(final(rt).mem) == transpose_value(
                self.value(old(rt).mem),
                dim0 as int,
                dim1 as int,
            ),
            exists|mid: Runtime<S>|
                #[trigger] shared(*old(rt), mid, *self, r, r.shape, r.strides) && taped(
                    mid,
                    *final(rt),
                    OpType::Transpose { dim0, dim1 },
                    seq![*self],
                    0,
                    r,
                    self.meta(old(rt).mem).requires_grad,
                ),
    {
        let ghost before = *rt;
        let ghost p = swap_order(self.shape@.len(), dim0 as int, dim1 as int);
        proof {
            assert(seq![*self][0] == *self);
            assert(self.valid(rt.mem));
            lemma_swap_order(self.shape@.len(), dim0 as int, dim1 as int);
            lemma_swapped_is_permuted(self.shape@, dim0 as int, dim1 as int);
            lemma_swapped_is_permuted(self.strides@, dim0 as int, dim1 as int);
            if bounded(self.shape@) {
                lemma_bounded_permuted(self.shape@, p);
            }
            lemma_numel_permuted(self.shape@, p);
            lemma_fits_permuted(self.shape@, self.strides@, p, numel(self.shape@));
            if self.is_f32(rt.mem) {
                lemma_strided_permuted(
                    self.block(rt.mem)->F32_0,
                    self.shape@,
                    self.strides@,
                    p,
                );
            }
        }
        let track = self.requires_grad(rt);
        let shape = self.shape.swapped(dim0, dim1);
        let strides = self.strides.swapped(dim0, dim1);
        let r = share(self, shape, strides, rt);
        let ghost mid = *rt;
        proof {
            lemma_still_recordable(before, mid, *self);
        }
        let inputs: [&Tensor; 1] = [self];
        proof {
            assert(derefs(inputs@) =~= seq![*self]);
        }
        track_op(OpType::Transpose { dim0, dim1 }, inputs.as_slice(), 0, &r, track, rt);
        proof {
            lemma_op_grown(before, mid, *rt, r, 1);
        }
        r
    }

    /// Permutes the dimensions of the tensor. The result shares the block.
    #[must_use]
    pub fn permute<S: Scalar>(&self, axes: &[usize], rt: &mut Runtime<S>) -> (r: Tensor)
        requires
            old(rt).wf(),
            can_op(*old(rt), seq![*self]),
            is_permutation(axes@, self.shape@.len()),
            bounded(self.shape@) || sized(permuted(self.shape@, axes@)),
        ensures
            final(rt).wf(),
            r.owned(*final(rt)),
            undisturbed(*old(rt), *final(rt)),
            grown(*old(rt), *final(rt), seq![r]),
            spent(*old(rt), *final(rt), 1),
            r.shape@ == permuted(self.shape@, axes@),
            bounded(self.shape@) ==> bounded(r.shape@),
            r.strides@ == permuted(self.strides@, axes@),
            r.storage_id == self.storage_id,
            r.dtype == self.dtype,
            r.device == self.device,
            self.is_f32(old(rt).mem) ==> r.value(final(rt).mem) == permute_value(
                self.value(old(rt).mem),
                axes@,
            ),
            exists|mid: Runtime<S>, op: OpType|
                #[trigger] shared(*old(rt), mid, *self, r, r.shape, r.strides) && is_permute(
                    op,
                    axes@,
                ) && #[trigger] taped(
                    mid,
                    *final(rt),
                    op,
                    seq![*self],
                    0,
                    r,
                    self.meta(old(rt).mem).requires_grad,
                ),
    {
        let ghost before = *rt;
        proof {
            assert(seq![*self][0] == *self);
            assert(self.valid(rt.mem));
            if bounded(self.shape@) {
                lemma_bounded_permuted(self.shape@, axes@);
            }
            lemma_numel_permuted(self.shape@, axes@);
            lemma_fits_permuted(self.shape@, self.strides@, axes@, numel(self.shape@));
            if self.is_f32(rt.mem) {
                lemma_strided_permuted(
                    self.block(rt.mem)->F32_0,
                    self.shape@,
                    self.strides@,
                    axes@,
                );
            }
        }
        let track = self.requires_grad(rt);
        let shape = reorder(&self.shape, axes);
        let strides = reorder(&self.strides, axes);
        let r = share(self, shape, strides, rt);
        let ghost mid = *rt;
        proof {
            lemma_still_recordable(before, mid, *self);
        }
        let op = OpType::Permute { axes: crate::dense::copied(axes) };
        let inputs: [&Tensor; 1] = [self];
        proof {
            assert(derefs(inputs@) =~= seq![*self]);
        }
        track_op(op, inputs.as_slice(), 0, &r, track, rt);
        proof {
            lemma_op_grown(before, mid, *rt, r, 1);
        }
        r
    }
}

/// The operation reorders axes as given.
pub open spec fn is_permute(op: OpType, axes: Seq<usize>) -> bool {
    op matches OpType::Permute { axes: a } && a@ == axes
}

/// The handle that a reshape starts from: one that shares the block of a contiguous tensor, or
/// the only one of a copy.
pub open spec fn reshaped<S: Scalar>(a: Runtime<S>, b: Runtime<S>, t: Tensor, r: Tensor) -> bool {
    if t.contiguous_spec() {
        shared(a, b, t, r, r.shape, r.strides)
    } else {
        added(a, b, r, contiguous_copy(t, a.mem).0, contiguous_copy(t, a.mem).1)
    }
}

/// Entries in another order.
pub(crate) fn reorder(d: &Shape, axes: &[usize]) -> (r: Shape)
    requires
        is_permutation(axes@, d@.len()),
        d@.len() <= 8,
    ensures
        r.wf(),
        r@ == permuted(d@, axes@),
{
    let mut out: Vec<usize> = Vec::new();
    let mut i: usize = 0;
    while i < axes.len()
        invariant
            i <= axes@.len(),
            is_permutation(axes@, d@.len()),
            out@.len() == i,
            forall|k: int| 0 <= k < i ==> out@[k] == permuted(d@, axes@)[k],
        decreases axes@.len() - i,
    {
        assert(axes@[i as int] < d@.len());
        out.push(d.dim(axes[i]));
        i = i + 1;
    }
    assert(out@ =~= permuted(d@, axes@));
    Shape::new(&out)
}

/// After a view or a copy of a tensor was made, an operation on the tensor can be recorded.
proof fn lemma_still_recordable<S: Scalar>(a: Runtime<S>, b: Runtime<S>, t: Tensor)
    requires
        a.wf(),
        b.wf(),
        can_op(a, seq![t]),
        b.tape == a.tape,
        t.valid(a.mem),
        b.mem.cells.room() == a.mem.cells.room() - 1,
        same_meta(a, b),
        crate::tape::blocks_agree(a.mem, b.mem),
        b.mem.refs(t.key()) <= a.mem.refs(t.key()) + 1,
        b.mem.refs(t.key()) >= a.mem.refs(t.key()),
    ensures
        can_record(b, seq![t]),
{
    let s = seq![t];
    assert(s[0] == t);
    assert(s[0].valid(a.mem));
    lemma_valid_refs(a.mem, t);
    assert(b.mem.cells@.contains_key(t.cell));
    crate::tape::lemma_valid_kept(a.mem, b.mem, t);
    assert forall|i: int| 0 <= i < s.len() implies (#[trigger] s[i]).valid(b.mem) && b.mem.refs(
        s[i].key(),
    ) + s.len() <= usize::MAX by {
        assert(s[i] == t);
    }
}

} // verus!
