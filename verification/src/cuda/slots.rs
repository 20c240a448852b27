//! Device buffers, their owners, and the pool of buffers to be used again.
use vstd::prelude::*;
use crate::device::Device;
use crate::storage::StorageId;

verus! {

/// A device buffer of 32-bit floats.
#[derive(Debug, Clone, Copy, PartialEq, Eq, Structural)]
pub struct CudaSlot {
    /// How many elements the buffer holds.
    pub len: usize,
    /// Reference count of tensors pointing to this buffer; 0 while it waits in the pool.
    pub ref_count: usize,
}

/// The device buffers.
#[derive(Debug)]
pub struct CudaSlots {
    slots: Vec<Option<CudaSlot>>,
    free: Vec<(usize, u32)>,
    peak: usize,
}

/// How the device serves an allocation.
#[derive(Debug, Clone, Copy, PartialEq, Eq, Structural)]
pub enum Served {
    /// A pooled buffer, to be filled with zeros.
    Reused,
    /// A new buffer of zeros.
    Fresh,
}

/// The bytes of the first `n` buffers.
pub open spec fn bytes_upto(s: Seq<Option<CudaSlot>>, n: int) -> int
    decreases n,
{
    if n <= 0 {
        0
    } else {
        bytes_upto(s, n - 1) + (match s[n - 1] {
            Some(b) => b.len * 4,
            None => 0,
        })
    }
}

/// The bytes of all buffers.
pub open spec fn total_bytes(s: Seq<Option<CudaSlot>>) -> int {
    bytes_upto(s, s.len() as int)
}

/// The first entry of the pool that holds `len` elements.
pub open spec fn first_fit(free: Seq<(usize, u32)>, len: usize, i: int) -> bool {
    &&& 0 <= i < free.len()
    &&& free[i].0 == len
    &&& forall|k: int| 0 <= k < i ==> (#[trigger] free[k]).0 != len
}

/// No entry of the pool holds `len` elements.
pub open spec fn no_fit(free: Seq<(usize, u32)>, len: usize) -> bool {
    forall|k: int| 0 <= k < free.len() ==> (#[trigger] free[k]).0 != len
}

/// A buffer without owners is named by the pool.
pub open spec fn pooled_if_unowned(
    free: Seq<(usize, u32)>,
    i: int,
    slot: Option<CudaSlot>,
) -> bool {
    (slot matches Some(s) && s.ref_count == 0) ==> exists|k: int|
        0 <= k < free.len() && (#[trigger] free[k]).1 == i
}

/// `s` without entry `i`, whose place the last one takes.
pub open spec fn swap_removed<T>(s: Seq<T>, i: int) -> Seq<T> {
    s.update(i, s.last()).drop_last()
}

impl CudaSlots {
    /// The buffers by index.
    pub closed spec fn slots_spec(self) -> Seq<Option<CudaSlot>> {
        self.slots@
    }

    /// The pool: sizes and indices of buffers without owners.
    pub closed spec fn pool(self) -> Seq<(usize, u32)> {
        self.free@
    }

    /// The largest number of bytes held at once.
    pub closed spec fn peak_spec(self) -> usize {
        self.peak
    }

    /// The buffers that have owners.
    pub open spec fn view(self) -> Map<u32, CudaSlot> {
        Map::new(
            |i: u32|
                i < self.slots_spec().len() && (self.slots_spec()[i as int] matches Some(s)
                    && s.ref_count > 0),
            |i: u32| self.slots_spec()[i as int]->0,
        )
    }

    /// The pool names every buffer without owners once, with its size, and no other.
    pub closed spec fn wf(self) -> bool {
        &&& self.slots@.len() <= u32::MAX + 1
        &&& total_bytes(self.slots@) <= usize::MAX
        &&& forall|i: int, j: int|
            0 <= i < j < self.free@.len() ==> self.free@[i].1 != self.free@[j].1
        &&& forall|i: int|
            0 <= i < self.free@.len() ==> {
                let e = #[trigger] self.free@[i];
                &&& e.1 < self.slots@.len()
                &&& self.slots@[e.1 as int] == Some(CudaSlot { len: e.0, ref_count: 0 })
            }
        &&& forall|i: int|
            0 <= i < self.slots@.len() ==> pooled_if_unowned(
                self.free@,
                i,
                #[trigger] self.slots@[i],
            )
    }

    /// A new buffer of `len` elements can be made.
    pub open spec fn can_grow(self, len: usize) -> bool {
        self.can_grow_by(1, len as int)
    }

    /// `count` new buffers with `elems` elements in all can be made.
    pub open spec fn can_grow_by(self, count: int, elems: int) -> bool {
        &&& self.slots_spec().len() + count <= u32::MAX + 1
        &&& total_bytes(self.slots_spec()) + elems * 4 <= usize::MAX
    }

    /// No buffer.
    pub fn new() -> (c: Self)
        ensures
            c.wf(),
            c.slots_spec() == Seq::<Option<CudaSlot>>::empty(),
            c.pool() == Seq::<(usize, u32)>::empty(),
            c.peak_spec() == 0,
    {
        CudaSlots { slots: Vec::new(), free: Vec::new(), peak: 0 }
    }

    /// The largest number of bytes held at once, the pool included.
    pub fn get_peak_memory(&self) -> (r: usize)
        ensures
            r == self.peak_spec(),
    {
        self.peak
    }

    /// Hands out a buffer of zeros with one owner: the first pooled one of this size, or a new
    /// one.
    pub fn cuda_alloc(&mut self, numel: usize) -> (r: (StorageId, Served))
        requires
            old(self).wf(),
            no_fit(old(self).pool(), numel) ==> old(self).can_grow(numel),
        ensures
            final(self).wf(),
            r.0.shard_idx == 0,
            !old(self)@.contains_key(r.0.slot_idx),
            final(self)@ == old(self)@.insert(
                r.0.slot_idx,
                CudaSlot { len: numel, ref_count: 1 },
            ),
            final(self).slots_spec().len() <= old(self).slots_spec().len() + 1,
            total_bytes(final(self).slots_spec()) <= total_bytes(old(self).slots_spec()) + numel
                * 4,
            r.1 == Served::Reused <==> !no_fit(old(self).pool(), numel),
            forall|i: int|
                first_fit(old(self).pool(), numel, i) ==> {
                    &&& r.0.slot_idx == old(self).pool()[i].1
                    &&& final(self).pool() == swap_removed(old(self).pool(), i)
                    &&& final(self).slots_spec() == old(self).slots_spec().update(
                        r.0.slot_idx as int,
                        Some(CudaSlot { len: numel, ref_count: 1 }),
                    )
                    &&& final(self).peak_spec() == old(self).peak_spec()
                },
            no_fit(old(self).pool(), numel) ==> {
                &&& final(self).pool() == old(self).pool()
                &&& placed(
                    old(self).slots_spec(),
                    final(self).slots_spec(),
                    r.0.slot_idx as int,
                    CudaSlot { len: numel, ref_count: 1 },
                )
                &&& final(self).peak_spec() == (if total_bytes(old(self).slots_spec()) + numel * 4
                    > old(self).peak_spec() {
                    total_bytes(old(self).slots_spec()) + numel * 4
                } else {
                    old(self).peak_spec() as int
                })
            },
    {
        let ghost before = *self;
        let mut i: usize = 0;
        while i < self.free.len()
            invariant
                i <= self.free@.len(),
                *self == before,
                before == *old(self),
                before.wf(),
                forall|k: int| 0 <= k < i ==> (#[trigger] self.free@[k]).0 != numel,
            decreases self.free@.len() - i,
        {
            if self.free[i].0 == numel {
                let slot_idx = self.free[i].1;
                self.free.swap_remove(i);
                self.slots[slot_idx as usize] = Some(CudaSlot { len: numel, ref_count: 1 });
                proof {
                    self.lemma_reused(before, i as int, numel);
                    assert(before.free@[i as int].0 == numel);
                }
                return (StorageId { shard_idx: 0, slot_idx }, Served::Reused);
            }
            i = i + 1;
        }
        assert(no_fit(self.free@, numel));
        let mut current_total: usize = 0;
        let mut empty: Option<usize> = None;
        let mut j: usize = 0;
        while j < self.slots.len()
            invariant
                j <= self.slots@.len(),
                *self == before,
                before.wf(),
                current_total == bytes_upto(self.slots@, j as int),
                total_bytes(self.slots@) <= usize::MAX,
                empty is None ==> forall|k: int|
                    0 <= k < j ==> (#[trigger] self.slots@[k]) is Some,
                empty matches Some(e) ==> {
                    &&& e < j
                    &&& self.slots@[e as int] is None
                    &&& forall|k: int| 0 <= k < e ==> (#[trigger] self.slots@[k]) is Some
                },
            decreases self.slots@.len() - j,
        {
            proof {
                lemma_bytes_monotonic(self.slots@, j + 1, self.slots@.len() as int);
            }
            match self.slots[j] {
                Some(s) => {
                    current_total = current_total + s.len * 4;
                },
                None => {
                    if empty.is_none() {
                        empty = Some(j);
                    }
                },
            }
            j = j + 1;
        }
        current_total = current_total + numel * 4;
        if current_total > self.peak {
            self.peak = current_total;
        }
        let slot = CudaSlot { len: numel, ref_count: 1 };
        let idx: u32 = match empty {
            Some(e) => {
                self.slots[e] = Some(slot);
                e as u32
            },
            None => {
                let n: u32 = self.slots.len() as u32;
                self.slots.push(Some(slot));
                n
            },
        };
        proof {
            assert(self.free@ == before.free@);
            assert(placed(before.slots@, self.slots@, idx as int, slot));
            lemma_placed_bytes(before.slots@, self.slots@, idx as int, slot);
            self.lemma_placed(before, idx as int, slot);
            assert forall|k: int| first_fit(before.free@, numel, k) implies false by {}
        }
        (StorageId { shard_idx: 0, slot_idx: idx }, Served::Fresh)
    }

    proof fn lemma_reused(self, before: CudaSlots, i: int, numel: usize)
        requires
            before.wf(),
            0 <= i < before.free@.len(),
            before.free@[i].0 == numel,
            forall|k: int| 0 <= k < i ==> (#[trigger] before.free@[k]).0 != numel,
            self.free@ == swap_removed(before.free@, i),
            self.slots@ == before.slots@.update(
                before.free@[i].1 as int,
                Some(CudaSlot { len: numel, ref_count: 1 }),
            ),
            self.peak == before.peak,
        ensures
            self.wf(),
            !before@.contains_key(before.free@[i].1),
            self@ == before@.insert(before.free@[i].1, CudaSlot { len: numel, ref_count: 1 }),
            total_bytes(self.slots@) == total_bytes(before.slots@),
            first_fit(before.free@, numel, i),
            forall|k: int| first_fit(before.free@, numel, k) ==> k == i,
            !no_fit(before.free@, numel),
    {
        let at = before.free@[i].1;
        let n = before.free@.len();
        assert forall|k: int| 0 <= k < self.free@.len() implies {
            let e = #[trigger] self.free@[k];
            &&& e.1 < self.slots@.len()
            &&& self.slots@[e.1 as int] == Some(CudaSlot { len: e.0, ref_count: 0 })
        } by {
            let src = if k == i {
                n - 1
            } else {
                k
            };
            assert(self.free@[k] == before.free@[src]);
            assert(before.free@[src].1 != at);
        }
        assert forall|a: int, b: int| 0 <= a < b < self.free@.len() implies self.free@[a].1
            != self.free@[b].1 by {
            let sa = if a == i {
                n - 1
            } else {
                a
            };
            let sb = if b == i {
                n - 1
            } else {
                b
            };
            assert(self.free@[a] == before.free@[sa]);
            assert(self.free@[b] == before.free@[sb]);
            assert(sa != sb);
            if sa < sb {
                assert(before.free@[sa].1 != before.free@[sb].1);
            } else {
                assert(before.free@[sb].1 != before.free@[sa].1);
            }
        }
        assert forall|k: int|
            0 <= k < self.slots@.len() implies pooled_if_unowned(
                self.free@,
                k,
                #[trigger] self.slots@[k],
            ) by {
            if k != at {
                if let Some(s) = before.slots@[k] {
                    if s.ref_count == 0 {
                        let j = choose|j: int| 0 <= j < before.free@.len() && before.free@[j].1 == k;
                        if j == n - 1 {
                            assert(self.free@[i].1 == k);
                        } else {
                            assert(self.free@[j].1 == k);
                        }
                    }
                }
            }
        }
        assert(before.slots@[at as int] == Some(CudaSlot { len: numel, ref_count: 0 }));
        lemma_same_bytes(before.slots@, self.slots@, before.slots@.len() as int);
        assert(self@ =~= before@.insert(at, CudaSlot { len: numel, ref_count: 1 }));
    }

    proof fn lemma_placed(self, before: CudaSlots, idx: int, slot: CudaSlot)
        requires
            before.wf(),
            slot.ref_count == 1,
            0 <= idx <= u32::MAX,
            placed(before.slots@, self.slots@, idx, slot),
            self.free@ == before.free@,
            total_bytes(self.slots@) <= usize::MAX,
            self.slots@.len() <= u32::MAX + 1,
        ensures
            self.wf(),
            !before@.contains_key(idx as u32),
            self@ == before@.insert(idx as u32, slot),
    {
        assert forall|k: int| 0 <= k < self.free@.len() implies {
            let e = #[trigger] self.free@[k];
            &&& e.1 < self.slots@.len()
            &&& self.slots@[e.1 as int] == Some(CudaSlot { len: e.0, ref_count: 0 })
        } by {
            assert(before.slots@[before.free@[k].1 as int] is Some);
        }
        assert forall|k: int|
            0 <= k < self.slots@.len() implies pooled_if_unowned(
                self.free@,
                k,
                #[trigger] self.slots@[k],
            ) by {
            if k != idx {
                assert(before.slots@[k] == self.slots@[k]);
            }
        }
        assert(self@ =~= before@.insert(idx as u32, slot));
    }
}

/// `after` is `before` with `slot` put at `idx`: the first unused index, or one behind the last.
pub open spec fn placed(
    before: Seq<Option<CudaSlot>>,
    after: Seq<Option<CudaSlot>>,
    idx: int,
    slot: CudaSlot,
) -> bool {
    &&& 0 <= idx <= before.len()
    &&& forall|k: int| 0 <= k < idx ==> (#[trigger] before[k]) is Some
    &&& idx < before.len() ==> before[idx] is None && after == before.update(idx, Some(slot))
    &&& idx == before.len() ==> after == before.push(Some(slot))
}

proof fn lemma_bytes_monotonic(s: Seq<Option<CudaSlot>>, m: int, n: int)
    requires
        m <= n,
    ensures
        bytes_upto(s, m) <= bytes_upto(s, n),
    decreases n - m,
{
    if m < n {
        lemma_bytes_monotonic(s, m, n - 1);
    }
}

proof fn lemma_same_bytes(a: Seq<Option<CudaSlot>>, b: Seq<Option<CudaSlot>>, n: int)
    requires
        0 <= n <= a.len(),
        a.len() == b.len(),
        forall|k: int|
            0 <= k < n ==> match (#[trigger] a[k], b[k]) {
                (Some(x), Some(y)) => x.len == y.len,
                (None, None) => true,
                _ => false,
            },
    ensures
        bytes_upto(a, n) == bytes_upto(b, n),
    decreases n,
{
    if n > 0 {
        lemma_same_bytes(a, b, n - 1);
        assert(match (a[n - 1], b[n - 1]) {
            (Some(x), Some(y)) => x.len == y.len,
            (None, None) => true,
            _ => false,
        });
    }
}

proof fn lemma_placed_upto(
    a: Seq<Option<CudaSlot>>,
    b: Seq<Option<CudaSlot>>,
    idx: int,
    slot: CudaSlot,
    n: int,
)
    requires
        placed(a, b, idx, slot),
        0 <= n <= a.len(),
    ensures
        bytes_upto(b, n) == bytes_upto(a, n) + (if idx < n {
            slot.len * 4
        } else {
            0
        }),
    decreases n,
{
    if n > 0 {
        lemma_placed_upto(a, b, idx, slot, n - 1);
    }
}

proof fn lemma_placed_bytes(
    a: Seq<Option<CudaSlot>>,
    b: Seq<Option<CudaSlot>>,
    idx: int,
    slot: CudaSlot,
)
    requires
        placed(a, b, idx, slot),
    ensures
        total_bytes(b) == total_bytes(a) + slot.len * 4,
{
    lemma_placed_upto(a, b, idx, slot, a.len() as int);
    if idx == a.len() {
        assert(bytes_upto(b, b.len() as int) == bytes_upto(b, b.len() - 1) + slot.len * 4);
    }
}

impl CudaSlots {
    /// Adds an owner to a buffer of a CUDA device; CPU tensors are left alone.
    pub fn cuda_refcount_inc(&mut self, storage_id: StorageId, device: Device)
        requires
            old(self).wf(),
            device is Cuda ==> old(self)@.contains_key(storage_id.slot_idx) && old(
                self,
            )@[storage_id.slot_idx].ref_count < usize::MAX,
        ensures
            final(self).wf(),
            final(self)@ == (if device is Cuda {
                old(self)@.insert(
                    storage_id.slot_idx,
                    CudaSlot {
                        len: old(self)@[storage_id.slot_idx].len,
                        ref_count: (old(self)@[storage_id.slot_idx].ref_count + 1) as usize,
                    },
                )
            } else {
                old(self)@
            }),
            final(self).pool() == old(self).pool(),
            final(self).peak_spec() == old(self).peak_spec(),
            forall|n: usize| final(self).can_grow(n) == old(self).can_grow(n),
    {
        let ghost before = *self;
        if device.is_cuda() {
            let i: usize = storage_id.slot_idx as usize;
            if let Some(s) = self.slots[i] {
                self.slots[i] = Some(CudaSlot { len: s.len, ref_count: s.ref_count + 1 });
            }
            proof {
                lemma_same_bytes(before.slots@, self.slots@, before.slots@.len() as int);
                assert forall|k: int| 0 <= k < self.free@.len() implies {
                    let e = #[trigger] self.free@[k];
                    &&& e.1 < self.slots@.len()
                    &&& self.slots@[e.1 as int] == Some(CudaSlot { len: e.0, ref_count: 0 })
                } by {
                    assert(before.slots@[before.free@[k].1 as int] == Some(
                        CudaSlot { len: before.free@[k].0, ref_count: 0 },
                    ));
                }
                assert forall|k: int|
                    0 <= k < self.slots@.len() implies pooled_if_unowned(
                        self.free@,
                        k,
                        #[trigger] self.slots@[k],
                    ) by {
                    if k != i {
                        assert(before.slots@[k] == self.slots@[k]);
                    }
                }
                let want = before@.insert(
                    storage_id.slot_idx,
                    CudaSlot {
                        len: before@[storage_id.slot_idx].len,
                        ref_count: (before@[storage_id.slot_idx].ref_count + 1) as usize,
                    },
                );
                assert(self@ =~= want);
            }
        }
    }

    /// Takes an owner from a buffer of a CUDA device, and pools the buffer when it was the last;
    /// CPU tensors are left alone. Returns whether the buffer was pooled.
    pub fn cuda_refcount_dec(&mut self, storage_id: StorageId, device: Device) -> (freed: bool)
        requires
            old(self).wf(),
            device is Cuda ==> old(self)@.contains_key(storage_id.slot_idx),
        ensures
            final(self).wf(),
            freed == (device is Cuda && old(self)@[storage_id.slot_idx].ref_count == 1),
            final(self)@ == (if device is Cpu {
                old(self)@
            } else if freed {
                old(self)@.remove(storage_id.slot_idx)
            } else {
                old(self)@.insert(
                    storage_id.slot_idx,
                    CudaSlot {
                        len: old(self)@[storage_id.slot_idx].len,
                        ref_count: (old(self)@[storage_id.slot_idx].ref_count - 1) as usize,
                    },
                )
            }),
            final(self).pool() == (if freed {
                old(self).pool().push((old(self)@[storage_id.slot_idx].len, storage_id.slot_idx))
            } else {
                old(self).pool()
            }),
            final(self).peak_spec() == old(self).peak_spec(),
            forall|n: usize| final(self).can_grow(n) == old(self).can_grow(n),
    {
        let ghost before = *self;
        let mut freed = false;
        if device.is_cuda() {
            let i: usize = storage_id.slot_idx as usize;
            if let Some(s) = self.slots[i] {
                self.slots[i] = Some(CudaSlot { len: s.len, ref_count: s.ref_count - 1 });
                if s.ref_count == 1 {
                    freed = true;
                    self.free.push((s.len, storage_id.slot_idx));
                }
            }
            proof {
                lemma_same_bytes(before.slots@, self.slots@, before.slots@.len() as int);
                assert forall|k: int| 0 <= k < before.free@.len() implies before.free@[k].1 != i by {
                    assert(before.slots@[(#[trigger] before.free@[k]).1 as int] == Some(
                        CudaSlot { len: before.free@[k].0, ref_count: 0 },
                    ));
                }
                assert forall|k: int| 0 <= k < self.free@.len() implies {
                    let e = #[trigger] self.free@[k];
                    &&& e.1 < self.slots@.len()
                    &&& self.slots@[e.1 as int] == Some(CudaSlot { len: e.0, ref_count: 0 })
                } by {
                    if k < before.free@.len() {
                        assert(before.free@[k] == self.free@[k]);
                    }
                }
                assert forall|a: int, b: int| 0 <= a < b < self.free@.len() implies self.free@[a].1
                    != self.free@[b].1 by {
                    assert(before.free@[a] == self.free@[a]);
                    if b < before.free@.len() {
                        assert(before.free@[b] == self.free@[b]);
                    }
                }
                assert forall|k: int|
                    0 <= k < self.slots@.len() implies pooled_if_unowned(
                        self.free@,
                        k,
                        #[trigger] self.slots@[k],
                    ) by {
                    if k != i {
                        assert(before.slots@[k] == self.slots@[k]);
                        if let Some(s) = before.slots@[k] {
                            if s.ref_count == 0 {
                                let j = choose|j: int|
                                    0 <= j < before.free@.len() && before.free@[j].1 == k;
                                assert(self.free@[j].1 == k);
                            }
                        }
                    } else if freed {
                        assert(self.free@[before.free@.len() as int].1 == k);
                    }
                }
                let want = if freed {
                    before@.remove(storage_id.slot_idx)
                } else {
                    before@.insert(
                        storage_id.slot_idx,
                        CudaSlot {
                            len: before@[storage_id.slot_idx].len,
                            ref_count: (before@[storage_id.slot_idx].ref_count - 1) as usize,
                        },
                    )
                };
                assert(self@ =~= want);
            }
        }
        freed
    }
}

} // verus!
