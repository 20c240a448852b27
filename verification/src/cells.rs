//! The mutable metadata of tensor handles.
use vstd::prelude::*;

verus! {

/// What autograd keeps about one tensor handle.
#[derive(Debug, Clone, Copy, PartialEq, Eq, Structural)]
pub struct Meta {
    /// The tape node token of the handle.
    pub node_id: Option<u64>,
    /// Whether gradients are computed for the handle.
    pub requires_grad: bool,
}

/// One metadata cell per tensor handle.
#[derive(Debug)]
pub struct Cells {
    cells: Vec<Option<Meta>>,
    free: Vec<usize>,
}

impl Cells {
    /// The cells in use.
    pub closed spec fn view(self) -> Map<usize, Meta> {
        Map::new(
            |i: usize| i < self.cells@.len() && self.cells@[i as int] is Some,
            |i: usize| self.cells@[i as int]->0,
        )
    }

    /// The free list names every cell that is not in use once, and no other.
    pub closed spec fn wf(self) -> bool {
        &&& forall|i: int, j: int|
            0 <= i < j < self.free@.len() ==> self.free@[i] != self.free@[j]
        &&& forall|i: int|
            0 <= i < self.free@.len() ==> (#[trigger] self.free@[i]) < self.cells@.len()
                && self.cells@[self.free@[i] as int] is None
    }

    /// How many more cells can be made.
    pub closed spec fn room(self) -> int {
        self.free@.len() + (usize::MAX - self.cells@.len())
    }

    /// No cell in use.
    pub fn new() -> (c: Self)
        ensures
            c.wf(),
            c@ == Map::<usize, Meta>::empty(),
            c.room() == usize::MAX,
    {
        let c = Cells { cells: Vec::new(), free: Vec::new() };
        assert(c@ =~= Map::<usize, Meta>::empty());
        c
    }

    /// Makes a cell.
    pub fn create(&mut self, meta: Meta) -> (i: usize)
        requires
            old(self).wf(),
            old(self).room() > 0,
        ensures
            final(self).wf(),
            !old(self)@.contains_key(i),
            final(self)@ == old(self)@.insert(i, meta),
            final(self).room() == old(self).room() - 1,
    {
        let ghost before = *self;
        let i: usize = match self.free.pop() {
            Some(i) => {
                proof {
                    assert(before.free@[before.free@.len() - 1] == i);
                    assert forall|k: int| 0 <= k < self.free@.len() implies (
                    #[trigger] self.free@[k]) < self.cells@.len()
                        && self.cells@[self.free@[k] as int] is None by {
                        assert(self.free@[k] == before.free@[k]);
                    }
                }
                self.cells[i] = Some(meta);
                proof {
                    assert forall|k: int| 0 <= k < self.free@.len() implies (
                    #[trigger] self.free@[k]) < self.cells@.len()
                        && self.cells@[self.free@[k] as int] is None by {
                        assert(self.free@[k] == before.free@[k]);
                    }
                }
                i
            },
            None => {
                let i: usize = self.cells.len();
                self.cells.push(Some(meta));
                i
            },
        };
        assert(self@ =~= before@.insert(i, meta));
        i
    }

    /// The contents of a cell.
    pub fn get(&self, i: usize) -> (m: Meta)
        requires
            self.wf(),
            self@.contains_key(i),
        ensures
            m == self@[i],
    {
        match self.cells[i] {
            Some(m) => m,
            None => Meta { node_id: None, requires_grad: false },
        }
    }

    /// Changes the contents of a cell.
    pub fn set(&mut self, i: usize, meta: Meta)
        requires
            old(self).wf(),
            old(self)@.contains_key(i),
        ensures
            final(self).wf(),
            final(self)@ == old(self)@.insert(i, meta),
            final(self).room() == old(self).room(),
    {
        let ghost before = *self;
        self.cells[i] = Some(meta);
        proof {
            assert forall|k: int| 0 <= k < self.free@.len() implies (#[trigger] self.free@[k])
                < self.cells@.len() && self.cells@[self.free@[k] as int] is None by {
                assert(before.cells@[before.free@[k] as int] is None);
            }
            assert(self@ =~= before@.insert(i, meta));
        }
    }

    /// Gives a cell back.
    pub(crate) fn discard(&mut self, i: usize)
        requires
            old(self).wf(),
            old(self)@.contains_key(i),
        ensures
            final(self).wf(),
            final(self)@ == old(self)@.remove(i),
            final(self).room() == old(self).room() + 1,
    {
        let ghost before = *self;
        self.cells[i] = None;
        self.free.push(i);
        proof {
            assert forall|k: int| 0 <= k < self.free@.len() implies (#[trigger] self.free@[k])
                < self.cells@.len() && self.cells@[self.free@[k] as int] is None by {
                if k < before.free@.len() {
                    assert(before.cells@[before.free@[k] as int] is None);
                }
            }
            assert forall|a: int, b: int| 0 <= a < b < self.free@.len() implies self.free@[a]
                != self.free@[b] by {
                if b == before.free@.len() {
                    assert(before.cells@[before.free@[a] as int] is None);
                }
            }
            assert(self@ =~= before@.remove(i));
        }
    }
}

} // verus!
