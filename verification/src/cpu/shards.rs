//! The order in which storage shards are locked.
use vstd::prelude::*;

verus! {

/// Up to three shards in a deadlock-free order: ascending, and each once.
#[derive(Debug, Clone, Copy)]
pub struct LockedShards {
    indices: [u8; 3],
    count: usize,
}

impl LockedShards {
    /// The shards in the order in which they are locked.
    pub closed spec fn view(self) -> Seq<u8> {
        self.indices@.take(self.count as int)
    }

    /// Between one and three shards, ascending.
    pub closed spec fn wf(self) -> bool {
        &&& 1 <= self.count <= 3
        &&& forall|i: int, j: int| 0 <= i < j < self.count ==> self.indices@[i] < self.indices@[j]
    }

    /// Picks the order in which up to three shards are locked.
    #[must_use]
    pub fn lock(s0: u8, s1: u8, s2: u8) -> (r: Self)
        ensures
            r.wf(),
            forall|i: int, j: int| 0 <= i < j < r@.len() ==> r@[i] < r@[j],
            forall|s: u8| #[trigger] r@.contains(s) == (s == s0 || s == s1 || s == s2),
    {
        let (a, b) = if s0 <= s1 {
            (s0, s1)
        } else {
            (s1, s0)
        };
        let (low, mid, high) = if s2 < a {
            (s2, a, b)
        } else if s2 < b {
            (a, s2, b)
        } else {
            (a, b, s2)
        };
        let r = if low == mid {
            if mid == high {
                LockedShards { indices: [low, 0, 0], count: 1 }
            } else {
                LockedShards { indices: [low, high, 0], count: 2 }
            }
        } else if mid == high {
            LockedShards { indices: [low, mid, 0], count: 2 }
        } else {
            LockedShards { indices: [low, mid, high], count: 3 }
        };
        proof {
            assert forall|s: u8| #[trigger] r@.contains(s) == (s == s0 || s == s1 || s == s2) by {
                assert(r@[0] == low);
                if s == low {
                    assert(r@.contains(r@[0]));
                }
                if s == mid && low != mid {
                    assert(r@[1] == mid);
                    assert(r@.contains(r@[1]));
                }
                if s == high && mid != high {
                    assert(r@[r.count - 1] == high);
                    assert(r@.contains(r@[r.count - 1]));
                }
            }
        }
        r
    }

    /// How many shards are locked.
    #[must_use]
    pub fn len(&self) -> (r: usize)
        requires
            self.wf(),
        ensures
            r == self@.len(),
    {
        self.count
    }

    /// The shard that is locked at a place.
    #[must_use]
    pub fn at(&self, i: usize) -> (r: u8)
        requires
            self.wf(),
            i < self@.len(),
        ensures
            r == self@[i as int],
    {
        self.indices[i]
    }

    /// The place of a locked shard.
    #[must_use]
    pub fn get(&self, shard_idx: u8) -> (r: usize)
        requires
            self.wf(),
            self@.contains(shard_idx),
        ensures
            r < self@.len(),
            self@[r as int] == shard_idx,
    {
        let mut i: usize = 0;
        while i < self.count
            invariant
                self.wf(),
                i <= self.count,
                self@.contains(shard_idx),
                forall|k: int| 0 <= k < i ==> self@[k] != shard_idx,
            decreases self.count - i,
        {
            if self.indices[i] == shard_idx {
                return i;
            }
            assert(self@[i as int] == self.indices@[i as int]);
            i = i + 1;
        }
        assert(false);
        0
    }
}

/// Whatever two threads lock, they lock what both need in the same order: no two shards are
/// locked by one in one order and by the other in the other.
pub proof fn law_no_deadlock(
    a: LockedShards,
    b: LockedShards,
    x: u8,
    y: u8,
    i: int,
    j: int,
    k: int,
    l: int,
)
    requires
        a.wf(),
        b.wf(),
        0 <= i < j < a@.len(),
        a@[i] == x,
        a@[j] == y,
        0 <= k < b@.len(),
        0 <= l < b@.len(),
        b@[k] == x,
        b@[l] == y,
    ensures
        k < l,
{
    assert(a.indices@[i] < a.indices@[j]);
    if l < k {
        assert(b.indices@[l] < b.indices@[k]);
    }
}

} // verus!
