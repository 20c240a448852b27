//! Laws of broadcasting.
use vstd::prelude::*;
use crate::cpu::elementwise::lemma_broadcast_reads;
use crate::shape::{
    agree_at, broadcast_dims, broadcastable, broadcasts_to, dim_from_end, joined, larger,
    stretches_at,
};

verus! {

/// The order of two shapes does not matter: they broadcast in both or in none, and to the same
/// shape.
pub proof fn law_broadcast_commutative(a: Seq<usize>, b: Seq<usize>)
    ensures
        broadcastable(a, b) == broadcastable(b, a),
        broadcastable(a, b) ==> broadcast_dims(a, b) == broadcast_dims(b, a),
{
    if broadcastable(a, b) {
        assert forall|k: int| 0 <= k < larger(b.len(), a.len()) implies #[trigger] agree_at(
            b,
            a,
            k,
        ) by {
            assert(agree_at(a, b, k));
        }
        let n = larger(a.len(), b.len());
        assert forall|j: int| 0 <= j < n implies broadcast_dims(a, b)[j] == broadcast_dims(b, a)[j]
            by {
            assert(agree_at(a, b, n - 1 - j));
        }
        assert(broadcast_dims(a, b) =~= broadcast_dims(b, a));
    } else {
        let k = choose|k: int| 0 <= k < larger(a.len(), b.len()) && !#[trigger] agree_at(a, b, k);
        assert(!agree_at(b, a, k));
    }
}

/// Both shapes can be read as their common shape.
pub proof fn law_broadcast_reaches(a: Seq<usize>, b: Seq<usize>)
    requires
        broadcastable(a, b),
    ensures
        broadcasts_to(a, broadcast_dims(a, b)),
        broadcasts_to(b, broadcast_dims(a, b)),
        broadcast_dims(a, b).len() == larger(a.len(), b.len()),
{
    lemma_broadcast_reads(a, b);
}

/// A shape broadcasts with itself, to itself.
pub proof fn law_broadcast_self(a: Seq<usize>)
    ensures
        broadcastable(a, a),
        broadcast_dims(a, a) == a,
        broadcasts_to(a, a),
{
    assert(broadcast_dims(a, a) =~= a);
}

/// A scalar broadcasts with every shape, to that shape.
pub proof fn law_broadcast_scalar(a: Seq<usize>)
    ensures
        broadcastable(Seq::empty(), a),
        broadcast_dims(Seq::empty(), a) == a,
        broadcasts_to(Seq::empty(), a),
{
    assert(broadcast_dims(Seq::empty(), a) =~= a);
}

/// A shape that can be read as another broadcasts with it, to the other.
pub proof fn law_broadcast_absorbs(a: Seq<usize>, target: Seq<usize>)
    requires
        broadcasts_to(a, target),
    ensures
        broadcastable(target, a),
        broadcast_dims(target, a) == target,
        broadcastable(a, target),
        broadcast_dims(a, target) == target,
{
    assert forall|k: int| 0 <= k < larger(target.len(), a.len()) implies #[trigger] agree_at(
        target,
        a,
        k,
    ) by {
        if k < a.len() {
            assert(stretches_at(a, target, k));
        }
    }
    let n = target.len();
    assert forall|j: int| 0 <= j < n implies #[trigger] broadcast_dims(target, a)[j] == target[j] by {
        let k = n - 1 - j;
        assert(dim_from_end(target, k) == target[j]);
        if k < a.len() {
            assert(stretches_at(a, target, k));
        }
    }
    assert(broadcast_dims(target, a) =~= target);
    law_broadcast_commutative(target, a);
}

/// What can be read as a shape can be read as whatever that shape can be read as.
pub proof fn law_broadcast_transitive(a: Seq<usize>, b: Seq<usize>, c: Seq<usize>)
    requires
        broadcasts_to(a, b),
        broadcasts_to(b, c),
    ensures
        broadcasts_to(a, c),
{
    assert forall|k: int| 0 <= k < a.len() implies #[trigger] stretches_at(a, c, k) by {
        assert(stretches_at(a, b, k));
        assert(stretches_at(b, c, k));
    }
}

/// The common shape is the least: two shapes that can be read as a third broadcast, and their
/// common shape can be read as it.
pub proof fn law_broadcast_least(a: Seq<usize>, b: Seq<usize>, c: Seq<usize>)
    requires
        broadcasts_to(a, c),
        broadcasts_to(b, c),
    ensures
        broadcastable(a, b),
        broadcasts_to(broadcast_dims(a, b), c),
{
    let n = larger(a.len(), b.len());
    assert forall|k: int| 0 <= k < n implies #[trigger] agree_at(a, b, k) by {
        if k < a.len() {
            assert(stretches_at(a, c, k));
        }
        if k < b.len() {
            assert(stretches_at(b, c, k));
        }
    }
    let d = broadcast_dims(a, b);
    assert forall|k: int| 0 <= k < d.len() implies #[trigger] stretches_at(d, c, k) by {
        assert(agree_at(a, b, k));
        if k < a.len() {
            assert(stretches_at(a, c, k));
        }
        if k < b.len() {
            assert(stretches_at(b, c, k));
        }
        assert(d[d.len() - 1 - k] == joined(dim_from_end(a, k), dim_from_end(b, k)));
    }
}

/// Two shapes fail to broadcast only where two aligned extents differ and neither is 1.
pub proof fn law_broadcast_conflict(a: Seq<usize>, b: Seq<usize>)
    requires
        !broadcastable(a, b),
    ensures
        exists|k: int|
            0 <= k < a.len() && k < b.len() && #[trigger] dim_from_end(a, k) != dim_from_end(b, k)
                && dim_from_end(a, k) != 1 && dim_from_end(b, k) != 1,
{
    let k = choose|k: int| 0 <= k < larger(a.len(), b.len()) && !#[trigger] agree_at(a, b, k);
    assert(dim_from_end(a, k) != dim_from_end(b, k));
}

} // verus!
