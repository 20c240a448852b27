//! How long blocks and gradients live.
use vstd::prelude::*;
use crate::autograd::collect::finished;
use crate::autograd::sweep::Grads;
use crate::cells::Meta;
use crate::create::shared;
use crate::custody::grad_key;
use crate::handle::added;
use crate::runtime::{given_back, Runtime};
use crate::scalar::Scalar;
use crate::storage::{Block, StorageId};
use crate::tape::{count_key, lemma_retained, lemma_valid_refs, NodeView};
use crate::tensor::{Key, Tensor};

verus! {

/// Giving a clone back undoes the clone: every block is referred to as often as before, with the
/// same contents, every handle has the same metadata, and no gradient is lost.
pub proof fn law_clone_release<S>(a: Runtime<S>, b: Runtime<S>, c: Runtime<S>, t: Tensor, r: Tensor)
    requires
        a.wf(),
        b.wf(),
        c.wf(),
        t.valid(a.mem),
        a.mem.refs(t.key()) < usize::MAX,
        shared(a, b, t, r, t.shape, t.strides),
        given_back(b, c, r),
    ensures
        forall|k: Key| #[trigger] c.mem.refs(k) == a.mem.refs(k),
        c.mem.cells@ == a.mem.cells@,
        c.gradients@ == a.gradients@,
        c.tape == a.tape,
        t.valid(c.mem),
        t.device is Cpu ==> t.block(c.mem) == t.block(a.mem),
{
    lemma_valid_refs(a.mem, t);
    lemma_retained(a.mem, b.mem, t.key());
    assert(b.mem.refs(r.key()) == a.mem.refs(t.key()) + 1);
    assert(c.mem.cells@ =~= a.mem.cells@);
    assert forall|k: Key| #[trigger] c.mem.refs(k) == a.mem.refs(k) by {
        assert(c.mem.refs(k) == b.mem.refs(k) - (if k == r.key() {
            1int
        } else {
            0int
        }));
    }
    assert(c.mem.refs(t.key()) == a.mem.refs(t.key()));
}

/// A block is freed with its last handle and not before.
pub proof fn law_freed_with_last<S>(a: Runtime<S>, b: Runtime<S>, t: Tensor)
    requires
        a.wf(),
        b.wf(),
        t.valid(a.mem),
        given_back(a, b, t),
        a.gradients@.contains_key(grad_key(t)) ==> a.gradients@[grad_key(t)].key() != t.key(),
    ensures
        b.mem.refs(t.key()) == a.mem.refs(t.key()) - 1,
        t.device is Cpu ==> (b.mem.arena@.contains_key(t.storage_id) <==> a.mem.refs(t.key()) > 1),
{
    lemma_valid_refs(a.mem, t);
    b.mem.arena.lemma_wf();
    assert(b.mem.refs(t.key()) == a.mem.refs(t.key()) - 1);
}

/// A tensor that comes to lie where a released one lay has no gradient, however the slot was
/// used before: the gradient of a tensor goes with its last handle.
pub proof fn law_no_stale_gradient<S>(
    a: Runtime<S>,
    b: Runtime<S>,
    c: Runtime<S>,
    t: Tensor,
    u: Tensor,
    block: Block<S>,
    meta: Meta,
)
    requires
        a.hooks.drop,
        a.mem.refs(t.key()) == 1,
        given_back(a, b, t),
        added(b, c, u, block, meta),
        grad_key(u) == grad_key(t),
    ensures
        !c.gradients@.contains_key(grad_key(u)),
{
}

/// After a backward pass the runtime keeps nothing but gradients: every other reference is the
/// caller's.
pub proof fn law_backward_keeps_gradients<S: Scalar>(a: Runtime<S>, b: Runtime<S>, grads: Grads<S>)
    requires
        finished(a, b, grads),
    ensures
        b.holds() == b.gradients.held(),
        forall|k: Key| #[trigger] b.owners(k) == a.owners(k),
{
    assert(b.holds() =~= b.gradients.held());
    assert forall|k: Key| #[trigger] b.owners(k) == a.owners(k) by {
        assert(b.owners(k) == a.owners(k) + count_key(Seq::<Tensor>::empty(), k));
    }
}

/// Nothing leaks: once the tape is empty and no gradient is kept, every reference to a block is
/// one of the caller's, and a block that the caller has no handle to is free.
pub proof fn law_nothing_leaks<S>(rt: Runtime<S>)
    requires
        rt.wf(),
        rt.tape@ == Seq::<NodeView>::empty(),
        rt.gradients.held() == Seq::<Tensor>::empty(),
        rt.checkpoint_gradients.held() == Seq::<Tensor>::empty(),
    ensures
        forall|k: Key| #[trigger] rt.mem.refs(k) == rt.owners(k),
        forall|id: StorageId| #[trigger]
            rt.mem.arena@.contains_key(id) ==> rt.owners(Key::Cpu(id)) > 0,
        forall|i: u32| #[trigger] rt.mem.cuda@.contains_key(i) ==> rt.owners(Key::Cuda(i)) > 0,
{
    assert(rt.holds() =~= Seq::<Tensor>::empty());
    rt.mem.arena.lemma_wf();
    assert forall|id: StorageId| #[trigger] rt.mem.arena@.contains_key(id) implies rt.owners(
        Key::Cpu(id),
    ) > 0 by {
        assert(rt.mem.refs(Key::Cpu(id)) == rt.owners(Key::Cpu(id)));
    }
    assert forall|i: u32| #[trigger] rt.mem.cuda@.contains_key(i) implies rt.owners(Key::Cuda(i))
        > 0 by {
        assert(rt.mem.refs(Key::Cuda(i)) == rt.owners(Key::Cuda(i)));
    }
}

} // verus!
