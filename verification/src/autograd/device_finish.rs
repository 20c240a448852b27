//! The end of a backward pass on a device.
use vstd::prelude::*;
use crate::autograd::checkpoint::lemma_tape_valid;
use crate::autograd::collect::tokens_ok;
use crate::autograd::device_pass::{leaf_kept, leaf_place, owners_of, DevicePass};
use crate::autograd::grads::tape_handles;
use crate::create::shared;
use crate::custody::grad_key;
use crate::runtime::{saved_upto, Runtime};
use crate::scalar::Scalar;
use crate::tape::{lemma_retained, live_index};
use crate::tensor::Tensor;
use crate::trail::{drops, trail};

verus! {

/// Handle `k` of node `n` has taken its gradient as a leaf, unless it has one or takes none.
pub open spec fn handle_kept<S>(
    grads: Seq<(u32, Tensor)>,
    a: Runtime<S>,
    b: Runtime<S>,
    n: int,
    k: int,
) -> bool {
    let key = grad_key(a.tape@[n].saved[k]);
    match leaf_place(grads, a, n, k) {
        Some(i) => if a.gradients@.contains_key(key) {
            b == a
        } else {
            leaf_kept(a, b, key, grads[i].1)
        },
        None => b == a,
    }
}

/// The handles of node `n` from `k` on have taken their gradients, the last one first.
pub open spec fn node_kept<S>(
    grads: Seq<(u32, Tensor)>,
    a: Runtime<S>,
    b: Runtime<S>,
    n: int,
    k: int,
) -> bool
    decreases a.tape@[n].saved.len() - k,
{
    if k >= a.tape@[n].saved.len() {
        b == a
    } else {
        exists|m: Runtime<S>|
            node_kept(grads, a, m, n, k + 1) && #[trigger] handle_kept(grads, m, b, n, k)
    }
}

/// The leaves on the tape from node `n` on have taken their gradients, the last one first: a
/// leaf keeps the first that it is given.
pub open spec fn leaves_kept<S>(
    grads: Seq<(u32, Tensor)>,
    a: Runtime<S>,
    b: Runtime<S>,
    n: int,
) -> bool
    decreases a.tape@.len() - n,
{
    if n >= a.tape@.len() {
        b == a
    } else {
        exists|m: Runtime<S>|
            leaves_kept(grads, a, m, n + 1) && #[trigger] node_kept(grads, m, b, n, 0)
    }
}

/// There is room for `count` more handles to the gradients of a pass.
pub open spec fn keepable<S>(grads: Seq<(u32, Tensor)>, rt: Runtime<S>, count: int) -> bool {
    &&& rt.mem.cells.room() >= count
    &&& forall|i: int|
        0 <= i < grads.len() ==> rt.mem.refs((#[trigger] grads[i]).1.key()) + count <= usize::MAX
}

/// Keeping a gradient takes room for one handle, and changes no token.
proof fn lemma_handle_kept<S>(
    grads: Seq<(u32, Tensor)>,
    a: Runtime<S>,
    b: Runtime<S>,
    n: int,
    k: int,
    count: int,
)
    requires
        a.wf(),
        tokens_ok(a),
        forall|i: int| 0 <= i < grads.len() ==> (#[trigger] grads[i]).1.valid(a.mem),
        handle_kept(grads, a, b, n, k),
        keepable(grads, a, count),
        count >= 1,
    ensures
        b.tape == a.tape,
        tokens_ok(b),
        keepable(grads, b, count - 1),
{
    let key = grad_key(a.tape@[n].saved[k]);
    if b != a {
        let h = grads[leaf_place(grads, a, n, k)->0].1;
        let (mid, g) = choose|mid: Runtime<S>, g: Tensor|
            {
                &&& #[trigger] shared(a, mid, h, g, h.shape, h.strides)
                &&& b == (Runtime { gradients: b.gradients, ..mid })
                &&& b.gradients@ == a.gradients@.insert(key, g)
            };
        lemma_place(grads, a, n, k);
        assert(h.valid(a.mem));
        assert(a.mem.refs(h.key()) + count <= usize::MAX);
        lemma_retained(a.mem, mid.mem, h.key());
        assert(tape_handles(b) == tape_handles(a));
        assert forall|t: Tensor| #[trigger] tape_handles(b).contains(t) implies (live_index(
            t.meta(b.mem).node_id,
            b.tape.generation,
        ) matches Some(i) ==> i < b.tape@.len()) by {
            assert(tape_handles(a).contains(t));
            lemma_tape_valid(a, t);
            assert(t.meta(b.mem) == t.meta(a.mem));
        }
        assert forall|i: int| 0 <= i < grads.len() implies b.mem.refs((#[trigger] grads[i]).1.key())
            + (count - 1) <= usize::MAX by {
            assert(a.mem.refs(grads[i].1.key()) + count <= usize::MAX);
        }
    }
}

impl DevicePass {
    /// Makes what the pass came to the gradients of the leaves on the tape, and ends the pass:
    /// its handles are given back.
    #[verifier::rlimit(40)]
    pub fn finish<S: Scalar>(self, rt: &mut Runtime<S>)
        requires
            old(rt).wf(),
            self.of(*old(rt)),
            self.pending@.len() == 0,
            tokens_ok(*old(rt)),
            forall|n: int|
                0 <= n < old(rt).tape@.len() ==> (#[trigger] old(rt).tape@[n]).saved.len()
                    <= old(rt).tape@[n].inputs.len(),
            keepable(
                self.grads@,
                *old(rt),
                saved_upto(old(rt).tape@, old(rt).tape@.len() as int).len() as int,
            ),
        ensures
            final(rt).wf(),
            exists|m: Runtime<S>| #[trigger]
                leaves_kept(self.grads@, *old(rt), m, 0) && m.tape == old(rt).tape && trail(
                    m,
                    *final(rt),
                    drops(owners_of(self.grads@)),
                ),
    {
        let ghost a = *rt;
        let ghost grads = self.grads@;
        let ghost nodes = a.tape@;
        let mut n: usize = rt.tape.nodes.len();
        while n > 0
            invariant
                n <= nodes.len(),
                nodes == a.tape@,
                rt.wf(),
                self.of(*rt),
                grads == self.grads@,
                rt.tape == a.tape,
                tokens_ok(*rt),
                forall|i: int|
                    0 <= i < nodes.len() ==> (#[trigger] nodes[i]).saved.len()
                        <= nodes[i].inputs.len(),
                keepable(grads, *rt, saved_upto(nodes, n as int).len() as int),
                leaves_kept(grads, a, *rt, n as int),
            decreases n,
        {
            n = n - 1;
            let ghost b = *rt;
            let ghost below = saved_upto(nodes, n as int).len() as int;
            assert(rt.tape.nodes@[n as int]@ == nodes[n as int]);
            let mut k: usize = rt.tape.nodes[n].saved_tensors.len();
            while k > 0
                invariant
                    n < nodes.len(),
                    nodes == a.tape@,
                    k <= nodes[n as int].saved.len(),
                    rt.wf(),
                    self.of(*rt),
                    grads == self.grads@,
                    rt.tape == a.tape,
                    b.tape == a.tape,
                    tokens_ok(*rt),
                    forall|i: int|
                        0 <= i < nodes.len() ==> (#[trigger] nodes[i]).saved.len()
                            <= nodes[i].inputs.len(),
                    keepable(grads, *rt, below + k),
                    below >= 0,
                    node_kept(grads, b, *rt, n as int, k as int),
                decreases k,
            {
                k = k - 1;
                let ghost c = *rt;
                proof {
                    if let Some(i) = leaf_place(grads, c, n as int, k as int) {
                        lemma_place(grads, c, n as int, k as int);
                        assert(c.mem.refs(grads[i].1.key()) + (below + k + 1) <= usize::MAX);
                    }
                }
                self.keep_leaf(n, k, rt);
                proof {
                    assert(handle_kept(grads, c, *rt, n as int, k as int));
                    assert forall|i: int| 0 <= i < grads.len() implies (
                    #[trigger] grads[i]).1.valid(c.mem) by {
                        assert(self.handles()[i] == grads[i].1);
                        assert(self.handles()[i].valid(c.mem));
                    }
                    lemma_handle_kept(grads, c, *rt, n as int, k as int, below + k + 1);
                }
            }
            assert(node_kept(grads, b, *rt, n as int, 0));
        }
        let ghost m = *rt;
        self.close(rt);
        assert(leaves_kept(grads, a, m, 0));
    }
}

/// A place is one of the list.
proof fn lemma_place<S>(grads: Seq<(u32, Tensor)>, rt: Runtime<S>, n: int, k: int)
    ensures
        leaf_place(grads, rt, n, k) matches Some(i) ==> 0 <= i < grads.len(),
{
    match rt.tape@[n].inputs[k] {
        Some(id) => lemma_place_of(grads, id),
        None => {},
    }
}

proof fn lemma_place_of(grads: Seq<(u32, Tensor)>, node: u32)
    ensures
        crate::autograd::device_pass::place_of(grads, node) matches Some(i) ==> 0 <= i
            < grads.len(),
    decreases grads.len(),
{
    if grads.len() > 0 {
        lemma_place_of(grads.drop_last(), node);
    }
}

} // verus!
