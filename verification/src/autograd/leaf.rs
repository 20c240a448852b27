//! Which gradient a leaf ends up with.
use vstd::prelude::*;
use crate::autograd::backward::{differentiated, swept, unit_grad};
use crate::autograd::collect::{all_gradients, block_values, is_leaf, leaves, node_leaves};
use crate::autograd::exact::{exact, lemma_add, lemma_mul, pairing, total};
use crate::autograd::sweep::Grads;
use crate::cells::Meta;
use crate::cpu::elementwise::{zip_value, BinaryOp};
use crate::cpu::entries::law_zip_entry;
use crate::custody::grad_key;
use crate::dense::Value;
use crate::forward::tracks;
use crate::index::numel;
use crate::op::OpType;
use crate::runtime::{GradKey, Runtime};
use crate::scalar::{one, zero, Scalar};
use crate::tensor::Tensor;

verus! {

/// Whatever handle of a tensor is on the tape as a leaf names node `id`, and handle `k` of node
/// `n` is one.
pub open spec fn enters_as<S>(rt: Runtime<S>, key: GradKey, id: u32, n: int, k: int) -> bool {
    &&& 0 <= n < rt.tape@.len()
    &&& 0 <= k < rt.tape@[n].saved.len()
    &&& grad_key(rt.tape@[n].saved[k]) == key
    &&& is_leaf(rt, rt.tape@[n].saved[k])
    &&& forall|m: int, j: int|
        0 <= m < rt.tape@.len() && 0 <= j < rt.tape@[m].saved.len() && grad_key(
            #[trigger] rt.tape@[m].saved[j],
        ) == key && is_leaf(rt, rt.tape@[m].saved[j]) ==> rt.tape@[m].inputs[j] == Some(id)
}

/// The handles of the first nodes leave the gradient of a tensor at that of its node.
proof fn lemma_node_leaves<S>(
    rt: Runtime<S>,
    grads: Grads<S>,
    start: Map<GradKey, Value<S>>,
    key: GradKey,
    id: u32,
    n: int,
    j: int,
    m: int,
    k: int,
)
    requires
        enters_as(rt, key, id, n, j),
        0 <= m < rt.tape@.len(),
        0 <= k <= rt.tape@[m].saved.len(),
        start.contains_key(key) ==> start[key] == grads[id as int] && grads.contains_key(id as int),
    ensures
        ({
            let r = node_leaves(rt, grads, start, m, k);
            &&& r.contains_key(key) ==> r[key] == grads[id as int] && grads.contains_key(id as int)
            &&& start.contains_key(key) ==> r.contains_key(key)
            &&& m == n && j < k && grads.contains_key(id as int) ==> r.contains_key(key)
        }),
    decreases k,
{
    if k > 0 {
        lemma_node_leaves(rt, grads, start, key, id, n, j, m, k - 1);
        let t = rt.tape@[m].saved[k - 1];
        if grad_key(t) == key && is_leaf(rt, t) {
            assert(rt.tape@[m].inputs[k - 1] == Some(id));
        }
    }
}

proof fn lemma_leaves<S>(
    rt: Runtime<S>,
    grads: Grads<S>,
    key: GradKey,
    id: u32,
    n: int,
    j: int,
    m: int,
)
    requires
        enters_as(rt, key, id, n, j),
        0 <= m <= rt.tape@.len(),
    ensures
        ({
            let r = leaves(rt, grads, m);
            &&& r.contains_key(key) ==> r[key] == grads[id as int] && grads.contains_key(id as int)
            &&& n < m && grads.contains_key(id as int) ==> r.contains_key(key)
        }),
    decreases m,
{
    if m > 0 {
        lemma_leaves(rt, grads, key, id, n, j, m - 1);
        lemma_node_leaves(
            rt,
            grads,
            leaves(rt, grads, m - 1),
            key,
            id,
            n,
            j,
            m - 1,
            rt.tape@[m - 1].saved.len() as int,
        );
    }
}

/// After a backward pass a leaf that the caller owns has the gradient that the pass came to at
/// its node, no more and no less, whatever gradient it had before; a leaf that no gradient
/// reached has none.
pub proof fn law_leaf_gradient<S: Scalar>(
    a: Runtime<S>,
    b: Runtime<S>,
    output: Tensor,
    grad: Value<S>,
    u: Tensor,
    id: u32,
    n: int,
    k: int,
)
    requires
        differentiated(a, b, output, grad),
        output.meta(a.mem).node_id is Some,
        u.owned(a),
        enters_as(a, grad_key(u), id, n, k),
        !a.checkpoint_gradients@.contains_key(grad_key(u)),
    ensures
        ({
            let grads = swept(a, output, grad).grads;
            &&& b.gradients@.contains_key(grad_key(u)) <==> grads.contains_key(id as int)
            &&& grads.contains_key(id as int) ==> b.gradients@[grad_key(u)].value(b.mem)
                == grads[id as int]
        }),
{
    let grads = swept(a, output, grad).grads;
    let key = grad_key(u);
    lemma_leaves(a, grads, key, id, n, k, a.tape@.len() as int);
    let m = all_gradients(a, grads);
    assert(!block_values(a).contains_key(key));
    assert(m.contains_key(key) <==> leaves(a, grads, a.tape@.len() as int).contains_key(key));
}

/// A backward pass from a scalar starts from 1, so that the gradients of the leaves weigh against
/// the changes of the leaves what the scalar itself changes.
pub proof fn law_unit_start<S: Scalar>(dims: Seq<usize>, change: S)
    requires
        exact::<S>(),
    ensures
        unit_grad::<S>(dims).dims == dims,
        pairing(unit_grad::<S>(dims).data, seq![change]) == change,
{
    let f = |i: int| S::mul_spec(unit_grad::<S>(dims).data[i], seq![change][i]);
    assert(total(1, f) == S::add_spec(total(0, f), f(0)));
    lemma_mul(change, one(), zero());
    lemma_add(change, zero(), zero());
}

/// Gradients flow through an operation where they flow to one of its operands; through a lookup
/// where they flow to the table, and through the loss where they flow to the logits.
pub proof fn law_gradients_flow(op: OpType, metas: Seq<Meta>)
    requires
        0 < metas.len() <= 3,
        op is Embedding || op is CrossEntropy ==> metas.len() == 2,
    ensures
        op is Embedding ==> tracks(op, metas) == metas[1].requires_grad,
        op is CrossEntropy ==> tracks(op, metas) == metas[0].requires_grad,
        !(op is Embedding) && !(op is CrossEntropy) ==> (tracks(op, metas) <==> exists|i: int|
            0 <= i < metas.len() && (#[trigger] metas[i]).requires_grad),
{
    if !(op is Embedding) && !(op is CrossEntropy) {
        if exists|i: int| 0 <= i < metas.len() && (#[trigger] metas[i]).requires_grad {
            let i = choose|i: int| 0 <= i < metas.len() && (#[trigger] metas[i]).requires_grad;
            assert(metas[i].requires_grad);
        }
        if tracks(op, metas) {
            let i = choose|i: int|
                0 <= i < metas.len() && i < 3 && (#[trigger] metas[i]).requires_grad;
            assert(metas[i].requires_grad);
        }
    }
}

/// A tensor that replayed blocks used too gets what the pass came to and what the blocks came to,
/// added element by element.
pub proof fn law_block_gradient_added<S: Scalar>(
    a: Runtime<S>,
    b: Runtime<S>,
    output: Tensor,
    grad: Value<S>,
    u: Tensor,
    id: u32,
    n: int,
    k: int,
    i: int,
)
    requires
        differentiated(a, b, output, grad),
        output.meta(a.mem).node_id is Some,
        u.owned(a),
        enters_as(a, grad_key(u), id, n, k),
        swept(a, output, grad).grads.contains_key(id as int),
        a.checkpoint_gradients@.contains_key(grad_key(u)),
        ({
            let g = swept(a, output, grad).grads[id as int];
            let c = a.checkpoint_gradients@[grad_key(u)].value(a.mem);
            &&& g.wf()
            &&& c.wf()
            &&& c.dims == g.dims
            &&& 0 <= i < g.data.len()
        }),
    ensures
        ({
            let g = swept(a, output, grad).grads[id as int];
            let c = a.checkpoint_gradients@[grad_key(u)].value(a.mem);
            &&& b.gradients@.contains_key(grad_key(u))
            &&& b.gradients@[grad_key(u)].value(b.mem).data[i] == S::add_spec(
                g.data[i],
                c.data[i],
            )
        }),
{
    let grads = swept(a, output, grad).grads;
    let key = grad_key(u);
    lemma_leaves(a, grads, key, id, n, k, a.tape@.len() as int);
    let m = all_gradients(a, grads);
    let g = grads[id as int];
    let c = a.checkpoint_gradients@[key].value(a.mem);
    assert(block_values(a)[key] == c);
    assert(m[key] == zip_value(g, c, BinaryOp::Add));
    law_zip_entry(g, c, BinaryOp::Add, i);
    vstd::arithmetic::div_mod::lemma_small_mod(i as nat, numel(g.dims));
}

} // verus!
