//! What a whole optimization step does to parameters that share nothing.
use vstd::prelude::*;
use crate::index::{lemma_sized_fits, numel};
use crate::mutate::{adam_m, adam_params, adam_v, sgd_params, sgd_velocity, AdamSettings};
use crate::optim::{
    adam_step_at, adam_steps, all_clippable, all_movable, clip_step_at, clip_stepped, clip_steps,
    clippable, grad_data, has_grad, key_of, movable, rescaled, sgd_step_at, sgd_steps, SGD,
};
use crate::perm::lemma_strided_row_major;
use crate::runtime::{GradKey, Runtime};
use crate::scalar::Scalar;
use crate::storage::{Block, StorageId};
use crate::tensor::Tensor;

verus! {

/// No two parameters share a block, and no gradient shares a block with a parameter.
pub open spec fn separate<S>(rt: Runtime<S>, ps: Seq<Tensor>) -> bool {
    &&& forall|i: int, j: int| 0 <= i < j < ps.len() ==> ps[i].storage_id != ps[j].storage_id
    &&& forall|key: GradKey, i: int|
        #![trigger rt.gradients@[key], ps[i]]
        rt.gradients@.contains_key(key) && 0 <= i < ps.len() ==> rt.gradients@[key].storage_id
            != ps[i].storage_id
}

/// A step that writes to the block of one tensor at most.
pub open spec fn touches<S>(a: Runtime<S>, b: Runtime<S>, t: Tensor) -> bool {
    &&& b.gradients == a.gradients
    &&& b.hooks == a.hooks
    &&& forall|id: StorageId| #[trigger]
        b.mem.arena@[id].block != a.mem.arena@[id].block ==> id == t.storage_id
}

/// Step `i` writes to parameter `i` at most.
pub open spec fn touches_at<S>(states: Seq<Runtime<S>>, ps: Seq<Tensor>, i: int) -> bool {
    touches(states[i], states[i + 1], ps[i])
}

/// A block that belongs to none of the parameters `from..to` is the same after their steps.
proof fn lemma_untouched<S>(
    states: Seq<Runtime<S>>,
    ps: Seq<Tensor>,
    from: int,
    to: int,
    id: StorageId,
)
    requires
        0 <= from <= to <= ps.len(),
        forall|i: int| 0 <= i < ps.len() ==> #[trigger] touches_at(states, ps, i),
        forall|i: int| from <= i < to ==> (#[trigger] ps[i]).storage_id != id,
    ensures
        states[to].gradients == states[from].gradients,
        states[to].hooks == states[from].hooks,
        states[to].mem.arena@[id].block == states[from].mem.arena@[id].block,
    decreases to - from,
{
    if from < to {
        lemma_untouched(states, ps, from, to - 1, id);
        assert(touches_at(states, ps, to - 1));
        assert(ps[to - 1].storage_id != id);
        assert(states[to - 1 + 1] == states[to]);
    }
}

/// A row-major tensor shows the elements of its block.
pub(crate) proof fn lemma_shows<S>(rt: Runtime<S>, p: Tensor, data: Seq<S>)
    requires
        p.laid_out(),
        p.contiguous_spec(),
        p.block(rt.mem) == Block::F32(data),
        data.len() == numel(p.shape@),
    ensures
        p.value(rt.mem).data == data,
{
    lemma_sized_fits(p.shape@);
    lemma_strided_row_major(data, p.shape@);
}

/// What parameter `i` and its gradient hold when its turn comes is what they held at the start.
proof fn lemma_turn<S>(states: Seq<Runtime<S>>, ps: Seq<Tensor>, i: int)
    requires
        0 <= i < ps.len(),
        forall|k: int| 0 <= k < ps.len() ==> #[trigger] touches_at(states, ps, k),
        separate(states[0], ps),
    ensures
        has_grad(states[i], ps[i]) == has_grad(states[0], ps[i]),
        ps[i].value(states[i].mem) == ps[i].value(states[0].mem),
        has_grad(states[0], ps[i]) ==> grad_data(states[i], ps[i]) == grad_data(states[0], ps[i]),
        ps[i].block(states.last().mem) == ps[i].block(states[i + 1].mem) || states.len() != ps.len()
            + 1,
        states[i].gradients == states[0].gradients,
{
    let p = ps[i];
    assert forall|k: int| 0 <= k < i implies (#[trigger] ps[k]).storage_id != p.storage_id by {}
    lemma_untouched(states, ps, 0, i, p.storage_id);
    if has_grad(states[0], p) {
        let g = states[0].gradients@[key_of(p)];
        assert forall|k: int| 0 <= k < i implies (#[trigger] ps[k]).storage_id != g.storage_id by {}
        lemma_untouched(states, ps, 0, i, g.storage_id);
    }
    if states.len() == ps.len() + 1 {
        assert forall|k: int| i + 1 <= k < ps.len() implies (#[trigger] ps[k]).storage_id
            != p.storage_id by {}
        lemma_untouched(states, ps, i + 1, ps.len() as int, p.storage_id);
        assert(states.last() == states[ps.len() as int]);
    }
}

/// With parameters and gradients that share no blocks, one step of SGD moves each parameter by
/// its own gradient and velocity alone, whatever the order of the parameters; a parameter
/// without a gradient keeps its elements, and no gradient changes.
pub proof fn law_sgd_independent<S: Scalar>(
    states: Seq<Runtime<S>>,
    opt: SGD<S>,
    before: Seq<Seq<S>>,
    after: Seq<Seq<S>>,
    i: int,
)
    requires
        sgd_steps(states, opt, before, after, opt.params@.len()),
        all_movable(states[0], opt.params@),
        separate(states[0], opt.params@),
        0 <= i < opt.params@.len(),
    ensures
        ({
            let p = opt.params@[i];
            let x = p.value(states[0].mem).data;
            let g = grad_data(states[0], p);
            let moved = p.value(states.last().mem).data;
            &&& has_grad(states[0], p) ==> moved == sgd_params(
                x,
                g,
                before[i],
                opt.lr,
                opt.momentum,
                opt.weight_decay,
            ) && after[i] == sgd_velocity(x, g, before[i], opt.momentum, opt.weight_decay)
            &&& !has_grad(states[0], p) ==> moved == x && after[i] == before[i]
        }),
        states.last().gradients == states[0].gradients,
{
    let ps = opt.params@;
    assert forall|k: int| 0 <= k < ps.len() implies #[trigger] touches_at(states, ps, k) by {
        assert(sgd_step_at(states, opt, before, after, k));
    }
    lemma_turn(states, ps, i);
    lemma_untouched_gradients(states, ps, ps.len() as int);
    assert(states.last() == states[ps.len() as int]);
    assert(sgd_step_at(states, opt, before, after, i));
    let p = ps[i];
    assert(movable(states[0], p));
    crate::create::lemma_contiguous_value(p, states[0].mem);
    if has_grad(states[0], p) {
        let x = p.value(states[0].mem).data;
        let g = grad_data(states[0], p);
        let data = sgd_params(x, g, before[i], opt.lr, opt.momentum, opt.weight_decay);
        assert(p.block(states[i + 1].mem) == Block::F32(data));
        lemma_shows(states.last(), p, data);
    }
}

/// Gradients and hooks are the same throughout.
proof fn lemma_untouched_gradients<S>(states: Seq<Runtime<S>>, ps: Seq<Tensor>, n: int)
    requires
        0 <= n <= ps.len(),
        forall|i: int| 0 <= i < ps.len() ==> #[trigger] touches_at(states, ps, i),
    ensures
        states[n].gradients == states[0].gradients,
    decreases n,
{
    if n > 0 {
        lemma_untouched_gradients(states, ps, n - 1);
        assert(touches_at(states, ps, n - 1));
    }
}

/// With parameters and gradients that share no blocks, one step of AdamW moves each parameter by
/// its own gradient and moments alone, whatever the order of the parameters; a parameter without
/// a gradient keeps its elements, and no gradient changes.
pub proof fn law_adamw_independent<S: Scalar>(
    states: Seq<Runtime<S>>,
    ps: Seq<Tensor>,
    m: (Seq<Seq<S>>, Seq<Seq<S>>),
    v: (Seq<Seq<S>>, Seq<Seq<S>>),
    t: u32,
    s: AdamSettings<S>,
    i: int,
)
    requires
        adam_steps(states, ps, m, v, t, s, ps.len()),
        all_movable(states[0], ps),
        separate(states[0], ps),
        0 <= i < ps.len(),
    ensures
        ({
            let p = ps[i];
            let x = p.value(states[0].mem).data;
            let g = grad_data(states[0], p);
            let moved = p.value(states.last().mem).data;
            &&& has_grad(states[0], p) ==> {
                &&& moved == adam_params(x, g, m.0[i], v.0[i], t, s)
                &&& m.1[i] == adam_m(g, m.0[i], s)
                &&& v.1[i] == adam_v(g, v.0[i], s)
            }
            &&& !has_grad(states[0], p) ==> moved == x && m.1[i] == m.0[i] && v.1[i] == v.0[i]
        }),
        states.last().gradients == states[0].gradients,
{
    assert forall|k: int| 0 <= k < ps.len() implies #[trigger] touches_at(states, ps, k) by {
        assert(adam_step_at(states, ps, m, v, t, s, k));
    }
    lemma_turn(states, ps, i);
    lemma_untouched_gradients(states, ps, ps.len() as int);
    assert(states.last() == states[ps.len() as int]);
    assert(adam_step_at(states, ps, m, v, t, s, i));
    let p = ps[i];
    assert(movable(states[0], p));
    crate::create::lemma_contiguous_value(p, states[0].mem);
    if has_grad(states[0], p) {
        let x = p.value(states[0].mem).data;
        let g = grad_data(states[0], p);
        let data = adam_params(x, g, m.0[i], v.0[i], t, s);
        assert(p.block(states[i + 1].mem) == Block::F32(data));
        lemma_shows(states.last(), p, data);
    }
}

/// The gradients of the parameters, which clipping writes to.
pub open spec fn grads_of<S>(rt: Runtime<S>, ps: Seq<Tensor>) -> Seq<Tensor> {
    Seq::new(ps.len(), |i: int| rt.gradients@[key_of(ps[i])])
}

/// No two parameters share a gradient's block.
pub open spec fn own_gradients<S>(rt: Runtime<S>, ps: Seq<Tensor>) -> bool {
    forall|i: int, j: int|
        0 <= i < j < ps.len() && has_grad(rt, ps[i]) && has_grad(rt, ps[j])
            ==> #[trigger] grads_of(rt, ps)[i].storage_id != #[trigger] grads_of(rt, ps)[j].storage_id
}

/// A block that belongs to none of the gradients `from..to` is the same after their steps.
proof fn lemma_unclipped<S: Scalar>(
    states: Seq<Runtime<S>>,
    ps: Seq<Tensor>,
    scale: S,
    from: int,
    to: int,
    id: StorageId,
)
    requires
        0 <= from <= to <= ps.len(),
        clip_steps(states, ps, scale, ps.len()),
        forall|i: int|
            from <= i < to && has_grad(states[from], ps[i]) ==> (#[trigger] grads_of(
                states[from],
                ps,
            )[i]).storage_id != id,
    ensures
        states[to].gradients == states[from].gradients,
        states[to].hooks == states[from].hooks,
        states[to].mem.arena@[id].block == states[from].mem.arena@[id].block,
    decreases to - from,
{
    if from < to {
        lemma_unclipped(states, ps, scale, from, to - 1, id);
        assert(clip_step_at(states, ps, scale, to - 1));
        assert(clip_stepped(states[to - 1], states[to], ps[to - 1], scale));
        assert(grads_of(states[from], ps)[to - 1] == states[from].gradients@[key_of(ps[to - 1])]);
    }
}

/// With gradients that share no blocks, clipping multiplies every gradient by the same factor
/// once and leaves everything else as it is.
pub proof fn law_clip_independent<S: Scalar>(
    states: Seq<Runtime<S>>,
    ps: Seq<Tensor>,
    scale: S,
    i: int,
)
    requires
        clip_steps(states, ps, scale, ps.len()),
        all_clippable(states[0], ps),
        own_gradients(states[0], ps),
        0 <= i < ps.len(),
        has_grad(states[0], ps[i]),
    ensures
        has_grad(states.last(), ps[i]),
        grad_data(states.last(), ps[i]) == rescaled(grad_data(states[0], ps[i]), scale),
{
    let n = ps.len() as int;
    let g = states[0].gradients@[key_of(ps[i])];
    assert(grads_of(states[0], ps)[i] == g);
    assert forall|k: int| 0 <= k < i && has_grad(states[0], ps[k]) implies (#[trigger] grads_of(
        states[0],
        ps,
    )[k]).storage_id != g.storage_id by {}
    lemma_unclipped(states, ps, scale, 0, i, g.storage_id);
    assert(clip_step_at(states, ps, scale, i));
    assert(clip_stepped(states[i], states[i + 1], ps[i], scale));
    assert(clippable(states[0], ps[i]));
    crate::create::lemma_contiguous_value(g, states[0].mem);
    let data = rescaled(grad_data(states[0], ps[i]), scale);
    assert(g.block(states[i + 1].mem) == Block::F32(data));
    assert forall|k: int| i + 1 <= k < n && has_grad(states[i + 1], ps[k]) implies (
    #[trigger] grads_of(states[i + 1], ps)[k]).storage_id != g.storage_id by {
        assert(grads_of(states[0], ps)[k] == grads_of(states[i + 1], ps)[k]);
    }
    lemma_unclipped(states, ps, scale, i + 1, n, g.storage_id);
    assert(states.last() == states[n]);
    lemma_shows(states.last(), g, data);
}

} // verus!
