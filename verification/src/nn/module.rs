//! What layers have in common.
use vstd::prelude::*;
use crate::dense::Value;
use crate::forward::{forward_ok, values};
use crate::handle::no_meta;
use crate::index::{bounded, numel};
use crate::op::OpType;
use crate::ops::methods::ready;
use crate::runtime::{given_back, Runtime};
use crate::scalar::Scalar;
use crate::scope::{
    affords, grown, lemma_affords_one, lemma_gained, lemma_gained_kept, lemma_grown_owned,
    lemma_grown_refl, lemma_grown_release, lemma_grown_trans, lemma_op_grown, lemma_spent_trans,
    spent, survives,
};
use crate::shape::Shape;
use crate::tensor::{Key, Tensor};
use crate::track::can_op;
use crate::trail::{any_wants, drops, lemma_move, lemma_still, made, trail, walked, wants, Move};

verus! {

/// A tensor of 32-bit floats of the caller's on the CPU.
pub open spec fn mine<S>(rt: Runtime<S>, t: Tensor) -> bool {
    t.owned(rt) && t.is_f32(rt.mem)
}

/// `r` is what a computation from `a` to `b` with at most `n` operations leaves behind: a new
/// tensor of 32-bit floats with the value `v`.
pub open spec fn yields<S>(a: Runtime<S>, b: Runtime<S>, n: nat, r: Tensor, v: Value<S>) -> bool {
    &&& grown(a, b, seq![r])
    &&& spent(a, b, n)
    &&& mine(b, r)
    &&& r.shape@ == v.dims
    &&& r.value(b.mem) == v
}

/// An operation on the caller's tensors can run.
pub proof fn lemma_ready<S: Scalar>(rt: Runtime<S>, op: OpType, ins: Seq<Tensor>)
    requires
        rt.wf(),
        rt.hooks.cpu_ops,
        affords(rt, 1),
        0 < ins.len() <= 5,
        forall|i: int| 0 <= i < ins.len() ==> mine(rt, #[trigger] ins[i]),
        forward_ok(op, values(ins, rt.mem)),
    ensures
        ready(rt, op, ins),
        can_op(rt, ins),
{
    lemma_affords_one(rt);
    assert(mine(rt, ins[0]));
    assert forall|i: int| 0 <= i < ins.len() implies (#[trigger] ins[i]).valid(rt.mem)
        && rt.mem.refs(ins[i].key()) + ins.len() + 1 <= usize::MAX && ins[i].is_f32(rt.mem) by {
        assert(mine(rt, ins[i]));
    }
}

/// A view of a tensor of the caller's can be recorded.
pub proof fn lemma_viewable<S: Scalar>(rt: Runtime<S>, t: Tensor)
    requires
        rt.wf(),
        affords(rt, 1),
        mine(rt, t),
    ensures
        can_op(rt, seq![t]),
        rt.mem.arena.room() > 0,
{
    lemma_affords_one(rt);
    let ins = seq![t];
    assert forall|i: int| 0 <= i < ins.len() implies (#[trigger] ins[i]).valid(rt.mem)
        && rt.mem.refs(ins[i].key()) + ins.len() + 1 <= usize::MAX by {
        assert(ins[i] == t);
    }
}

/// Whether tensors of the caller's ask for gradients does not change in a computation.
pub proof fn lemma_wants<S>(a: Runtime<S>, b: Runtime<S>, ts: Seq<Tensor>, us: Seq<Tensor>)
    requires
        grown(a, b, ts),
        all_mine(a, us),
    ensures
        any_wants(b, us) == any_wants(a, us),
{
    assert forall|i: int| 0 <= i < us.len() implies #[trigger] wants(b, us[i]) == wants(a, us[i])
        by {
        lemma_mine(a, b, ts, us[i]);
    }
    if any_wants(b, us) {
        let i = choose|i: int| 0 <= i < us.len() && #[trigger] wants(b, us[i]);
        assert(wants(a, us[i]));
    }
    if any_wants(a, us) {
        let i = choose|i: int| 0 <= i < us.len() && #[trigger] wants(a, us[i]);
        assert(wants(b, us[i]));
    }
}

/// A handle of the caller's after a computation.
pub proof fn lemma_mine<S>(a: Runtime<S>, b: Runtime<S>, ts: Seq<Tensor>, u: Tensor)
    requires
        grown(a, b, ts),
        mine(a, u),
    ensures
        mine(b, u),
        u.value(b.mem) == u.value(a.mem),
        u.meta(b.mem).requires_grad == u.meta(a.mem).requires_grad,
{
    lemma_grown_owned(a, b, ts, u);
}

/// A computation that makes `s`, then one that makes `r`, and `s` is given back.
pub proof fn lemma_then_release<S>(
    a: Runtime<S>,
    b: Runtime<S>,
    c: Runtime<S>,
    d: Runtime<S>,
    s: Tensor,
    r: Tensor,
    m: nat,
    n: nat,
)
    requires
        c.wf(),
        d.wf(),
        grown(a, b, seq![s]),
        spent(a, b, m),
        grown(b, c, seq![r]),
        spent(b, c, n),
        given_back(c, d, s),
        mine(c, r),
    ensures
        grown(a, d, seq![r]),
        spent(a, d, m + n),
        mine(d, r),
        r.value(d.mem) == r.value(c.mem),
        wants(d, r) == wants(c, r),
{
    let ts = seq![s] + seq![r];
    lemma_grown_trans(a, b, c, seq![s], seq![r]);
    lemma_spent_trans(a, b, c, m, n);
    assert(ts[0] == s);
    assert(ts[1] == r);
    lemma_grown_release(a, c, d, ts, 0);
    assert(ts.remove(0) =~= seq![r]);
    lemma_spent_trans(a, c, d, m + n, 0);
    assert(survives(c, d, ts[1]));
    lemma_gained(a, d, seq![r], 0);
}

/// The handle that a computation made can be given back after another one.
pub proof fn lemma_releasable<S>(a: Runtime<S>, b: Runtime<S>, c: Runtime<S>, s: Tensor, r: Tensor)
    requires
        grown(a, b, seq![s]),
        grown(b, c, seq![r]),
    ensures
        s.owned(c),
{
    lemma_gained_kept(a, b, c, seq![s], seq![r], 0);
}

/// A row-major tensor that requires gradients, with the given contents and no history.
pub open spec fn trained<S>(rt: Runtime<S>, t: Tensor, v: Value<S>) -> bool {
    &&& mine(rt, t)
    &&& t.contiguous_spec()
    &&& t.value(rt.mem) == v
    &&& t.meta(rt.mem).requires_grad
}

/// Makes a trainable tensor.
pub(crate) fn parameter<S: Scalar>(data: Vec<S>, shape: Shape, rt: &mut Runtime<S>) -> (t: Tensor)
    requires
        old(rt).wf(),
        affords(*old(rt), 1),
        bounded(shape@),
        data@.len() == numel(shape@),
    ensures
        final(rt).wf(),
        yields(*old(rt), *final(rt), 1, t, Value { dims: shape@, data: data@ }),
        t.contiguous_spec(),
        trained(*final(rt), t, Value { dims: shape@, data: data@ }),
{
    let ghost a = *rt;
    proof {
        lemma_affords_one(a);
    }
    let t = Tensor::from_f32(&data, shape, rt);
    let ghost m = *rt;
    t.set_requires_grad(true, rt);
    proof {
        assert forall|k: Key| #[trigger] rt.owners(k) == m.owners(k) by {
            assert(rt.holds() == m.holds());
        }
        assert(t.owned(*rt));
        lemma_op_grown(a, m, *rt, t, 0);
    }
    t
}

/// A layer: what it accepts, what it computes, and the tensors that it learns.
pub trait Module<S: Scalar> {
    /// The input fits the layer, and there is room for its computation.
    spec fn accepts(&self, rt: Runtime<S>, input: Tensor) -> bool;

    /// The input is on a device, and the computation can be queued there.
    spec fn launches(&self, rt: Runtime<S>, input: Tensor) -> bool;

    /// The value of the output.
    spec fn output(&self, rt: Runtime<S>, input: Tensor) -> Value<S>;

    /// How many operations the layer takes at most.
    spec fn cost(&self) -> nat;

    /// The tensors that the layer learns.
    spec fn learned(&self) -> Seq<Tensor>;

    /// How many handles the computation makes.
    spec fn makes(&self) -> nat;

    /// The computation, step by step, where it makes the handles `outs`.
    spec fn moves(&self, input: Tensor, outs: Seq<Tensor>) -> Seq<Move<S>>;

    /// Forward pass of the module.
    fn forward(&self, input: &Tensor, rt: &mut Runtime<S>) -> (r: Tensor)
        requires
            old(rt).wf(),
            self.accepts(*old(rt), *input) || self.launches(*old(rt), *input),
        ensures
            final(rt).wf(),
            r.owned(*final(rt)),
            grown(*old(rt), *final(rt), seq![r]),
            spent(*old(rt), *final(rt), self.cost()),
            self.accepts(*old(rt), *input) ==> yields(
                *old(rt),
                *final(rt),
                self.cost(),
                r,
                self.output(*old(rt), *input),
            ),
            exists|outs: Seq<Tensor>|
                walked(
                    *old(rt),
                    *final(rt),
                    #[trigger] self.moves(*input, outs),
                    outs,
                    self.makes(),
                    r,
                ),
            wants(*final(rt), r) == (old(rt).mode.autograd_enabled && (wants(*old(rt), *input)
                || any_wants(*old(rt), self.learned()))),
    ;

    /// Handles to all parameters (weights, biases) that require gradients.
    fn parameters(&self, rt: &mut Runtime<S>) -> (r: Vec<Tensor>)
        requires
            old(rt).wf(),
            all_mine(*old(rt), self.learned()),
            affords(*old(rt), self.learned().len()),
        ensures
            final(rt).wf(),
            handed_out(*old(rt), *final(rt), self.learned(), r@),
    ;
}

/// All tensors are the caller's.
pub open spec fn all_mine<S>(rt: Runtime<S>, ts: Seq<Tensor>) -> bool {
    forall|i: int| 0 <= i < ts.len() ==> mine(rt, #[trigger] ts[i])
}

/// `r` are new handles to the blocks of `ts`.
pub open spec fn handed_out<S>(
    a: Runtime<S>,
    b: Runtime<S>,
    ts: Seq<Tensor>,
    r: Seq<Tensor>,
) -> bool {
    &&& grown(a, b, r)
    &&& spent(a, b, ts.len())
    &&& r.len() == ts.len()
    &&& forall|i: int|
        0 <= i < r.len() ==> {
            &&& #[trigger] r[i] == (Tensor { cell: r[i].cell, ..ts[i] })
            &&& r[i].meta(b.mem).requires_grad == ts[i].meta(a.mem).requires_grad
        }
}

/// Another handle to a tensor, at the end of a list of handles.
pub(crate) fn hand_out<S: Scalar>(
    t: &Tensor,
    out: &mut Vec<Tensor>,
    rt: &mut Runtime<S>,
    Ghost(start): Ghost<Runtime<S>>,
    Ghost(ts): Ghost<Seq<Tensor>>,
)
    requires
        old(rt).wf(),
        start.wf(),
        handed_out(start, *old(rt), ts, old(out)@),
        mine(start, *t),
        affords(*old(rt), 1),
    ensures
        final(rt).wf(),
        handed_out(start, *final(rt), ts.push(*t), final(out)@),
{
    let ghost before = *rt;
    let ghost prev = out@;
    proof {
        lemma_mine(start, before, prev, *t);
        lemma_affords_one(before);
    }
    let h = t.clone(rt);
    out.push(h);
    proof {
        let after = *rt;
        assert forall|k: Key| #[trigger] after.mem.refs(k) == before.mem.refs(k) + (if k == h.key() {
            1nat
        } else {
            0nat
        }) by {
            crate::tape::lemma_valid_refs(before.mem, *t);
            crate::tape::lemma_retained(before.mem, after.mem, t.key());
        }
        lemma_op_grown(before, after, after, h, 0);
        lemma_grown_trans(start, before, after, prev, seq![h]);
        lemma_spent_trans(start, before, after, ts.len(), 1);
        assert(out@ =~= prev + seq![h]);
        let all = ts.push(*t);
        assert forall|i: int| 0 <= i < out@.len() implies {
            &&& #[trigger] out@[i] == (Tensor { cell: out@[i].cell, ..all[i] })
            &&& out@[i].meta(after.mem).requires_grad == all[i].meta(start.mem).requires_grad
        } by {
            if i < prev.len() {
                assert(out@[i] == prev[i]);
                assert(all[i] == ts[i]);
                lemma_gained_kept(start, before, after, prev, seq![h], i);
            }
        }
    }
}

/// An empty list of handles.
pub proof fn lemma_none_handed<S>(rt: Runtime<S>)
    requires
        rt.wf(),
    ensures
        handed_out(rt, rt, Seq::empty(), Seq::empty()),
{
    lemma_grown_refl(rt);
}

/// Handles given out by one part of a layer and by another.
pub proof fn lemma_handed_trans<S>(
    a: Runtime<S>,
    b: Runtime<S>,
    c: Runtime<S>,
    ts: Seq<Tensor>,
    us: Seq<Tensor>,
    r: Seq<Tensor>,
    s: Seq<Tensor>,
)
    requires
        handed_out(a, b, ts, r),
        handed_out(b, c, us, s),
        all_mine(a, us),
    ensures
        handed_out(a, c, ts + us, r + s),
{
    lemma_grown_trans(a, b, c, r, s);
    lemma_spent_trans(a, b, c, ts.len(), us.len());
    let all = ts + us;
    let out = r + s;
    assert forall|i: int| 0 <= i < out.len() implies {
        &&& #[trigger] out[i] == (Tensor { cell: out[i].cell, ..all[i] })
        &&& out[i].meta(c.mem).requires_grad == all[i].meta(a.mem).requires_grad
    } by {
        if i < r.len() {
            assert(out[i] == r[i]);
            lemma_gained_kept(a, b, c, r, s, i);
        } else {
            assert(out[i] == s[i - r.len()]);
            assert(all[i] == us[i - r.len()]);
            lemma_mine(a, b, r, us[i - r.len()]);
        }
    }
}

/// All tensors of the caller are still the caller's.
pub proof fn lemma_all_mine<S>(a: Runtime<S>, b: Runtime<S>, ts: Seq<Tensor>, us: Seq<Tensor>)
    requires
        grown(a, b, ts),
        all_mine(a, us),
    ensures
        all_mine(b, us),
{
    assert forall|i: int| 0 <= i < us.len() implies mine(b, #[trigger] us[i]) by {
        lemma_mine(a, b, ts, us[i]);
    }
}

/// Makes a tensor with the given contents.
pub(crate) fn plain<S: Scalar>(data: Vec<S>, shape: Shape, rt: &mut Runtime<S>) -> (t: Tensor)
    requires
        old(rt).wf(),
        affords(*old(rt), 1),
        bounded(shape@),
        data@.len() == numel(shape@),
    ensures
        final(rt).wf(),
        yields(*old(rt), *final(rt), 1, t, Value { dims: shape@, data: data@ }),
        t.contiguous_spec(),
        t.meta(final(rt).mem) == no_meta(),
        made(
            *old(rt),
            Move::New { value: Value { dims: shape@, data: data@ }, out: t },
            *final(rt),
        ),
{
    let ghost a = *rt;
    proof {
        lemma_affords_one(a);
    }
    let t = Tensor::from_f32(&data, shape, rt);
    proof {
        lemma_op_grown(a, *rt, *rt, t, 0);
    }
    t
}

/// One more result, after those that a computation has already made.
pub proof fn lemma_next<S>(
    a: Runtime<S>,
    b: Runtime<S>,
    c: Runtime<S>,
    ts: Seq<Tensor>,
    r: Tensor,
    m: nat,
    n: nat,
)
    requires
        grown(a, b, ts),
        spent(a, b, m),
        grown(b, c, seq![r]),
        spent(b, c, n),
    ensures
        grown(a, c, ts.push(r)),
        spent(a, c, m + n),
        forall|i: int| 0 <= i < ts.len() && mine(b, #[trigger] ts[i]) ==> mine(c, ts[i]) && ts[i].value(
            c.mem,
        ) == ts[i].value(b.mem) && wants(c, ts[i]) == wants(b, ts[i]),
{
    lemma_grown_trans(a, b, c, ts, seq![r]);
    lemma_spent_trans(a, b, c, m, n);
    assert(ts + seq![r] =~= ts.push(r));
    assert forall|i: int| 0 <= i < ts.len() && mine(b, #[trigger] ts[i]) implies mine(c, ts[i])
        && ts[i].value(c.mem) == ts[i].value(b.mem) && wants(c, ts[i]) == wants(b, ts[i]) by {
        lemma_gained_kept(a, b, c, ts, seq![r], i);
    }
}

/// The first result of a computation.
pub proof fn lemma_first<S>(a: Runtime<S>, b: Runtime<S>, r: Tensor)
    requires
        grown(a, b, seq![r]),
    ensures
        grown(a, b, Seq::empty().push(r)),
{
    assert(Seq::empty().push(r) =~= seq![r]);
}

/// Gives back all intermediate results of a computation but the last.
pub(crate) fn settle<S: Scalar>(
    handles: Vec<Tensor>,
    keep: &Tensor,
    rt: &mut Runtime<S>,
    Ghost(start): Ghost<Runtime<S>>,
)
    requires
        old(rt).wf(),
        grown(start, *old(rt), handles@.push(*keep)),
        mine(*old(rt), *keep),
    ensures
        final(rt).wf(),
        grown(start, *final(rt), seq![*keep]),
        spent(*old(rt), *final(rt), 0),
        mine(*final(rt), *keep),
        keep.value(final(rt).mem) == keep.value(old(rt).mem),
        wants(*final(rt), *keep) == wants(*old(rt), *keep),
        trail(*old(rt), *final(rt), drops(handles@)),
{
    let ghost before = *rt;
    let ghost k = *keep;
    let ghost all = handles@;
    let mut handles = handles;
    proof {
        lemma_grown_refl(*rt);
        lemma_still(before);
        assert(drops::<S>(all.subrange(all.len() as int, all.len() as int)) =~= Seq::empty());
        assert(all.subrange(0, all.len() as int) =~= all);
    }
    while handles.len() > 0
        invariant
            rt.wf(),
            k == *keep,
            grown(start, *rt, handles@.push(k)),
            spent(before, *rt, 0),
            mine(*rt, k),
            k.value(rt.mem) == k.value(before.mem),
            wants(*rt, k) == wants(before, k),
            handles@.len() <= all.len(),
            handles@ == all.subrange(0, handles@.len() as int),
            trail(
                before,
                *rt,
                drops(all.subrange(handles@.len() as int, all.len() as int)),
            ),
        decreases handles@.len(),
    {
        let ghost b = *rt;
        let ghost ts = handles@.push(k);
        let ghost i = handles@.len() - 1;
        let t = handles.pop();
        if let Some(t) = t {
            proof {
                assert(ts[i] == t);
                lemma_gained(start, b, ts, i);
            }
            rt.release(t);
            proof {
                lemma_grown_release(start, b, *rt, ts, i);
                assert(ts.remove(i) =~= handles@.push(k));
                assert(ts[i + 1] == k);
                assert(survives(b, *rt, ts[i + 1]));
                lemma_gained(start, *rt, handles@.push(k), handles@.len() as int);
                lemma_spent_trans(before, b, *rt, 0, 0);
                let rest = all.subrange(i + 1, all.len() as int);
                let more = all.subrange(i, all.len() as int);
                assert(t == all[i]);
                lemma_move(before, b, *rt, drops(rest), Move::Drop { t });
                assert(drops::<S>(rest).push(Move::Drop { t }) =~= drops(more));
            }
        }
    }
    assert(handles@.push(k) =~= seq![k]);
    assert(all.subrange(0, all.len() as int) =~= all);
}

} // verus!
