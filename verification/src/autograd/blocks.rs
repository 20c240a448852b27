//! Checkpointed blocks: running them, and the backward pass that runs them again.
use vstd::prelude::*;
use crate::autograd::backward::{
    differentiated, first_progress, read_tape, readable, sweepable, swept, tape_steps,
};
use crate::autograd::checkpoint::{
    begin_checkpoint, begin_replay, checkpoint, checkpointed, end_replay, replaying, with_mode,
    Replay, Suspended,
};
use crate::autograd::collect::{finishable, finished, tokens_ok};
use crate::autograd::replay::{input_grad, leavable, leave_replay, left};
use crate::autograd::sweep::{deposit, deposit_ok, law_run_stops, run, run_ok, Progress, Sweep};
use crate::custody::loose;
use crate::dense::{Dense, Value};
use crate::nn::module::{mine, yields, Module};
use crate::record::can_record;
use crate::runtime::{given_back, Mode, Runtime};
use crate::scalar::Scalar;
use crate::scope::grown;
use crate::tape::token_index;
use crate::tensor::Tensor;
use crate::trail::walked;

verus! {

/// A block of a model that can be run again.
pub trait Block<S: Scalar>: Sized {
    /// The block can run on an input.
    spec fn ready(&self, rt: Runtime<S>, x: Tensor) -> bool;

    /// The block, run on `x`, takes the runtime from `a` to `b` and returns `out`; `nested` are
    /// the blocks that it checkpointed itself.
    spec fn ran(
        &self,
        a: Runtime<S>,
        b: Runtime<S>,
        x: Tensor,
        out: Tensor,
        nested: Blocks<Self>,
    ) -> bool;

    /// Runs the block.
    fn run(&self, x: &Tensor, rt: &mut Runtime<S>) -> (r: (Tensor, Blocks<Self>))
        requires
            old(rt).wf(),
            x.owned(*old(rt)),
            self.ready(*old(rt), *x),
        ensures
            final(rt).wf(),
            mine(*final(rt), r.0),
            grown(*old(rt), *final(rt), seq![r.0]),
            self.ran(*old(rt), *final(rt), *x, r.0, r.1),
    ;
}

/// The block that was recorded last for a node.
pub open spec fn latest<B>(entries: Seq<(u32, B)>, node: u32) -> Option<B>
    decreases entries.len(),
{
    if entries.len() == 0 {
        None
    } else if entries.last().0 == node {
        Some(entries.last().1)
    } else {
        latest(entries.drop_last(), node)
    }
}

/// Blocks by the nodes that record them.
pub struct Blocks<B> {
    pub entries: Vec<(u32, B)>,
}

impl<B> Blocks<B> {
    /// The block of a node.
    pub open spec fn at(self, node: u32) -> Option<B> {
        latest(self.entries@, node)
    }

    /// No blocks.
    #[must_use]
    pub fn new() -> (r: Self)
        ensures
            r.entries@.len() == 0,
            forall|node: u32| #[trigger] r.at(node) is None,
    {
        Blocks { entries: Vec::new() }
    }

    /// Records the block of a node, in place of any other that the node had.
    pub fn record(&mut self, node: u32, block: B)
        ensures
            final(self).entries@ == old(self).entries@.push((node, block)),
            forall|n: u32| #[trigger] final(self).at(n) == (if n == node {
                Some(block)
            } else {
                old(self).at(n)
            }),
    {
        let ghost before = self.entries@;
        self.entries.push((node, block));
        proof {
            assert(self.entries@.drop_last() =~= before);
        }
    }

    /// Forgets all blocks, as the tape forgets their nodes.
    pub fn clear(&mut self)
        ensures
            final(self).entries@.len() == 0,
            forall|node: u32| #[trigger] final(self).at(node) is None,
    {
        self.entries.clear();
    }

    /// The block of a node.
    pub fn find(&self, node: u32) -> (r: Option<&B>)
        ensures
            r is Some <==> self.at(node) is Some,
            r matches Some(b) ==> self.at(node) == Some(*b),
    {
        let ghost all = self.entries@;
        let mut i: usize = self.entries.len();
        assert(all.subrange(0, all.len() as int) =~= all);
        while i > 0
            invariant
                i <= all.len(),
                all == self.entries@,
                latest(all.subrange(0, i as int), node) == latest(all, node),
            decreases i,
        {
            let ghost part = all.subrange(0, i as int);
            assert(part.last() == all[i - 1]);
            assert(part.drop_last() =~= all.subrange(0, i - 1));
            i = i - 1;
            if self.entries[i].0 == node {
                return Some(&self.entries[i].1);
            }
        }
        None
    }
}

/// A layer as a block: it checkpoints nothing itself.
pub struct Layer<M> {
    pub module: M,
}

impl<S: Scalar, M: Module<S>> Block<S> for Layer<M> {
    open spec fn ready(&self, rt: Runtime<S>, x: Tensor) -> bool {
        self.module.accepts(rt, x)
    }

    open spec fn ran(
        &self,
        a: Runtime<S>,
        b: Runtime<S>,
        x: Tensor,
        out: Tensor,
        nested: Blocks<Self>,
    ) -> bool {
        &&& yields(a, b, self.module.cost(), out, self.module.output(a, x))
        &&& exists|outs: Seq<Tensor>|
            walked(
                a,
                b,
                #[trigger] self.module.moves(x, outs),
                outs,
                self.module.makes(),
                out,
            )
        &&& nested.entries@.len() == 0
    }

    fn run(&self, x: &Tensor, rt: &mut Runtime<S>) -> (r: (Tensor, Blocks<Self>)) {
        let out = self.module.forward(x, rt);
        (out, Blocks::new())
    }
}

/// The runtime while a checkpointed block runs forward.
pub open spec fn suspended<S>(rt: Runtime<S>) -> Runtime<S> {
    with_mode(rt, Mode { autograd_enabled: false, ..rt.mode })
}

/// What is put back afterwards.
pub open spec fn noted<S>(rt: Runtime<S>) -> Suspended {
    Suspended { was_enabled: rt.mode.autograd_enabled, rng_counter: rt.mode.rng_counter }
}

/// Runs a block without keeping what it computes on the way. Where gradients flow, one node
/// records it, and the block is found under that node for the backward pass.
pub fn checkpoint_block<S: Scalar, B: Block<S>>(
    x: &Tensor,
    block: B,
    blocks: &mut Blocks<B>,
    rt: &mut Runtime<S>,
) -> (out: Tensor)
    requires
        old(rt).wf(),
        x.owned(*old(rt)),
        block.ready(suspended(*old(rt)), *x),
        forall|m: Runtime<S>, y: Tensor, nested: Blocks<B>| #[trigger]
            block.ran(suspended(*old(rt)), m, *x, y, nested) && m.wf() ==> can_record(m, seq![*x]),
    ensures
        final(rt).wf(),
        out.owned(*final(rt)),
        exists|m: Runtime<S>, nested: Blocks<B>|
            {
                &&& #[trigger] block.ran(suspended(*old(rt)), m, *x, out, nested)
                &&& checkpointed(m, *final(rt), *x, out, noted(*old(rt)))
                &&& final(blocks).entries@ == (if old(rt).mode.autograd_enabled && (x.meta(
                    m.mem,
                ).requires_grad || out.meta(m.mem).requires_grad) {
                    old(blocks).entries@.push(((final(rt).tape@.len() - 1) as u32, block))
                } else {
                    old(blocks).entries@
                })
            },
{
    let ghost first = *rt;
    let s = begin_checkpoint(rt);
    proof {
        let second = *rt;
        assert(second.holds() == first.holds());
        assert(second.owners(x.key()) == first.owners(x.key()));
        assert(x.owned(second));
    }
    let (out, _nested) = block.run(x, rt);
    if let Some(node) = checkpoint(x, &out, s, rt) {
        blocks.record(node, block);
    }
    out
}

/// The runtime in which the gradients of a replayed block are computed.
pub open spec fn recomputed<S>(rt: Runtime<S>, r: Replay) -> Runtime<S> {
    with_mode(
        rt,
        Mode {
            autograd_enabled: false,
            recomputing: false,
            rng_counter: r.rng_counter,
            ..rt.mode
        },
    )
}

/// The block at `node`, whose output has the gradient `g`, is replayed from `a` to `b`, and the
/// gradient of its input is `gx`: it runs again on what the tape keeps of its input, its own tape
/// is differentiated, and the pass that it belongs to is taken up again.
pub open spec fn replayed<S: Scalar, B: Block<S>>(
    depth: nat,
    blocks: Blocks<B>,
    a: Runtime<S>,
    b: Runtime<S>,
    node: u32,
    g: Value<S>,
    gx: Value<S>,
) -> bool
    decreases depth, 0int, 0int,
{
    depth > 0 && exists|
        r: Replay,
        y: Tensor,
        nested: Blocks<B>,
        m1: Runtime<S>,
        m2: Runtime<S>,
        m3: Runtime<S>,
        m4: Runtime<S>,
    |
        {
            &&& #[trigger] replaying(a, m1, node as int, r)
            &&& #[trigger] blocks.at(node)->0.ran(m1, m2, r.x, y, nested)
            &&& ended((depth - 1) as nat, nested, recomputed(m2, r), m3, y, g)
            &&& #[trigger] given_back(m3, m4, y)
            &&& left(m4, b, r)
            &&& gx == input_grad(m4, r.x)
        }
}

/// A pass that has come to `p` in the runtime `a` comes to `q` in the runtime `b`, where no step
/// is left; every block that a gradient reaches on the way is replayed.
pub open spec fn through<S: Scalar, B: Block<S>>(
    depth: nat,
    blocks: Blocks<B>,
    a: Runtime<S>,
    p: Progress<S>,
    b: Runtime<S>,
    q: Progress<S>,
) -> bool
    decreases depth, 1int, p.left,
{
    let m = run(tape_steps(a), p);
    if m.left <= 0 {
        b == a && q == m
    } else if m.left <= p.left {
        exists|c: Runtime<S>, gx: Value<S>|
            {
                &&& replayed(depth, blocks, a, c, next_node(m), next_grad(m), gx)
                &&& through(depth, blocks, c, #[trigger] beyond(c, m, gx), b, q)
            }
    } else {
        false
    }
}

/// The node of the block that a pass stopped at.
pub open spec fn next_node<S>(m: Progress<S>) -> u32 {
    (m.left - 1) as u32
}

/// The gradient of the output of that block.
pub open spec fn next_grad<S>(m: Progress<S>) -> Value<S> {
    m.grads[m.left - 1]
}

/// A pass behind a block whose input has the gradient `gx`.
pub open spec fn beyond<S: Scalar>(
    c: Runtime<S>,
    m: Progress<S>,
    gx: Value<S>,
) -> Progress<S> {
    Progress {
        left: m.left - 1,
        grads: deposit(m.grads, c.tape@[m.left - 1].inputs[0], gx),
    }
}

/// The step from `a` to `b` that a backward pass with blocks makes.
pub open spec fn ended<S: Scalar, B: Block<S>>(
    depth: nat,
    blocks: Blocks<B>,
    a: Runtime<S>,
    b: Runtime<S>,
    output: Tensor,
    grad: Value<S>,
) -> bool
    decreases depth, 2int, 0int,
{
    if output.meta(a.mem).node_id is Some {
        let at = token_index(output.meta(a.mem).node_id->0);
        exists|c: Runtime<S>, q: Progress<S>|
            {
                &&& through(
                    depth,
                    blocks,
                    a,
                    first_progress(a.tape@.len(), at, grad),
                    c,
                    q,
                )
                &&& #[trigger] finished(c, b, q.grads)
            }
    } else {
        b == (Runtime { mode: Mode { autograd_enabled: true, ..a.mode }, ..a })
    }
}

/// The block at a node can be replayed.
pub open spec fn can_replay<S: Scalar, B: Block<S>>(
    depth: nat,
    blocks: Blocks<B>,
    a: Runtime<S>,
    node: u32,
    g: Value<S>,
) -> bool
    decreases depth, 0int, 0int,
{
    &&& depth > 0
    &&& node < a.tape@.len()
    &&& a.tape@[node as int].saved.len() > 0
    &&& a.tape@[node as int].inputs.len() == 1
    &&& a.mem.refs(a.tape@[node as int].saved[0].key()) < usize::MAX
    &&& a.mem.cells.room() > 0
    &&& blocks.at(node) is Some
    &&& forall|m1: Runtime<S>, r: Replay| #[trigger]
        replaying(a, m1, node as int, r) && m1.wf() && r.wf() && loose(m1, r.handles())
            && r.x.owned(m1) ==> {
            &&& blocks.at(node)->0.ready(m1, r.x)
            &&& forall|m2: Runtime<S>, y: Tensor, nested: Blocks<B>| #[trigger]
                blocks.at(node)->0.ran(m1, m2, r.x, y, nested) && m2.wf() && mine(m2, y) && grown(
                    m1,
                    m2,
                    seq![y],
                ) ==> {
                    &&& can_end((depth - 1) as nat, nested, recomputed(m2, r), y, g)
                    &&& forall|m3: Runtime<S>, m4: Runtime<S>|
                        ended((depth - 1) as nat, nested, recomputed(m2, r), m3, y, g) && m3.wf()
                            ==> y.owned(m3) && (#[trigger] given_back(m3, m4, y) && m4.wf()
                            ==> leavable(m4, r))
                    &&& forall|m3: Runtime<S>| #[trigger]
                        ended((depth - 1) as nat, nested, recomputed(m2, r), m3, y, g) && m3.wf()
                            ==> y.owned(m3)
                }
        }
}

/// A pass that has come to `p` can go on to its end.
pub open spec fn can_pass<S: Scalar, B: Block<S>>(
    depth: nat,
    blocks: Blocks<B>,
    a: Runtime<S>,
    p: Progress<S>,
) -> bool
    decreases depth, 1int, p.left,
{
    let m = run(tape_steps(a), p);
    &&& readable(a)
    &&& tokens_ok(a)
    &&& run_ok(tape_steps(a), p)
    &&& if m.left <= 0 {
        finishable(a, m.grads)
    } else {
        &&& m.left <= p.left
        &&& can_replay(depth, blocks, a, next_node(m), next_grad(m))
        &&& forall|c: Runtime<S>, gx: Value<S>|
            replayed(depth, blocks, a, c, next_node(m), next_grad(m), gx) && c.wf() && m.left
                <= p.left ==> {
                &&& deposit_ok(m.grads, a.tape@[m.left - 1].inputs[0], gx)
                &&& can_pass(depth, blocks, c, #[trigger] beyond(c, m, gx))
            }
    }
}

/// A backward pass from `output` with blocks can run to its end: at every state that it can come
/// to, the next step has what it needs.
pub open spec fn can_end<S: Scalar, B: Block<S>>(
    depth: nat,
    blocks: Blocks<B>,
    a: Runtime<S>,
    output: Tensor,
    grad: Value<S>,
) -> bool
    decreases depth, 2int, 0int,
{
    output.meta(a.mem).node_id is Some ==> can_pass(
        depth,
        blocks,
        a,
        first_progress(
            a.tape@.len(),
            token_index(output.meta(a.mem).node_id->0),
            grad,
        ),
    )
}

/// Replays the block at a node. Returns the gradient of its input.
#[verifier::rlimit(60)]
fn replay_block<S: Scalar, B: Block<S>>(
    depth: usize,
    node: u32,
    g: &Dense<S>,
    blocks: &Blocks<B>,
    rt: &mut Runtime<S>,
) -> (gx: Dense<S>)
    requires
        old(rt).wf(),
        g.wf(),
        can_replay(depth as nat, *blocks, *old(rt), node, g@),
    ensures
        final(rt).wf(),
        gx.wf(),
        replayed(depth as nat, *blocks, *old(rt), *final(rt), node, g@, gx@),
        final(rt).tape == old(rt).tape,
    decreases depth, 0int,
{
    let ghost a = *rt;
    let replay = begin_replay(node, rt);
    let ghost r = replay;
    let ghost m1 = *rt;
    assert(replaying(a, m1, node as int, r));
    let ghost block = blocks.at(node)->0;
    let found = blocks.find(node);
    let (y, nested) = match found {
        Some(b) => b.run(&replay.x, rt),
        None => {
            assert(false);
            (replay.x.clone(rt), Blocks::new())
        },
    };
    let ghost m2 = *rt;
    assert(block.ran(m1, m2, r.x, y, nested));
    end_replay(&replay, rt);
    proof {
        let c = *rt;
        assert(c == recomputed(m2, r));
        assert(c.holds() == m2.holds());
    }
    differentiate(depth - 1, &y, g, &nested, rt);
    let ghost m3 = *rt;
    assert(ended((depth - 1) as nat, nested, recomputed(m2, r), m3, y, g@));
    rt.release(y);
    let ghost m4 = *rt;
    assert(given_back(m3, m4, y));
    leave_replay(replay, rt)
}

/// The backward pass from `output`, whose gradient is `grad`.
#[verifier::rlimit(60)]
fn differentiate<S: Scalar, B: Block<S>>(
    depth: usize,
    output: &Tensor,
    grad: &Dense<S>,
    blocks: &Blocks<B>,
    rt: &mut Runtime<S>,
)
    requires
        old(rt).wf(),
        output.valid(old(rt).mem),
        grad.wf(),
        can_end(depth as nat, *blocks, *old(rt), *output, grad@),
    ensures
        final(rt).wf(),
        ended(depth as nat, *blocks, *old(rt), *final(rt), *output, grad@),
    decreases depth, 1int,
{
    let ghost a = *rt;
    let ghost d = depth as nat;
    let at = match output.node_id(rt) {
        None => {
            rt.mode.autograd_enabled = true;
            proof {
                assert(rt.holds() == a.holds());
            }
            return;
        },
        Some(token) => {
            let (_generation, at) = crate::tape::Tape::unpack(token);
            at
        },
    };
    let ghost start = first_progress(
        a.tape@.len(),
        token_index(output.meta(a.mem).node_id->0),
        grad@,
    );
    let mut sweep = Sweep::start(rt.tape.nodes.len(), at, grad);
    assert(sweep@ =~= start);
    let mut more = true;
    while more
        invariant
            d == depth,
            rt.wf(),
            sweep.wf(),
            sweep.nodes() == rt.tape@.len(),
            0 <= sweep@.left <= rt.tape@.len(),
            can_pass(d, *blocks, *rt, sweep@),
            forall|b: Runtime<S>, q: Progress<S>| #[trigger]
                through(d, *blocks, *rt, sweep@, b, q) ==> through(d, *blocks, a, start, b, q),
            !more ==> sweep@.left == 0 && finishable(*rt, sweep@.grads) && through(
                d,
                *blocks,
                a,
                start,
                *rt,
                sweep@,
            ),
        decreases sweep@.left + (if more {
            1int
        } else {
            0int
        }),
    {
        let ghost c = *rt;
        let ghost p = sweep@;
        let saved = read_tape(rt);
        let pause = sweep.resume(&rt.tape.nodes, &saved);
        let ghost m = run(tape_steps(c), p);
        proof {
            law_run_stops(tape_steps(c), p);
            assert(sweep@ == m);
        }
        match pause {
            None => {
                assert(through(d, *blocks, c, p, c, m));
                proof {
                    assert(run(tape_steps(c), m) == m);
                    assert(can_pass(d, *blocks, c, m)) by {
                        assert(run_ok(tape_steps(c), m));
                    }
                }
                more = false;
            },
            Some(node) => {
                assert(0 < m.left <= c.tape@.len());
                assert(node == next_node(m) && node as int == m.left - 1);
                let g = match sweep.gradient(node) {
                    Some(g) => g.duplicate(),
                    None => {
                        assert(false);
                        grad.duplicate()
                    },
                };
                assert(can_replay(d, *blocks, c, node, g@));
                let gx = replay_block(depth, node, &g, blocks, rt);
                proof {
                    assert(replayed(d, *blocks, c, *rt, next_node(m), next_grad(m), gx@));
                    assert(c.tape@[m.left - 1] == c.tape.nodes@[m.left - 1]@);
                    let next = beyond(*rt, m, gx@);
                    assert(can_pass(d, *blocks, c, p));
                    assert(can_pass(d, *blocks, *rt, next));
                }
                sweep.replayed(&rt.tape.nodes, &gx);
                proof {
                    assert(sweep@ =~= beyond(*rt, m, gx@));
                    assert forall|b: Runtime<S>, q: Progress<S>| #[trigger]
                        through(d, *blocks, *rt, sweep@, b, q) implies through(
                        d,
                        *blocks,
                        a,
                        start,
                        b,
                        q,
                    ) by {
                        assert(through(d, *blocks, c, p, b, q));
                    }
                }
            },
        }
    }
    let ghost last = *rt;
    rt.finish_backward(&sweep);
    assert(through(d, *blocks, a, start, last, sweep@));
    assert(finished(last, *rt, sweep@.grads));
}

/// Runs the backward pass from `output` with its gradient, replaying every checkpointed block
/// that a gradient reaches; blocks may be nested up to `depth` deep.
pub fn backward_blocks<S: Scalar, B: Block<S>>(
    depth: usize,
    output: &Tensor,
    grad: &Tensor,
    blocks: &Blocks<B>,
    rt: &mut Runtime<S>,
)
    requires
        old(rt).wf(),
        output.valid(old(rt).mem),
        grad.is_f32(old(rt).mem),
        can_end(depth as nat, *blocks, *old(rt), *output, grad.value(old(rt).mem)),
    ensures
        final(rt).wf(),
        ended(
            depth as nat,
            *blocks,
            *old(rt),
            *final(rt),
            *output,
            grad.value(old(rt).mem),
        ),
{
    let g = grad.read(rt);
    differentiate(depth, output, &g, blocks, rt);
}

/// A pass that reaches no checkpointed block is the plain backward pass.
pub proof fn law_no_blocks<S: Scalar, B: Block<S>>(
    depth: nat,
    blocks: Blocks<B>,
    a: Runtime<S>,
    b: Runtime<S>,
    output: Tensor,
    grad: Value<S>,
)
    requires
        output.meta(a.mem).node_id is Some ==> sweepable(a, output, grad),
    ensures
        can_end(depth, blocks, a, output, grad),
        ended(depth, blocks, a, b, output, grad) == differentiated(a, b, output, grad),
{
    if output.meta(a.mem).node_id is Some {
        let at = token_index(output.meta(a.mem).node_id->0);
        let p = first_progress(a.tape@.len(), at, grad);
        let q = swept(a, output, grad);
        assert(q == run(tape_steps(a), p));
        assert(through(depth, blocks, a, p, a, q));
        assert(can_pass(depth, blocks, a, p));
        if differentiated(a, b, output, grad) {
            assert(finished(a, b, q.grads));
        }
        if ended(depth, blocks, a, b, output, grad) {
            let (c, w) = choose|c: Runtime<S>, w: Progress<S>|
                through(depth, blocks, a, p, c, w) && #[trigger] finished(c, b, w.grads);
            assert(c == a && w == q);
        }
    }
}

} // verus!
