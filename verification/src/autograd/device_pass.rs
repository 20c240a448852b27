//! The backward pass over tensors on a device.
//!
//! The gradients of most operations are queued as work on the device. Those that need values from
//! the device come from whoever can read it, and the pass goes on with them.
use vstd::prelude::*;
use crate::autograd::backward::alias;
use crate::autograd::checkpoint::lemma_tape_valid;
use crate::autograd::collect::{is_leaf, lemma_on_tape, tokens_ok};
use crate::autograd::grads::{lemma_in_holds, tape_handles};
use crate::autograd::launch::{feasible, lemma_shared_grown, perform, Work};
use crate::autograd::launch_rules::{
    aided, aided_moves, aided_program, can_aid, can_rule, covers, device_rule, lemma_clear,
    rule_moves, rule_temps, rule_width, Rule,
};
use crate::autograd::replay::lemma_returned;
use crate::create::shared;
use crate::custody::{grad_key, lemma_loose_owned, lemma_owners, loose};
use crate::op::OpType;
use crate::ops::methods::apply;
use crate::runtime::{given_back, holds_cell, lemma_count_remove, GradKey, Runtime};
use crate::scalar::Scalar;
use crate::scope::{grown, lemma_grown_owned};
use crate::tape::{count_key, derefs, lemma_count_add, lemma_count_at, lemma_valid_kept, NodeView};
use crate::tensor::{Key, Tensor};
use crate::trail::{drops, lemma_join, lemma_move, lemma_once, lemma_still, made, trail, Move};

verus! {

/// Handles that are loose, and new ones.
pub proof fn lemma_loose_more<S>(
    a: Runtime<S>,
    b: Runtime<S>,
    hs: Seq<Tensor>,
    outs: Seq<Tensor>,
)
    requires
        loose(a, hs),
        grown(a, b, outs),
    ensures
        loose(b, hs + outs),
{
    let all = hs + outs;
    assert(loose(b, outs) && forall|k: Key| #[trigger]
        b.owners(k) == a.owners(k) + count_key(outs, k)) by {
        reveal(grown);
    }
    assert forall|i: int| 0 <= i < all.len() implies (#[trigger] all[i]).valid(b.mem)
        && !holds_cell(b.holds(), all[i].cell) by {
        if i < hs.len() {
            lemma_loose_owned(a, hs, i);
            lemma_grown_owned(a, b, outs, hs[i]);
        } else {
            assert(all[i] == outs[i - hs.len()]);
        }
    }
    assert forall|i: int, j: int| 0 <= i < j < all.len() implies all[i].cell != all[j].cell by {
        if j < hs.len() {
            assert(hs[i].cell != hs[j].cell);
        } else if i >= hs.len() {
            assert(outs[i - hs.len()].cell != outs[j - hs.len()].cell);
        } else {
            lemma_loose_owned(a, hs, i);
            assert(!holds_cell(outs, hs[i].cell)) by {
                reveal(grown);
            }
            assert(all[j] == outs[j - hs.len()]);
        }
    }
    assert forall|k: Key| count_key(all, k) <= #[trigger] b.owners(k) by {
        lemma_count_add(hs, outs, k);
        assert(count_key(hs, k) <= a.owners(k));
    }
}

/// Handles that are loose, without one that is given back.
pub proof fn lemma_loose_less<S: Scalar>(b: Runtime<S>, c: Runtime<S>, ts: Seq<Tensor>, i: int)
    requires
        loose(b, ts),
        0 <= i < ts.len(),
        b.wf(),
        c.wf(),
        given_back(b, c, ts[i]),
    ensures
        loose(c, ts.remove(i)),
{
    let rest = ts.remove(i);
    let t = ts[i];
    let key = (t.storage_id, t.device);
    if b.gradients@.contains_key(key) {
        b.gradients.lemma_held(key);
        lemma_in_holds(b, b.gradients@[key]);
        let g = b.gradients@[key];
        let m = b.holds().index_of(g);
        assert(holds_cell(b.holds(), b.holds()[m].cell));
    }
    assert forall|k: Key| count_key(rest, k) <= #[trigger] c.owners(k) by {
        lemma_count_remove(ts, i, k);
        assert(count_key(ts, k) <= b.owners(k));
    }
    assert forall|p: int| 0 <= p < rest.len() implies (#[trigger] rest[p]).valid(c.mem)
        && !holds_cell(c.holds(), rest[p].cell) by {
        let j = if p < i {
            p
        } else {
            p + 1
        };
        assert(rest[p] == ts[j]);
        if j < i {
            assert(ts[j].cell != ts[i].cell);
        } else {
            assert(ts[i].cell != ts[j].cell);
        }
        lemma_count_at(rest, p);
        lemma_owners(c, ts[j].key());
        assert(count_key(rest, ts[j].key()) <= c.owners(ts[j].key()));
        lemma_valid_kept(b.mem, c.mem, ts[j]);
    }
    assert forall|p: int, q: int| 0 <= p < q < rest.len() implies rest[p].cell != rest[q].cell by {
        let j = if p < i {
            p
        } else {
            p + 1
        };
        let l = if q < i {
            q
        } else {
            q + 1
        };
        assert(ts[j].cell != ts[l].cell);
    }
}

/// Loose handles in another order.
proof fn lemma_loose_order<S>(rt: Runtime<S>, p: Seq<Tensor>, q: Seq<Tensor>, r: Seq<Tensor>)
    requires
        loose(rt, p + q + r),
    ensures
        loose(rt, p + r + q),
{
    let xs = p + q + r;
    let ys = p + r + q;
    let (np, nq, nr) = (p.len() as int, q.len() as int, r.len() as int);
    assert forall|k: Key| count_key(ys, k) <= #[trigger] rt.owners(k) by {
        lemma_count_add(p, q, k);
        lemma_count_add(p + q, r, k);
        lemma_count_add(p, r, k);
        lemma_count_add(p + r, q, k);
        assert(count_key(xs, k) <= rt.owners(k));
    }
    assert forall|i: int| 0 <= i < ys.len() implies (#[trigger] ys[i]).valid(rt.mem)
        && !holds_cell(rt.holds(), ys[i].cell) by {
        let j = if i < np {
            i
        } else if i < np + nr {
            i + nq
        } else {
            i - nr
        };
        assert(ys[i] == xs[j]);
    }
    assert forall|i: int, l: int| 0 <= i < l < ys.len() implies ys[i].cell != ys[l].cell by {
        let j = if i < np {
            i
        } else if i < np + nr {
            i + nq
        } else {
            i - nr
        };
        let m = if l < np {
            l
        } else if l < np + nr {
            l + nq
        } else {
            l - nr
        };
        assert(ys[i] == xs[j] && ys[l] == xs[m]);
        if j < m {
            assert(xs[j].cell != xs[m].cell);
        } else {
            assert(xs[m].cell != xs[j].cell);
        }
    }
}

/// The gradients of nodes so far.
pub open spec fn owners_of(grads: Seq<(u32, Tensor)>) -> Seq<Tensor> {
    grads.map_values(|e: (u32, Tensor)| e.1)
}

/// Gradients on the way to the nodes of inputs.
pub open spec fn waiting_of(pending: Seq<(Option<u32>, Tensor)>) -> Seq<Tensor> {
    pending.map_values(|e: (Option<u32>, Tensor)| e.1)
}

/// Where the gradient of a node is in the list.
pub open spec fn place_of(grads: Seq<(u32, Tensor)>, node: u32) -> Option<int>
    decreases grads.len(),
{
    if grads.len() == 0 {
        None
    } else if grads.last().0 == node {
        Some(grads.len() - 1)
    } else {
        place_of(grads.drop_last(), node)
    }
}

/// Gradients with the nodes of the inputs that they belong to.
pub open spec fn addressed(inputs: Seq<Option<u32>>, gs: Seq<Tensor>) -> Seq<(Option<u32>, Tensor)> {
    Seq::new(inputs.len(), |i: int| (inputs[i], gs[i]))
}

/// What is left of a list without the places in `temps`.
pub open spec fn without(outs: Seq<Tensor>, temps: Seq<usize>) -> Seq<Tensor>
    decreases temps.len(),
{
    if temps.len() == 0 {
        outs
    } else {
        without(outs.remove(temps.last() as int), temps.drop_last())
    }
}

/// The tensors at the places in `temps` are given back, the last one first.
pub open spec fn drop_moves<S>(outs: Seq<Tensor>, temps: Seq<usize>) -> Seq<Move<S>>
    decreases temps.len(),
{
    if temps.len() == 0 {
        Seq::empty()
    } else {
        let t = temps.last() as int;
        seq![Move::Drop { t: outs[t] }] + drop_moves(outs.remove(t), temps.drop_last())
    }
}

/// Places in a list, in ascending order.
pub open spec fn rising(temps: Seq<usize>, n: nat) -> bool {
    &&& forall|i: int| 0 <= i < temps.len() ==> #[trigger] temps[i] < n
    &&& forall|i: int, j: int| 0 <= i < j < temps.len() ==> temps[i] < temps[j]
}

/// The gradients of a node are queued from `a` to `b`, which makes `outs`; those of its inputs are
/// on their way.
pub open spec fn visited<S: Scalar>(
    a: Runtime<S>,
    b: Runtime<S>,
    node: NodeView,
    g: Tensor,
    outs: Seq<Tensor>,
    pending: Seq<(Option<u32>, Tensor)>,
) -> bool {
    let temps = rule_temps(node.op);
    &&& outs.len() == rule_width(node.op)
    &&& trail(a, b, rule_moves(node.op, node.saved, g, outs) + drop_moves(outs, temps))
    &&& pending == addressed(node.inputs, without(outs, temps))
}

/// What a pass does next.
#[derive(Debug, Clone, Copy, PartialEq, Eq)]
pub enum Stage {
    /// A gradient is added to that of the node it belongs to.
    Deposit,
    /// No gradient reaches the next node, or it is a leaf.
    Skip,
    /// The gradients of the next node are queued as work on the device.
    Launch,
    /// The gradients of the next node have to come from outside.
    Wait,
    /// No node is left.
    Done,
}

/// A backward pass over tensors on a device.
pub struct DevicePass {
    /// How many nodes are left.
    pub left: usize,
    /// The gradients so far, with their nodes.
    pub grads: Vec<(u32, Tensor)>,
    /// Gradients on the way to the nodes of inputs.
    pub pending: Vec<(Option<u32>, Tensor)>,
}

impl DevicePass {
    /// The handles of the pass.
    pub open spec fn handles(self) -> Seq<Tensor> {
        owners_of(self.grads@) + waiting_of(self.pending@)
    }

    /// The next node.
    pub open spec fn node<S>(self, rt: Runtime<S>) -> NodeView {
        rt.tape@[self.left - 1]
    }

    /// The gradient of the output of the next node.
    pub open spec fn gradient(self) -> Tensor {
        self.grads@[place_of(self.grads@, (self.left - 1) as u32)->0].1
    }

    /// A gradient reaches the next node, and the node is more than a leaf.
    pub open spec fn reaches<S>(self, rt: Runtime<S>) -> bool {
        place_of(self.grads@, (self.left - 1) as u32) is Some && self.node(rt).saved.len() > 0
    }

    /// The pass belongs to the tape of a runtime, and its handles are its own.
    pub open spec fn of<S>(self, rt: Runtime<S>) -> bool {
        &&& self.left <= rt.tape@.len() <= u32::MAX
        &&& loose(rt, self.handles())
    }

    /// What comes next.
    pub open spec fn next<S>(self, rt: Runtime<S>) -> Stage {
        if self.pending@.len() > 0 {
            Stage::Deposit
        } else if self.left == 0 {
            Stage::Done
        } else if !self.reaches(rt) {
            Stage::Skip
        } else if covers(self.node(rt).op, self.node(rt).saved, self.gradient()) {
            Stage::Launch
        } else {
            Stage::Wait
        }
    }

    /// Starts a pass at node `at` with the gradient of its output, which the pass takes over; a
    /// node that is not on the tape takes none.
    pub fn start<S>(at: u32, grad: Tensor, rt: &Runtime<S>) -> (r: Self)
        requires
            rt.wf(),
            rt.tape@.len() <= u32::MAX,
            loose(*rt, seq![grad]),
        ensures
            r.of(*rt),
            r.left == rt.tape@.len(),
            r.grads@ == seq![(at, grad)],
            r.pending@.len() == 0,
    {
        let mut grads: Vec<(u32, Tensor)> = Vec::new();
        grads.push((at, grad));
        let r = DevicePass { left: rt.tape.nodes.len(), grads, pending: Vec::new() };
        proof {
            assert(r.grads@ =~= seq![(at, grad)]);
            assert(r.handles() =~= seq![grad]);
        }
        r
    }

    /// Where the gradient of a node is.
    pub(crate) fn find(&self, node: u32) -> (r: Option<usize>)
        ensures
            r is Some <==> place_of(self.grads@, node) is Some,
            r matches Some(i) ==> place_of(self.grads@, node) == Some(i as int) && i
                < self.grads@.len() && self.grads@[i as int].0 == node,
    {
        let ghost all = self.grads@;
        let mut i: usize = self.grads.len();
        assert(all.subrange(0, all.len() as int) =~= all);
        while i > 0
            invariant
                i <= all.len(),
                all == self.grads@,
                place_of(all.subrange(0, i as int), node) == place_of(all, node),
            decreases i,
        {
            let ghost part = all.subrange(0, i as int);
            assert(part.last() == all[i - 1]);
            assert(part.drop_last() =~= all.subrange(0, i - 1));
            i = i - 1;
            if self.grads[i].0 == node {
                return Some(i);
            }
        }
        None
    }

    /// What comes next.
    pub fn stage<S: Scalar>(&self, rt: &Runtime<S>) -> (r: Stage)
        requires
            rt.wf(),
            self.of(*rt),
        ensures
            r == self.next(*rt),
    {
        if self.pending.len() > 0 {
            return Stage::Deposit;
        }
        if self.left == 0 {
            return Stage::Done;
        }
        let n: usize = self.left - 1;
        proof {
            assert(rt.tape.nodes@[n as int]@ == rt.tape@[n as int]);
        }
        match self.find(n as u32) {
            None => Stage::Skip,
            Some(i) => {
                let node = &rt.tape.nodes[n];
                if node.saved_tensors.len() == 0 {
                    return Stage::Skip;
                }
                proof {
                    lemma_inputs(*self, *rt, i as int);
                }
                let rule: Option<Rule<S>> = device_rule(
                    &node.op,
                    &node.saved_tensors,
                    &self.grads[i].1,
                );
                match rule {
                    Some(_) => Stage::Launch,
                    None => Stage::Wait,
                }
            },
        }
    }

    /// Goes past a node that passes nothing on.
    pub fn skip<S>(&mut self, rt: &Runtime<S>)
        requires
            old(self).of(*rt),
            old(self).left > 0,
            old(self).pending@.len() == 0,
            !old(self).reaches(*rt),
        ensures
            final(self).of(*rt),
            *final(self) == (DevicePass { left: (old(self).left - 1) as usize, ..*old(self) }),
    {
        self.left = self.left - 1;
    }

    /// Takes the gradients of the next node's inputs, which were computed outside.
    pub fn supply<S>(&mut self, gs: &Vec<Tensor>, rt: &Runtime<S>)
        requires
            rt.wf(),
            old(self).of(*rt),
            old(self).left > 0,
            old(self).pending@.len() == 0,
            gs@.len() == old(self).node(*rt).inputs.len(),
            loose(*rt, old(self).handles() + gs@),
        ensures
            final(self).of(*rt),
            final(self).left == old(self).left - 1,
            final(self).grads == old(self).grads,
            final(self).pending@ == addressed(old(self).node(*rt).inputs, gs@),
    {
        let ghost before = *self;
        let n: usize = self.left - 1;
        assert(rt.tape.nodes@[n as int]@ == rt.tape@[n as int]);
        self.pending = address(&rt.tape.nodes[n].inputs, gs);
        self.left = n;
        proof {
            assert(waiting_of(self.pending@) =~= gs@);
            assert(self.handles() =~= before.handles() + gs@);
        }
    }

    /// Queues the gradients of the next node as work on the device.
    #[verifier::rlimit(60)]
    pub fn launch<S: Scalar>(&mut self, rt: &mut Runtime<S>)
        requires
            old(rt).wf(),
            old(self).of(*old(rt)),
            old(self).next(*old(rt)) == Stage::Launch,
            ({
                let node = old(self).node(*old(rt));
                &&& node.inputs.len() + rule_temps(node.op).len() == rule_width(node.op)
                &&& can_rule(*old(rt), node.op, node.saved, old(self).gradient())
            }),
        ensures
            final(rt).wf(),
            final(self).left == old(self).left - 1,
            final(self).grads == old(self).grads,
            loose(*final(rt), final(self).handles()),
            exists|outs: Seq<Tensor>| #[trigger]
                visited(
                    *old(rt),
                    *final(rt),
                    old(self).node(*old(rt)),
                    old(self).gradient(),
                    outs,
                    final(self).pending@,
                ),
    {
        let ghost a = *rt;
        let ghost before = *self;
        let ghost node = self.node(a);
        let ghost hs = self.handles();
        let ghost temps = rule_temps(node.op);
        let n: usize = self.left - 1;
        assert(rt.tape.nodes@[n as int]@ == rt.tape@[n as int]);
        let at: usize = match self.find(n as u32) {
            Some(i) => i,
            None => {
                assert(false);
                0
            },
        };
        let ghost g = self.grads@[at as int].1;
        proof {
            lemma_inputs(*self, a, at as int);
        }
        let found: Option<Rule<S>> = device_rule(
            &rt.tape.nodes[n].op,
            &rt.tape.nodes[n].saved_tensors,
            &self.grads[at].1,
        );
        let rule = match found {
            Some(rule) => rule,
            None => {
                assert(false);
                Rule { program: Vec::new(), temps: Vec::new() }
            },
        };
        let mut base: Vec<Tensor> = Vec::new();
        base.push(alias(&self.grads[at].1));
        let mut i: usize = 0;
        while i < rt.tape.nodes[n].saved_tensors.len()
            invariant
                *rt == a,
                n < a.tape.nodes@.len(),
                a.tape.nodes@[n as int]@ == node,
                i <= node.saved.len(),
                base@ == seq![g] + node.saved.subrange(0, i as int),
            decreases node.saved.len() - i,
        {
            base.push(alias(&rt.tape.nodes[n].saved_tensors[i]));
            i = i + 1;
            assert(base@ =~= seq![g] + node.saved.subrange(0, i as int));
        }
        let inputs = copied_inputs(&rt.tape.nodes[n].inputs);
        proof {
            assert(node.saved.subrange(0, node.saved.len() as int) =~= node.saved);
            assert(base@ == seq![g] + node.saved);
            lemma_clear(a, rule, node.op, node.saved, g);
        }
        let mut outs = perform(&rule.program, &base, rt);
        let ghost b = *rt;
        let ghost all = outs@;
        let ghost way = rule_moves::<S>(node.op, node.saved, g, all);
        proof {
            lemma_loose_more(a, b, hs, all);
            lemma_rising(node.op);
        }
        discard(&mut outs, &rule.temps, rt, Ghost(hs));
        proof {
            lemma_join(a, b, *rt, way, drop_moves(all, temps));
            lemma_without_len(all, temps);
        }
        self.pending = address(&inputs, &outs);
        self.left = n;
        proof {
            assert(waiting_of(self.pending@) =~= outs@);
            assert(before.pending@.len() == 0);
            assert(waiting_of(before.pending@) =~= Seq::<Tensor>::empty());
            assert(hs =~= owners_of(before.grads@));
            assert(self.handles() =~= hs + outs@);
            assert(visited(a, *rt, node, g, all, self.pending@));
        }
    }

    /// Queues the gradients of the next node with what they take from outside; `aids` stay the
    /// caller's.
    pub fn assist<S: Scalar>(&mut self, aids: &Vec<Tensor>, rt: &mut Runtime<S>)
        requires
            old(rt).wf(),
            old(self).of(*old(rt)),
            old(self).next(*old(rt)) == Stage::Wait,
            ({
                let node = old(self).node(*old(rt));
                &&& node.inputs.len() == aids@.len()
                &&& aided(node.op, node.saved, old(self).gradient(), aids@)
                &&& can_aid(*old(rt), node.op, old(self).gradient(), aids@)
            }),
        ensures
            final(rt).wf(),
            final(self).left == old(self).left - 1,
            final(self).grads == old(self).grads,
            loose(*final(rt), final(self).handles()),
            exists|outs: Seq<Tensor>|
                {
                    &&& outs.len() == aids@.len()
                    &&& trail(
                        *old(rt),
                        *final(rt),
                        #[trigger] aided_moves(
                            old(self).node(*old(rt)).op,
                            old(self).gradient(),
                            aids@,
                            outs,
                        ),
                    )
                    &&& final(self).pending@ == addressed(old(self).node(*old(rt)).inputs, outs)
                },
    {
        let ghost a = *rt;
        let ghost before = *self;
        let ghost node = self.node(a);
        let ghost hs = self.handles();
        let n: usize = self.left - 1;
        assert(rt.tape.nodes@[n as int]@ == rt.tape@[n as int]);
        let at: usize = match self.find(n as u32) {
            Some(i) => i,
            None => {
                assert(false);
                0
            },
        };
        let ghost g = self.grads@[at as int].1;
        let mut base: Vec<Tensor> = Vec::new();
        base.push(alias(&self.grads[at].1));
        let mut i: usize = 0;
        while i < aids.len()
            invariant
                i <= aids@.len(),
                base@ == seq![g] + aids@.subrange(0, i as int),
            decreases aids@.len() - i,
        {
            base.push(alias(&aids[i]));
            i = i + 1;
            assert(base@ =~= seq![g] + aids@.subrange(0, i as int));
        }
        assert(aids@.subrange(0, aids@.len() as int) =~= aids@);
        let program: Vec<Work<S>> = aided_program(
            &rt.tape.nodes[n].op,
            Ghost(a),
            Ghost(node.saved),
            Ghost(g),
            Ghost(aids@),
        );
        let inputs = copied_inputs(&rt.tape.nodes[n].inputs);
        let outs = perform(&program, &base, rt);
        proof {
            lemma_loose_more(a, *rt, hs, outs@);
        }
        self.pending = address(&inputs, &outs);
        self.left = n;
        proof {
            assert(waiting_of(self.pending@) =~= outs@);
            assert(waiting_of(before.pending@) =~= Seq::<Tensor>::empty());
            assert(hs =~= owners_of(before.grads@));
            assert(self.handles() =~= hs + outs@);
            assert(trail(a, *rt, aided_moves(node.op, g, aids@, outs@)));
        }
    }

    /// Adds the first gradient on the way to that of the node it belongs to.
    #[verifier::rlimit(60)]
    pub fn deposit<S: Scalar>(&mut self, rt: &mut Runtime<S>)
        requires
            old(rt).wf(),
            old(self).of(*old(rt)),
            old(self).pending@.len() > 0,
            ({
                let (input, g) = old(self).pending@[0];
                input matches Some(id) ==> (place_of(old(self).grads@, id) matches Some(i)
                    ==> feasible(
                    *old(rt),
                    (Move::Op {
                        op: OpType::Add,
                        ins: seq![old(self).grads@[i].1, g],
                        out: g,
                    }),
                ))
            }),
        ensures
            final(rt).wf(),
            final(self).left == old(self).left,
            final(self).pending@ == old(self).pending@.remove(0),
            loose(*final(rt), final(self).handles()),
            ({
                let (input, g) = old(self).pending@[0];
                match input {
                    None => final(self).grads == old(self).grads && made(
                        *old(rt),
                        (Move::Drop { t: g }),
                        *final(rt),
                    ),
                    Some(id) => match place_of(old(self).grads@, id) {
                        None => final(self).grads@ == old(self).grads@.push((id, g)) && *final(rt)
                            == *old(rt),
                        Some(i) => {
                            let h = old(self).grads@[i].1;
                            let s = final(self).grads@.last().1;
                            &&& final(self).grads@ == old(self).grads@.remove(i).push((id, s))
                            &&& trail(
                                *old(rt),
                                *final(rt),
                                seq![
                                    (Move::Op { op: OpType::Add, ins: seq![h, g], out: s }),
                                    (Move::Drop { t: h }),
                                    (Move::Drop { t: g }),
                                ],
                            )
                        },
                    },
                }
            }),
    {
        let ghost a = *rt;
        let ghost gs0 = self.grads@;
        let ghost ps0 = self.pending@;
        let ghost hs = self.handles();
        let ghost (gx, px) = (owners_of(gs0), waiting_of(ps0));
        let (input, g) = self.pending.remove(0);
        let ghost rest = waiting_of(self.pending@);
        proof {
            assert(px =~= seq![g] + rest);
            assert(hs =~= gx + seq![g] + rest);
        }
        match input {
            None => {
                proof {
                    lemma_loose_owned(a, hs, gx.len() as int);
                    assert(hs[gx.len() as int] == g);
                }
                rt.release(g);
                proof {
                    lemma_loose_less(a, *rt, hs, gx.len() as int);
                    assert(hs.remove(gx.len() as int) =~= gx + rest);
                }
            },
            Some(id) => {
                match self.find(id) {
                    None => {
                        self.grads.push((id, g));
                        proof {
                            assert(owners_of(self.grads@) =~= gx + seq![g]);
                            assert(self.handles() =~= hs);
                        }
                    },
                    Some(i) => {
                        let (_id, h) = self.grads.remove(i);
                        let ghost k = i as int;
                        let ghost gr = owners_of(self.grads@);
                        let ins: [&Tensor; 2] = [&h, &g];
                        proof {
                            assert(derefs(ins@) =~= seq![h, g]);
                            assert(gr =~= gx.remove(k));
                            assert(gx[k] == h);
                        }
                        let s = apply(OpType::Add, ins.as_slice(), rt);
                        let ghost b = *rt;
                        let ghost m1 = Move::<S>::Op { op: OpType::Add, ins: seq![h, g], out: s };
                        proof {
                            lemma_loose_more(a, b, hs, seq![s]);
                            lemma_loose_owned(b, hs + seq![s], k);
                            assert((hs + seq![s])[k] == h);
                            lemma_once(a, b, m1);
                        }
                        rt.release(h);
                        let ghost c = *rt;
                        let ghost m2 = Move::<S>::Drop { t: h };
                        proof {
                            lemma_loose_less(b, c, hs + seq![s], k);
                            assert((hs + seq![s]).remove(k) =~= gr + seq![g] + rest + seq![s]);
                            lemma_move(a, b, c, seq![m1], m2);
                            let ts = gr + seq![g] + rest + seq![s];
                            assert(ts[gr.len() as int] == g);
                            lemma_loose_owned(c, ts, gr.len() as int);
                        }
                        rt.release(g);
                        proof {
                            let ts = gr + seq![g] + rest + seq![s];
                            let m3 = Move::<S>::Drop { t: g };
                            lemma_loose_less(c, *rt, ts, gr.len() as int);
                            assert(ts.remove(gr.len() as int) =~= gr + rest + seq![s]);
                            lemma_loose_order(*rt, gr, rest, seq![s]);
                            lemma_move(a, c, *rt, seq![m1].push(m2), m3);
                            assert(seq![m1].push(m2).push(m3) =~= seq![m1, m2, m3]);
                        }
                        self.grads.push((id, s));
                        proof {
                            assert(owners_of(self.grads@) =~= gr + seq![s]);
                            assert(self.handles() =~= gr + seq![s] + rest);
                            assert(self.grads@.last().1 == s);
                        }
                    },
                }
            },
        }
    }
}

/// Where the gradient is that handle `k` of node `n` takes as a leaf, if any.
pub open spec fn leaf_place<S>(
    grads: Seq<(u32, Tensor)>,
    rt: Runtime<S>,
    n: int,
    k: int,
) -> Option<int> {
    let node = rt.tape@[n];
    if is_leaf(rt, node.saved[k]) {
        match node.inputs[k] {
            Some(id) => place_of(grads, id),
            None => None,
        }
    } else {
        None
    }
}

/// Another handle to the block of `h` was made the gradient under `key`.
pub open spec fn leaf_kept<S>(a: Runtime<S>, b: Runtime<S>, key: GradKey, h: Tensor) -> bool {
    exists|mid: Runtime<S>, g: Tensor|
        {
            &&& #[trigger] shared(a, mid, h, g, h.shape, h.strides)
            &&& b == (Runtime { gradients: b.gradients, ..mid })
            &&& b.gradients@ == a.gradients@.insert(key, g)
        }
}

impl DevicePass {
    /// Makes what the pass came to the gradient of a leaf: handle `k` of node `n`. A leaf that
    /// has a gradient already keeps it.
    #[verifier::rlimit(60)]
    pub fn keep_leaf<S: Scalar>(&self, n: usize, k: usize, rt: &mut Runtime<S>)
        requires
            old(rt).wf(),
            self.of(*old(rt)),
            tokens_ok(*old(rt)),
            n < old(rt).tape@.len(),
            k < old(rt).tape@[n as int].saved.len(),
            k < old(rt).tape@[n as int].inputs.len(),
            leaf_place(self.grads@, *old(rt), n as int, k as int) matches Some(i) ==> old(
                rt,
            ).mem.refs(self.grads@[i].1.key()) < usize::MAX && old(rt).mem.cells.room() > 0,
        ensures
            final(rt).wf(),
            self.of(*final(rt)),
            final(rt).tape == old(rt).tape,
            ({
                let key = grad_key(old(rt).tape@[n as int].saved[k as int]);
                match leaf_place(self.grads@, *old(rt), n as int, k as int) {
                    Some(i) => if old(rt).gradients@.contains_key(key) {
                        *final(rt) == *old(rt)
                    } else {
                        leaf_kept(*old(rt), *final(rt), key, self.grads@[i].1)
                    },
                    None => *final(rt) == *old(rt),
                }
            }),
    {
        let ghost a = *rt;
        let ghost hs = self.handles();
        proof {
            lemma_on_tape(a, n as int, k as int);
            lemma_tape_valid(a, a.tape@[n as int].saved[k as int]);
            assert(a.tape.nodes@[n as int]@ == a.tape@[n as int]);
        }
        let t = alias(&rt.tape.nodes[n].saved_tensors[k]);
        let key = (t.storage_id, t.device);
        let live = rt.tape.live(t.node_id(rt));
        let leaf = match live {
            Some(i) => {
                assert(a.tape.nodes@[i as int]@ == a.tape@[i as int]);
                rt.tape.nodes[i as usize].inputs.len() == 0
            },
            None => false,
        };
        if !leaf {
            return;
        }
        let place = match rt.tape.nodes[n].inputs[k] {
            Some(id) => self.find(id),
            None => None,
        };
        let i: usize = match place {
            Some(i) => i,
            None => {
                return;
            },
        };
        if rt.gradients.get(key).is_some() {
            return;
        }
        proof {
            assert(hs[i as int] == self.grads@[i as int].1);
        }
        let g = self.grads[i].1.clone(rt);
        let ghost m = *rt;
        proof {
            lemma_shared_grown(a, m, self.grads@[i as int].1, g);
            lemma_loose_more(a, m, hs, seq![g]);
        }
        rt.gradients.insert(key, g);
        proof {
            let b = *rt;
            let p = tape_handles(m) + m.gradients.held();
            let q = m.checkpoint_gradients.held();
            let all = hs + seq![g];
            assert(m.holds() =~= p + q);
            assert(b.holds() =~= p + seq![g] + q);
            assert(loose(m, seq![g])) by {
                assert(all[hs.len() as int] == g);
                assert forall|k: Key| count_key(seq![g], k) <= #[trigger] m.owners(k) by {
                    lemma_count_add(hs, seq![g], k);
                    assert(count_key(all, k) <= m.owners(k));
                }
            }
            lemma_returned(m, b, p, seq![g], q);
            assert forall|k: Key| count_key(hs, k) <= #[trigger] b.owners(k) by {
                lemma_count_add(hs, seq![g], k);
                assert(count_key(all, k) <= m.owners(k));
                assert(b.owners(k) == m.owners(k) - count_key(seq![g], k));
            }
            assert forall|j: int| 0 <= j < hs.len() implies (#[trigger] hs[j]).valid(b.mem)
                && !holds_cell(b.holds(), hs[j].cell) by {
                assert(all[j] == hs[j]);
                assert(all[j].cell != all[hs.len() as int].cell);
                if holds_cell(b.holds(), hs[j].cell) {
                    assert(holds_cell(seq![g], hs[j].cell));
                    let l = choose|l: int|
                        0 <= l < seq![g].len() && (#[trigger] seq![g][l]).cell == hs[j].cell;
                    assert(seq![g][l] == g);
                }
            }
            assert(shared(
                a,
                m,
                self.grads@[i as int].1,
                g,
                self.grads@[i as int].1.shape,
                self.grads@[i as int].1.strides,
            ));
        }
    }

    /// Ends a pass: its handles are given back, the last one first.
    pub fn close<S: Scalar>(self, rt: &mut Runtime<S>)
        requires
            old(rt).wf(),
            self.of(*old(rt)),
            self.pending@.len() == 0,
        ensures
            final(rt).wf(),
            trail(*old(rt), *final(rt), drops(owners_of(self.grads@))),
    {
        let ghost a = *rt;
        let ghost all = owners_of(self.grads@);
        let mut grads = self.grads;
        proof {
            lemma_still(a);
            assert(waiting_of(self.pending@) =~= Seq::<Tensor>::empty());
            assert(self.handles() =~= all);
            assert(all.subrange(0, all.len() as int) =~= all);
            assert(drops::<S>(all.subrange(all.len() as int, all.len() as int)) =~= Seq::empty());
        }
        while grads.len() > 0
            invariant
                rt.wf(),
                grads@.len() <= all.len(),
                owners_of(grads@) == all.subrange(0, grads@.len() as int),
                loose(*rt, owners_of(grads@)),
                trail(a, *rt, drops(all.subrange(grads@.len() as int, all.len() as int))),
            decreases grads@.len(),
        {
            let ghost b = *rt;
            let ghost ts = owners_of(grads@);
            let ghost i = grads@.len() - 1;
            if let Some((_node, t)) = grads.pop() {
                proof {
                    assert(ts[i] == t);
                    assert(all[i] == t);
                    lemma_loose_owned(b, ts, i);
                }
                rt.release(t);
                proof {
                    lemma_loose_less(b, *rt, ts, i);
                    assert(ts.remove(i) =~= owners_of(grads@));
                    assert(owners_of(grads@) =~= all.subrange(0, i));
                    let rest = all.subrange(i + 1, all.len() as int);
                    lemma_move(a, b, *rt, drops(rest), Move::Drop { t });
                    assert(drops::<S>(rest).push(Move::Drop { t }) =~= drops(
                        all.subrange(i, all.len() as int),
                    ));
                }
            }
        }
        assert(all.subrange(0, all.len() as int) =~= all);
    }
}

/// What the next node keeps, and its gradient, can be looked at.
proof fn lemma_inputs<S>(pass: DevicePass, rt: Runtime<S>, i: int)
    requires
        rt.wf(),
        pass.of(rt),
        pass.left > 0,
        0 <= i < pass.grads@.len(),
    ensures
        pass.grads@[i].1.laid_out(),
        forall|k: int|
            0 <= k < pass.node(rt).saved.len() ==> (#[trigger] pass.node(rt).saved[k]).laid_out(),
{
    assert(pass.handles()[i] == pass.grads@[i].1);
    assert(pass.handles()[i].valid(rt.mem));
    assert forall|k: int| 0 <= k < pass.node(rt).saved.len() implies (#[trigger] pass.node(
        rt,
    ).saved[k]).laid_out() by {
        lemma_on_tape(rt, pass.left - 1, k);
        lemma_tape_valid(rt, pass.node(rt).saved[k]);
    }
}

/// The places of what is needed on the way only.
proof fn lemma_rising(op: OpType)
    ensures
        rising(rule_temps(op), rule_width(op)),
{
}

proof fn lemma_without_len(outs: Seq<Tensor>, temps: Seq<usize>)
    requires
        rising(temps, outs.len()),
    ensures
        without(outs, temps).len() + temps.len() == outs.len(),
    decreases temps.len(),
{
    if temps.len() > 0 {
        let t = temps.last() as int;
        assert(temps[temps.len() - 1] < outs.len());
        lemma_without_len(outs.remove(t), temps.drop_last());
    }
}

/// Another list of the same nodes.
fn copied_inputs(inputs: &Vec<Option<u32>>) -> (r: Vec<Option<u32>>)
    ensures
        r@ == inputs@,
{
    let mut out: Vec<Option<u32>> = Vec::new();
    let mut i: usize = 0;
    while i < inputs.len()
        invariant
            i <= inputs@.len(),
            out@ == inputs@.subrange(0, i as int),
        decreases inputs@.len() - i,
    {
        out.push(inputs[i]);
        i = i + 1;
        assert(out@ =~= inputs@.subrange(0, i as int));
    }
    assert(inputs@.subrange(0, inputs@.len() as int) =~= inputs@);
    out
}

/// Gradients with the nodes of the inputs that they belong to.
fn address(inputs: &Vec<Option<u32>>, gs: &Vec<Tensor>) -> (r: Vec<(Option<u32>, Tensor)>)
    requires
        inputs@.len() == gs@.len(),
    ensures
        r@ == addressed(inputs@, gs@),
{
    let mut out: Vec<(Option<u32>, Tensor)> = Vec::new();
    let mut i: usize = 0;
    while i < inputs.len()
        invariant
            i <= inputs@.len() == gs@.len(),
            out@.len() == i,
            forall|k: int| 0 <= k < i ==> #[trigger] out@[k] == addressed(inputs@, gs@)[k],
        decreases inputs@.len() - i,
    {
        out.push((inputs[i], alias(&gs[i])));
        i = i + 1;
    }
    assert(out@ =~= addressed(inputs@, gs@));
    out
}

/// Gives back the tensors at some places of a list, the last one first.
fn discard<S: Scalar>(
    outs: &mut Vec<Tensor>,
    temps: &Vec<usize>,
    rt: &mut Runtime<S>,
    Ghost(hs): Ghost<Seq<Tensor>>,
)
    requires
        old(rt).wf(),
        rising(temps@, old(outs)@.len()),
        loose(*old(rt), hs + old(outs)@),
    ensures
        final(rt).wf(),
        final(outs)@ == without(old(outs)@, temps@),
        loose(*final(rt), hs + final(outs)@),
        trail(*old(rt), *final(rt), drop_moves(old(outs)@, temps@)),
{
    let ghost a = *rt;
    let ghost all = outs@;
    let mut n: usize = temps.len();
    let ghost mut way = Seq::<Move<S>>::empty();
    proof {
        lemma_still(a);
        assert(temps@.subrange(0, n as int) =~= temps@);
        assert(way + drop_moves(all, temps@) =~= drop_moves(all, temps@));
    }
    while n > 0
        invariant
            n <= temps@.len(),
            rt.wf(),
            rising(temps@.subrange(0, n as int), outs@.len()),
            loose(*rt, hs + outs@),
            without(outs@, temps@.subrange(0, n as int)) == without(all, temps@),
            trail(a, *rt, way),
            way + drop_moves(outs@, temps@.subrange(0, n as int)) == drop_moves::<S>(all, temps@),
        decreases n,
    {
        let ghost b = *rt;
        let ghost xs = outs@;
        let ghost left = temps@.subrange(0, n as int);
        let k: usize = temps[n - 1];
        proof {
            assert(left.last() == k);
            assert(left[n - 1] < xs.len());
            assert(left.drop_last() =~= temps@.subrange(0, n - 1));
            assert((hs + xs)[hs.len() + k as int] == xs[k as int]);
            lemma_loose_owned(b, hs + xs, hs.len() + k as int);
        }
        let t = outs.remove(k);
        rt.release(t);
        n = n - 1;
        proof {
            let m = Move::<S>::Drop { t };
            lemma_loose_less(b, *rt, hs + xs, hs.len() + k as int);
            assert((hs + xs).remove(hs.len() + k as int) =~= hs + outs@);
            lemma_move(a, b, *rt, way, m);
            let rest = drop_moves::<S>(outs@, temps@.subrange(0, n as int));
            assert(drop_moves::<S>(xs, left) == seq![m] + rest);
            assert(way.push(m) + rest =~= way + (seq![m] + rest));
            way = way.push(m);
            assert forall|i: int| 0 <= i < n implies #[trigger] temps@.subrange(0, n as int)[i]
                < outs@.len() by {
                assert(left[i] < left[n as int]);
            }
        }
    }
    proof {
        assert(temps@.subrange(0, 0) =~= Seq::<usize>::empty());
        assert(way + Seq::<Move<S>>::empty() =~= way);
    }
}

} // verus!
