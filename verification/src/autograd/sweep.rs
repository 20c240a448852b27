//! Walking the tape backwards.
use vstd::prelude::*;
use crate::autograd::rules::{all_wf, rule, rule_ok, rule_value};
use crate::cpu::elementwise::{elementwise_op, zip_ok, zip_value, BinaryOp};
use crate::dense::{Dense, Value};
use crate::forward::dense_views;
use crate::op::OpType;
use crate::scalar::Scalar;
use crate::tape::Node;

verus! {

/// A recorded operation with the values of its inputs.
#[verifier::ext_equal]
pub ghost struct StepView<S> {
    /// The operation.
    pub op: OpType,
    /// The nodes of the inputs, where they have one.
    pub inputs: Seq<Option<u32>>,
    /// The values of the inputs; none for a leaf.
    pub saved: Seq<Value<S>>,
}

/// Recorded operations with the values of their inputs.
pub open spec fn steps_of<S>(nodes: Seq<Node>, saved: Seq<Vec<Dense<S>>>) -> Seq<StepView<S>> {
    Seq::new(
        nodes.len(),
        |i: int|
            StepView {
                op: nodes[i].op,
                inputs: nodes[i].inputs@,
                saved: dense_views(saved[i]@),
            },
    )
}

/// Nodes and values are in order: there are values for each node, which are well formed, and
/// inputs are nodes of the tape.
pub open spec fn steps_wf<S>(nodes: Seq<Node>, saved: Seq<Vec<Dense<S>>>) -> bool {
    &&& saved.len() == nodes.len()
    &&& nodes.len() <= u32::MAX
    &&& forall|i: int|
        0 <= i < nodes.len() ==> all_wf((#[trigger] saved[i])@)
    &&& forall|i: int| 0 <= i < nodes.len() ==> named((#[trigger] nodes[i]).inputs@, nodes.len())
}

/// All inputs that have a node have one of the first `n`.
pub open spec fn named(inputs: Seq<Option<u32>>, n: nat) -> bool {
    forall|i: int| 0 <= i < inputs.len() ==> ((#[trigger] inputs[i]) matches Some(id) ==> id < n)
}

/// Gradients by node.
pub type Grads<S> = Map<int, Value<S>>;

/// Adds one gradient to the node of an input; an input without a node takes none.
pub open spec fn deposit<S: Scalar>(grads: Grads<S>, input: Option<u32>, g: Value<S>) -> Grads<S> {
    match input {
        Some(id) => if grads.contains_key(id as int) {
            grads.insert(id as int, zip_value(grads[id as int], g, BinaryOp::Add))
        } else {
            grads.insert(id as int, g)
        },
        None => grads,
    }
}

/// A gradient can be added to what its node has.
pub open spec fn deposit_ok<S: Scalar>(grads: Grads<S>, input: Option<u32>, g: Value<S>) -> bool {
    input matches Some(id) ==> grads.contains_key(id as int) ==> zip_ok(grads[id as int], g)
}

/// Adds the gradients of the first `n` inputs to their nodes.
pub open spec fn deposited<S: Scalar>(
    grads: Grads<S>,
    inputs: Seq<Option<u32>>,
    gs: Seq<Value<S>>,
    n: int,
) -> Grads<S>
    decreases n,
{
    if n <= 0 {
        grads
    } else {
        deposit(deposited(grads, inputs, gs, n - 1), inputs[n - 1], gs[n - 1])
    }
}

/// The gradients of the first `n` inputs can be added to their nodes.
pub open spec fn deposited_ok<S: Scalar>(
    grads: Grads<S>,
    inputs: Seq<Option<u32>>,
    gs: Seq<Value<S>>,
    n: int,
) -> bool {
    &&& gs.len() >= n
    &&& forall|i: int|
        0 <= i < n ==> #[trigger] deposit_ok(deposited(grads, inputs, gs, i), inputs[i], gs[i])
}

/// A gradient reaches the step, and the step is more than a leaf.
pub open spec fn reached<S>(steps: Seq<StepView<S>>, grads: Grads<S>, i: int) -> bool {
    grads.contains_key(i) && steps[i].saved.len() > 0
}

/// A gradient reaches a checkpointed block, which has to be replayed.
pub open spec fn paused<S>(steps: Seq<StepView<S>>, grads: Grads<S>, i: int) -> bool {
    reached(steps, grads, i) && steps[i].op is Checkpoint
}

/// The gradients after step `i` has passed its gradient on.
pub open spec fn visit<S: Scalar>(steps: Seq<StepView<S>>, grads: Grads<S>, i: int) -> Grads<S> {
    let s = steps[i];
    if reached(steps, grads, i) {
        deposited(grads, s.inputs, rule_value(s.op, s.saved, grads[i]), s.inputs.len() as int)
    } else {
        grads
    }
}

/// Step `i` can pass its gradient on.
pub open spec fn visit_ok<S: Scalar>(steps: Seq<StepView<S>>, grads: Grads<S>, i: int) -> bool {
    let s = steps[i];
    reached(steps, grads, i) ==> {
        &&& rule_ok(s.op, s.saved, grads[i])
        &&& deposited_ok(
            grads,
            s.inputs,
            rule_value(s.op, s.saved, grads[i]),
            s.inputs.len() as int,
        )
    }
}

/// How far a backward pass has come: the steps left, and the gradients so far.
#[verifier::ext_equal]
pub ghost struct Progress<S> {
    pub left: int,
    pub grads: Grads<S>,
}

/// Visits the steps from the last of those left down to the first, up to a checkpointed block
/// that a gradient reaches.
pub open spec fn run<S: Scalar>(steps: Seq<StepView<S>>, p: Progress<S>) -> Progress<S>
    decreases p.left,
{
    if p.left <= 0 || paused(steps, p.grads, p.left - 1) {
        p
    } else {
        run(
            steps,
            Progress { left: p.left - 1, grads: visit(steps, p.grads, p.left - 1) },
        )
    }
}

/// All steps that are visited can pass their gradients on.
pub open spec fn run_ok<S: Scalar>(steps: Seq<StepView<S>>, p: Progress<S>) -> bool
    decreases p.left,
{
    p.left <= 0 || paused(steps, p.grads, p.left - 1) || {
        &&& visit_ok(steps, p.grads, p.left - 1)
        &&& run_ok(
            steps,
            Progress { left: p.left - 1, grads: visit(steps, p.grads, p.left - 1) },
        )
    }
}

/// A pass over steps without checkpointed blocks ends at the first step.
pub proof fn law_run_ends<S: Scalar>(steps: Seq<StepView<S>>, p: Progress<S>)
    requires
        0 <= p.left <= steps.len(),
        forall|i: int| 0 <= i < p.left ==> !((#[trigger] steps[i]).op is Checkpoint),
    ensures
        run(steps, p).left == 0,
    decreases p.left,
{
    if p.left > 0 {
        assert(!(steps[p.left - 1].op is Checkpoint));
        law_run_ends(
            steps,
            Progress { left: p.left - 1, grads: visit(steps, p.grads, p.left - 1) },
        );
    }
}

/// A pass stops only at the first step or at a checkpointed block that a gradient reaches.
pub proof fn law_run_stops<S: Scalar>(steps: Seq<StepView<S>>, p: Progress<S>)
    requires
        0 <= p.left,
    ensures
        0 <= run(steps, p).left <= p.left,
        run(steps, p).left == 0 || paused(steps, run(steps, p).grads, run(steps, p).left - 1),
    decreases p.left,
{
    if p.left > 0 && !paused(steps, p.grads, p.left - 1) {
        law_run_stops(
            steps,
            Progress { left: p.left - 1, grads: visit(steps, p.grads, p.left - 1) },
        );
    }
}

/// A backward pass over recorded steps.
pub struct Sweep<S> {
    left: usize,
    grads: Vec<Option<Dense<S>>>,
}

impl<S> Sweep<S> {
    /// How far the pass has come.
    pub closed spec fn view(self) -> Progress<S> {
        Progress {
            left: self.left as int,
            grads: Map::new(
                |i: int| 0 <= i < self.grads@.len() && self.grads@[i] is Some,
                |i: int| self.grads@[i]->0@,
            ),
        }
    }

    /// How many nodes gradients are kept for.
    pub closed spec fn nodes(self) -> nat {
        self.grads@.len()
    }

    pub closed spec fn wf(self) -> bool {
        &&& self.left <= self.grads@.len()
        &&& forall|i: int|
            0 <= i < self.grads@.len() ==> ((#[trigger] self.grads@[i]) matches Some(d) ==> d.wf())
    }

    /// The gradient of a node.
    pub fn gradient(&self, node: u32) -> (r: Option<&Dense<S>>)
        requires
            self.wf(),
            node < self.nodes(),
        ensures
            r is Some <==> self@.grads.contains_key(node as int),
            r matches Some(d) ==> d.wf() && d@ == self@.grads[node as int],
    {
        match &self.grads[node as usize] {
            Some(d) => Some(d),
            None => None,
        }
    }
}

impl<S: Scalar> Sweep<S> {
    /// Starts a pass over `n` nodes at node `at` with the gradient of its output; a node that is
    /// not on the tape takes no gradient.
    pub fn start(n: usize, at: u32, grad: &Dense<S>) -> (r: Self)
        requires
            grad.wf(),
            n <= u32::MAX,
        ensures
            r.wf(),
            r.nodes() == n,
            r@.left == n,
            r@.grads == (if at < n {
                Map::<int, Value<S>>::empty().insert(at as int, grad@)
            } else {
                Map::<int, Value<S>>::empty()
            }),
    {
        let mut grads: Vec<Option<Dense<S>>> = Vec::new();
        let mut i: usize = 0;
        while i < n
            invariant
                i <= n,
                n <= u32::MAX,
                grad.wf(),
                grads@.len() == i,
                forall|k: int|
                    0 <= k < i ==> ((#[trigger] grads@[k]) is Some <==> k == at) && (grads@[k]
                        matches Some(d) ==> d.wf() && d@ == grad@),
            decreases n - i,
        {
            if i == at as usize {
                grads.push(Some(grad.duplicate()));
            } else {
                grads.push(None);
            }
            i = i + 1;
        }
        let r = Sweep { left: n, grads };
        proof {
            if at < n {
                assert(r@.grads =~= Map::<int, Value<S>>::empty().insert(at as int, grad@));
            } else {
                assert(r@.grads =~= Map::<int, Value<S>>::empty());
            }
        }
        r
    }

    /// Adds a gradient to the node of an input.
    fn put(&mut self, input: Option<u32>, g: &Dense<S>)
        requires
            old(self).wf(),
            g.wf(),
            input matches Some(id) ==> id < old(self).nodes(),
            deposit_ok(old(self)@.grads, input, g@),
        ensures
            final(self).wf(),
            final(self).nodes() == old(self).nodes(),
            final(self)@.left == old(self)@.left,
            final(self)@.grads == deposit(old(self)@.grads, input, g@),
    {
        let ghost before = *self;
        match input {
            Some(id) => {
                let at = id as usize;
                let next = match &self.grads[at] {
                    Some(d) => elementwise_op(d, g, BinaryOp::Add),
                    None => g.duplicate(),
                };
                self.grads[at] = Some(next);
                proof {
                    assert(self@.grads =~= deposit(before@.grads, input, g@));
                }
            },
            None => {},
        }
    }

    /// Adds gradients to the nodes of inputs.
    fn put_all(&mut self, inputs: &Vec<Option<u32>>, gs: &Vec<Dense<S>>)
        requires
            old(self).wf(),
            all_wf(gs@),
            named(inputs@, old(self).nodes()),
            deposited_ok(
                old(self)@.grads,
                inputs@,
                dense_views(gs@),
                inputs@.len() as int,
            ),
        ensures
            final(self).wf(),
            final(self).nodes() == old(self).nodes(),
            final(self)@.left == old(self)@.left,
            final(self)@.grads == deposited(
                old(self)@.grads,
                inputs@,
                dense_views(gs@),
                inputs@.len() as int,
            ),
    {
        let ghost before = *self;
        let ghost vs = dense_views(gs@);
        let mut i: usize = 0;
        while i < inputs.len()
            invariant
                i <= inputs@.len() <= gs@.len(),
                vs == dense_views(gs@),
                all_wf(gs@),
                named(inputs@, before.nodes()),
                deposited_ok(before@.grads, inputs@, vs, inputs@.len() as int),
                self.wf(),
                self.nodes() == before.nodes(),
                self@.left == before@.left,
                self@.grads == deposited(before@.grads, inputs@, vs, i as int),
            decreases inputs@.len() - i,
        {
            assert(deposit_ok(
                deposited(before@.grads, inputs@, vs, i as int),
                inputs@[i as int],
                vs[i as int],
            ));
            assert(inputs@[i as int] matches Some(id) ==> id < before.nodes());
            assert(gs@[i as int].wf());
            self.put(inputs[i], &gs[i]);
            i = i + 1;
        }
    }

    /// Runs the pass as far as it goes without replaying a block. Returns the node of the block
    /// that has to be replayed, or nothing at the end.
    pub fn resume(&mut self, nodes: &Vec<Node>, saved: &Vec<Vec<Dense<S>>>) -> (r: Option<u32>)
        requires
            old(self).wf(),
            steps_wf(nodes@, saved@),
            old(self).nodes() == nodes@.len(),
            run_ok(steps_of(nodes@, saved@), old(self)@),
        ensures
            final(self).wf(),
            final(self).nodes() == old(self).nodes(),
            final(self)@ == run(steps_of(nodes@, saved@), old(self)@),
            r == (if final(self)@.left == 0 {
                None::<u32>
            } else {
                Some((final(self)@.left - 1) as u32)
            }),
            r matches Some(i) ==> i < nodes@.len() && paused(
                steps_of(nodes@, saved@),
                final(self)@.grads,
                i as int,
            ),
    {
        let ghost vs = steps_of(nodes@, saved@);
        let ghost goal = run(vs, self@);
        while self.left > 0
            invariant
                self.wf(),
                steps_wf(nodes@, saved@),
                vs == steps_of(nodes@, saved@),
                self.nodes() == nodes@.len(),
                self.nodes() == old(self).nodes(),
                run_ok(vs, self@),
                goal == run(vs, self@),
                goal == run(vs, old(self)@),
            decreases self.left,
        {
            let i: usize = self.left - 1;
            let ghost before = *self;
            assert(all_wf(saved@[i as int]@) && named(nodes@[i as int].inputs@, nodes@.len()));
            let node = &nodes[i];
            let values = &saved[i];
            let gs: Option<Vec<Dense<S>>> = match &self.grads[i] {
                Some(g) => {
                    if values.len() == 0 {
                        None
                    } else {
                        match &node.op {
                            OpType::Checkpoint => {
                                return Some(i as u32);
                            },
                            _ => {},
                        }
                        assert(reached(vs, self@.grads, i as int));
                        Some(rule(&node.op, values, g))
                    }
                },
                None => None,
            };
            match gs {
                Some(gs) => {
                    self.put_all(&node.inputs, &gs);
                },
                None => {
                    assert(!reached(vs, self@.grads, i as int));
                },
            }
            self.left = i;
            assert(self@ =~= (Progress {
                left: i as int,
                grads: visit(vs, before@.grads, i as int),
            }));
        }
        None
    }

    /// Passes the gradient of a replayed block's input on and continues behind the block.
    pub fn replayed(&mut self, nodes: &Vec<Node>, gx: &Dense<S>)
        requires
            old(self).wf(),
            old(self).nodes() == nodes@.len(),
            old(self)@.left > 0,
            gx.wf(),
            nodes@[old(self)@.left - 1].inputs@.len() == 1,
            named(nodes@[old(self)@.left - 1].inputs@, nodes@.len()),
            deposit_ok(
                old(self)@.grads,
                nodes@[old(self)@.left - 1].inputs@[0],
                gx@,
            ),
        ensures
            final(self).wf(),
            final(self).nodes() == old(self).nodes(),
            final(self)@.left == old(self)@.left - 1,
            final(self)@.grads == deposit(
                old(self)@.grads,
                nodes@[old(self)@.left - 1].inputs@[0],
                gx@,
            ),
    {
        let i: usize = self.left - 1;
        assert(nodes@[i as int].inputs@[0] matches Some(id) ==> id < nodes@.len());
        self.put(nodes[i].inputs[0], gx);
        self.left = i;
    }
}

} // verus!
