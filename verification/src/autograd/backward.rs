//! The backward pass.
use vstd::prelude::*;
use crate::autograd::collect::{finishable, finished, lemma_on_tape, tokens_ok};
use crate::autograd::grads::{lemma_in_holds, tape_handles};
use crate::autograd::rules::all_wf;
use crate::autograd::sweep::{run, run_ok, steps_of, steps_wf, Progress, StepView, Sweep};
use crate::dense::{Dense, Value};
use crate::forward::{dense_views, values};
use crate::handle::undisturbed;
use crate::index::{lemma_numel_bounded, numel};
use crate::runtime::{Mode, Runtime};
use crate::scalar::{one, Constant, Scalar};
use crate::tape::token_index;
use crate::tensor::Tensor;

verus! {

/// The values of all handles on the tape can be read.
pub open spec fn readable<S>(rt: Runtime<S>) -> bool {
    forall|t: Tensor| #[trigger] tape_handles(rt).contains(t) ==> t.is_f32(rt.mem)
}

/// The recorded operations with the values of their inputs.
pub open spec fn tape_steps<S>(rt: Runtime<S>) -> Seq<StepView<S>> {
    Seq::new(
        rt.tape@.len(),
        |i: int|
            StepView {
                op: rt.tape@[i].op,
                inputs: rt.tape@[i].inputs,
                saved: values(rt.tape@[i].saved, rt.mem),
            },
    )
}

/// A pass that starts at node `at` of `n` with the gradient of its output.
pub open spec fn first_progress<S>(n: nat, at: u32, grad: Value<S>) -> Progress<S> {
    Progress {
        left: n as int,
        grads: if at < n {
            Map::<int, Value<S>>::empty().insert(at as int, grad)
        } else {
            Map::<int, Value<S>>::empty()
        },
    }
}

/// Reads the values of the handles on one node.
fn read_node<S: Scalar>(rt: &Runtime<S>, n: usize) -> (r: Vec<Dense<S>>)
    requires
        rt.wf(),
        readable(*rt),
        n < rt.tape@.len(),
    ensures
        all_wf(r@),
        dense_views(r@) == values(rt.tape@[n as int].saved, rt.mem),
{
    let ghost node = rt.tape@[n as int];
    let saved = &rt.tape.nodes[n].saved_tensors;
    assert(saved@ == node.saved);
    let mut out: Vec<Dense<S>> = Vec::new();
    let mut i: usize = 0;
    while i < saved.len()
        invariant
            i <= saved@.len(),
            rt.wf(),
            readable(*rt),
            n < rt.tape@.len(),
            node == rt.tape@[n as int],
            saved@ == node.saved,
            out@.len() == i,
            all_wf(out@),
            forall|k: int| 0 <= k < i ==> (#[trigger] out@[k])@ == saved@[k].value(rt.mem),
        decreases saved@.len() - i,
    {
        proof {
            lemma_on_tape(*rt, n as int, i as int);
        }
        out.push(saved[i].read(rt));
        i = i + 1;
    }
    assert(dense_views(out@) =~= values(node.saved, rt.mem));
    out
}

/// Reads the values of all handles on the tape.
pub fn read_tape<S: Scalar>(rt: &Runtime<S>) -> (r: Vec<Vec<Dense<S>>>)
    requires
        rt.wf(),
        readable(*rt),
        tokens_ok(*rt),
    ensures
        steps_wf(rt.tape.nodes@, r@),
        steps_of(rt.tape.nodes@, r@) == tape_steps(*rt),
{
    let n: usize = rt.tape.nodes.len();
    let mut out: Vec<Vec<Dense<S>>> = Vec::new();
    let mut i: usize = 0;
    while i < n
        invariant
            i <= n == rt.tape@.len(),
            rt.wf(),
            readable(*rt),
            out@.len() == i,
            forall|k: int| 0 <= k < i ==> all_wf((#[trigger] out@[k])@),
            forall|k: int|
                0 <= k < i ==> dense_views((#[trigger] out@[k])@) == values(
                    rt.tape@[k].saved,
                    rt.mem,
                ),
        decreases n - i,
    {
        out.push(read_node(rt, i));
        i = i + 1;
    }
    proof {
        let nodes = rt.tape.nodes@;
        assert forall|k: int| 0 <= k < nodes.len() implies crate::autograd::sweep::named(
            (#[trigger] nodes[k]).inputs@,
            nodes.len(),
        ) by {
            assert(rt.tape@[k] == nodes[k]@);
        }
        assert(steps_of(nodes, out@) =~= tape_steps(*rt));
    }
    out
}

/// The gradients that a backward pass from `output` with the gradient `grad` comes to.
pub open spec fn swept<S: Scalar>(rt: Runtime<S>, output: Tensor, grad: Value<S>) -> Progress<S> {
    let at = token_index(output.meta(rt.mem).node_id->0);
    run(tape_steps(rt), first_progress(rt.tape@.len(), at, grad))
}

/// A backward pass from `output` can run to its end.
pub open spec fn sweepable<S: Scalar>(rt: Runtime<S>, output: Tensor, grad: Value<S>) -> bool {
    let at = token_index(output.meta(rt.mem).node_id->0);
    &&& readable(rt)
    &&& run_ok(tape_steps(rt), first_progress(rt.tape@.len(), at, grad))
    &&& swept(rt, output, grad).left == 0
    &&& finishable(rt, swept(rt, output, grad).grads)
}

/// The step from `a` to `b` that a backward pass makes.
pub open spec fn differentiated<S: Scalar>(
    a: Runtime<S>,
    b: Runtime<S>,
    output: Tensor,
    grad: Value<S>,
) -> bool {
    if output.meta(a.mem).node_id is Some {
        finished(a, b, swept(a, output, grad).grads)
    } else {
        b == (Runtime { mode: Mode { autograd_enabled: true, ..a.mode }, ..a })
    }
}

/// Where a pass over values that were read elsewhere comes to.
pub open spec fn swept_over<S: Scalar>(
    rt: Runtime<S>,
    saved: Seq<Vec<Dense<S>>>,
    output: Tensor,
    grad: Value<S>,
) -> Progress<S> {
    let at = token_index(output.meta(rt.mem).node_id->0);
    run(steps_of(rt.tape.nodes@, saved), first_progress(rt.tape@.len(), at, grad))
}

/// A backward pass from `output` over values that were read elsewhere can run to its end.
pub open spec fn sweepable_over<S: Scalar>(
    rt: Runtime<S>,
    saved: Seq<Vec<Dense<S>>>,
    output: Tensor,
    grad: Value<S>,
) -> bool {
    let at = token_index(output.meta(rt.mem).node_id->0);
    &&& steps_wf(rt.tape.nodes@, saved)
    &&& run_ok(
        steps_of(rt.tape.nodes@, saved),
        first_progress(rt.tape@.len(), at, grad),
    )
    &&& swept_over(rt, saved, output, grad).left == 0
    &&& finishable(rt, swept_over(rt, saved, output, grad).grads)
}

/// Runs the backward pass over the values that the nodes of the tape keep, wherever they were
/// read: `saved` lists them node by node.
pub fn backward_over<S: Scalar>(
    output: &Tensor,
    grad: &Dense<S>,
    saved: &Vec<Vec<Dense<S>>>,
    rt: &mut Runtime<S>,
)
    requires
        old(rt).wf(),
        output.valid(old(rt).mem),
        grad.wf(),
        output.meta(old(rt).mem).node_id is Some ==> sweepable_over(
            *old(rt),
            saved@,
            *output,
            grad@,
        ),
    ensures
        final(rt).wf(),
        output.meta(old(rt).mem).node_id is Some ==> finished(
            *old(rt),
            *final(rt),
            swept_over(*old(rt), saved@, *output, grad@).grads,
        ),
        output.meta(old(rt).mem).node_id is None ==> *final(rt) == (Runtime {
            mode: Mode { autograd_enabled: true, ..old(rt).mode },
            ..*old(rt)
        }),
{
    let ghost before = *rt;
    match output.node_id(rt) {
        None => {
            rt.mode.autograd_enabled = true;
            proof {
                assert(rt.holds() == before.holds());
            }
        },
        Some(token) => {
            let (_generation, at) = crate::tape::Tape::unpack(token);
            let n: usize = rt.tape.nodes.len();
            let mut sweep = Sweep::start(n, at, grad);
            assert(sweep@ =~= first_progress(rt.tape@.len(), at, grad@));
            let _pause = sweep.resume(&rt.tape.nodes, saved);
            rt.finish_backward(&sweep);
        },
    }
}

fn backward_from<S: Scalar>(output: &Tensor, grad: &Dense<S>, rt: &mut Runtime<S>)
    requires
        old(rt).wf(),
        output.valid(old(rt).mem),
        grad.wf(),
        output.meta(old(rt).mem).node_id is Some ==> sweepable(*old(rt), *output, grad@),
    ensures
        final(rt).wf(),
        differentiated(*old(rt), *final(rt), *output, grad@),
{
    match output.node_id(rt) {
        None => {
            let none: Vec<Vec<Dense<S>>> = Vec::new();
            backward_over(output, grad, &none, rt);
        },
        Some(_) => {
            let saved = read_tape(rt);
            backward_over(output, grad, &saved, rt);
        },
    }
}

/// Runs the backward pass starting from the given output tensor and its gradient. Where it reaches
/// checkpointed blocks, `blocks::backward_blocks` replays them; over tensors on a device, see
/// `device_pass::DevicePass`.
///
/// Afterwards the tape is empty, and the leaves that the output depends on have their gradients.
/// An output that was not recorded has none.
pub fn backward_impl<S: Scalar>(output: &Tensor, grad: &Tensor, rt: &mut Runtime<S>)
    requires
        old(rt).wf(),
        output.valid(old(rt).mem),
        grad.is_f32(old(rt).mem),
        output.meta(old(rt).mem).node_id is Some ==> sweepable(
            *old(rt),
            *output,
            grad.value(old(rt).mem),
        ),
    ensures
        final(rt).wf(),
        differentiated(*old(rt), *final(rt), *output, grad.value(old(rt).mem)),
{
    let g = grad.read(rt);
    backward_from(output, &g, rt);
}

/// The same handle again, to look at what the runtime holds.
pub(crate) fn alias(t: &Tensor) -> (r: Tensor)
    ensures
        r == *t,
{
    Tensor {
        storage_id: t.storage_id,
        shape: t.shape,
        strides: t.strides,
        dtype: t.dtype,
        device: t.device,
        cell: t.cell,
    }
}

/// The gradient of a scalar with respect to itself.
pub open spec fn unit_grad<S: Scalar>(dims: Seq<usize>) -> Value<S> {
    Value { dims, data: seq![one::<S>()] }
}

impl Tensor {
    /// Runs the backward pass from this scalar: the gradient of an output of one element with
    /// respect to itself is 1.
    pub fn backward<S: Scalar>(&self, rt: &mut Runtime<S>)
        requires
            old(rt).wf(),
            self.valid(old(rt).mem),
            old(rt).hooks.backward,
            numel(self.shape@) == 1,
            self.meta(old(rt).mem).node_id is Some ==> sweepable(
                *old(rt),
                *self,
                unit_grad(self.shape@),
            ),
        ensures
            final(rt).wf(),
            differentiated(*old(rt), *final(rt), *self, unit_grad(self.shape@)),
    {
        let mut data: Vec<S> = Vec::new();
        data.push(S::constant(Constant::One));
        assert(data@ =~= seq![one::<S>()]);
        proof {
            lemma_numel_bounded(self.shape@);
        }
        let grad = Dense::new(self.shape, data);
        backward_from(self, &grad, rt);
    }

    /// The gradient of this tensor, as a handle of the caller's.
    pub fn grad<S: Scalar>(&self, rt: &mut Runtime<S>) -> (r: Option<Tensor>)
        requires
            old(rt).wf(),
            self.valid(old(rt).mem),
            ({
                let key = crate::custody::grad_key(*self);
                old(rt).gradients@.contains_key(key) ==> old(rt).mem.refs(
                    old(rt).gradients@[key].key(),
                ) < usize::MAX && old(rt).mem.cells.room() > 0
            }),
        ensures
            final(rt).wf(),
            r is Some <==> old(rt).hooks.grad && old(rt).gradients@.contains_key(
                crate::custody::grad_key(*self),
            ),
            r is None ==> *final(rt) == *old(rt),
            r matches Some(g) ==> {
                let h = old(rt).gradients@[crate::custody::grad_key(*self)];
                &&& g.owned(*final(rt))
                &&& undisturbed(*old(rt), *final(rt))
                &&& crate::create::shared(*old(rt), *final(rt), h, g, h.shape, h.strides)
                &&& h.device is Cpu ==> g.value(final(rt).mem) == h.value(old(rt).mem)
            },
    {
        if !rt.hooks.grad {
            return None;
        }
        let key = (self.storage_id, self.device);
        let h = match rt.gradients.get(key) {
            Some(h) => alias(h),
            None => {
                return None;
            },
        };
        proof {
            rt.gradients.lemma_held(key);
            lemma_in_holds(*rt, h);
        }
        Some(h.clone(rt))
    }
}

} // verus!
