//! What a backward pass on a device asks for next.
use vstd::prelude::*;
use crate::autograd::device_pass::{DevicePass, Stage};
use crate::autograd::collect::lemma_on_tape;
use crate::autograd::checkpoint::lemma_tape_valid;
use crate::cpu::matmul::batch_dims;
use crate::op::OpType;
use crate::runtime::Runtime;
use crate::scalar::Scalar;
use crate::shape::Shape;
use crate::tensor::Tensor;

verus! {

/// What has to be done for a pass to go on.
#[derive(Debug, Clone, Copy, PartialEq, Eq)]
pub enum Action {
    /// Add a gradient to that of the node it belongs to.
    Deposit,
    /// Go past the next node.
    Skip,
    /// Queue the gradients of the next node.
    Launch,
    /// Compute the slope of an activation from its input, and queue the rest.
    Slope,
    /// Transpose the operands of a matrix product, make them row-major, and queue the rest.
    Operands,
    /// Compute the gradients of the next node from values.
    Host,
    /// Nothing: the pass is over.
    Done,
}

/// Stacks of matrices with the same batch.
pub open spec fn same_batch(a: Seq<usize>, b: Seq<usize>) -> bool {
    a.len() >= 2 && b.len() >= 2 && batch_dims(a) == batch_dims(b)
}

/// Every one of some tensors is row-major.
pub open spec fn all_row_major(ts: Seq<Tensor>) -> bool {
    forall|i: int| 0 <= i < ts.len() ==> (#[trigger] ts[i]).contiguous_spec()
}

/// Every one of some tensors is a stack of matrices with a given batch.
pub open spec fn all_same_batch(ts: Seq<Tensor>, d: Seq<usize>) -> bool {
    forall|i: int| 0 <= i < ts.len() ==> same_batch((#[trigger] ts[i]).shape@, d)
}

fn check_row_major(ts: &Vec<Tensor>) -> (r: bool)
    requires
        forall|i: int| 0 <= i < ts@.len() ==> (#[trigger] ts@[i]).laid_out(),
    ensures
        r == all_row_major(ts@),
{
    let mut i: usize = 0;
    while i < ts.len()
        invariant
            i <= ts@.len(),
            forall|k: int| 0 <= k < ts@.len() ==> (#[trigger] ts@[k]).laid_out(),
            forall|k: int| 0 <= k < i ==> (#[trigger] ts@[k]).contiguous_spec(),
        decreases ts@.len() - i,
    {
        assert(ts@[i as int].laid_out());
        if !ts[i].is_contiguous() {
            return false;
        }
        i = i + 1;
    }
    true
}

fn check_batch(a: &Shape, b: &Shape) -> (r: bool)
    ensures
        r == same_batch(a@, b@),
{
    let n: usize = a.rank();
    if n < 2 || b.rank() < 2 {
        return false;
    }
    if b.rank() != n {
        assert(batch_dims(a@).len() != batch_dims(b@).len());
        return false;
    }
    let mut i: usize = 0;
    while i < n - 2
        invariant
            2 <= n == a@.len() == b@.len(),
            i <= n - 2,
            forall|k: int| 0 <= k < i ==> a@[k] == b@[k],
        decreases n - 2 - i,
    {
        if a.dim(i) != b.dim(i) {
            assert(batch_dims(a@)[i as int] != batch_dims(b@)[i as int]);
            return false;
        }
        i = i + 1;
    }
    assert(batch_dims(a@) =~= batch_dims(b@));
    true
}

fn check_batches(ts: &Vec<Tensor>, d: &Shape) -> (r: bool)
    ensures
        r == all_same_batch(ts@, d@),
{
    let mut i: usize = 0;
    while i < ts.len()
        invariant
            i <= ts@.len(),
            forall|k: int| 0 <= k < i ==> same_batch((#[trigger] ts@[k]).shape@, d@),
        decreases ts@.len() - i,
    {
        if !check_batch(ts[i].shape(), d) {
            return false;
        }
        i = i + 1;
    }
    true
}

impl DevicePass {
    /// What has to be done next. Kernels read row-major tensors only; an activation needs its
    /// slope, a plain matrix product its operands transposed, and everything else that the device
    /// cannot do alone the values of what the tape keeps.
    pub open spec fn choice<S>(self, rt: Runtime<S>) -> Action {
        match self.next(rt) {
            Stage::Deposit => Action::Deposit,
            Stage::Skip => Action::Skip,
            Stage::Done => Action::Done,
            Stage::Launch => if self.gradient().contiguous_spec() && all_row_major(
                self.node(rt).saved,
            ) {
                Action::Launch
            } else {
                Action::Host
            },
            Stage::Wait => match self.node(rt).op {
                OpType::Relu | OpType::Gelu => Action::Slope,
                OpType::Matmul => if self.gradient().contiguous_spec() && all_same_batch(
                    self.node(rt).saved,
                    self.gradient().shape@,
                ) {
                    Action::Operands
                } else {
                    Action::Host
                },
                _ => Action::Host,
            },
        }
    }

    /// What has to be done next.
    pub fn action<S: Scalar>(&self, rt: &Runtime<S>) -> (r: Action)
        requires
            rt.wf(),
            self.of(*rt),
        ensures
            r == self.choice(*rt),
    {
        let stage = self.stage(rt);
        match stage {
            Stage::Deposit => {
                return Action::Deposit;
            },
            Stage::Skip => {
                return Action::Skip;
            },
            Stage::Done => {
                return Action::Done;
            },
            _ => {},
        }
        let n: usize = self.left - 1;
        proof {
            assert(rt.tape.nodes@[n as int]@ == rt.tape@[n as int]);
            assert forall|k: int| 0 <= k < self.node(*rt).saved.len() implies (
            #[trigger] self.node(*rt).saved[k]).laid_out() by {
                lemma_on_tape(*rt, n as int, k);
                lemma_tape_valid(*rt, self.node(*rt).saved[k]);
            }
        }
        let node = &rt.tape.nodes[n];
        let at: usize = match self.find(n as u32) {
            Some(i) => i,
            None => {
                assert(false);
                0
            },
        };
        proof {
            assert(self.handles()[at as int] == self.grads@[at as int].1);
            assert(self.handles()[at as int].valid(rt.mem));
        }
        let g: &Tensor = &self.grads[at].1;
        match stage {
            Stage::Launch => {
                if g.is_contiguous() && check_row_major(&node.saved_tensors) {
                    Action::Launch
                } else {
                    Action::Host
                }
            },
            _ => match node.op {
                OpType::Relu | OpType::Gelu => Action::Slope,
                OpType::Matmul => {
                    if g.is_contiguous() && check_batches(&node.saved_tensors, g.shape()) {
                        Action::Operands
                    } else {
                        Action::Host
                    }
                },
                _ => Action::Host,
            },
        }
    }
}

} // verus!
