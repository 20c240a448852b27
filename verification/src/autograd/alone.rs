//! A part of a tape taken alone.
//!
//! A checkpointed block runs again on a tape of its own, where its input and the parameters that
//! it uses are leaves. On a tape that keeps everything the same steps stand among others, under
//! other numbers. A backward pass over them comes to the same gradients on both tapes, bit for
//! bit.
use vstd::prelude::*;
use crate::autograd::backward::{first_progress, swept, tape_steps};
use crate::autograd::rules::rule_value;
use crate::autograd::sweep::{
    deposit, deposited, run, visit, Grads, Progress, StepView,
};
use crate::dense::Value;
use crate::runtime::Runtime;
use crate::scalar::Scalar;
use crate::tape::token_index;
use crate::tensor::Tensor;

verus! {

/// Visits the steps from the last of those left down to step `lo`.
pub open spec fn run_to<S: Scalar>(steps: Seq<StepView<S>>, p: Progress<S>, lo: int) -> Progress<S>
    decreases p.left - lo,
{
    if p.left <= lo {
        p
    } else {
        run_to(
            steps,
            Progress { left: p.left - 1, grads: visit(steps, p.grads, p.left - 1) },
            lo,
        )
    }
}

/// Step `j` of the part is step `names[j]` of the whole tape: the same operation on the same
/// values, with the inputs that the names lead to.
pub open spec fn same_step<S>(
    part: Seq<StepView<S>>,
    whole: Seq<StepView<S>>,
    names: Seq<int>,
    j: int,
) -> bool {
    let a = part[j];
    let b = whole[names[j]];
    &&& a.op == b.op
    &&& a.saved == b.saved
    &&& a.inputs.len() == b.inputs.len()
    &&& forall|k: int|
        0 <= k < a.inputs.len() ==> match #[trigger] a.inputs[k] {
            Some(id) => id < part.len() && b.inputs[k] is Some && b.inputs[k]->0 as int
                == names[id as int],
            None => b.inputs[k] is None,
        }
}

/// Besides leaves, the steps `lo` to `hi` of the whole tape are the first `n` of the part, in the
/// same order.
pub open spec fn part_of<S>(
    part: Seq<StepView<S>>,
    whole: Seq<StepView<S>>,
    names: Seq<int>,
    n: int,
    lo: int,
    hi: int,
) -> bool {
    &&& names.len() == part.len()
    &&& 0 <= n <= part.len()
    &&& 0 <= lo <= hi <= whole.len()
    &&& forall|j: int, k: int|
        0 <= j < k < names.len() ==> #[trigger] names[j] != #[trigger] names[k]
    &&& forall|j: int, k: int|
        0 <= j < k < names.len() && part[j].saved.len() > 0 && part[k].saved.len() > 0
            ==> #[trigger] names[j] < #[trigger] names[k]
    &&& forall|j: int|
        0 <= j < n && (#[trigger] part[j]).saved.len() > 0 ==> lo <= names[j] < hi
            && !(part[j].op is Checkpoint) && same_step(part, whole, names, j)
    &&& forall|i: int|
        lo <= i < hi && (#[trigger] whole[i]).saved.len() > 0 ==> exists|j: int|
            0 <= j < n && part[j].saved.len() > 0 && #[trigger] names[j] == i
}

/// Both passes have the same gradients, each under its own name.
pub open spec fn agree<S>(part: Grads<S>, whole: Grads<S>, names: Seq<int>) -> bool {
    forall|j: int|
        0 <= j < names.len() ==> {
            &&& part.contains_key(j) == whole.contains_key(#[trigger] names[j])
            &&& part.contains_key(j) ==> part[j] == whole[names[j]]
        }
}

/// Gradients that are added under their own names stay the same.
proof fn lemma_deposits_agree<S: Scalar>(
    part: Seq<StepView<S>>,
    whole: Seq<StepView<S>>,
    names: Seq<int>,
    j: int,
    pg: Grads<S>,
    wg: Grads<S>,
    gs: Seq<Value<S>>,
    n: int,
)
    requires
        names.len() == part.len(),
        forall|a: int, b: int|
            0 <= a < b < names.len() ==> #[trigger] names[a] != #[trigger] names[b],
        0 <= j < part.len(),
        same_step(part, whole, names, j),
        agree(pg, wg, names),
        0 <= n <= part[j].inputs.len(),
    ensures
        agree(
            deposited(pg, part[j].inputs, gs, n),
            deposited(wg, whole[names[j]].inputs, gs, n),
            names,
        ),
        forall|i: int|
            #![trigger deposited(wg, whole[names[j]].inputs, gs, n)[i]]
            #![trigger deposited(wg, whole[names[j]].inputs, gs, n).contains_key(i)]
            (forall|a: int| 0 <= a < names.len() ==> #[trigger] names[a] != i) ==> {
                &&& deposited(wg, whole[names[j]].inputs, gs, n).contains_key(i)
                    == wg.contains_key(i)
                &&& deposited(wg, whole[names[j]].inputs, gs, n)[i] == wg[i]
            },
    decreases n,
{
    if n > 0 {
        lemma_deposits_agree(part, whole, names, j, pg, wg, gs, n - 1);
        let p = deposited(pg, part[j].inputs, gs, n - 1);
        let w = deposited(wg, whole[names[j]].inputs, gs, n - 1);
        let g = gs[n - 1];
        match part[j].inputs[n - 1] {
            Some(id) => {
                let at = names[id as int];
                let p2 = deposit(p, Some(id), g);
                let w2 = deposit(w, whole[names[j]].inputs[n - 1], g);
                assert(p.contains_key(id as int) == w.contains_key(at));
                assert forall|k: int| 0 <= k < names.len() implies {
                    &&& p2.contains_key(k) == w2.contains_key(#[trigger] names[k])
                    &&& p2.contains_key(k) ==> p2[k] == w2[names[k]]
                } by {
                    if k < id {
                        assert(names[k] != names[id as int]);
                    } else if k > id {
                        assert(names[id as int] != names[k]);
                    }
                }
            },
            None => {},
        }
    }
}

/// A backward pass over a part of a tape comes to the same gradients as a pass over the part
/// alone, and leaves all other gradients as they are.
pub proof fn law_part_alone<S: Scalar>(
    part: Seq<StepView<S>>,
    whole: Seq<StepView<S>>,
    names: Seq<int>,
    lo: int,
    p: Progress<S>,
    w: Progress<S>,
)
    requires
        part_of(part, whole, names, p.left, lo, w.left),
        agree(p.grads, w.grads, names),
    ensures
        agree(run(part, p).grads, run_to(whole, w, lo).grads, names),
        run(part, p).left == 0,
        forall|i: int|
            #![trigger run_to(whole, w, lo).grads[i]]
            #![trigger run_to(whole, w, lo).grads.contains_key(i)]
            (forall|a: int| 0 <= a < names.len() ==> #[trigger] names[a] != i) ==> {
                &&& run_to(whole, w, lo).grads.contains_key(i) == w.grads.contains_key(i)
                &&& run_to(whole, w, lo).grads[i] == w.grads[i]
            },
    decreases p.left + w.left - lo,
{
    let n = p.left;
    let hi = w.left;
    let p1 = Progress { left: n - 1, grads: visit(part, p.grads, n - 1) };
    let w1 = Progress { left: hi - 1, grads: visit(whole, w.grads, hi - 1) };
    if n > 0 && part[n - 1].saved.len() == 0 {
        assert(p1.grads == p.grads);
        assert(part_of(part, whole, names, n - 1, lo, hi)) by {
            assert forall|i: int| lo <= i < hi && (
            #[trigger] whole[i]).saved.len() > 0 implies exists|j: int|
                0 <= j < n - 1 && part[j].saved.len() > 0 && #[trigger] names[j] == i by {
                let j = choose|j: int|
                    0 <= j < n && part[j].saved.len() > 0 && #[trigger] names[j] == i;
                assert(j != n - 1);
                assert(names[j] == i);
            }
        }
        law_part_alone(part, whole, names, lo, p1, w);
    } else if hi > lo && whole[hi - 1].saved.len() == 0 {
        assert(w1.grads == w.grads);
        assert(part_of(part, whole, names, n, lo, hi - 1)) by {
            assert forall|j: int| 0 <= j < n && (#[trigger] part[j]).saved.len() > 0 implies lo
                <= names[j] < hi - 1 && !(part[j].op is Checkpoint) && same_step(
                part,
                whole,
                names,
                j,
            ) by {
                assert(same_step(part, whole, names, j));
                assert(names[j] != hi - 1);
            }
        }
        law_part_alone(part, whole, names, lo, p, w1);
    } else if n > 0 {
        let j = n - 1;
        assert(part[j].saved.len() > 0);
        assert(lo <= names[j] < hi);
        assert(whole[hi - 1].saved.len() > 0);
        let l = choose|l: int|
            0 <= l < n && part[l].saved.len() > 0 && #[trigger] names[l] == hi - 1;
        if l < j {
            assert(names[l] < names[j]);
        }
        assert(names[j] == hi - 1);
        let g = p.grads[j];
        let gs = rule_value(part[j].op, part[j].saved, g);
        assert(p.grads.contains_key(j) == w.grads.contains_key(names[j]));
        lemma_deposits_agree(
            part,
            whole,
            names,
            j,
            p.grads,
            w.grads,
            gs,
            part[j].inputs.len() as int,
        );
        assert(agree(p1.grads, w1.grads, names));
        assert(part_of(part, whole, names, n - 1, lo, hi - 1)) by {
            assert forall|k: int| 0 <= k < n - 1 && (#[trigger] part[k]).saved.len() > 0 implies lo
                <= names[k] < hi - 1 && !(part[k].op is Checkpoint) && same_step(
                part,
                whole,
                names,
                k,
            ) by {
                assert(names[k] < names[j]);
            }
            assert forall|i: int| lo <= i < hi - 1 && (
            #[trigger] whole[i]).saved.len() > 0 implies exists|k: int|
                0 <= k < n - 1 && part[k].saved.len() > 0 && #[trigger] names[k] == i by {
                let k = choose|k: int|
                    0 <= k < n && part[k].saved.len() > 0 && #[trigger] names[k] == i;
                assert(k != n - 1);
                assert(names[k] == i);
            }
        }
        law_part_alone(part, whole, names, lo, p1, w1);
    } else {
        if hi > lo {
            assert(whole[hi - 1].saved.len() > 0);
            let l = choose|l: int|
                0 <= l < n && part[l].saved.len() > 0 && #[trigger] names[l] == hi - 1;
            assert(false);
        }
    }
}

/// Where only the output of the part has a gradient among its nodes when the pass comes to it,
/// the pass over the whole tape comes to the gradients that a pass over the part alone comes to
/// from that gradient: those of the block's steps, of its input and of its parameters.
pub proof fn law_replay_gradients<S: Scalar>(
    rt: Runtime<S>,
    output: Tensor,
    whole: Seq<StepView<S>>,
    names: Seq<int>,
    lo: int,
    w: Progress<S>,
)
    requires
        part_of(tape_steps(rt), whole, names, rt.tape@.len() as int, lo, w.left),
        ({
            let at = token_index(output.meta(rt.mem).node_id->0) as int;
            &&& at < rt.tape@.len()
            &&& w.grads.contains_key(names[at])
            &&& forall|j: int|
                0 <= j < names.len() && j != at ==> !w.grads.contains_key(#[trigger] names[j])
        }),
    ensures
        ({
            let at = token_index(output.meta(rt.mem).node_id->0) as int;
            let alone = swept(rt, output, w.grads[names[at]]);
            &&& alone.left == 0
            &&& agree(alone.grads, run_to(whole, w, lo).grads, names)
        }),
{
    let at = token_index(output.meta(rt.mem).node_id->0);
    let g = w.grads[names[at as int]];
    let p = first_progress(rt.tape@.len(), at, g);
    assert forall|j: int| 0 <= j < names.len() implies {
        &&& p.grads.contains_key(j) == w.grads.contains_key(#[trigger] names[j])
        &&& p.grads.contains_key(j) ==> p.grads[j] == w.grads[names[j]]
    } by {}
    law_part_alone(tape_steps(rt), whole, names, lo, p, w);
}

/// A pass that comes to step `lo` without meeting a checkpointed block goes on from there.
pub proof fn law_run_through<S: Scalar>(steps: Seq<StepView<S>>, w: Progress<S>, lo: int)
    requires
        0 <= lo <= w.left <= steps.len(),
        forall|i: int| lo <= i < w.left ==> !((#[trigger] steps[i]).op is Checkpoint),
    ensures
        run_to(steps, w, lo).left == lo,
        run(steps, w) == run(steps, run_to(steps, w, lo)),
    decreases w.left - lo,
{
    if w.left > lo {
        assert(!(steps[w.left - 1].op is Checkpoint));
        law_run_through(
            steps,
            Progress { left: w.left - 1, grads: visit(steps, w.grads, w.left - 1) },
            lo,
        );
    }
}

} // verus!
