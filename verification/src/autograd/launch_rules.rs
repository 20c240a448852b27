//! How the gradients of operations are computed on a device.
use vstd::prelude::*;
use crate::autograd::launch::{
    all_moves, clear, feasible, nth_move, orderly, total, width, GradKernel, Work,
};
use crate::cpu::elementwise::BinaryOp;
use crate::cpu::matmul::matmul_dims;
use crate::cpu::norm::zeros_value;
use crate::dense::Value;
use crate::op::OpType;
use crate::runtime::Runtime;
use crate::scalar::{one, Constant, Scalar};
use crate::shape::Shape;
use crate::tensor::Tensor;
use crate::trail::{trail, Move};

verus! {

/// The gradients of an operation as work on a device: the steps, and which of the tensors they
/// make are needed on the way only.
pub struct Rule<S> {
    pub program: Vec<Work<S>>,
    pub temps: Vec<usize>,
}

/// An elementwise step.
pub open spec fn zip_move<S>(op: OpType, x: Tensor, y: Tensor, out: Tensor) -> Move<S> {
    Move::Op { op, ins: seq![x, y], out }
}

/// A number on the device of `g`.
pub open spec fn number_move<S>(value: S, g: Tensor, out: Tensor) -> Move<S> {
    Move::Fill {
        value: Value { dims: seq![1usize], data: seq![value] },
        device: g.device,
        out,
    }
}

/// The gradient of a reduction, spread over the reduced axis again.
pub open spec fn spread_moves<S: Scalar>(
    x: Tensor,
    g: Tensor,
    dim: usize,
    keep_dim: bool,
    outs: Seq<Tensor>,
) -> Seq<Move<S>> {
    if keep_dim {
        seq![
            Move::Blank { dims: x.shape@, device: g.device, out: outs[0] },
            zip_move(OpType::Add, outs[0], g, outs[1]),
        ]
    } else {
        seq![
            Move::Reshape { x: g, dims: g.shape@.insert(dim as int, 1), out: outs[0] },
            Move::Blank { dims: x.shape@, device: g.device, out: outs[1] },
            zip_move(OpType::Add, outs[1], outs[0], outs[2]),
        ]
    }
}

/// The steps of the gradients of an operation on `saved`, whose output has the gradient `g`.
pub open spec fn rule_moves<S: Scalar>(
    op: OpType,
    saved: Seq<Tensor>,
    g: Tensor,
    outs: Seq<Tensor>,
) -> Seq<Move<S>> {
    let x = saved[0];
    let y = saved[1];
    let minus = S::constant_spec(Constant::NegOne);
    match op {
        OpType::Add => seq![
            Move::Share { x: g, out: outs[0] },
            Move::Share { x: g, out: outs[1] },
        ],
        OpType::Sub => seq![
            Move::Share { x: g, out: outs[0] },
            number_move(minus, g, outs[1]),
            zip_move(OpType::Mul, g, outs[1], outs[2]),
        ],
        OpType::Mul => seq![
            zip_move(OpType::Mul, g, y, outs[0]),
            zip_move(OpType::Mul, g, x, outs[1]),
        ],
        OpType::Div => seq![
            zip_move(OpType::Div, g, y, outs[0]),
            number_move(minus, g, outs[1]),
            zip_move(OpType::Mul, g, outs[1], outs[2]),
            zip_move(OpType::Mul, outs[2], x, outs[3]),
            zip_move(OpType::Mul, y, y, outs[4]),
            zip_move(OpType::Div, outs[3], outs[4], outs[5]),
        ],
        OpType::Reshape => seq![Move::Reshape { x: g, dims: x.shape@, out: outs[0] }],
        OpType::Transpose { dim0, dim1 } => seq![
            Move::Transpose { x: g, dim0, dim1, out: outs[0] },
        ],
        OpType::Softmax { dim } => seq![
            Move::Op { op: OpType::Softmax { dim }, ins: seq![x], out: outs[0] },
            zip_move(OpType::Mul, g, outs[0], outs[1]),
            Move::Op {
                op: OpType::Sum { dim, keep_dim: true },
                ins: seq![outs[1]],
                out: outs[2],
            },
            zip_move(OpType::Sub, g, outs[2], outs[3]),
            zip_move(OpType::Mul, outs[0], outs[3], outs[4]),
        ],
        OpType::Sum { dim, keep_dim } => spread_moves(x, g, dim, keep_dim, outs),
        OpType::Mean { dim, keep_dim } => {
            let n: int = if keep_dim {
                2
            } else {
                3
            };
            let share = S::div_spec(one::<S>(), S::count_spec(x.shape@[dim as int]));
            spread_moves(x, g, dim, keep_dim, outs) + seq![
                number_move(share, g, outs[n]),
                zip_move(OpType::Mul, outs[n - 1], outs[n], outs[n + 1]),
            ]
        },
        OpType::LayerNorm { eps_bits } => seq![
            Move::Launch {
                kernel: GradKernel::Norm { eps_bits },
                ins: seq![x, y, saved[2], g],
                outs,
            },
        ],
        OpType::BatchNorm { training, eps_bits } => seq![
            Move::Launch {
                kernel: GradKernel::Batch { training, eps_bits },
                ins: seq![x, y, saved[2], saved[3], saved[4], g],
                outs: outs.subrange(0, 3),
            },
            Move::Fill { value: zeros_value(saved[3].shape@), device: g.device, out: outs[3] },
            Move::Fill { value: zeros_value(saved[4].shape@), device: g.device, out: outs[4] },
        ],
        OpType::Embedding => seq![
            Move::New { value: zeros_value(x.shape@), out: outs[0] },
            Move::Launch {
                kernel: GradKernel::Embedding,
                ins: seq![x, y, g],
                outs: seq![outs[1]],
            },
        ],
        OpType::CrossEntropy => seq![
            Move::Launch { kernel: GradKernel::Loss, ins: seq![x, y, g], outs: seq![outs[0]] },
            Move::New { value: zeros_value(y.shape@), out: outs[1] },
        ],
        OpType::Conv2d { stride, padding } => seq![
            Move::Launch {
                kernel: GradKernel::Conv { stride, padding },
                ins: seq![x, y, g],
                outs,
            },
        ],
        OpType::MaxPool2d { kernel_size, stride, padding } => seq![
            Move::Launch {
                kernel: GradKernel::MaxPool { kernel_size, stride, padding },
                ins: seq![x, g],
                outs,
            },
        ],
        OpType::AvgPool2d { kernel_size, stride, padding } => seq![
            Move::Launch {
                kernel: GradKernel::AvgPool { kernel_size, stride, padding },
                ins: seq![x, g],
                outs,
            },
        ],
        _ => Seq::empty(),
    }
}

/// Which of the tensors made are needed on the way only.
pub open spec fn rule_temps(op: OpType) -> Seq<usize> {
    match op {
        OpType::Sub => seq![1],
        OpType::Div => seq![1, 2, 3, 4],
        OpType::Softmax { .. } => seq![0, 1, 2, 3],
        OpType::Sum { keep_dim, .. } => if keep_dim {
            seq![0]
        } else {
            seq![0, 1]
        },
        OpType::Mean { keep_dim, .. } => if keep_dim {
            seq![0, 1, 2]
        } else {
            seq![0, 1, 2, 3]
        },
        _ => Seq::empty(),
    }
}

/// How many tensors are made: the gradients of the inputs, and what is needed on the way.
pub open spec fn rule_width(op: OpType) -> nat {
    match op {
        OpType::Add => 2,
        OpType::Sub => 3,
        OpType::Mul => 2,
        OpType::Div => 6,
        OpType::Softmax { .. } => 5,
        OpType::Sum { keep_dim, .. } => if keep_dim {
            2
        } else {
            3
        },
        OpType::Mean { keep_dim, .. } => if keep_dim {
            4
        } else {
            5
        },
        OpType::LayerNorm { .. } => 3,
        OpType::BatchNorm { .. } => 5,
        OpType::Embedding => 2,
        OpType::CrossEntropy => 2,
        OpType::Conv2d { .. } => 3,
        _ => 1,
    }
}

/// The gradients can be computed by work on the device alone. Those of the other operations need
/// values from the device: of a sum over broadcast axes, of activations and attention, and of
/// operands that are not row-major.
pub open spec fn covers(op: OpType, saved: Seq<Tensor>, g: Tensor) -> bool {
    let alike = saved.len() == 2 && saved[0].shape@ == g.shape@ && saved[1].shape@ == g.shape@;
    match op {
        OpType::Add => alike,
        OpType::Sub => alike && g.shape@.len() > 0,
        OpType::Mul => alike,
        OpType::Div => alike && g.shape@.len() > 0,
        OpType::Reshape => saved.len() == 1,
        OpType::Transpose { .. } => saved.len() == 1,
        OpType::Softmax { .. } => saved.len() == 1,
        OpType::Sum { dim, keep_dim } => saved.len() == 1 && (keep_dim || dim <= g.shape@.len()
            < 8),
        OpType::Mean { dim, keep_dim } => saved.len() == 1 && dim < saved[0].shape@.len() && (
        keep_dim || dim <= g.shape@.len() < 8),
        OpType::LayerNorm { .. } => saved.len() == 3,
        OpType::BatchNorm { .. } => saved.len() == 5,
        OpType::Embedding => saved.len() == 2,
        OpType::CrossEntropy => saved.len() == 2,
        OpType::Conv2d { .. } => saved.len() == 3,
        OpType::MaxPool2d { .. } => saved.len() == 1,
        OpType::AvgPool2d { .. } => saved.len() == 1,
        _ => false,
    }
}

/// Every step of the gradients of an operation can be done, whatever the steps before it made.
pub open spec fn can_rule<S: Scalar>(
    a: Runtime<S>,
    op: OpType,
    saved: Seq<Tensor>,
    g: Tensor,
) -> bool {
    forall|n: int, outs: Seq<Tensor>, mid: Runtime<S>|
        0 <= n < rule_moves::<S>(op, saved, g, outs).len() && outs.len() == rule_width(op)
            && mid.wf() && #[trigger] trail(
            a,
            mid,
            rule_moves(op, saved, g, outs).subrange(0, n),
        ) ==> feasible(mid, rule_moves(op, saved, g, outs)[n])
}

/// A rule can be performed where its steps can be done.
pub proof fn lemma_clear<S: Scalar>(
    a: Runtime<S>,
    rule: Rule<S>,
    op: OpType,
    saved: Seq<Tensor>,
    g: Tensor,
)
    requires
        rule_for(rule, op, saved, g),
        can_rule(a, op, saved, g),
    ensures
        clear(a, rule.program@, seq![g] + saved),
{
    let p = rule.program@;
    let base = seq![g] + saved;
    let len = p.len() as int;
    assert forall|n: int, outs: Seq<Tensor>, mid: Runtime<S>|
        0 <= n < len && outs.len() == total(p, len) && mid.wf() && #[trigger] trail(
            a,
            mid,
            all_moves(p, n, base, outs),
        ) implies feasible(mid, nth_move(p, n, base, outs)) by {
        let want = rule_moves::<S>(op, saved, g, outs);
        assert(all_moves(p, len, base, outs) == want);
        assert(all_moves(p, n, base, outs) =~= want.subrange(0, n));
        assert(trail(a, mid, want.subrange(0, n)));
        assert(want[n] == all_moves(p, len, base, outs)[n]);
    }
}

/// A rule does what the gradients of an operation take.
pub open spec fn rule_for<S: Scalar>(
    rule: Rule<S>,
    op: OpType,
    saved: Seq<Tensor>,
    g: Tensor,
) -> bool {
    let p = rule.program@;
    let n = p.len() as int;
    &&& rule.temps@ == rule_temps(op)
    &&& total(p, n) == rule_width(op)
    &&& orderly(p, 1 + saved.len())
    &&& forall|outs: Seq<Tensor>|
        outs.len() == rule_width(op) ==> #[trigger] all_moves(p, n, seq![g] + saved, outs)
            == rule_moves::<S>(op, saved, g, outs)
}

/// Steps that make one tensor each.
proof fn lemma_units<S>(p: Seq<Work<S>>, n: int)
    requires
        0 <= n <= p.len(),
        forall|i: int| 0 <= i < p.len() ==> width(#[trigger] p[i]) == 1,
    ensures
        total(p, n) == n,
    decreases n,
{
    if n > 0 {
        lemma_units(p, n - 1);
        assert(width(p[n - 1]) == 1);
    }
}

/// A step of a program whose steps make one tensor each.
proof fn lemma_unit_move<S: Scalar>(
    p: Seq<Work<S>>,
    i: int,
    base: Seq<Tensor>,
    outs: Seq<Tensor>,
)
    requires
        0 <= i < p.len(),
        outs.len() == p.len(),
        forall|i: int| 0 <= i < p.len() ==> width(#[trigger] p[i]) == 1,
    ensures
        total(p, i) == i,
        nth_move(p, i, base, outs) == crate::autograd::launch::work_move(
            p[i],
            base + outs.subrange(0, i),
            seq![outs[i]],
        ),
{
    lemma_units(p, i);
    assert(width(p[i]) == 1);
    assert(outs.subrange(i, i + 1) =~= seq![outs[i]]);
}

/// The shape with an axis of extent 1 put in.
fn with_axis(shape: &Shape, dim: usize) -> (r: Shape)
    requires
        shape.wf(),
        dim <= shape@.len() < 8,
    ensures
        r.wf(),
        r@ == shape@.insert(dim as int, 1),
{
    let n = shape.rank();
    let mut out: Vec<usize> = Vec::new();
    let mut i: usize = 0;
    while i <= n
        invariant
            i <= n + 1,
            n == shape@.len(),
            dim <= n < 8,
            out@.len() == i,
            forall|k: int| 0 <= k < i ==> out@[k] == shape@.insert(dim as int, 1)[k],
        decreases n + 1 - i,
    {
        if i < dim {
            out.push(shape.dim(i));
        } else if i == dim {
            out.push(1);
        } else {
            out.push(shape.dim(i - 1));
        }
        i = i + 1;
    }
    assert(out@ =~= shape@.insert(dim as int, 1));
    Shape::new(&out)
}

/// A list of places.
fn places(a: &[usize]) -> (r: Vec<usize>)
    ensures
        r@ == a@,
{
    let mut out: Vec<usize> = Vec::new();
    let mut i: usize = 0;
    while i < a.len()
        invariant
            i <= a@.len(),
            out@ == a@.subrange(0, i as int),
        decreases a@.len() - i,
    {
        out.push(a[i]);
        i = i + 1;
        assert(out@ =~= a@.subrange(0, i as int));
    }
    assert(a@.subrange(0, a@.len() as int) =~= a@);
    out
}

/// The steps of an elementwise operation's gradients.
#[verifier::spinoff_prover]
#[verifier::rlimit(60)]
fn zip_program<S: Scalar>(op: &OpType) -> (r: Vec<Work<S>>)
    requires
        op is Add || op is Sub || op is Mul || op is Div,
    ensures
        forall|i: int| 0 <= i < r@.len() ==> width(#[trigger] r@[i]) == 1,
        r@.len() == rule_width(*op),
        total(r@, r@.len() as int) == rule_width(*op),
        orderly(r@, 3),
        forall|saved: Seq<Tensor>, g: Tensor, outs: Seq<Tensor>|
            saved.len() == 2 && outs.len() == r@.len() ==> #[trigger] all_moves(
                r@,
                r@.len() as int,
                seq![g] + saved,
                outs,
            ) == rule_moves::<S>(*op, saved, g, outs),
{
    let mut p: Vec<Work<S>> = Vec::new();
    let minus = S::constant(Constant::NegOne);
    match op {
        OpType::Add => {
            p.push(Work::Share { i: 0 });
            p.push(Work::Share { i: 0 });
        },
        OpType::Sub => {
            p.push(Work::Share { i: 0 });
            p.push(Work::Number { value: minus });
            p.push(Work::Zip { op: BinaryOp::Mul, i: 0, j: 4 });
        },
        OpType::Mul => {
            p.push(Work::Zip { op: BinaryOp::Mul, i: 0, j: 2 });
            p.push(Work::Zip { op: BinaryOp::Mul, i: 0, j: 1 });
        },
        _ => {
            p.push(Work::Zip { op: BinaryOp::Div, i: 0, j: 2 });
            p.push(Work::Number { value: minus });
            p.push(Work::Zip { op: BinaryOp::Mul, i: 0, j: 4 });
            p.push(Work::Zip { op: BinaryOp::Mul, i: 5, j: 1 });
            p.push(Work::Zip { op: BinaryOp::Mul, i: 2, j: 2 });
            p.push(Work::Zip { op: BinaryOp::Div, i: 6, j: 7 });
        },
    }
    proof {
        let n = p@.len() as int;
        assert forall|i: int| 0 <= i < n implies crate::autograd::launch::names(
            #[trigger] p@[i],
            3 + total(p@, i),
        ) by {
            lemma_units(p@, i);
        }
        lemma_units(p@, n);
        assert forall|saved: Seq<Tensor>, g: Tensor, outs: Seq<Tensor>|
            saved.len() == 2 && outs.len() == n implies #[trigger] all_moves(
            p@,
            n,
            seq![g] + saved,
            outs,
        ) == rule_moves::<S>(*op, saved, g, outs) by {
            let base = seq![g] + saved;
            let want = rule_moves::<S>(*op, saved, g, outs);
            assert(want.len() == n);
            assert forall|i: int| 0 <= i < n implies nth_move(p@, i, base, outs) == want[i] by {
                lemma_unit_move(p@, i, base, outs);
                let regs = base + outs.subrange(0, i);
                assert(regs[0] == g && regs[1] == saved[0] && regs[2] == saved[1]);
                if i > 1 {
                    assert(regs[4] == outs[1]);
                }
                if i > 2 {
                    assert(regs[5] == outs[2]);
                }
                if i > 4 {
                    assert(regs[6] == outs[3] && regs[7] == outs[4]);
                }
            }
            assert(all_moves(p@, n, base, outs) =~= want);
        }
    }
    p
}

/// The steps of the gradients of views, softmax and reductions.
#[verifier::spinoff_prover]
#[verifier::rlimit(60)]
fn unary_program<S: Scalar>(op: &OpType, x: &Tensor, g: &Tensor) -> (r: Vec<Work<S>>)
    requires
        x.laid_out(),
        g.laid_out(),
        covers(*op, seq![*x], *g),
        op is Reshape || op is Transpose || op is Softmax || op is Sum || op is Mean,
    ensures
        forall|i: int| 0 <= i < r@.len() ==> width(#[trigger] r@[i]) == 1,
        r@.len() == rule_width(*op),
        total(r@, r@.len() as int) == rule_width(*op),
        orderly(r@, 2),
        forall|outs: Seq<Tensor>|
            outs.len() == r@.len() ==> #[trigger] all_moves(
                r@,
                r@.len() as int,
                seq![*g] + seq![*x],
                outs,
            ) == rule_moves::<S>(*op, seq![*x], *g, outs),
{
    let mut p: Vec<Work<S>> = Vec::new();
    match op {
        OpType::Reshape => {
            p.push(Work::Fit { i: 0, shape: x.shape });
        },
        OpType::Transpose { dim0, dim1 } => {
            p.push(Work::Turn { i: 0, dim0: *dim0, dim1: *dim1 });
        },
        OpType::Softmax { dim } => {
            p.push(Work::Softmax { i: 1, dim: *dim });
            p.push(Work::Zip { op: BinaryOp::Mul, i: 0, j: 2 });
            p.push(Work::Sum { i: 3, dim: *dim });
            p.push(Work::Zip { op: BinaryOp::Sub, i: 0, j: 4 });
            p.push(Work::Zip { op: BinaryOp::Mul, i: 2, j: 5 });
        },
        OpType::Sum { dim, keep_dim } => {
            spread_program(&mut p, x, g, *dim, *keep_dim);
        },
        OpType::Mean { dim, keep_dim } => {
            spread_program(&mut p, x, g, *dim, *keep_dim);
            let share = S::constant(Constant::One).div(S::count(x.shape.dim(*dim)));
            p.push(Work::Number { value: share });
            if *keep_dim {
                p.push(Work::Zip { op: BinaryOp::Mul, i: 3, j: 4 });
            } else {
                p.push(Work::Zip { op: BinaryOp::Mul, i: 4, j: 5 });
            }
        },
        _ => {},
    }
    proof {
        let n = p@.len() as int;
        assert forall|i: int| 0 <= i < n implies crate::autograd::launch::names(
            #[trigger] p@[i],
            2 + total(p@, i),
        ) by {
            lemma_units(p@, i);
        }
        lemma_units(p@, n);
        let base = seq![*g] + seq![*x];
        assert forall|outs: Seq<Tensor>| outs.len() == n implies #[trigger] all_moves(
            p@,
            n,
            base,
            outs,
        ) == rule_moves::<S>(*op, seq![*x], *g, outs) by {
            let want = rule_moves::<S>(*op, seq![*x], *g, outs);
            assert(want.len() == n);
            assert forall|i: int| 0 <= i < n implies nth_move(p@, i, base, outs) == want[i] by {
                lemma_unit_move(p@, i, base, outs);
                let regs = base + outs.subrange(0, i);
                assert(regs[0] == *g && regs[1] == *x);
                if i > 0 {
                    assert(regs[2] == outs[0]);
                }
                if i > 1 {
                    assert(regs[3] == outs[1]);
                }
                if i > 2 {
                    assert(regs[4] == outs[2]);
                }
                if i > 3 {
                    assert(regs[5] == outs[3]);
                }
            }
            assert(all_moves(p@, n, base, outs) =~= want);
        }
    }
    p
}

/// The steps that spread the gradient of a reduction.
fn spread_program<S: Scalar>(
    p: &mut Vec<Work<S>>,
    x: &Tensor,
    g: &Tensor,
    dim: usize,
    keep_dim: bool,
)
    requires
        old(p)@.len() == 0,
        g.laid_out(),
        keep_dim || dim <= g.shape@.len() < 8,
    ensures
        keep_dim ==> final(p)@ == seq![
            Work::<S>::Zeros { shape: x.shape },
            Work::Zip { op: BinaryOp::Add, i: 2, j: 0 },
        ],
        !keep_dim ==> final(p)@.len() == 3 && (final(p)@[0] matches Work::Fit { i, shape }
            && i == 0 && shape@ == g.shape@.insert(dim as int, 1)) && final(p)@[1] == (
        Work::<S>::Zeros { shape: x.shape }) && final(p)@[2] == (Work::<S>::Zip {
            op: BinaryOp::Add,
            i: 3,
            j: 2,
        }),
{
    if keep_dim {
        p.push(Work::Zeros { shape: x.shape });
        p.push(Work::Zip { op: BinaryOp::Add, i: 2, j: 0 });
        assert(p@ =~= seq![
            Work::<S>::Zeros { shape: x.shape },
            Work::Zip { op: BinaryOp::Add, i: 2, j: 0 },
        ]);
    } else {
        p.push(Work::Fit { i: 0, shape: with_axis(&g.shape, dim) });
        p.push(Work::Zeros { shape: x.shape });
        p.push(Work::Zip { op: BinaryOp::Add, i: 3, j: 2 });
    }
}

/// The steps of gradients that have kernels.
#[verifier::spinoff_prover]
#[verifier::rlimit(60)]
fn kernel_program<S: Scalar>(op: &OpType, saved: &Vec<Tensor>, g: &Tensor) -> (r: Vec<Work<S>>)
    requires
        covers(*op, saved@, *g),
        op is LayerNorm || op is BatchNorm || op is Embedding || op is CrossEntropy || op is Conv2d
            || op is MaxPool2d || op is AvgPool2d,
    ensures
        total(r@, r@.len() as int) == rule_width(*op),
        orderly(r@, 1 + saved@.len()),
        forall|outs: Seq<Tensor>|
            outs.len() == rule_width(*op) ==> #[trigger] all_moves(
                r@,
                r@.len() as int,
                seq![*g] + saved@,
                outs,
            ) == rule_moves::<S>(*op, saved@, *g, outs),
{
    let mut p: Vec<Work<S>> = Vec::new();
    match op {
        OpType::LayerNorm { eps_bits } => {
            let kernel = GradKernel::Norm { eps_bits: *eps_bits };
            p.push(Work::Kernels { kernel, i: 1, j: 2, k: 3, l: 0 });
        },
        OpType::BatchNorm { training, eps_bits } => {
            let kernel = GradKernel::Batch { training: *training, eps_bits: *eps_bits };
            p.push(Work::Kernels { kernel, i: 1, j: 1, k: 1, l: 0 });
            p.push(Work::Written { shape: saved[3].shape });
            p.push(Work::Written { shape: saved[4].shape });
        },
        OpType::Embedding => {
            p.push(Work::Nothing { shape: saved[0].shape });
            p.push(Work::Kernels { kernel: GradKernel::Embedding, i: 1, j: 2, k: 0, l: 0 });
        },
        OpType::CrossEntropy => {
            p.push(Work::Kernels { kernel: GradKernel::Loss, i: 1, j: 2, k: 0, l: 0 });
            p.push(Work::Nothing { shape: saved[1].shape });
        },
        OpType::Conv2d { stride, padding } => {
            let kernel = GradKernel::Conv { stride: *stride, padding: *padding };
            p.push(Work::Kernels { kernel, i: 1, j: 2, k: 0, l: 0 });
        },
        OpType::MaxPool2d { kernel_size, stride, padding } => {
            let kernel = GradKernel::MaxPool {
                kernel_size: *kernel_size,
                stride: *stride,
                padding: *padding,
            };
            p.push(Work::Kernels { kernel, i: 1, j: 0, k: 0, l: 0 });
        },
        OpType::AvgPool2d { kernel_size, stride, padding } => {
            let kernel = GradKernel::AvgPool {
                kernel_size: *kernel_size,
                stride: *stride,
                padding: *padding,
            };
            p.push(Work::Kernels { kernel, i: 1, j: 0, k: 0, l: 0 });
        },
        _ => {},
    }
    proof {
        let n = p@.len() as int;
        reveal_with_fuel(total, 4);
        let base = seq![*g] + saved@;
        assert forall|outs: Seq<Tensor>| outs.len() == rule_width(*op) implies #[trigger] all_moves(
            p@,
            n,
            base,
            outs,
        ) == rule_moves::<S>(*op, saved@, *g, outs) by {
            let want = rule_moves::<S>(*op, saved@, *g, outs);
            assert(want.len() == n);
            assert(base[0] == *g && base[1] == saved@[0]);
            assert forall|i: int| 0 <= i < n implies nth_move(p@, i, base, outs) == want[i] by {
                let from = total(p@, i) as int;
                let regs = base + outs.subrange(0, from);
                let own = outs.subrange(from, from + width(p@[i]));
                assert(regs[0] == *g && regs[1] == saved@[0]);
                if saved@.len() > 1 {
                    assert(regs[2] == saved@[1]);
                }
                if saved@.len() > 2 {
                    assert(regs[3] == saved@[2]);
                }
                if saved@.len() > 4 {
                    assert(regs[4] == saved@[3] && regs[5] == saved@[4]);
                }
                if n == 1 {
                    assert(own =~= outs);
                } else if n == 3 {
                    if i == 0 {
                        assert(own =~= outs.subrange(0, 3));
                    } else {
                        assert(own =~= seq![outs[i + 2]]);
                    }
                } else {
                    assert(own =~= seq![outs[i]]);
                }
            }
            assert(all_moves(p@, n, base, outs) =~= want);
        }
    }
    p
}

/// How the gradients of an operation are computed on a device, if that needs no values from it.
#[verifier::rlimit(60)]
pub fn device_rule<S: Scalar>(op: &OpType, saved: &Vec<Tensor>, g: &Tensor) -> (r: Option<Rule<S>>)
    requires
        g.laid_out(),
        forall|i: int| 0 <= i < saved@.len() ==> (#[trigger] saved@[i]).laid_out(),
    ensures
        r is Some <==> covers(*op, saved@, *g),
        r matches Some(rule) ==> rule_for(rule, *op, saved@, *g),
{
    let n = saved.len();
    let alike = n == 2 && same_dims(&saved[0].shape, &g.shape) && same_dims(
        &saved[1].shape,
        &g.shape,
    );
    let rank = g.shape.rank();
    let (program, temps): (Vec<Work<S>>, Vec<usize>) = match op {
        OpType::Add => {
            if !alike {
                return None;
            }
            (zip_program(op), places(&[]))
        },
        OpType::Sub => {
            if !alike || rank == 0 {
                return None;
            }
            (zip_program(op), places(&[1]))
        },
        OpType::Mul => {
            if !alike {
                return None;
            }
            (zip_program(op), places(&[]))
        },
        OpType::Div => {
            if !alike || rank == 0 {
                return None;
            }
            (zip_program(op), places(&[1, 2, 3, 4]))
        },
        OpType::Reshape | OpType::Transpose { .. } | OpType::Softmax { .. } | OpType::Sum { .. }
        | OpType::Mean { .. } => {
            if n != 1 {
                return None;
            }
            assert(saved@ =~= seq![saved@[0]]);
            match op {
                OpType::Sum { dim, keep_dim } => {
                    if !*keep_dim && (*dim > rank || rank >= 8) {
                        return None;
                    }
                },
                OpType::Mean { dim, keep_dim } => {
                    if *dim >= saved[0].shape.rank() || (!*keep_dim && (*dim > rank || rank >= 8)) {
                        return None;
                    }
                },
                _ => {},
            }
            let program = unary_program(op, &saved[0], g);
            let temps = match op {
                OpType::Softmax { .. } => places(&[0, 1, 2, 3]),
                OpType::Sum { keep_dim, .. } => if *keep_dim {
                    places(&[0])
                } else {
                    places(&[0, 1])
                },
                OpType::Mean { keep_dim, .. } => if *keep_dim {
                    places(&[0, 1, 2])
                } else {
                    places(&[0, 1, 2, 3])
                },
                _ => places(&[]),
            };
            (program, temps)
        },
        OpType::LayerNorm { .. } | OpType::Conv2d { .. } => {
            if n != 3 {
                return None;
            }
            (kernel_program(op, saved, g), places(&[]))
        },
        OpType::BatchNorm { .. } => {
            if n != 5 {
                return None;
            }
            (kernel_program(op, saved, g), places(&[]))
        },
        OpType::Embedding | OpType::CrossEntropy => {
            if n != 2 {
                return None;
            }
            (kernel_program(op, saved, g), places(&[]))
        },
        OpType::MaxPool2d { .. } | OpType::AvgPool2d { .. } => {
            if n != 1 {
                return None;
            }
            (kernel_program(op, saved, g), places(&[]))
        },
        _ => {
            return None;
        },
    };
    proof {
        assert(temps@ =~= rule_temps(*op));
    }
    Some(Rule { program, temps })
}

/// What the gradients of an operation take from outside: the slope of an activation, or both
/// operands of a matrix product, transposed and row-major. No broadcast axis has to be summed.
pub open spec fn aided(op: OpType, saved: Seq<Tensor>, g: Tensor, aids: Seq<Tensor>) -> bool {
    match op {
        OpType::Relu => saved.len() == 1 && aids.len() == 1,
        OpType::Gelu => saved.len() == 1 && aids.len() == 1,
        OpType::Matmul => {
            &&& saved.len() == 2
            &&& aids.len() == 2
            &&& matmul_dims(g.shape@, aids[1].shape@) == saved[0].shape@
            &&& matmul_dims(aids[0].shape@, g.shape@) == saved[1].shape@
        },
        _ => false,
    }
}

/// The steps of the gradients of an operation with what it takes from outside.
pub open spec fn aided_moves<S: Scalar>(
    op: OpType,
    g: Tensor,
    aids: Seq<Tensor>,
    outs: Seq<Tensor>,
) -> Seq<Move<S>> {
    match op {
        OpType::Matmul => seq![
            zip_move(OpType::Matmul, g, aids[1], outs[0]),
            zip_move(OpType::Matmul, aids[0], g, outs[1]),
        ],
        _ => seq![zip_move(OpType::Mul, g, aids[0], outs[0])],
    }
}

/// Every step can be done, whatever the steps before it made.
pub open spec fn can_aid<S: Scalar>(
    a: Runtime<S>,
    op: OpType,
    g: Tensor,
    aids: Seq<Tensor>,
) -> bool {
    forall|n: int, outs: Seq<Tensor>, mid: Runtime<S>|
        0 <= n < aids.len() && outs.len() == aids.len() && mid.wf() && #[trigger] trail(
            a,
            mid,
            aided_moves(op, g, aids, outs).subrange(0, n),
        ) ==> feasible(mid, aided_moves(op, g, aids, outs)[n])
}

/// The steps of the gradients of an operation with what it takes from outside.
#[verifier::spinoff_prover]
pub(crate) fn aided_program<S: Scalar>(
    op: &OpType,
    Ghost(a): Ghost<Runtime<S>>,
    Ghost(saved): Ghost<Seq<Tensor>>,
    Ghost(g): Ghost<Tensor>,
    Ghost(aids): Ghost<Seq<Tensor>>,
) -> (r: Vec<Work<S>>)
    requires
        aided(*op, saved, g, aids),
        can_aid(a, *op, g, aids),
    ensures
        total(r@, r@.len() as int) == aids.len(),
        orderly(r@, 1 + aids.len()),
        clear(a, r@, seq![g] + aids),
        forall|outs: Seq<Tensor>|
            outs.len() == aids.len() ==> #[trigger] all_moves(
                r@,
                r@.len() as int,
                seq![g] + aids,
                outs,
            ) == aided_moves::<S>(*op, g, aids, outs),
{
    let mut p: Vec<Work<S>> = Vec::new();
    match op {
        OpType::Matmul => {
            p.push(Work::Matmul { i: 0, j: 2 });
            p.push(Work::Matmul { i: 1, j: 0 });
        },
        _ => {
            p.push(Work::Zip { op: BinaryOp::Mul, i: 0, j: 1 });
        },
    }
    proof {
        let n = p@.len() as int;
        let base = seq![g] + aids;
        lemma_units(p@, n);
        assert forall|i: int| 0 <= i < n implies crate::autograd::launch::names(
            #[trigger] p@[i],
            1 + aids.len() + total(p@, i),
        ) by {
            lemma_units(p@, i);
        }
        assert forall|outs: Seq<Tensor>| outs.len() == n implies #[trigger] all_moves(
            p@,
            n,
            base,
            outs,
        ) == aided_moves::<S>(*op, g, aids, outs) by {
            let want = aided_moves::<S>(*op, g, aids, outs);
            assert forall|i: int| 0 <= i < n implies nth_move(p@, i, base, outs) == want[i] by {
                lemma_unit_move(p@, i, base, outs);
                let regs = base + outs.subrange(0, i);
                assert(regs[0] == g && regs[1] == aids[0]);
                if n > 1 {
                    assert(regs[2] == aids[1]);
                }
            }
            assert(all_moves(p@, n, base, outs) =~= want);
        }
        assert forall|k: int, outs: Seq<Tensor>, mid: Runtime<S>|
            0 <= k < n && outs.len() == total(p@, n) && mid.wf() && #[trigger] trail(
                a,
                mid,
                all_moves(p@, k, base, outs),
            ) implies feasible(mid, nth_move(p@, k, base, outs)) by {
            let want = aided_moves::<S>(*op, g, aids, outs);
            assert(all_moves(p@, n, base, outs) == want);
            assert(all_moves(p@, k, base, outs) =~= want.subrange(0, k));
            assert(trail(a, mid, want.subrange(0, k)));
            assert(want[k] == all_moves(p@, n, base, outs)[k]);
        }
    }
    p
}

/// Whether two shapes are the same.
fn same_dims(a: &Shape, b: &Shape) -> (r: bool)
    requires
        a.wf(),
        b.wf(),
    ensures
        r == (a@ == b@),
{
    let n = a.rank();
    if n != b.rank() {
        return false;
    }
    let mut i: usize = 0;
    while i < n
        invariant
            i <= n,
            n == a@.len(),
            n == b@.len(),
            a.wf(),
            b.wf(),
            forall|k: int| 0 <= k < i ==> a@[k] == b@[k],
        decreases n - i,
    {
        if a.dim(i) != b.dim(i) {
            return false;
        }
        i = i + 1;
    }
    assert(a@ =~= b@);
    true
}

} // verus!
