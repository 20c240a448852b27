//! Fully connected layers.
use vstd::prelude::*;
use crate::cpu::elementwise::{zip_ok, zip_value, BinaryOp};
use crate::cpu::matmul::{matmul_ok, matmul_value};
use crate::dense::Value;
use crate::fixed::Fixed;
use crate::forward::values;
use crate::index::{bounded, lemma_bounded_fits, lemma_dims1, lemma_dims2};
use crate::nn::module::{
    all_mine, hand_out, lemma_mine, lemma_none_handed, lemma_ready, lemma_releasable,
    lemma_then_release, lemma_viewable, mine, parameter, trained, Module,
};
use crate::nn::rng::{law_draw_in_bounds, seeded, state_after, uniform, SimpleRng};
use crate::op::OpType;
use crate::runtime::Runtime;
use crate::scalar::{one, Constant, Scalar};
use crate::scope::{
    affords, grown, lemma_affords, lemma_affords_less, lemma_gained_kept, lemma_grown_trans,
    lemma_spent_more, lemma_spent_trans, spent,
};
use crate::shape::Shape;
use crate::tensor::Tensor;
use crate::trail::{any_wants, law_move, lemma_move, lemma_once, lemma_tracks, walked, wants, Move};
use crate::views::transpose_value;

verus! {

/// `1 / sqrt(fan_in)`
pub open spec fn init_bound<S: Scalar>(fan_in: usize) -> S {
    S::div_spec(one::<S>(), S::sqrt_spec(S::count_spec(fan_in)))
}

/// `-x`
pub open spec fn negated<S: Scalar>(x: S) -> S {
    S::mul_spec(S::constant_spec(Constant::NegOne), x)
}

/// `n` random numbers within the bound of the layer, after `skip` others.
pub open spec fn init_data<S: Scalar>(seed: u64, skip: nat, n: nat, fan_in: usize) -> Seq<S> {
    let b = init_bound::<S>(fan_in);
    uniform(state_after(seeded(seed), skip), n, negated(b), b)
}

/// Draws initial weights.
pub(crate) fn draw<S: Scalar>(rng: &mut SimpleRng, n: usize, fan_in: usize) -> (r: Vec<S>)
    ensures
        r@ == uniform(
            old(rng)@,
            n as nat,
            negated(init_bound::<S>(fan_in)),
            init_bound::<S>(fan_in),
        ),
        final(rng)@ == state_after(old(rng)@, n as nat),
{
    let bound = S::constant(Constant::One).div(S::count(fan_in).sqrt());
    let low = S::constant(Constant::NegOne).mul(bound);
    rng.fill(n, low, bound)
}

/// `x`, `w` and `b` fit together in `x w^T + b`.
pub open spec fn linear_ok<S: Scalar>(x: Value<S>, w: Value<S>, b: Option<Value<S>>) -> bool {
    &&& w.dims.len() == 2
    &&& matmul_ok(x, transpose_value(w, 0, 1))
    &&& b is Some ==> zip_ok(matmul_value(x, transpose_value(w, 0, 1)), b->0)
}

/// `x w^T + b`
pub open spec fn linear_value<S: Scalar>(
    x: Value<S>,
    w: Value<S>,
    b: Option<Value<S>>,
) -> Value<S> {
    let y = matmul_value(x, transpose_value(w, 0, 1));
    match b {
        Some(b) => zip_value(y, b, BinaryOp::Add),
        None => y,
    }
}

/// The handle in an option, as a list.
pub open spec fn listed(t: Option<Tensor>) -> Seq<Tensor> {
    match t {
        Some(t) => seq![t],
        None => Seq::empty(),
    }
}

/// The value of an optional tensor.
pub open spec fn optional_value<S>(t: Option<Tensor>, rt: Runtime<S>) -> Option<Value<S>> {
    match t {
        Some(t) => Some(t.value(rt.mem)),
        None => None,
    }
}

/// A fully connected linear layer: `y = x W^T + b`.
#[derive(Debug)]
pub struct Linear {
    /// The weight tensor of shape `[out_features, in_features]`.
    pub weight: Tensor,
    /// The bias tensor of shape `[out_features]`.
    pub bias: Option<Tensor>,
}

impl Linear {
    /// The tensors of the layer.
    pub open spec fn tensors(self) -> Seq<Tensor> {
        seq![self.weight] + listed(self.bias)
    }

    /// The layer applies to a value.
    pub open spec fn fits<S: Scalar>(self, rt: Runtime<S>, x: Value<S>) -> bool {
        linear_ok(x, self.weight.value(rt.mem), optional_value(self.bias, rt))
    }

    /// How many handles the computation makes.
    pub open spec fn count(self) -> nat {
        if self.bias is Some {
            3
        } else {
            2
        }
    }

    /// The weight is transposed, the input is multiplied by it, and the bias is added.
    pub open spec fn chain<S>(self, input: Tensor, outs: Seq<Tensor>) -> Seq<Move<S>> {
        let product = seq![
            Move::Transpose { x: self.weight, dim0: 0, dim1: 1, out: outs[0] },
            Move::Op { op: OpType::Matmul, ins: seq![input, outs[0]], out: outs[1] },
            Move::Drop { t: outs[0] },
        ];
        match self.bias {
            Some(bias) => product + seq![
                Move::Op { op: OpType::Add, ins: seq![outs[1], bias], out: outs[2] },
                Move::Drop { t: outs[1] },
            ],
            None => product,
        }
    }

    /// What the layer computes.
    pub open spec fn maps<S: Scalar>(self, rt: Runtime<S>, x: Value<S>) -> Value<S> {
        linear_value(x, self.weight.value(rt.mem), optional_value(self.bias, rt))
    }

    /// Creates a new Linear layer.
    ///
    /// The weights and biases are initialized using a uniform distribution
    /// in range `[-bound, bound]` where `bound = 1.0 / sqrt(in_features)`.
    #[must_use]
    pub fn new<S: Scalar>(
        in_features: usize,
        out_features: usize,
        bias: bool,
        seed: u64,
        rt: &mut Runtime<S>,
    ) -> (r: Linear)
        requires
            old(rt).wf(),
            in_features > 0,
            bounded(seq![out_features, in_features]),
            affords(*old(rt), 2),
        ensures
            final(rt).wf(),
            grown(*old(rt), *final(rt), r.tensors()),
            spent(*old(rt), *final(rt), 2),
            r.initial(*final(rt), in_features, out_features, bias, seed),
    {
        let ghost a = *rt;
        proof {
            lemma_dims2(out_features, in_features);
            lemma_affords_less(a, 2, 1);
            lemma_bounded_fits(seq![out_features, in_features]);
        }
        let mut rng = SimpleRng::new(seed);
        let n: usize = out_features * in_features;
        let w_data: Vec<S> = draw(&mut rng, n, in_features);
        let w_dims: [usize; 2] = [out_features, in_features];
        assert(w_dims@ =~= seq![out_features, in_features]);
        let ghost w_view = w_data@;
        let weight = parameter(w_data, Shape::new(&w_dims), rt);
        let ghost b = *rt;
        proof {
            lemma_affords(a, b, 1, 1);
        }
        if bias {
            let b_data: Vec<S> = draw(&mut rng, out_features, in_features);
            let b_dims: [usize; 1] = [out_features];
            assert(b_dims@ =~= seq![out_features]);
            proof {
                lemma_dims1(out_features);
            }
            let bias = parameter(b_data, Shape::new(&b_dims), rt);
            proof {
                lemma_grown_trans(a, b, *rt, seq![weight], seq![bias]);
                lemma_spent_trans(a, b, *rt, 1, 1);
                lemma_gained_kept(a, b, *rt, seq![weight], seq![bias], 0);
            }
            Linear { weight, bias: Some(bias) }
        } else {
            proof {
                assert(seq![weight] + Seq::<Tensor>::empty() =~= seq![weight]);
                lemma_spent_more(a, b, 1, 2);
            }
            Linear { weight, bias: None }
        }
    }

    /// The layer as it was made.
    pub open spec fn initial<S: Scalar>(
        self,
        rt: Runtime<S>,
        in_features: usize,
        out_features: usize,
        bias: bool,
        seed: u64,
    ) -> bool {
        let n = out_features as nat * in_features as nat;
        &&& trained(
            rt,
            self.weight,
            Value {
                dims: seq![out_features, in_features],
                data: init_data(seed, 0, n, in_features),
            },
        )
        &&& self.bias is Some == bias
        &&& bias ==> trained(
            rt,
            self.bias->0,
            Value { dims: seq![out_features], data: init_data(
                seed,
                n,
                out_features as nat,
                in_features,
            ) },
        )
    }
}

/// When one of the tensors of a layer asks for gradients.
proof fn lemma_learned<S>(rt: Runtime<S>, layer: Linear)
    ensures
        any_wants(rt, layer.tensors()) == (wants(rt, layer.weight) || (layer.bias is Some && wants(
            rt,
            layer.bias->0,
        ))),
{
    let ts = layer.tensors();
    assert(ts[0] == layer.weight);
    if layer.bias is Some {
        assert(ts[1] == layer.bias->0);
        if wants(rt, layer.bias->0) {
            assert(wants(rt, ts[1]));
        }
    }
    if wants(rt, layer.weight) {
        assert(wants(rt, ts[0]));
    }
}

impl<S: Scalar> Module<S> for Linear {
    open spec fn accepts(&self, rt: Runtime<S>, input: Tensor) -> bool {
        &&& rt.hooks.cpu_ops
        &&& affords(rt, 3)
        &&& mine(rt, input)
        &&& all_mine(rt, self.tensors())
        &&& self.fits(rt, input.value(rt.mem))
    }

    /// Never: kernels read row-major matrices, and the transposed weight is not one until its
    /// elements have been read from the device and written back.
    open spec fn launches(&self, rt: Runtime<S>, input: Tensor) -> bool {
        false
    }

    open spec fn output(&self, rt: Runtime<S>, input: Tensor) -> Value<S> {
        self.maps(rt, input.value(rt.mem))
    }

    open spec fn cost(&self) -> nat {
        3
    }

    open spec fn learned(&self) -> Seq<Tensor> {
        self.tensors()
    }

    open spec fn makes(&self) -> nat {
        self.count()
    }

    open spec fn moves(&self, input: Tensor, outs: Seq<Tensor>) -> Seq<Move<S>> {
        self.chain(input, outs)
    }

    #[verifier::rlimit(60)]
    fn forward(&self, input: &Tensor, rt: &mut Runtime<S>) -> (r: Tensor) {
        let ghost a = *rt;
        let ghost ts = self.tensors();
        proof {
            assert(ts[0] == self.weight);
            lemma_affords_less(a, 3, 1);
            lemma_viewable(a, self.weight);
        }
        let w_t = self.weight.transpose(0, 1, rt);
        let ghost b = *rt;
        let ghost m1 = Move::Transpose { x: self.weight, dim0: 0, dim1: 1, out: w_t };
        proof {
            lemma_once(a, b, m1);
            law_move(a, m1, b);
            lemma_mine(a, b, seq![w_t], *input);
            lemma_affords(a, b, 1, 2);
            lemma_affords_less(b, 2, 1);
            assert(values(seq![*input, w_t], b.mem) =~= seq![
                input.value(b.mem),
                w_t.value(b.mem),
            ]);
            lemma_ready(b, OpType::Matmul, seq![*input, w_t]);
        }
        let out = input.matmul(&w_t, rt);
        let ghost c = *rt;
        let ghost m2 = Move::Op { op: OpType::Matmul, ins: seq![*input, w_t], out };
        proof {
            lemma_releasable(a, b, c, w_t, out);
            lemma_move(a, b, c, seq![m1], m2);
            law_move(b, m2, c);
            lemma_tracks(b, OpType::Matmul, seq![*input, w_t]);
        }
        rt.release(w_t);
        let ghost d = *rt;
        let ghost m3 = Move::<S>::Drop { t: w_t };
        let ghost way = seq![m1].push(m2).push(m3);
        proof {
            lemma_move(a, c, d, seq![m1].push(m2), m3);
            lemma_then_release(a, b, c, d, w_t, out, 1, 1);
            lemma_affords(a, d, 2, 1);
        }
        match &self.bias {
            Some(bias) => {
                proof {
                    assert(ts[1] == *bias);
                    lemma_mine(a, d, seq![out], *bias);
                    assert(values(seq![out, *bias], d.mem) =~= seq![
                        out.value(d.mem),
                        bias.value(d.mem),
                    ]);
                    lemma_ready(d, OpType::Add, seq![out, *bias]);
                }
                let r = out.add(bias, rt);
                let ghost e = *rt;
                proof {
                    lemma_releasable(a, d, e, out, r);
                }
                rt.release(out);
                proof {
                    lemma_then_release(a, d, e, *rt, out, r, 2, 1);
                    let m4 = Move::Op { op: OpType::Add, ins: seq![out, *bias], out: r };
                    let m5 = Move::<S>::Drop { t: out };
                    lemma_move(a, d, e, way, m4);
                    lemma_move(a, e, *rt, way.push(m4), m5);
                    law_move(d, m4, e);
                    lemma_tracks(d, OpType::Add, seq![out, *bias]);
                    let outs = seq![w_t, out, r];
                    assert(way.push(m4).push(m5) =~= self.chain(*input, outs));
                    assert(walked(a, *rt, self.moves(*input, outs), outs, 3, r));
                    lemma_learned(a, *self);
                }
                r
            },
            None => {
                proof {
                    lemma_spent_more(a, d, 2, 3);
                    let outs = seq![w_t, out];
                    assert(way =~= self.chain(*input, outs));
                    assert(walked(a, *rt, self.moves(*input, outs), outs, 2, out));
                    lemma_learned(a, *self);
                }
                out
            },
        }
    }

    fn parameters(&self, rt: &mut Runtime<S>) -> (r: Vec<Tensor>) {
        let ghost a = *rt;
        let ghost ts = self.tensors();
        let mut out: Vec<Tensor> = Vec::new();
        proof {
            lemma_none_handed(a);
            lemma_affords_less(a, ts.len(), 1);
            assert(ts[0] == self.weight);
        }
        hand_out(&self.weight, &mut out, rt, Ghost(a), Ghost(Seq::empty()));
        if let Some(bias) = &self.bias {
            proof {
                assert(ts[1] == *bias);
                lemma_affords(a, *rt, 1, 1);
            }
            hand_out(bias, &mut out, rt, Ghost(a), Ghost(Seq::empty().push(self.weight)));
        }
        proof {
            assert(ts =~= match self.bias {
                Some(b) => Seq::empty().push(self.weight).push(b),
                None => Seq::empty().push(self.weight),
            });
        }
        out
    }
}

/// On fixed-point numbers the initial weights of a layer lie within its bound, on both sides of
/// zero.
pub proof fn law_init_in_bounds(seed: u64, skip: nat, n: nat, fan_in: usize, i: int)
    requires
        0 <= i < n,
    ensures
        ({
            let b = init_bound::<Fixed>(fan_in);
            let w = init_data::<Fixed>(seed, skip, n, fan_in)[i];
            0 <= b.raw <= 0x2000_0000 ==> -b.raw <= w.raw <= b.raw
        }),
{
    let b = init_bound::<Fixed>(fan_in);
    if 0 <= b.raw <= 0x2000_0000 {
        let start = state_after(seeded(seed), skip);
        let low = negated(b);
        assert(65536 * b.raw / 65536 == b.raw);
        assert(low == Fixed { raw: (-b.raw) as i32 });
        law_draw_in_bounds(b, state_after(start, (i + 1) as nat));
    }
}

} // verus!
