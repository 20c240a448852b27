//! Convolution layers.
use vstd::prelude::*;
use crate::cpu::conv::{conv_ok, conv_value};
use crate::cuda::dispatch::cuda_ready;
use crate::dense::{filled, Value};
use crate::forward::values;
use crate::index::{bounded, lemma_bounded_fits, lemma_dims1, lemma_dims4};
use crate::nn::linear::{draw, init_data, listed};
use crate::nn::module::{
    all_mine, hand_out, lemma_first, lemma_mine, lemma_next, lemma_none_handed, lemma_ready, mine,
    parameter, plain, settle, trained, Module,
};
use crate::nn::rng::SimpleRng;
use crate::op::OpType;
use crate::runtime::Runtime;
use crate::scalar::{zero, Constant, Scalar};
use crate::scope::{
    affords, grown, lemma_affords, lemma_affords_less, lemma_gained_kept, lemma_grown_trans,
    lemma_spent_more, lemma_spent_trans, spent,
};
use crate::shape::Shape;
use crate::tensor::Tensor;
use crate::trail::{
    any_wants, drops, law_move, lemma_join, lemma_move, lemma_once, lemma_single, lemma_tracks,
    walked, wants, Move,
};

verus! {

/// A 2D convolution layer (NCHW input, OIHW weight).
#[derive(Debug)]
pub struct Conv2d {
    /// The weight tensor of shape `[out_channels, in_channels, kernel, kernel]`.
    pub weight: Tensor,
    /// The bias tensor of shape `[out_channels]`.
    pub bias: Option<Tensor>,
    /// The distance between neighbouring windows.
    pub stride: usize,
    /// The width of the border of zeros.
    pub padding: usize,
}

/// A row of zeros.
pub open spec fn zeros_value<S: Scalar>(n: usize) -> Value<S> {
    Value { dims: seq![n], data: Seq::new(n as nat, |i: int| zero::<S>()) }
}

impl Conv2d {
    /// The tensors of the layer.
    pub open spec fn tensors(self) -> Seq<Tensor> {
        seq![self.weight] + listed(self.bias)
    }

    /// The bias that is added: zeros where the layer has none.
    pub open spec fn bias_value<S: Scalar>(self, rt: Runtime<S>) -> Value<S> {
        match self.bias {
            Some(b) => b.value(rt.mem),
            None => zeros_value(self.weight.shape@[0]),
        }
    }

    /// Creates a new `Conv2d` layer.
    ///
    /// Weights use a uniform init in `[-bound, bound]` with
    /// `bound = 1/sqrt(in_channels * kernel * kernel)`.
    #[must_use]
    pub fn new<S: Scalar>(
        in_channels: usize,
        out_channels: usize,
        kernel: usize,
        stride: usize,
        padding: usize,
        bias: bool,
        seed: u64,
        rt: &mut Runtime<S>,
    ) -> (r: Conv2d)
        requires
            old(rt).wf(),
            in_channels > 0,
            kernel > 0,
            in_channels * (kernel * kernel) <= usize::MAX,
            bounded(seq![out_channels, in_channels, kernel, kernel]),
            affords(*old(rt), 2),
        ensures
            final(rt).wf(),
            grown(*old(rt), *final(rt), r.tensors()),
            spent(*old(rt), *final(rt), 2),
            r.initial(*final(rt), in_channels, out_channels, kernel, bias, seed),
            r.stride == stride,
            r.padding == padding,
    {
        let ghost a = *rt;
        let ghost dims = seq![out_channels, in_channels, kernel, kernel];
        proof {
            lemma_dims4(out_channels, in_channels, kernel, kernel);
            lemma_bounded_fits(dims);
            lemma_fan_in(in_channels, kernel);
            lemma_affords_less(a, 2, 1);
        }
        let mut rng = SimpleRng::new(seed);
        let fan_in: usize = in_channels * (kernel * kernel);
        let n: usize = out_channels * fan_in;
        let w_data: Vec<S> = draw(&mut rng, n, fan_in);
        let w_dims: [usize; 4] = [out_channels, in_channels, kernel, kernel];
        assert(w_dims@ =~= dims);
        let weight = parameter(w_data, Shape::new(&w_dims), rt);
        let ghost b = *rt;
        proof {
            lemma_affords(a, b, 1, 1);
        }
        if bias {
            let b_data: Vec<S> = draw(&mut rng, out_channels, fan_in);
            let b_dims: [usize; 1] = [out_channels];
            assert(b_dims@ =~= seq![out_channels]);
            proof {
                lemma_dims1(out_channels);
            }
            let bias = parameter(b_data, Shape::new(&b_dims), rt);
            proof {
                lemma_grown_trans(a, b, *rt, seq![weight], seq![bias]);
                lemma_spent_trans(a, b, *rt, 1, 1);
                lemma_gained_kept(a, b, *rt, seq![weight], seq![bias], 0);
            }
            Conv2d { weight, bias: Some(bias), stride, padding }
        } else {
            proof {
                assert(seq![weight] + Seq::<Tensor>::empty() =~= seq![weight]);
                lemma_spent_more(a, b, 1, 2);
            }
            Conv2d { weight, bias: None, stride, padding }
        }
    }

    /// The layer as it was made.
    pub open spec fn initial<S: Scalar>(
        self,
        rt: Runtime<S>,
        in_channels: usize,
        out_channels: usize,
        kernel: usize,
        bias: bool,
        seed: u64,
    ) -> bool {
        let fan_in = (in_channels * (kernel * kernel)) as usize;
        let n = out_channels as nat * fan_in as nat;
        &&& trained(
            rt,
            self.weight,
            Value {
                dims: seq![out_channels, in_channels, kernel, kernel],
                data: init_data(seed, 0, n, fan_in),
            },
        )
        &&& self.bias is Some == bias
        &&& bias ==> trained(
            rt,
            self.bias->0,
            Value { dims: seq![out_channels], data: init_data(
                seed,
                n,
                out_channels as nat,
                fan_in,
            ) },
        )
    }
}

proof fn lemma_fan_in(in_channels: usize, kernel: usize)
    requires
        in_channels > 0,
        in_channels * (kernel * kernel) <= usize::MAX,
    ensures
        0 <= kernel * kernel <= usize::MAX,
        in_channels * (kernel * kernel) == in_channels as nat * (kernel as nat * kernel as nat),
{
    let k = kernel as int;
    let c = in_channels as int;
    assert(0 <= k * k <= c * (k * k)) by (nonlinear_arith)
        requires
            k >= 0,
            c >= 1,
    ;
}

/// When one of the tensors of a layer asks for gradients.
proof fn lemma_conv_learned<S>(rt: Runtime<S>, layer: Conv2d)
    ensures
        any_wants(rt, layer.tensors()) == (wants(rt, layer.weight) || (layer.bias is Some && wants(
            rt,
            layer.bias->0,
        ))),
{
    let ts = layer.tensors();
    assert(ts[0] == layer.weight);
    if layer.bias is Some {
        assert(ts[1] == layer.bias->0);
        if wants(rt, layer.bias->0) {
            assert(wants(rt, ts[1]));
        }
    }
    if wants(rt, layer.weight) {
        assert(wants(rt, ts[0]));
    }
}

impl<S: Scalar> Module<S> for Conv2d {
    open spec fn accepts(&self, rt: Runtime<S>, input: Tensor) -> bool {
        &&& rt.hooks.cpu_ops
        &&& affords(rt, 2)
        &&& mine(rt, input)
        &&& all_mine(rt, self.tensors())
        &&& self.weight.shape@.len() == 4
        &&& conv_ok(
            input.value(rt.mem),
            self.weight.value(rt.mem),
            self.bias_value(rt),
            self.stride,
            self.padding,
        )
    }

    open spec fn launches(&self, rt: Runtime<S>, input: Tensor) -> bool {
        &&& input.device is Cuda
        &&& self.bias matches Some(bias) && cuda_ready(
            rt,
            OpType::Conv2d { stride: self.stride, padding: self.padding },
            seq![input, self.weight, bias],
        )
    }

    open spec fn output(&self, rt: Runtime<S>, input: Tensor) -> Value<S> {
        conv_value(
            input.value(rt.mem),
            self.weight.value(rt.mem),
            self.bias_value(rt),
            self.stride,
            self.padding,
        )
    }

    open spec fn cost(&self) -> nat {
        2
    }

    open spec fn learned(&self) -> Seq<Tensor> {
        self.tensors()
    }

    open spec fn makes(&self) -> nat {
        if self.bias is Some {
            1
        } else {
            2
        }
    }

    open spec fn moves(&self, input: Tensor, outs: Seq<Tensor>) -> Seq<Move<S>> {
        let op = OpType::Conv2d { stride: self.stride, padding: self.padding };
        match self.bias {
            Some(bias) => seq![
                Move::Op { op, ins: seq![input, self.weight, bias], out: outs[0] },
            ],
            None => seq![
                Move::New { value: zeros_value(self.weight.shape@[0]), out: outs[0] },
                Move::Op { op, ins: seq![input, self.weight, outs[0]], out: outs[1] },
            ] + drops(seq![outs[0]]),
        }
    }

    #[verifier::rlimit(60)]
    fn forward(&self, input: &Tensor, rt: &mut Runtime<S>) -> (r: Tensor) {
        let ghost a = *rt;
        let ghost ts = self.tensors();
        let ghost op = OpType::Conv2d { stride: self.stride, padding: self.padding };
        proof {
            assert(ts[0] == self.weight);
            if input.device is Cpu {
                lemma_affords_less(a, 2, 1);
            }
        }
        match &self.bias {
            Some(bias) => {
                proof {
                    assert(ts[1] == *bias);
                    if input.device is Cpu {
                        assert(values(seq![*input, self.weight, *bias], a.mem) =~= seq![
                            input.value(a.mem),
                            self.weight.value(a.mem),
                            bias.value(a.mem),
                        ]);
                        lemma_ready(a, op, seq![*input, self.weight, *bias]);
                    }
                }
                let r = input.conv2d(&self.weight, bias, self.stride, self.padding, rt);
                proof {
                    let ins = seq![*input, self.weight, *bias];
                    let outs = seq![r];
                    lemma_spent_more(a, *rt, 1, 2);
                    lemma_single(a, *rt, op, ins, r);
                    lemma_tracks(a, op, ins);
                    lemma_conv_learned(a, *self);
                    assert(self.moves(*input, outs) =~= seq![Move::<S>::Op { op, ins, out: r }]);
                    assert(walked(a, *rt, self.moves(*input, outs), outs, 1, r));
                }
                r
            },
            None => {
                let out_c = self.weight.shape().dim(0);
                let dims: [usize; 1] = [out_c];
                assert(dims@ =~= seq![out_c]);
                proof {
                    lemma_dims1(out_c);
                }
                let data = filled(out_c, S::constant(Constant::Zero));
                assert(data@ =~= zeros_value::<S>(out_c).data);
                let bias = plain(data, Shape::new(&dims), rt);
                let ghost b = *rt;
                proof {
                    lemma_mine(a, b, seq![bias], *input);
                    lemma_mine(a, b, seq![bias], self.weight);
                    lemma_affords(a, b, 1, 1);
                    assert(values(seq![*input, self.weight, bias], b.mem) =~= seq![
                        input.value(b.mem),
                        self.weight.value(b.mem),
                        bias.value(b.mem),
                    ]);
                    lemma_ready(b, op, seq![*input, self.weight, bias]);
                }
                let r = input.conv2d(&self.weight, &bias, self.stride, self.padding, rt);
                let ghost c = *rt;
                proof {
                    lemma_first(a, b, bias);
                    lemma_next(a, b, c, Seq::empty().push(bias), r, 1, 1);
                }
                let ghost ins = seq![*input, self.weight, bias];
                let ghost m1 = Move::New { value: zeros_value::<S>(out_c), out: bias };
                let ghost m2 = Move::Op { op, ins, out: r };
                let ghost outs = seq![bias, r];
                proof {
                    lemma_once(a, b, m1);
                    lemma_move(a, b, c, seq![m1], m2);
                    law_move(b, m2, c);
                    lemma_tracks(b, op, ins);
                    lemma_conv_learned(a, *self);
                }
                let mut used: Vec<Tensor> = Vec::new();
                used.push(bias);
                assert(used@ =~= seq![bias]);
                settle(used, &r, rt, Ghost(a));
                proof {
                    lemma_spent_trans(a, c, *rt, 2, 0);
                    lemma_join(a, c, *rt, seq![m1].push(m2), drops(seq![bias]));
                    assert(self.moves(*input, outs) =~= seq![m1].push(m2) + drops(seq![bias]));
                    assert(walked(a, *rt, self.moves(*input, outs), outs, 2, r));
                }
                r
            },
        }
    }

    fn parameters(&self, rt: &mut Runtime<S>) -> (r: Vec<Tensor>) {
        let ghost a = *rt;
        let ghost ts = self.tensors();
        let mut out: Vec<Tensor> = Vec::new();
        proof {
            lemma_none_handed(a);
            lemma_affords_less(a, ts.len(), 1);
            assert(ts[0] == self.weight);
        }
        hand_out(&self.weight, &mut out, rt, Ghost(a), Ghost(Seq::empty()));
        if let Some(bias) = &self.bias {
            proof {
                assert(ts[1] == *bias);
                lemma_affords(a, *rt, 1, 1);
            }
            hand_out(bias, &mut out, rt, Ghost(a), Ghost(Seq::empty().push(self.weight)));
        }
        proof {
            assert(ts =~= match self.bias {
                Some(b) => Seq::empty().push(self.weight).push(b),
                None => Seq::empty().push(self.weight),
            });
        }
        out
    }
}

} // verus!
