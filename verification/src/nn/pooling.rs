//! Pooling layers.
use vstd::prelude::*;
use crate::cpu::avgpool::avgpool_value;
use crate::cpu::pool::{maxpool_value, pool_ok};
use crate::cuda::dispatch::cuda_ready;
use crate::dense::Value;
use crate::forward::values;
use crate::nn::module::{lemma_none_handed, lemma_ready, mine, Module};
use crate::op::OpType;
use crate::runtime::Runtime;
use crate::scalar::Scalar;
use crate::scope::affords;
use crate::tensor::Tensor;
use crate::trail::{lemma_single, lemma_tracks, walked, Move};

verus! {

/// A layer that takes the largest element of each window.
#[derive(Debug, Clone, Copy)]
pub struct MaxPool2d {
    /// The extent of a window.
    pub kernel_size: usize,
    /// The distance between neighbouring windows.
    pub stride: usize,
    /// The width of the border.
    pub padding: usize,
}

impl MaxPool2d {
    /// The operation of the layer.
    pub open spec fn op(self) -> OpType {
        OpType::MaxPool2d {
            kernel_size: self.kernel_size,
            stride: self.stride,
            padding: self.padding,
        }
    }

    /// Creates a new layer.
    #[must_use]
    pub fn new(kernel_size: usize, stride: usize, padding: usize) -> (r: Self)
        ensures
            r == (MaxPool2d { kernel_size, stride, padding }),
    {
        MaxPool2d { kernel_size, stride, padding }
    }
}

impl<S: Scalar> Module<S> for MaxPool2d {
    open spec fn accepts(&self, rt: Runtime<S>, input: Tensor) -> bool {
        &&& rt.hooks.cpu_ops
        &&& affords(rt, 1)
        &&& mine(rt, input)
        &&& pool_ok(input.value(rt.mem), self.kernel_size, self.stride, self.padding)
    }

    open spec fn launches(&self, rt: Runtime<S>, input: Tensor) -> bool {
        input.device is Cuda && cuda_ready(rt, self.op(), seq![input])
    }

    open spec fn output(&self, rt: Runtime<S>, input: Tensor) -> Value<S> {
        maxpool_value(input.value(rt.mem), self.kernel_size, self.stride, self.padding)
    }

    open spec fn cost(&self) -> nat {
        1
    }

    open spec fn learned(&self) -> Seq<Tensor> {
        Seq::empty()
    }

    open spec fn makes(&self) -> nat {
        1
    }

    open spec fn moves(&self, input: Tensor, outs: Seq<Tensor>) -> Seq<Move<S>> {
        seq![Move::Op { op: self.op(), ins: seq![input], out: outs[0] }]
    }

    fn forward(&self, input: &Tensor, rt: &mut Runtime<S>) -> (r: Tensor) {
        let ghost a = *rt;
        proof {
            if input.device is Cpu {
                assert(values(seq![*input], a.mem) =~= seq![input.value(a.mem)]);
                lemma_ready(a, self.op(), seq![*input]);
            }
        }
        let r = input.maxpool2d(self.kernel_size, self.stride, self.padding, rt);
        proof {
            let ins = seq![*input];
            let outs = seq![r];
            lemma_single(a, *rt, self.op(), ins, r);
            lemma_tracks(a, self.op(), ins);
            assert(self.moves(*input, outs) =~= seq![Move::<S>::Op { op: self.op(), ins, out: r }]);
            assert(walked(a, *rt, self.moves(*input, outs), outs, 1, r));
        }
        r
    }

    fn parameters(&self, rt: &mut Runtime<S>) -> (r: Vec<Tensor>) {
        proof {
            lemma_none_handed(*rt);
        }
        Vec::new()
    }
}

/// A layer that averages each window.
#[derive(Debug, Clone, Copy)]
pub struct AvgPool2d {
    /// The extent of a window.
    pub kernel_size: usize,
    /// The distance between neighbouring windows.
    pub stride: usize,
    /// The width of the border of zeros.
    pub padding: usize,
}

impl AvgPool2d {
    /// The operation of the layer.
    pub open spec fn op(self) -> OpType {
        OpType::AvgPool2d {
            kernel_size: self.kernel_size,
            stride: self.stride,
            padding: self.padding,
        }
    }

    /// Creates a new layer.
    #[must_use]
    pub fn new(kernel_size: usize, stride: usize, padding: usize) -> (r: Self)
        ensures
            r == (AvgPool2d { kernel_size, stride, padding }),
    {
        AvgPool2d { kernel_size, stride, padding }
    }
}

impl<S: Scalar> Module<S> for AvgPool2d {
    open spec fn accepts(&self, rt: Runtime<S>, input: Tensor) -> bool {
        &&& rt.hooks.cpu_ops
        &&& affords(rt, 1)
        &&& mine(rt, input)
        &&& pool_ok(input.value(rt.mem), self.kernel_size, self.stride, self.padding)
    }

    open spec fn launches(&self, rt: Runtime<S>, input: Tensor) -> bool {
        input.device is Cuda && cuda_ready(rt, self.op(), seq![input])
    }

    open spec fn output(&self, rt: Runtime<S>, input: Tensor) -> Value<S> {
        avgpool_value(input.value(rt.mem), self.kernel_size, self.stride, self.padding)
    }

    open spec fn cost(&self) -> nat {
        1
    }

    open spec fn learned(&self) -> Seq<Tensor> {
        Seq::empty()
    }

    open spec fn makes(&self) -> nat {
        1
    }

    open spec fn moves(&self, input: Tensor, outs: Seq<Tensor>) -> Seq<Move<S>> {
        seq![Move::Op { op: self.op(), ins: seq![input], out: outs[0] }]
    }

    fn forward(&self, input: &Tensor, rt: &mut Runtime<S>) -> (r: Tensor) {
        let ghost a = *rt;
        proof {
            if input.device is Cpu {
                assert(values(seq![*input], a.mem) =~= seq![input.value(a.mem)]);
                lemma_ready(a, self.op(), seq![*input]);
            }
        }
        let r = input.avgpool2d(self.kernel_size, self.stride, self.padding, rt);
        proof {
            let ins = seq![*input];
            let outs = seq![r];
            lemma_single(a, *rt, self.op(), ins, r);
            lemma_tracks(a, self.op(), ins);
            assert(self.moves(*input, outs) =~= seq![Move::<S>::Op { op: self.op(), ins, out: r }]);
            assert(walked(a, *rt, self.moves(*input, outs), outs, 1, r));
        }
        r
    }

    fn parameters(&self, rt: &mut Runtime<S>) -> (r: Vec<Tensor>) {
        proof {
            lemma_none_handed(*rt);
        }
        Vec::new()
    }
}

} // verus!
