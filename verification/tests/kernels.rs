//! The CPU kernels.
use vearo::autograd::rules::rule;
use vearo::cpu::attention::fused_attention;
use vearo::cpu::attention_backward::fused_attention_backward;
use vearo::cpu::avgpool::{avgpool2d, avgpool2d_backward};
use vearo::cpu::batchnorm::{batchnorm, batchnorm_backward};
use vearo::cpu::conv::{conv2d, conv2d_planes, sliding, Geometry};
use vearo::cpu::conv_backward::conv2d_backward;
use vearo::cpu::elementwise::{add, div, gelu, mul, relu, sub};
use vearo::cpu::im2col::{add_bias, conv2d_fast, im2col};
use vearo::cpu::loss::{cross_entropy, cross_entropy_backward, embedding, embedding_backward};
use vearo::cpu::matmul::{matmul, matmul_rows};
use vearo::cpu::norm::{layernorm, layernorm_backward};
use vearo::cpu::pool::{maxpool2d, maxpool2d_backward, maxpool2d_planes, pool_planes};
use vearo::cpu::reduce::{mean, softmax, sum};
use vearo::cpu::shards::LockedShards;
use vearo::dense::Dense;
use vearo::dtype::DType;
use vearo::fixed::Fixed;
use vearo::op::OpType;
use vearo::residue::Residue;
use vearo::runtime::Runtime;
use vearo::scalar::{Constant, Scalar};
use vearo::shape::Shape;
use vearo::tensor::Tensor;

/// 32-bit floating point.
#[derive(Clone, Copy, Debug, PartialEq)]
struct F(f32);

impl Scalar for F {
    fn constant_spec(c: Constant) -> Self {
        F::constant(c)
    }

    fn add_spec(a: Self, b: Self) -> Self {
        Scalar::add(a, b)
    }

    fn sub_spec(a: Self, b: Self) -> Self {
        Scalar::sub(a, b)
    }

    fn mul_spec(a: Self, b: Self) -> Self {
        Scalar::mul(a, b)
    }

    fn div_spec(a: Self, b: Self) -> Self {
        Scalar::div(a, b)
    }

    fn mul_add_spec(a: Self, b: Self, c: Self) -> Self {
        a.mul_add(b, c)
    }

    fn gt_spec(a: Self, b: Self) -> bool {
        Scalar::gt(a, b)
    }

    fn eq_zero_spec(a: Self) -> bool {
        a.eq_zero()
    }

    fn exp_spec(a: Self) -> Self {
        a.exp()
    }

    fn ln_spec(a: Self) -> Self {
        a.ln()
    }

    fn sqrt_spec(a: Self) -> Self {
        a.sqrt()
    }

    fn tanh_spec(a: Self) -> Self {
        a.tanh()
    }

    fn cos_spec(a: Self) -> Self {
        a.cos()
    }

    fn powi_spec(a: Self, n: i32) -> Self {
        a.powi(n)
    }

    fn count_spec(n: usize) -> Self {
        F::count(n)
    }

    fn fraction_spec(n: u64) -> Self {
        F::fraction(n)
    }

    fn index_spec(a: Self) -> Option<usize> {
        a.index()
    }

    fn bits_spec(a: Self) -> u32 {
        a.bits()
    }

    fn from_bits_spec(b: u32) -> Self {
        F::from_bits(b)
    }

    fn lemma_bits(_a: Self) {}

    fn constant(c: Constant) -> Self {
        F(match c {
            Constant::Zero => 0.0,
            Constant::One => 1.0,
            Constant::NegOne => -1.0,
            Constant::Half => 0.5,
            Constant::Two => 2.0,
            Constant::Six => 6.0,
            Constant::Pi => std::f32::consts::PI,
            Constant::NegInfinity => f32::NEG_INFINITY,
            Constant::Infinity => f32::INFINITY,
            Constant::Epsilon => f32::EPSILON,
            Constant::MaskFloor => -1e9,
            Constant::SparkHeight => 1.15,
            Constant::GeluScale => 0.797_884_56,
            Constant::GeluCubic => 0.044_715,
            Constant::GeluSlope => 0.134_145,
            Constant::AttentionFloor => 1e-9,
            Constant::ClipFloor => 1e-6,
            Constant::NormFloor => 1e-5,
        })
    }

    fn add(self, b: Self) -> Self {
        F(self.0 + b.0)
    }

    fn sub(self, b: Self) -> Self {
        F(self.0 - b.0)
    }

    fn mul(self, b: Self) -> Self {
        F(self.0 * b.0)
    }

    fn div(self, b: Self) -> Self {
        F(self.0 / b.0)
    }

    fn mul_add(self, b: Self, c: Self) -> Self {
        F(self.0.mul_add(b.0, c.0))
    }

    fn gt(self, b: Self) -> bool {
        self.0 > b.0
    }

    fn eq_zero(self) -> bool {
        self.0 == 0.0
    }

    fn exp(self) -> Self {
        F(self.0.exp())
    }

    fn ln(self) -> Self {
        F(self.0.ln())
    }

    fn sqrt(self) -> Self {
        F(self.0.sqrt())
    }

    fn tanh(self) -> Self {
        F(self.0.tanh())
    }

    fn cos(self) -> Self {
        F(self.0.cos())
    }

    fn powi(self, n: i32) -> Self {
        F(self.0.powi(n))
    }

    fn count(n: usize) -> Self {
        F(n as f32)
    }

    fn fraction(n: u64) -> Self {
        F(n as f32 / 18_446_744_073_709_551_616.0)
    }

    fn index(self) -> Option<usize> {
        if self.0 >= 0.0 {
            Some(self.0.round() as usize)
        } else {
            None
        }
    }

    fn bits(self) -> u32 {
        self.0.to_bits()
    }

    fn from_bits(b: u32) -> Self {
        F(f32::from_bits(b))
    }
}

fn fs(v: &[f32]) -> Vec<F> {
    v.iter().map(|x| F(*x)).collect()
}

fn dense(v: &[f32], dims: &[usize]) -> Dense<F> {
    Dense::new(Shape::new(dims), fs(v))
}

fn data(d: &Dense<F>) -> Vec<f32> {
    d.data().iter().map(|x| x.0).collect()
}

fn close(a: &[f32], b: &[f32], tol: f32) -> bool {
    a.len() == b.len() && a.iter().zip(b).all(|(x, y)| (x - y).abs() <= tol)
}

#[test]
fn test_add() {
    let x = dense(&[1.0, 2.0, 3.0], &[3]);
    let y = dense(&[4.0, 5.0, 6.0], &[3]);
    assert_eq!(data(&add(&x, &y)), vec![5.0, 7.0, 9.0]);
    assert_eq!(data(&sub(&x, &y)), vec![-3.0, -3.0, -3.0]);
    assert_eq!(data(&mul(&x, &y)), vec![4.0, 10.0, 18.0]);
    assert_eq!(data(&div(&y, &x)), vec![4.0, 2.5, 2.0]);
}

#[test]
fn test_matmul_2d() {
    let x = dense(&[1.0, 2.0, 3.0, 4.0], &[2, 2]);
    let y = dense(&[5.0, 6.0, 7.0, 8.0], &[2, 2]);
    let z = matmul(&x, &y);
    assert_eq!(data(&z), vec![19.0, 22.0, 43.0, 50.0]);
}

#[test]
fn test_add_broadcasting() {
    let x = dense(&[1.0, 2.0, 3.0], &[1, 3]);
    let y = dense(&[10.0, 20.0], &[2, 1]);
    let z = add(&x, &y);
    assert_eq!(z.shape().dims(), &[2, 3]);
    assert_eq!(data(&z), vec![11.0, 12.0, 13.0, 21.0, 22.0, 23.0]);
}

#[test]
fn test_add_transposed() {
    let mut rt: Runtime<F> = Runtime::new();
    let x = Tensor::from_f32(&fs(&[1.0, 2.0, 3.0, 4.0, 5.0, 6.0]), Shape::from([2, 3]), &mut rt);
    let x_t = x.transpose(0, 1, &mut rt);
    let y = dense(&[10.0, 20.0, 30.0, 40.0, 50.0, 60.0], &[3, 2]);
    let z = add(&x_t.read(&rt), &y);
    assert_eq!(data(&z), vec![11.0, 24.0, 32.0, 45.0, 53.0, 66.0]);
}

#[test]
fn test_matmul_batched() {
    let v = [1.0, 2.0, 3.0, 4.0, 5.0, 6.0, 7.0, 8.0, 9.0, 10.0, 11.0, 12.0];
    let x = dense(&v, &[2, 2, 3]);
    let y = dense(&v, &[2, 3, 2]);
    let z = matmul(&x, &y);
    assert_eq!(z.shape().dims(), &[2, 2, 2]);
    assert_eq!(data(&z), vec![22.0, 28.0, 49.0, 64.0, 220.0, 244.0, 301.0, 334.0]);
}

#[test]
fn test_dispatch_through_registry() {
    let mut rt: Runtime<F> = Runtime::new();
    vearo::cpu::init(&mut rt);
    let x = Tensor::from_f32(&fs(&[1.0, 2.0, 3.0]), Shape::from([3]), &mut rt);
    let y = Tensor::from_f32(&fs(&[4.0, 5.0, 6.0]), Shape::from([3]), &mut rt);
    let z = x.add(&y, &mut rt);
    assert_eq!(z.to_vec_f32(&rt), fs(&[5.0, 7.0, 9.0]));
}

#[test]
fn test_relu() {
    let x = dense(&[1.0, -2.0, 3.0, -0.5], &[4]);
    assert_eq!(data(&relu(&x)), vec![1.0, 0.0, 3.0, 0.0]);
}

#[test]
fn test_sum_dim() {
    let x = dense(&[1.0, 2.0, 3.0, 4.0, 5.0, 6.0], &[2, 3]);

    // over columns -> [6, 15]
    let s1 = sum(&x, 1, false);
    assert_eq!(s1.shape().dims(), &[2]);
    assert_eq!(data(&s1), vec![6.0, 15.0]);

    // over rows -> [5, 7, 9]
    let s0 = sum(&x, 0, false);
    assert_eq!(s0.shape().dims(), &[3]);
    assert_eq!(data(&s0), vec![5.0, 7.0, 9.0]);

    // keep_dim -> [2, 1]
    let sk = sum(&x, 1, true);
    assert_eq!(sk.shape().dims(), &[2, 1]);
    assert_eq!(data(&sk), vec![6.0, 15.0]);
}

#[test]
fn test_mean_dim() {
    let x = dense(&[1.0, 2.0, 3.0, 4.0, 5.0, 6.0], &[2, 3]);
    assert_eq!(data(&mean(&x, 1, false)), vec![2.0, 5.0]);
    assert_eq!(data(&mean(&x, 0, false)), vec![2.5, 3.5, 4.5]);
}

#[test]
fn test_sum_transposed_input() {
    let mut rt: Runtime<F> = Runtime::new();
    let x = Tensor::from_f32(&fs(&[1.0, 2.0, 3.0, 4.0, 5.0, 6.0]), Shape::from([2, 3]), &mut rt);
    // logical [3, 2] = [[1,4],[2,5],[3,6]]
    let xt = x.transpose(0, 1, &mut rt);
    let s = sum(&xt.read(&rt), 1, false);
    assert_eq!(s.shape().dims(), &[3]);
    assert_eq!(data(&s), vec![5.0, 7.0, 9.0]);
}

#[test]
fn test_layernorm_non_contiguous_and_empty() {
    let mut rt: Runtime<F> = Runtime::new();
    vearo::cpu::init(&mut rt);
    // 1. Empty input
    let x_empty = Tensor::zeros(Shape::from([2, 0, 4]), DType::F32, &mut rt);
    let weight = dense(&[1.0, 1.0, 1.0, 1.0], &[4]);
    let bias = dense(&[0.0, 0.0, 0.0, 0.0], &[4]);
    let out_empty = layernorm(&x_empty.read(&rt), &weight, &bias, F(1e-5));
    assert_eq!(out_empty.shape().dims(), &[2, 0, 4]);

    // 2. Non-contiguous input
    let v = [1.0, 2.0, 3.0, 4.0, 5.0, 6.0, 7.0, 8.0];
    let x = Tensor::from_f32(&fs(&v), Shape::from([2, 4]), &mut rt);
    let x_transposed = x.transpose(0, 1, &mut rt);
    let weight_2 = dense(&[1.0, 1.0], &[2]);
    let bias_2 = dense(&[0.0, 0.0], &[2]);
    let out = layernorm(&x_transposed.read(&rt), &weight_2, &bias_2, F(1e-5));
    assert_eq!(out.shape().dims(), &[4, 2]);
    // Every row is one apart from its mean by two in each direction.
    assert!(close(&data(&out)[..2], &[-1.0, 1.0], 1e-4));
}

#[test]
fn test_cross_entropy_numerical_stability() {
    // Logits that would overflow without subtracting the maximum.
    let logits = dense(&[1000.0, -1000.0], &[1, 2]);
    let targets = dense(&[0.0], &[1]);
    let loss = cross_entropy(&logits, &targets);
    assert!(data(&loss)[0].abs() < 1e-4);
}

#[test]
fn test_conv2d_forward() {
    let x = dense(&[1.0, 2.0, 3.0, 4.0, 5.0, 6.0, 7.0, 8.0, 9.0], &[1, 1, 3, 3]);
    let weight = dense(&[1.0, 0.0, 0.0, 1.0], &[1, 1, 2, 2]);
    let bias = dense(&[0.0], &[1]);

    let out = conv2d(&x, &weight, &bias, 1, 0);
    assert_eq!(out.shape().dims(), &[1, 1, 2, 2]);
    // out[i,j] = in[i,j] + in[i+1,j+1]: 1+5, 2+6, 4+8, 5+9
    assert_eq!(data(&out), vec![6.0, 8.0, 12.0, 14.0]);
}

/// Deterministic values with enough variation that cancellation would show.
fn filled(shape: [usize; 4], phase: f32) -> Dense<F> {
    let n: usize = shape.iter().product();
    let v: Vec<f32> = (0..n)
        .map(|i| ((i as f32) * 0.13 + phase).sin() * 0.7 + ((i as f32) * 0.07).cos() * 0.3)
        .collect();
    dense(&v, &shape)
}

/// A matrix product that adds from the far end, so that its sums round differently.
fn product(a: &Vec<F>, b: &Vec<F>, rows: usize, inner: usize, cols: usize) -> Vec<F> {
    let mut out = Vec::with_capacity(rows * cols);
    for i in 0..rows {
        for j in 0..cols {
            let sum: f32 = (0..inner).rev().map(|k| a[i * inner + k].0 * b[k * cols + j].0).sum();
            out.push(F(sum));
        }
    }
    out
}

fn check(n: usize, cin: usize, cout: usize, side: usize, k: usize, stride: usize, padding: usize) {
    let x = filled([n, cin, side, side], 0.0);
    let w = filled([cout, cin, k, k], 1.7);
    let bias: Vec<f32> = (0..cout).map(|i| (i as f32) * 0.05 - 0.1).collect();
    let b = dense(&bias, &[cout]);

    let reference = data(&conv2d(&x, &w, &b, stride, padding));
    let fast = data(&conv2d_fast(&x, &w, &b, stride, padding, product));
    assert_eq!(reference.len(), fast.len());

    // A degenerate all-zero output would make the comparison meaningless.
    let magnitude = reference.iter().fold(0.0f32, |m, v| m.max(v.abs()));
    assert!(magnitude > 1e-3);

    let worst = reference.iter().zip(fast.iter()).fold(0.0f32, |m, (a, b)| m.max((a - b).abs()));
    assert!(worst / magnitude < 1e-5);
}

#[test]
fn fast_conv_matches_reference_within_tolerance() {
    check(2, 3, 8, 8, 3, 1, 1);
    check(1, 1, 1, 5, 3, 1, 0);
    check(2, 4, 6, 8, 3, 2, 1);
    check(1, 5, 7, 9, 3, 1, 1);
    check(3, 16, 32, 16, 3, 1, 1);
}

#[test]
fn fast_conv_handles_no_padding_and_stride_two() {
    check(1, 2, 4, 7, 3, 2, 0);
    check(2, 3, 5, 10, 5, 2, 0);
}

#[test]
fn columns_of_an_image() {
    let x = dense(&[1.0, 2.0, 3.0, 4.0], &[1, 1, 2, 2]);
    let ge = Geometry { n: 1, cin: 1, cout: 2, win: sliding(2, 2, 2, 2, 1, 1) };
    // Row by row: the pixel under each of the four weights, at the nine places of the window.
    let cols: Vec<f32> = im2col(x.data(), ge, 0).iter().map(|v| v.0).collect();
    assert_eq!(cols[..9], [0.0, 0.0, 0.0, 0.0, 1.0, 2.0, 0.0, 3.0, 4.0]);
    assert_eq!(cols[27..], [1.0, 2.0, 0.0, 3.0, 4.0, 0.0, 0.0, 0.0, 0.0]);
    let mut planes = fs(&[1.0, 2.0, 3.0, 4.0]);
    add_bias(&mut planes, &fs(&[10.0, 20.0]), 2, 2);
    assert_eq!(planes, fs(&[11.0, 12.0, 23.0, 24.0]));

    // An empty output asks for no product.
    let none = dense(&[], &[0, 1, 2, 2]);
    let w = dense(&[1.0, 1.0, 1.0, 1.0], &[1, 1, 2, 2]);
    let out = conv2d_fast(&none, &w, &dense(&[0.0], &[1]), 1, 0, |_, _, _, _, _| unreachable!());
    assert_eq!(out.shape().dims(), &[0, 1, 1, 1]);
}

#[test]
fn conv2d_gradients_on_values() {
    let x = dense(&[1.0, 2.0, 3.0, 4.0, 5.0, 6.0, 7.0, 8.0, 9.0], &[1, 1, 3, 3]);
    let w = dense(&[1.0, 2.0, 3.0, 4.0], &[1, 1, 2, 2]);
    let g = dense(&[1.0, 0.0, 0.0, 1.0], &[1, 1, 2, 2]);
    let (gi, gw, gb) = conv2d_backward(&x, &w, &g, 1, 0);
    assert_eq!(data(&gi), vec![1.0, 2.0, 0.0, 3.0, 5.0, 2.0, 0.0, 3.0, 4.0]);
    assert_eq!(data(&gw), vec![6.0, 8.0, 12.0, 14.0]);
    assert_eq!(data(&gb), vec![2.0]);
}

#[test]
fn ranges_of_planes_make_up_the_whole() {
    let x = filled([2, 3, 6, 6], 0.4);
    let w = filled([4, 3, 3, 3], 0.9);
    let b = dense(&[0.1, 0.2, 0.3, 0.4], &[4]);
    let whole = data(&conv2d(&x, &w, &b, 1, 1));
    let win = sliding(6, 6, 3, 3, 1, 1);
    let ge = Geometry { n: 2, cin: 3, cout: 4, win };
    let mut parts = conv2d_planes(&x, &w, &b, ge, 0, 3);
    parts.extend(conv2d_planes(&x, &w, &b, ge, 3, 8));
    assert_eq!(parts.iter().map(|v| v.0).collect::<Vec<f32>>(), whole);

    let pooled = data(&maxpool2d(&x, 2, 2, 0));
    let pl = pool_planes(&x, 2, 2, 0);
    let mut parts = maxpool2d_planes(x.data(), pl, 0, 1);
    parts.extend(maxpool2d_planes(x.data(), pl, 1, 6));
    assert_eq!(parts.iter().map(|v| v.0).collect::<Vec<f32>>(), pooled);

    let a = dense(&[1.0, 2.0, 3.0, 4.0, 5.0, 6.0], &[3, 2]);
    let c = dense(&[1.0, 0.0, 0.0, 1.0], &[2, 2]);
    let mut rows = matmul_rows(&a, &c, 0, 1);
    rows.extend(matmul_rows(&a, &c, 1, 3));
    assert_eq!(rows, *matmul(&a, &c).data());
}

#[test]
fn pooling_on_values() {
    let x = dense(&[1.0, 5.0, 2.0, 0.0, 3.0, 4.0, 8.0, 7.0], &[1, 1, 2, 4]);
    assert_eq!(data(&maxpool2d(&x, 2, 2, 0)), vec![5.0, 8.0]);
    assert_eq!(data(&avgpool2d(&x, 2, 2, 0)), vec![3.25, 4.25]);
    let g = dense(&[1.0, 2.0], &[1, 1, 1, 2]);
    assert_eq!(
        data(&maxpool2d_backward(&x, &g, 2, 2, 0)),
        vec![0.0, 1.0, 0.0, 0.0, 0.0, 0.0, 2.0, 0.0]
    );
    assert_eq!(
        data(&avgpool2d_backward(&x, &g, 2, 2, 0)),
        vec![0.25, 0.25, 0.5, 0.5, 0.25, 0.25, 0.5, 0.5]
    );
    // Padding counts neither as a pixel nor towards the mean.
    let y = dense(&[-1.0, -2.0, -3.0, -4.0], &[1, 1, 2, 2]);
    assert_eq!(data(&maxpool2d(&y, 2, 2, 1)), vec![-1.0, -2.0, -3.0, -4.0]);
    assert_eq!(data(&avgpool2d(&y, 2, 2, 1)), vec![-1.0, -2.0, -3.0, -4.0]);
}

#[test]
fn activations_on_values() {
    let x = dense(&[0.0, 1.0, -1.0], &[3]);
    assert!(close(&data(&gelu(&x)), &[0.0, 0.841_192, -0.158_808], 1e-5));
    let s = softmax(&dense(&[0.0, 0.0, 1.0, 1.0], &[2, 2]), 0);
    assert!(close(&data(&s), &[0.268_941, 0.268_941, 0.731_059, 0.731_059], 1e-5));
}

#[test]
fn lookups_on_values() {
    let ids = dense(&[1.0, 0.0, 1.0], &[3]);
    let table = dense(&[1.0, 2.0, 3.0, 4.0], &[2, 2]);
    let rows = embedding(&ids, &table);
    assert_eq!(rows.shape().dims(), &[3, 2]);
    assert_eq!(data(&rows), vec![3.0, 4.0, 1.0, 2.0, 3.0, 4.0]);
    let g = dense(&[1.0, 1.0, 2.0, 2.0, 3.0, 3.0], &[3, 2]);
    assert_eq!(data(&embedding_backward(&ids, &table, &g)), vec![2.0, 2.0, 4.0, 4.0]);

    let logits = dense(&[0.0, 0.0], &[1, 2]);
    let target = dense(&[1.0], &[1]);
    assert!(close(&data(&cross_entropy(&logits, &target)), &[0.693_147], 1e-5));
    let one = dense(&[1.0], &[1]);
    assert!(close(&data(&cross_entropy_backward(&logits, &target, &one)), &[0.5, -0.5], 1e-6));
}

#[test]
fn normalisation_on_values() {
    let x = dense(&[1.0, 3.0, 2.0, 6.0], &[2, 2]);
    let w = dense(&[2.0, 3.0], &[2]);
    let b = dense(&[0.5, -0.5], &[2]);
    let y = data(&layernorm(&x, &w, &b, F(0.0)));
    assert!(close(&y, &[-1.5, 2.5, -1.5, 2.5], 1e-5));
    let g = dense(&[1.0, 1.0, 1.0, 1.0], &[2, 2]);
    let (gx, gw, gb) = layernorm_backward(&x, &w, &b, &g, F(0.0));
    assert!(close(&data(&gx), &[0.0, 0.0, 0.0, 0.0], 1e-5));
    assert!(close(&data(&gw), &[-2.0, 2.0], 1e-5));
    assert!(close(&data(&gb), &[2.0, 2.0], 1e-6));

    let x4 = dense(&[1.0, 3.0, 2.0, 6.0], &[1, 2, 1, 2]);
    let zero = dense(&[0.0, 0.0], &[2]);
    let ones = dense(&[1.0, 1.0], &[2]);
    let (y, stats) = batchnorm(&x4, &ones, &zero, &zero, &ones, true, F(0.5), F(0.0));
    assert!(close(&data(&y), &[-1.0, 1.0, -1.0, 1.0], 1e-5));
    assert!(stats.is_some());
    let (y, stats) = batchnorm(&x4, &ones, &zero, &zero, &ones, false, F(0.5), F(0.0));
    assert_eq!(data(&y), vec![1.0, 3.0, 2.0, 6.0]);
    assert!(stats.is_none());
    let g4 = dense(&[1.0, 2.0, 3.0, 4.0], &[1, 2, 1, 2]);
    let (gx, gw, gb) = batchnorm_backward(&x4, &ones, &zero, &zero, &ones, &g4, false, F(0.0));
    assert_eq!(data(&gx), vec![1.0, 2.0, 3.0, 4.0]);
    assert_eq!(data(&gw), vec![7.0, 30.0]);
    assert_eq!(data(&gb), vec![3.0, 7.0]);
}

#[test]
fn attention_over_one_key_returns_its_value() {
    let q = dense(&[1.0, 2.0], &[1, 1, 1, 2]);
    let k = dense(&[3.0, 4.0], &[1, 1, 1, 2]);
    let v = dense(&[5.0, 6.0], &[1, 1, 1, 2]);
    assert_eq!(data(&fused_attention(&q, &k, &v, None)), vec![5.0, 6.0]);
    let g = dense(&[1.0, 1.0], &[1, 1, 1, 2]);
    let (dq, dk, dv) = fused_attention_backward(&q, &k, &v, None, &g);
    assert_eq!(data(&dq), vec![0.0, 0.0]);
    assert_eq!(data(&dk), vec![0.0, 0.0]);
    assert_eq!(data(&dv), vec![1.0, 1.0]);
}

#[test]
fn shards_are_locked_once_each_in_order() {
    let l = LockedShards::lock(5, 2, 5);
    assert_eq!(l.len(), 2);
    assert_eq!(l.at(0), 2);
    assert_eq!(l.at(1), 5);
    assert_eq!(l.get(5), 1);
    assert_eq!(l.get(2), 0);
    assert_eq!(LockedShards::lock(7, 7, 7).len(), 1);
    let l = LockedShards::lock(3, 2, 1);
    assert_eq!((l.at(0), l.at(1), l.at(2)), (1, 2, 3));
}

#[test]
fn kernels_run_on_fixed_point_numbers() {
    let n = |x: i32| Fixed { raw: x * 65536 };
    let x = Dense::new(Shape::from([2, 2]), vec![n(1), n(2), n(3), n(4)]);
    let y = Dense::new(Shape::from([2, 2]), vec![n(5), n(6), n(7), n(8)]);
    assert_eq!(*matmul(&x, &y).data(), vec![n(19), n(22), n(43), n(50)]);
    assert_eq!(*relu(&Dense::new(Shape::from([2]), vec![n(-3), n(3)])).data(), vec![n(0), n(3)]);
    assert_eq!(*mean(&x, 0, false).data(), vec![n(2), n(3)]);
    assert_eq!(n(2).mul_add(n(3), n(4)), n(10));
    assert_eq!(n(9).sqrt(), n(3));
    assert_eq!(n(6).div(n(4)), Fixed { raw: 98304 });
    assert_eq!(n(3).index(), Some(3));
    assert_eq!(n(-1).index(), None);
    assert_eq!(Fixed::from_bits(n(-7).bits()), n(-7));
    assert_eq!(n(2).powi(3), n(8));
    assert_eq!(n(0).exp(), n(1));
    assert_eq!(n(0).tanh(), n(0));
    assert_eq!(n(1).ln(), n(0));
    assert_eq!(Fixed::count(12), n(12));
}

#[test]
fn the_exponential_of_fixed_point_numbers() {
    let n = |x: i32| Fixed { raw: x * 65536 };
    assert_eq!(n(0).exp(), n(1));
    assert_eq!(n(1).exp(), Fixed { raw: 178_145 });
    assert_eq!(n(-1).exp(), Fixed { raw: 24_109 });
    for x in [-12, -13, -254, -300, -2000, -32768] {
        assert_eq!(n(x).exp(), n(0));
    }
    assert_eq!(Fixed { raw: i32::MIN }.exp(), n(0));
    assert_eq!(n(20).exp(), Fixed { raw: i32::MAX });
    assert_eq!(n(2).ln(), Fixed { raw: 45_426 });
    assert_eq!(n(0).ln(), Fixed { raw: i32::MIN });
    // The order of the numbers is that of their exponentials.
    let mut last = n(0);
    for raw in (i32::MIN..=i32::MAX).step_by(1 << 20) {
        let e = Fixed { raw }.exp();
        assert!(e.raw >= last.raw);
        last = e;
    }
}

#[test]
fn softmax_of_fixed_point_numbers_keeps_the_order() {
    let n = |x: i32| Fixed { raw: x * 65536 };
    let x = Dense::new(Shape::from([2]), vec![n(0), n(-300)]);
    assert_eq!(*softmax(&x, 0).data(), vec![n(1), n(0)]);
    let x = Dense::new(Shape::from([3]), vec![n(1), n(3), n(2)]);
    let y = softmax(&x, 0);
    assert!(y.data()[0].raw < y.data()[2].raw && y.data()[2].raw < y.data()[1].raw);
    let total: i32 = y.data().iter().map(|v| v.raw).sum();
    assert!((65536 - 3..=65536).contains(&total));
    // One number added to all entries changes nothing.
    let shifted = Dense::new(Shape::from([3]), vec![n(101), n(103), n(102)]);
    assert_eq!(*softmax(&shifted, 0).data(), *y.data());
}

#[test]
fn cross_entropy_of_fixed_point_numbers_is_stable() {
    let n = |x: i32| Fixed { raw: x * 65536 };
    let logits = Dense::new(Shape::from([1, 2]), vec![n(1000), n(-1000)]);
    let targets = Dense::new(Shape::from([1]), vec![n(0)]);
    assert_eq!(*cross_entropy(&logits, &targets).data(), vec![n(0)]);
    let wrong = Dense::new(Shape::from([1]), vec![n(1)]);
    assert_eq!(*cross_entropy(&logits, &wrong).data(), vec![n(2000)]);
}

#[test]
fn attention_of_fixed_point_numbers_skips_masked_positions() {
    let n = |x: i32| Fixed { raw: x * 65536 };
    let shape = Shape::from([1, 1, 2, 1]);
    let q = Dense::new(shape, vec![n(1), n(1)]);
    let k = Dense::new(shape, vec![n(1), n(1)]);
    let v = Dense::new(shape, vec![n(4), n(100)]);
    let low = Fixed::constant(Constant::MaskFloor);
    let mask = Dense::new(Shape::from([2, 2]), vec![n(0), low, n(0), n(0)]);
    let out = fused_attention(&q, &k, &v, Some(&mask));
    // The first position sees itself alone, the second sees both.
    assert!((out.data()[0].raw - n(4).raw).abs() <= 16);
    assert!((out.data()[1].raw - n(52).raw).abs() <= 256);
}

#[test]
fn gelu_of_fixed_point_numbers_is_symmetric() {
    for raw in [0, 1, 777, 65536, 131_072, 400_000, 3_000_000, i32::MAX] {
        let x = Dense::new(Shape::from([2]), vec![Fixed { raw }, Fixed { raw: -raw }]);
        let y = gelu(&x);
        let (up, down) = (y.data()[0].raw, y.data()[1].raw);
        assert!(0 <= up && up <= raw);
        assert!(-raw <= down && down <= 0);
        let gap = i64::from(up) - i64::from(down) - i64::from(raw);
        assert!((-2..=0).contains(&gap));
    }
}

#[test]
fn products_commute_and_ones_are_neutral() {
    let a = dense(&[1.5, -2.0, 3.0, 4.0, 5.0, -6.0], &[2, 3]);
    let b = dense(&[2.0, 0.5, -1.0], &[3]);
    assert_eq!(data(&mul(&a, &b)), data(&mul(&b, &a)));
    assert_eq!(data(&add(&a, &b)), data(&add(&b, &a)));
    let one = dense(&[1.0], &[1]);
    assert_eq!(data(&mul(&a, &one)), data(&a));
    let row = dense(&[7.0], &[]);
    assert_eq!(data(&mul(&row, &one)), data(&row));
}

#[test]
fn rows_of_the_cross_entropy_gradient_add_up_to_zero() {
    let logits = dense(&[1.0, 2.0, 3.0, -1.0, 0.0, 1.0], &[2, 3]);
    let targets = dense(&[2.0, 0.0], &[2]);
    let g = data(&cross_entropy_backward(&logits, &targets, &dense(&[1.0], &[1])));
    for row in g.chunks(3) {
        assert!(row.iter().sum::<f32>().abs() < 1e-6);
    }
}

#[test]
fn residues_compute_exactly() {
    let n = |raw: u32| Residue { raw };
    assert_eq!(n(u32::MAX).add(n(2)), n(1));
    assert_eq!(n(1).sub(n(3)), n(u32::MAX - 1));
    assert_eq!(n(65536).mul(n(65537)), n(65536));
    assert_eq!(n(7).mul_add(n(6), n(u32::MAX)), n(41));
    assert_eq!(n(5).div(n(u32::MAX)), n(u32::MAX - 4));
    assert_eq!(n(5).div(n(2)), n(0));
    assert_eq!(n(3).powi(4), n(81));
    assert_eq!(Residue::count(12), n(12));
    assert_eq!(Residue::from_bits(n(9).bits()), n(9));
    let x = Dense::new(Shape::from([2, 2]), vec![n(1), n(2), n(3), n(4)]);
    let y = Dense::new(Shape::from([2, 2]), vec![n(5), n(6), n(7), n(8)]);
    let g = Dense::new(Shape::from([2, 2]), vec![n(1), n(u32::MAX), n(2), n(0)]);
    // The gradients of a product weigh what the gradient of the output weighs.
    let grads = rule(&OpType::Matmul, &vec![x.duplicate(), y.duplicate()], &g);
    let weigh = |a: &Dense<Residue>, b: &Dense<Residue>| {
        a.data().iter().zip(b.data()).fold(n(0), |s, (u, v)| u.mul_add(*v, s))
    };
    let out = weigh(&g, &matmul(&x, &y));
    assert_eq!(weigh(&grads[0], &x), out);
    assert_eq!(weigh(&grads[1], &y), out);
}

#[test]
fn gradients_of_scales_and_shifts_weigh_what_the_output_does() {
    let x = dense(&[1.0, 2.0, 4.0, -1.0, 0.5, 3.0], &[2, 3]);
    let w = dense(&[2.0, -1.0, 0.5], &[3]);
    let b = dense(&[1.0, 0.0, -2.0], &[3]);
    let g = dense(&[1.0, -2.0, 0.5, 3.0, 1.0, -1.0], &[2, 3]);
    let weigh = |a: &Dense<F>, c: &Dense<F>| -> f32 {
        a.data().iter().zip(c.data()).map(|(u, v)| u.0 * v.0).sum()
    };
    let y = layernorm(&x, &w, &b, F(1e-5));
    let (_, gw, gb) = layernorm_backward(&x, &w, &b, &g, F(1e-5));
    assert!((weigh(&g, &y) - weigh(&gw, &w) - weigh(&gb, &b)).abs() < 1e-4);
    let shape = [1, 1, 3, 1];
    let q = dense(&[0.1, -0.4, 0.9], &shape);
    let k = dense(&[0.7, 0.2, -0.3], &shape);
    let v = dense(&[1.0, 2.0, -3.0], &shape);
    let g = dense(&[0.5, 1.0, -1.0], &shape);
    let y = fused_attention(&q, &k, &v, None);
    let (_, _, gv) = fused_attention_backward(&q, &k, &v, None, &g);
    assert!((weigh(&g, &y) - weigh(&gv, &v)).abs() < 1e-5);
    let top = dense(&[6.0, 8.0], &[2]);
    let low = dense(&[2.0, 4.0], &[2]);
    let g = dense(&[1.0, 3.0], &[2]);
    let grads = rule(&OpType::Div, &vec![top.duplicate(), low.duplicate()], &g);
    assert_eq!(weigh(&g, &div(&top, &low)), weigh(&grads[0], &top));
}
