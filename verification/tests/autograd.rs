//! Reverse-mode differentiation.
use vearo::autograd::backward::{backward_impl, read_tape};
use vearo::autograd::blocks::{backward_blocks, checkpoint_block, Block, Blocks};
use vearo::autograd::checkpoint::{begin_checkpoint, begin_replay, checkpoint, end_replay};
use vearo::autograd::numeric::numerical_grad;
use vearo::autograd::replay::leave_replay;
use vearo::autograd::store::{reset_active_tape, zero_gradients};
use vearo::autograd::sweep::Sweep;
use vearo::dense::Dense;
use vearo::runtime::Runtime;
use vearo::scalar::{Constant, Scalar};
use vearo::shape::Shape;
use vearo::switches::{
    is_autograd_enabled, is_recomputing, set_autograd_enabled, set_recomputing,
};
use vearo::tensor::Tensor;

/// 32-bit floating point.
#[derive(Clone, Copy, Debug, PartialEq)]
struct F(f32);

impl Scalar for F {
    fn constant_spec(c: Constant) -> Self {
        F::constant(c)
    }

    fn add_spec(a: Self, b: Self) -> Self {
        Scalar::add(a, b)
    }

    fn sub_spec(a: Self, b: Self) -> Self {
        Scalar::sub(a, b)
    }

    fn mul_spec(a: Self, b: Self) -> Self {
        Scalar::mul(a, b)
    }

    fn div_spec(a: Self, b: Self) -> Self {
        Scalar::div(a, b)
    }

    fn mul_add_spec(a: Self, b: Self, c: Self) -> Self {
        a.mul_add(b, c)
    }

    fn gt_spec(a: Self, b: Self) -> bool {
        Scalar::gt(a, b)
    }

    fn eq_zero_spec(a: Self) -> bool {
        a.eq_zero()
    }

    fn exp_spec(a: Self) -> Self {
        a.exp()
    }

    fn ln_spec(a: Self) -> Self {
        a.ln()
    }

    fn sqrt_spec(a: Self) -> Self {
        a.sqrt()
    }

    fn tanh_spec(a: Self) -> Self {
        a.tanh()
    }

    fn cos_spec(a: Self) -> Self {
        a.cos()
    }

    fn powi_spec(a: Self, n: i32) -> Self {
        a.powi(n)
    }

    fn count_spec(n: usize) -> Self {
        F::count(n)
    }

    fn fraction_spec(n: u64) -> Self {
        F::fraction(n)
    }

    fn index_spec(a: Self) -> Option<usize> {
        a.index()
    }

    fn bits_spec(a: Self) -> u32 {
        a.bits()
    }

    fn from_bits_spec(b: u32) -> Self {
        F::from_bits(b)
    }

    fn lemma_bits(_a: Self) {}

    fn constant(c: Constant) -> Self {
        F(match c {
            Constant::Zero => 0.0,
            Constant::One => 1.0,
            Constant::NegOne => -1.0,
            Constant::Half => 0.5,
            Constant::Two => 2.0,
            Constant::Six => 6.0,
            Constant::Pi => std::f32::consts::PI,
            Constant::NegInfinity => f32::NEG_INFINITY,
            Constant::Infinity => f32::INFINITY,
            Constant::Epsilon => f32::EPSILON,
            Constant::MaskFloor => -1e9,
            Constant::SparkHeight => 1.15,
            Constant::GeluScale => 0.797_884_56,
            Constant::GeluCubic => 0.044_715,
            Constant::GeluSlope => 0.134_145,
            Constant::AttentionFloor => 1e-9,
            Constant::ClipFloor => 1e-6,
            Constant::NormFloor => 1e-5,
        })
    }

    fn add(self, b: Self) -> Self {
        F(self.0 + b.0)
    }

    fn sub(self, b: Self) -> Self {
        F(self.0 - b.0)
    }

    fn mul(self, b: Self) -> Self {
        F(self.0 * b.0)
    }

    fn div(self, b: Self) -> Self {
        F(self.0 / b.0)
    }

    fn mul_add(self, b: Self, c: Self) -> Self {
        F(self.0.mul_add(b.0, c.0))
    }

    fn gt(self, b: Self) -> bool {
        self.0 > b.0
    }

    fn eq_zero(self) -> bool {
        self.0 == 0.0
    }

    fn exp(self) -> Self {
        F(self.0.exp())
    }

    fn ln(self) -> Self {
        F(self.0.ln())
    }

    fn sqrt(self) -> Self {
        F(self.0.sqrt())
    }

    fn tanh(self) -> Self {
        F(self.0.tanh())
    }

    fn cos(self) -> Self {
        F(self.0.cos())
    }

    fn powi(self, n: i32) -> Self {
        F(self.0.powi(n))
    }

    fn count(n: usize) -> Self {
        F(n as f32)
    }

    fn fraction(n: u64) -> Self {
        F(n as f32 / 18_446_744_073_709_551_616.0)
    }

    fn index(self) -> Option<usize> {
        if self.0 >= 0.0 {
            Some(self.0.round() as usize)
        } else {
            None
        }
    }

    fn bits(self) -> u32 {
        self.0.to_bits()
    }

    fn from_bits(b: u32) -> Self {
        F(f32::from_bits(b))
    }
}

fn fs(v: &[f32]) -> Vec<F> {
    v.iter().map(|x| F(*x)).collect()
}

fn ready() -> Runtime<F> {
    let mut rt = Runtime::new();
    vearo::init(&mut rt);
    rt
}

fn tensor(v: &[f32], dims: &[usize], rt: &mut Runtime<F>) -> Tensor {
    Tensor::from_f32(&fs(v), Shape::new(dims), rt)
}

fn leaf(v: &[f32], dims: &[usize], rt: &mut Runtime<F>) -> Tensor {
    let t = tensor(v, dims, rt);
    t.set_requires_grad(true, rt);
    t
}

fn vec_of(t: &Tensor, rt: &mut Runtime<F>) -> Vec<f32> {
    let c = t.contiguous(rt);
    c.to_vec_f32(rt).iter().map(|x| x.0).collect()
}

fn grad_of(t: &Tensor, rt: &mut Runtime<F>) -> Vec<f32> {
    let g = t.grad(rt).unwrap();
    vec_of(&g, rt)
}

/// Runs a block without recording it, and records that it can be run again.
fn checkpointed(
    x: &Tensor,
    f: &dyn Fn(&Tensor, &mut Runtime<F>) -> Tensor,
    rt: &mut Runtime<F>,
) -> Tensor {
    let suspended = begin_checkpoint(rt);
    let out = f(x, rt);
    let _ = checkpoint(x, &out, suspended, rt);
    out
}

/// Differentiates a scalar, running the block again where it was recorded.
fn backward_through(
    out: &Tensor,
    f: &dyn Fn(&Tensor, &mut Runtime<F>) -> Tensor,
    rt: &mut Runtime<F>,
) {
    let token = out.node_id(rt);
    let at = rt.tape.live(token).unwrap();
    let saved = read_tape(rt);
    let one = Dense::new(*out.shape(), vec![F(1.0); out.shape().numel()]);
    let mut sweep = Sweep::start(rt.tape.nodes.len(), at, &one);
    while let Some(node) = sweep.resume(&rt.tape.nodes, &saved) {
        let g = sweep.gradient(node).unwrap().duplicate();
        let replay = begin_replay(node, rt);
        let y = f(&replay.x, rt);
        end_replay(&replay, rt);
        let shape = *g.shape();
        let grad = Tensor::from_f32(&g.into_data(), shape, rt);
        backward_impl(&y, &grad, rt);
        let gx = leave_replay(replay, rt);
        sweep.replayed(&rt.tape.nodes, &gx);
    }
    rt.finish_backward(&sweep);
}

/// The numerical gradient of a scalar function of one tensor.
fn numeric<G: Fn(&Tensor, &mut Runtime<F>) -> Tensor>(
    f: G,
    x: &[f32],
    dims: &[usize],
    eps: f32,
) -> Vec<f32> {
    let g = numerical_grad(
        |v: &Vec<F>| {
            let mut rt = ready();
            let t = Tensor::from_f32(v, Shape::new(dims), &mut rt);
            f(&t, &mut rt).get_f32(0, &rt)
        },
        &fs(x),
        F(eps),
    );
    g.iter().map(|v| v.0).collect()
}

/// The gradient of a scalar function of one tensor by differentiation.
fn analytic<G: Fn(&Tensor, &mut Runtime<F>) -> Tensor>(f: G, x: &[f32], dims: &[usize]) -> Vec<f32> {
    let mut rt = ready();
    let t = leaf(x, dims, &mut rt);
    let out = f(&t, &mut rt);
    out.backward(&mut rt);
    grad_of(&t, &mut rt)
}

/// Both gradients agree.
fn agree<G: Fn(&Tensor, &mut Runtime<F>) -> Tensor + Copy>(
    f: G,
    x: &[f32],
    dims: &[usize],
    eps: f32,
    tol: f32,
) -> Vec<f32> {
    let ana = analytic(f, x, dims);
    let num = numeric(f, x, dims, eps);
    assert_eq!(ana.len(), x.len());
    for i in 0..x.len() {
        assert!(
            (ana[i] - num[i]).abs() <= tol,
            "mismatch at {}: ana={}, num={}",
            i,
            ana[i],
            num[i]
        );
    }
    ana
}

/// Adds up everything by products with ones.
fn total(t: &Tensor, n: usize, rt: &mut Runtime<F>) -> Tensor {
    let ones = tensor(&vec![1.0; n], &[n, 1], rt);
    let row = t.reshape(Shape::from([1, n]), rt);
    row.matmul(&ones, rt).reshape(Shape::from([1]), rt)
}

#[test]
fn test_numerical_gradient_square_sum() {
    // f(x) = sum(x^2) at [1, 2, 3] has the gradient [2, 4, 6]
    let g = numeric(
        |t, rt| {
            let t_sq = t.mul(t, rt);
            total(&t_sq, 3, rt)
        },
        &[1.0, 2.0, 3.0],
        &[3],
        1e-3,
    );
    assert_eq!(g.len(), 3);
    assert!((g[0] - 2.0).abs() <= 1e-3);
    assert!((g[1] - 4.0).abs() <= 1e-3);
    assert!((g[2] - 6.0).abs() <= 1e-3);
}

#[test]
fn test_backward_simple_add_mul() {
    let mut rt = ready();
    // z = (x + y) * w with dz/dx = 4, dz/dy = 4, dz/dw = 5
    let x = leaf(&[2.0], &[1], &mut rt);
    let y = leaf(&[3.0], &[1], &mut rt);
    let w = leaf(&[4.0], &[1], &mut rt);

    let sum = x.add(&y, &mut rt);
    let z = sum.mul(&w, &mut rt);
    z.backward(&mut rt);

    let gx = x.grad(&mut rt).unwrap();
    let gy = y.grad(&mut rt).unwrap();
    let gw = w.grad(&mut rt).unwrap();
    assert_eq!(gx.get_f32(0, &rt), F(4.0));
    assert_eq!(gy.get_f32(0, &rt), F(4.0));
    assert_eq!(gw.get_f32(0, &rt), F(5.0));
}

#[test]
fn test_autograd_parity_with_numerical_grad() {
    // f(x, y) = sum((x + y) * x) with y broadcast from [1, 3]
    let x_data = [1.0, 2.0, 3.0, 4.0, 5.0, 6.0];
    let y_data = [10.0, 20.0, 30.0];
    let forward = |x: &Tensor, y: &Tensor, rt: &mut Runtime<F>| {
        let sum = x.add(y, rt);
        let prod = sum.mul(x, rt);
        total(&prod, 6, rt)
    };

    let mut rt = ready();
    let x = leaf(&x_data, &[2, 3], &mut rt);
    let y = leaf(&y_data, &[1, 3], &mut rt);
    let out = forward(&x, &y, &mut rt);
    out.backward(&mut rt);
    let grad_x_ana = grad_of(&x, &mut rt);
    let grad_y_ana = grad_of(&y, &mut rt);

    let grad_x_num = numeric(
        |t, rt| {
            let y = tensor(&y_data, &[1, 3], rt);
            forward(t, &y, rt)
        },
        &x_data,
        &[2, 3],
        1e-3,
    );
    for i in 0..6 {
        assert!((grad_x_ana[i] - grad_x_num[i]).abs() <= 5e-2, "x at {}", i);
    }

    let grad_y_num = numeric(
        |t, rt| {
            let x = tensor(&x_data, &[2, 3], rt);
            forward(&x, t, rt)
        },
        &y_data,
        &[1, 3],
        1e-3,
    );
    for i in 0..3 {
        assert!((grad_y_ana[i] - grad_y_num[i]).abs() <= 5e-2, "y at {}", i);
    }
}

#[test]
fn test_two_backward_passes_reuse_leaves() {
    let mut rt = ready();
    let x = leaf(&[2.0], &[1], &mut rt);
    let y = leaf(&[3.0], &[1], &mut rt);

    // Pass 1: z = x * y -> dz/dx = y = 3, dz/dy = x = 2
    let z1 = x.mul(&y, &mut rt);
    z1.backward(&mut rt);
    assert_eq!(grad_of(&x, &mut rt), vec![3.0], "pass 1 dx");
    assert_eq!(grad_of(&y, &mut rt), vec![2.0], "pass 1 dy");

    // Pass 2: identical computation must give identical grads.
    let z2 = x.mul(&y, &mut rt);
    z2.backward(&mut rt);
    assert_eq!(grad_of(&x, &mut rt), vec![3.0], "pass 2 dx");
    assert_eq!(grad_of(&y, &mut rt), vec![2.0], "pass 2 dy");
}

#[test]
fn test_autograd_relu() {
    // Inputs kept away from 0 so the ReLU kink doesn't break finite differences.
    agree(
        |t, rt| t.relu(rt).sum(1, false, rt).sum(0, false, rt),
        &[1.0, -2.0, 3.0, -0.5, 4.0, -1.5],
        &[2, 3],
        1e-3,
        5e-2,
    );
}

#[test]
fn test_autograd_sum() {
    let ana = agree(
        |t, rt| t.sum(1, true, rt).sum(0, false, rt),
        &[1.0, 2.0, 3.0, 4.0, 5.0, 6.0],
        &[2, 3],
        1e-3,
        5e-2,
    );
    for g in ana {
        assert!((g - 1.0).abs() <= 5e-2, "sum grad should be 1");
    }
}

#[test]
fn test_autograd_mean() {
    let ana = agree(
        |t, rt| t.mean(1, false, rt).sum(0, false, rt),
        &[1.0, 2.0, 3.0, 4.0, 5.0, 6.0],
        &[2, 3],
        1e-3,
        5e-2,
    );
    for g in ana {
        assert!((g - (1.0 / 3.0)).abs() <= 5e-2, "mean grad should be 1/3");
    }
}

#[test]
fn test_autograd_matmul() {
    agree(
        |t, rt| {
            let y = leaf(&[7.0, 8.0, 9.0, 10.0, 11.0, 12.0], &[3, 2], rt);
            let out = t.matmul(&y, rt);
            total(&out, 4, rt)
        },
        &[1.0, 2.0, 3.0, 4.0, 5.0, 6.0],
        &[2, 3],
        1e-3,
        5e-2,
    );
}

#[test]
fn test_autograd_gelu() {
    agree(|t, rt| t.gelu(rt).sum(0, false, rt), &[-1.0, 0.0, 1.0, 2.0], &[4], 1e-4, 1e-2);
}

const PIXELS: [f32; 16] = [
    0.3, 0.9, 0.1, 0.7, 0.8, 0.2, 0.6, 0.4, 0.5, 1.1, 0.05, 0.95, 0.15, 0.75, 0.25, 0.65,
];

#[test]
fn test_autograd_maxpool2d() {
    agree(
        |t, rt| t.maxpool2d(2, 2, 0, rt).reshape(Shape::from([4]), rt).sum(0, false, rt),
        &PIXELS,
        &[1, 1, 4, 4],
        1e-4,
        1e-2,
    );
}

#[test]
fn test_autograd_avgpool2d() {
    agree(
        |t, rt| t.avgpool2d(2, 2, 0, rt).reshape(Shape::from([4]), rt).sum(0, false, rt),
        &PIXELS,
        &[1, 1, 4, 4],
        1e-4,
        1e-2,
    );
}

#[test]
fn test_autograd_softmax() {
    agree(
        |t, rt| {
            let target = tensor(&[0.5, 0.5, 0.2, 0.8], &[2, 2], rt);
            let sm = t.softmax(1, rt);
            sm.mul(&target, rt).sum(0, false, rt).sum(0, false, rt)
        },
        &[1.0, 2.0, 3.0, 4.0],
        &[2, 2],
        1e-4,
        1e-2,
    );
}

#[test]
fn test_autograd_layernorm() {
    agree(
        |t, rt| {
            let weight = leaf(&[0.5, 1.5], &[2], rt);
            let bias = leaf(&[0.1, -0.1], &[2], rt);
            let out = t.layernorm(&weight, &bias, F(1e-5), rt);
            out.sum(0, false, rt).sum(0, false, rt)
        },
        &[1.0, 2.0, 3.0, 4.0],
        &[2, 2],
        1e-4,
        1e-2,
    );
}

#[test]
fn test_autograd_embedding() {
    agree(
        |w, rt| {
            let x = tensor(&[0.0, 1.0], &[2], rt);
            x.embedding(w, rt).sum(0, false, rt).sum(0, false, rt)
        },
        &[1.0, 2.0, 3.0, 4.0, 5.0, 6.0],
        &[2, 3],
        1e-3,
        1e-2,
    );
}

#[test]
fn test_autograd_cross_entropy() {
    agree(
        |t, rt| {
            let targets = tensor(&[1.0, 0.0], &[2], rt);
            t.cross_entropy(&targets, rt)
        },
        &[1.0, 2.0, 3.0, 4.0],
        &[2, 2],
        1e-3,
        1e-2,
    );
}

#[test]
fn test_stale_gradient_prevention() {
    let mut rt = ready();
    let x = leaf(&[2.0], &[1], &mut rt);
    let y = x.mul(&x, &mut rt);
    y.backward(&mut rt);

    let x_grad = x.grad(&mut rt).unwrap();
    assert_eq!(x_grad.get_f32(0, &rt), F(4.0));

    let old_id = x.storage_id();

    // Give back every reference to the slot.
    rt.release(x_grad);
    rt.release(y);
    rt.release(x);

    // Make new tensors, keeping them alive, until the slot is used again.
    let mut held_tensors = Vec::new();
    let mut reused_tensor = None;
    for _ in 0..100 {
        let t = tensor(&[5.0], &[1], &mut rt);
        if t.storage_id() == old_id {
            reused_tensor = Some(t);
            break;
        }
        held_tensors.push(t);
    }

    let t = reused_tensor.expect("Should have reused the old storage slot");
    assert!(t.grad(&mut rt).is_none());
}

#[test]
fn test_autograd_conv2d() {
    // N=1, Cin=2, H=4, W=4, Cout=3, K=3, stride=1, padding=1 -> out [1,3,4,4].
    let (n, cin, h, w, cout, k) = (1usize, 2usize, 4usize, 4usize, 3usize, 3usize);
    let x_data: Vec<f32> = (0..n * cin * h * w).map(|i| i as f32 * 0.1 - 1.0).collect();
    agree(
        |t, rt| {
            let w_data: Vec<f32> =
                (0..cout * cin * k * k).map(|i| i as f32 * 0.05 - 0.3).collect();
            let b_data: Vec<f32> = (0..cout).map(|i| i as f32 * 0.1).collect();
            let weight = tensor(&w_data, &[cout, cin, k, k], rt);
            let bias = tensor(&b_data, &[cout], rt);
            let out = t.conv2d(&weight, &bias, 1, 1, rt);
            let flat = out.shape().numel();
            out.reshape(Shape::from([flat]), rt).sum(0, false, rt)
        },
        &x_data,
        &[n, cin, h, w],
        1e-3,
        5e-2,
    );
}

#[test]
fn test_activation_checkpointing() {
    let mut rt = ready();
    let w = leaf(&[2.0, -1.0, 3.0, 0.5], &[2, 2], &mut rt);
    let x = leaf(&[1.0, 2.0], &[1, 2], &mut rt);

    // Standard forward and backward
    let out_std =
        x.matmul(&w, &mut rt).relu(&mut rt).sum(0, false, &mut rt).sum(0, false, &mut rt);
    out_std.backward(&mut rt);
    let grad_x_std = grad_of(&x, &mut rt);
    let grad_w_std = grad_of(&w, &mut rt);

    zero_gradients(&mut rt);
    reset_active_tape(&mut rt);

    // Checkpoint-enabled forward and backward
    let w_cloned = w.clone(&mut rt);
    let block = move |input: &Tensor, rt: &mut Runtime<F>| input.matmul(&w_cloned, rt).relu(rt);
    let out_ckp =
        checkpointed(&x, &block, &mut rt).sum(0, false, &mut rt).sum(0, false, &mut rt);
    backward_through(&out_ckp, &block, &mut rt);
    let grad_x_ckp = grad_of(&x, &mut rt);
    let grad_w_ckp = grad_of(&w, &mut rt);

    // Parity verification
    assert_eq!(grad_x_std, grad_x_ckp);
    assert_eq!(grad_w_std, grad_w_ckp);
}

#[test]
fn test_fused_attention() {
    let (b, h, s, d_k) = (2, 3, 4, 5);
    let dims = [b, h, s, d_k];
    let q_data: Vec<f32> = (0..b * h * s * d_k).map(|i| (i as f32 * 0.1).sin()).collect();
    let k_data: Vec<f32> = (0..b * h * s * d_k).map(|i| (i as f32 * 0.15).cos()).collect();
    let v_data: Vec<f32> = (0..b * h * s * d_k).map(|i| (i as f32 * 0.2).sin()).collect();
    // Causal mask: hidden above the diagonal
    let mut mask_data = vec![0.0f32; b * h * s * s];
    for plane in 0..b * h {
        for i in 0..s {
            for j in 0..s {
                if j > i {
                    mask_data[plane * s * s + i * s + j] = -1e9;
                }
            }
        }
    }

    let mut rt = ready();
    let q_std = leaf(&q_data, &dims, &mut rt);
    let k_std = leaf(&k_data, &dims, &mut rt);
    let v_std = leaf(&v_data, &dims, &mut rt);
    let mask = tensor(&mask_data, &[b, h, s, s], &mut rt);

    // Standard attention computation
    let k_t = k_std.transpose(2, 3, &mut rt);
    let scale = tensor(&[1.0 / (d_k as f32).sqrt()], &[1], &mut rt);
    let scores = q_std.matmul(&k_t, &mut rt).mul(&scale, &mut rt).add(&mask, &mut rt);
    let probs = scores.softmax(3, &mut rt);
    let out_std = probs.matmul(&v_std, &mut rt);

    let grad_data: Vec<f32> = (0..b * h * s * d_k).map(|i| (i as f32 * 0.05).cos()).collect();
    let grad_out = tensor(&grad_data, &dims, &mut rt);
    backward_impl(&out_std, &grad_out, &mut rt);
    let grads_std =
        (grad_of(&q_std, &mut rt), grad_of(&k_std, &mut rt), grad_of(&v_std, &mut rt));

    zero_gradients(&mut rt);
    reset_active_tape(&mut rt);

    // Fused attention
    let q_fused = leaf(&q_data, &dims, &mut rt);
    let k_fused = leaf(&k_data, &dims, &mut rt);
    let v_fused = leaf(&v_data, &dims, &mut rt);
    let out_fused = q_fused.fused_attention(&k_fused, &v_fused, Some(&mask), &mut rt);
    backward_impl(&out_fused, &grad_out, &mut rt);
    let grads_fused =
        (grad_of(&q_fused, &mut rt), grad_of(&k_fused, &mut rt), grad_of(&v_fused, &mut rt));

    // Parity checking
    let std_out_val = vec_of(&out_std, &mut rt);
    let fused_out_val = vec_of(&out_fused, &mut rt);
    for i in 0..std_out_val.len() {
        assert!((std_out_val[i] - fused_out_val[i]).abs() < 1e-4);
        assert!((grads_std.0[i] - grads_fused.0[i]).abs() < 1e-4);
        assert!((grads_std.1[i] - grads_fused.1[i]).abs() < 1e-4);
        assert!((grads_std.2[i] - grads_fused.2[i]).abs() < 1e-4);
    }
}

fn fill(n: usize, phase: f32) -> Vec<f32> {
    (0..n)
        .map(|i| {
            let x = i as f32;
            (x * 0.37 + phase).sin() * 0.5 + (x * 0.11 + phase).cos() * 0.25
        })
        .collect()
}

fn qkv(rt: &mut Runtime<F>) -> (Tensor, Tensor, Tensor) {
    let (dims, n) = ([2, 2, 4, 8], 128);
    (
        leaf(&fill(n, 0.0), &dims, rt),
        leaf(&fill(n, 1.3), &dims, rt),
        leaf(&fill(n, 2.7), &dims, rt),
    )
}

/// Weighted reduction: a plain sum would let different attention outputs share a gradient.
fn reduce(out: &Tensor, rt: &mut Runtime<F>) -> Tensor {
    let n = out.shape().numel();
    let coef: Vec<f32> = (0..n).map(|i| ((i as f32) * 0.19).sin() + 1.5).collect();
    let dims = out.shape().dims().to_vec();
    let coef_t = tensor(&coef, &dims, rt);
    out.mul(&coef_t, rt)
        .sum(0, false, rt)
        .sum(0, false, rt)
        .sum(0, false, rt)
        .sum(0, false, rt)
}

fn max_abs_diff(a: &[f32], b: &[f32]) -> f32 {
    a.iter().zip(b.iter()).fold(0.0f32, |m, (x, y)| m.max((x - y).abs()))
}

#[test]
fn fused_attention_matches_unfused_reference() {
    let (s, d_k) = (4, 8);
    let mut rt = ready();
    // A causal mask of rank 2, which broadcasts as in the reference `add`.
    let mut mask_data = vec![0.0f32; s * s];
    for row in 0..s {
        for col in 0..s {
            if col > row {
                mask_data[row * s + col] = -1e9;
            }
        }
    }
    let mask = tensor(&mask_data, &[s, s], &mut rt);
    let scale = tensor(&[1.0 / (d_k as f32).sqrt()], &[1], &mut rt);

    let (q, k, v) = qkv(&mut rt);
    let k_t = k.transpose(2, 3, &mut rt);
    let scores = q.matmul(&k_t, &mut rt).mul(&scale, &mut rt).add(&mask, &mut rt);
    let out_ref_t = scores.softmax(3, &mut rt).matmul(&v, &mut rt);
    let out_ref = vec_of(&out_ref_t, &mut rt);
    reduce(&out_ref_t, &mut rt).backward(&mut rt);
    let refs = (grad_of(&q, &mut rt), grad_of(&k, &mut rt), grad_of(&v, &mut rt));

    zero_gradients(&mut rt);
    reset_active_tape(&mut rt);
    let (q2, k2, v2) = qkv(&mut rt);
    let out_fused_t = q2.fused_attention(&k2, &v2, Some(&mask), &mut rt);
    let out_fused = vec_of(&out_fused_t, &mut rt);
    reduce(&out_fused_t, &mut rt).backward(&mut rt);
    let fused = (grad_of(&q2, &mut rt), grad_of(&k2, &mut rt), grad_of(&v2, &mut rt));

    // A degenerate (all-zero) output would make every comparison below pass.
    assert!(out_ref.iter().fold(0.0f32, |m, x| m.max(x.abs())) > 1e-4);
    assert!(max_abs_diff(&out_ref, &out_fused) < 1e-5);
    assert!(max_abs_diff(&refs.2, &fused.2) < 1e-4);
    assert!(max_abs_diff(&refs.0, &fused.0) < 1e-4);
    assert!(max_abs_diff(&refs.1, &fused.1) < 1e-4);
}

#[test]
fn nothing_is_recorded_while_autograd_is_off() {
    let mut rt = ready();
    let x = leaf(&[2.0], &[1], &mut rt);
    set_autograd_enabled(false, &mut rt);
    assert!(!is_autograd_enabled(&rt));
    let y = x.mul(&x, &mut rt);
    assert_eq!(y.node_id(&rt), None);
    assert!(rt.tape.nodes.is_empty());
    set_autograd_enabled(true, &mut rt);
    let z = x.mul(&x, &mut rt);
    assert!(z.node_id(&rt).is_some());
}

#[test]
fn tokens_of_an_older_tape_name_no_node() {
    let mut rt = ready();
    let x = leaf(&[2.0], &[1], &mut rt);
    let y = x.mul(&x, &mut rt);
    let token = y.node_id(&rt);
    assert!(rt.tape.live(token).is_some());
    reset_active_tape(&mut rt);
    assert_eq!(rt.tape.live(token), None);
    let packed = vearo::tape::Tape::pack(3, 7);
    assert_eq!(vearo::tape::Tape::unpack(packed), (3, 7));
}

#[test]
fn a_leaf_used_twice_gets_both_contributions() {
    let mut rt = ready();
    let x = leaf(&[3.0], &[1], &mut rt);
    let y = tensor(&[5.0], &[1], &mut rt);
    let a = x.mul(&x, &mut rt);
    let b = x.mul(&y, &mut rt);
    a.add(&b, &mut rt).backward(&mut rt);
    assert_eq!(grad_of(&x, &mut rt), vec![11.0]);
    assert!(y.grad(&mut rt).is_none());
}

#[test]
fn views_and_division_differentiate() {
    let g = analytic(
        |t, rt| {
            let d = tensor(&[1.0, 2.0, 4.0, 8.0, 16.0, 32.0], &[3, 1, 2], rt);
            let p = t.permute(&[2, 0, 1], rt);
            let q = p.div(&d, rt);
            q.reshape(Shape::from([6]), rt).sum(0, false, rt)
        },
        &[1.0, 2.0, 3.0, 4.0, 5.0, 6.0],
        &[1, 2, 3],
    );
    assert_eq!(g, vec![1.0, 0.25, 0.0625, 0.5, 0.125, 0.03125]);
    let g = analytic(
        |t, rt| {
            let c = tensor(&[1.0, 2.0, 3.0, 4.0], &[2, 2], rt);
            let u = t.transpose(0, 1, rt);
            let s = c.sub(&u, rt);
            s.mul(&c, rt).sum(0, false, rt).sum(0, false, rt)
        },
        &[1.0, 1.0, 1.0, 1.0],
        &[2, 2],
    );
    assert_eq!(g, vec![-1.0, -3.0, -2.0, -4.0]);
}

/// Small whole numbers, which products and sums keep exact.
fn whole(n: usize, shift: usize) -> Vec<f32> {
    (0..n).map(|i| ((i * 7 + shift * 5 + 3) % 11) as f32 - 4.0).collect()
}

/// What the output's gradient weighs against the output, and what each operand's gradient weighs
/// against that operand.
fn weights<G>(dims: &[&[usize]], f: G) -> (f32, Vec<f32>)
where
    G: Fn(&[Tensor], &mut Runtime<F>) -> Tensor,
{
    let mut rt = ready();
    let xs: Vec<Tensor> = dims
        .iter()
        .enumerate()
        .map(|(i, d)| leaf(&whole(d.iter().product(), i), d, &mut rt))
        .collect();
    let y = f(&xs, &mut rt);
    let out = vec_of(&y, &mut rt);
    let seed = whole(out.len(), 9);
    let dot = |a: &[f32], b: &[f32]| a.iter().zip(b).map(|(p, q)| p * q).sum::<f32>();
    let shape = y.shape().dims().to_vec();
    let g = tensor(&seed, &shape, &mut rt);
    backward_impl(&y, &g, &mut rt);
    let each = xs.iter().map(|x| dot(&grad_of(x, &mut rt), &vec_of(x, &mut rt))).collect();
    (dot(&seed, &out), each)
}

#[test]
fn gradients_weigh_what_the_output_weighs() {
    let (w, e) = weights(&[&[2, 1, 3], &[4, 1]], |x, rt| x[0].add(&x[1], rt));
    assert_eq!(w, e[0] + e[1]);
    let (w, e) = weights(&[&[3], &[2, 3]], |x, rt| x[0].sub(&x[1], rt));
    assert_eq!(w, e[0] + e[1]);
    let (w, e) = weights(&[&[2, 1, 3], &[4, 1]], |x, rt| x[0].mul(&x[1], rt));
    assert_eq!(e, vec![w, w]);
    let (w, e) = weights(&[&[2, 1, 2, 3], &[3, 3, 4]], |x, rt| x[0].matmul(&x[1], rt));
    assert_eq!(e, vec![w, w]);
    let (w, e) = weights(&[&[2, 3]], |x, rt| x[0].relu(rt));
    assert_eq!(e, vec![w]);
    let (w, e) = weights(&[&[2, 3]], |x, rt| x[0].reshape(Shape::from([3, 2]), rt));
    assert_eq!(e, vec![w]);
    let (w, e) = weights(&[&[2, 3, 4]], |x, rt| x[0].permute(&[2, 0, 1], rt));
    assert_eq!(e, vec![w]);
    let (w, e) = weights(&[&[2, 3, 4]], |x, rt| x[0].transpose(0, 2, rt));
    assert_eq!(e, vec![w]);
    for keep_dim in [true, false] {
        let (w, e) = weights(&[&[2, 3, 2]], |x, rt| x[0].sum(1, keep_dim, rt));
        assert_eq!(e, vec![w]);
        let (w, e) = weights(&[&[3, 4, 2]], |x, rt| x[0].mean(1, keep_dim, rt));
        assert_eq!(e, vec![w]);
    }
    let (w, e) = weights(&[&[4, 3]], |x, rt| {
        let ids = tensor(&[2.0, 0.0, 2.0], &[3], rt);
        ids.embedding(&x[0], rt)
    });
    assert_eq!(e, vec![w]);
    let (w, e) = weights(&[&[2, 2, 5, 4], &[3, 2, 3, 2], &[3]], |x, rt| {
        x[0].conv2d(&x[1], &x[2], 2, 1, rt)
    });
    assert_eq!(w, e[0] + e[2]);
    assert_eq!(w, e[1] + e[2]);
    let (w, e) = weights(&[&[1, 2, 4, 4]], |x, rt| x[0].avgpool2d(2, 2, 0, rt));
    assert_eq!(e, vec![w]);
    let (w, e) = weights(&[&[1, 2, 5, 5]], |x, rt| x[0].maxpool2d(3, 1, 1, rt));
    assert_eq!(e, vec![w]);
}

#[test]
fn recomputing_is_a_switch() {
    let mut rt = ready();
    assert!(!is_recomputing(&rt));
    set_recomputing(true, &mut rt);
    assert!(is_recomputing(&rt));
    set_recomputing(false, &mut rt);
    assert!(!is_recomputing(&rt));
}

/// A part of a model that can be run again.
#[derive(Clone, Copy)]
struct Step(fn(&Tensor, &mut Blocks<Step>, &mut Runtime<F>) -> Tensor);

impl Block<F> for Step {
    fn ready(&self, _rt: Runtime<F>, _x: Tensor) -> bool {
        true
    }

    fn ran(
        &self,
        _a: Runtime<F>,
        _b: Runtime<F>,
        _x: Tensor,
        _out: Tensor,
        _nested: Blocks<Self>,
    ) -> bool {
        true
    }

    fn run(&self, x: &Tensor, rt: &mut Runtime<F>) -> (Tensor, Blocks<Self>) {
        let mut nested = Blocks::new();
        let out = (self.0)(x, &mut nested, rt);
        (out, nested)
    }
}

fn square(x: &Tensor, _nested: &mut Blocks<Step>, rt: &mut Runtime<F>) -> Tensor {
    x.mul(x, rt)
}

fn square_of_relu(x: &Tensor, nested: &mut Blocks<Step>, rt: &mut Runtime<F>) -> Tensor {
    let positive = x.relu(rt);
    checkpoint_block(&positive, Step(square), nested, rt)
}

#[test]
fn blocks_are_found_under_their_last_node() {
    let mut blocks: Blocks<u8> = Blocks::new();
    assert!(blocks.find(0).is_none());
    blocks.record(3, 7);
    blocks.record(4, 8);
    blocks.record(3, 9);
    assert_eq!(blocks.find(3), Some(&9));
    assert_eq!(blocks.find(4), Some(&8));
    assert!(blocks.find(5).is_none());
    blocks.clear();
    assert!(blocks.find(3).is_none());
}

#[test]
fn checkpointed_blocks_are_replayed() {
    let mut rt = ready();
    let x = leaf(&[1.0, -2.0, 3.0], &[3], &mut rt);
    let mut blocks = Blocks::new();
    let y = checkpoint_block(&x, Step(square), &mut blocks, &mut rt);
    // A leaf for the input, and one node for the block.
    assert_eq!(rt.tape.nodes.len(), 2);
    assert!(blocks.find(1).is_some());
    let z = y.sum(0, false, &mut rt);
    let one = tensor(&[1.0], &[1], &mut rt);
    let seed = one.reshape(*z.shape(), &mut rt);
    backward_blocks(1, &z, &seed, &blocks, &mut rt);
    assert_eq!(grad_of(&x, &mut rt), vec![2.0, -4.0, 6.0]);
    assert_eq!(rt.tape.nodes.len(), 0);
}

#[test]
fn nested_blocks_are_replayed() {
    let mut rt = ready();
    let x = leaf(&[1.0, -2.0, 3.0], &[3], &mut rt);
    let mut blocks = Blocks::new();
    let y = checkpoint_block(&x, Step(square_of_relu), &mut blocks, &mut rt);
    let z = y.sum(0, false, &mut rt);
    let one = tensor(&[1.0], &[1], &mut rt);
    let seed = one.reshape(*z.shape(), &mut rt);
    backward_blocks(2, &z, &seed, &blocks, &mut rt);
    assert_eq!(grad_of(&x, &mut rt), vec![2.0, 0.0, 6.0]);
}

#[test]
fn a_pass_without_blocks_is_the_plain_pass() {
    let mut rt = ready();
    let x = leaf(&[1.0, -2.0, 3.0], &[3], &mut rt);
    let blocks: Blocks<Step> = Blocks::new();
    let z = x.mul(&x, &mut rt).sum(0, false, &mut rt);
    let one = tensor(&[1.0], &[1], &mut rt);
    let seed = one.reshape(*z.shape(), &mut rt);
    backward_blocks(0, &z, &seed, &blocks, &mut rt);
    assert_eq!(grad_of(&x, &mut rt), vec![2.0, -4.0, 6.0]);
}

#[test]
fn dropped_leaves_keep_their_gradient_without_the_hook() {
    let mut rt = ready();
    rt.hooks.drop = false;
    let x = leaf(&[2.0], &[1], &mut rt);
    let key = (x.storage_id(), x.device());
    let y = x.mul(&x, &mut rt);
    rt.release(x);
    y.backward(&mut rt);
    assert!(rt.gradients.get(key).is_some());
}

#[test]
fn gradients_weigh_against_changes_what_the_output_changes() {
    // In whole numbers the arithmetic is exact.
    let mut rt = ready();
    let (av, bv, da, db) = ([1.0, 2.0, 3.0, 4.0], [2.0, -1.0], [5.0, 0.0, -2.0, 1.0], [3.0, 4.0]);
    let a = leaf(&av, &[2, 2], &mut rt);
    let b = leaf(&bv, &[2], &mut rt);
    // sum over (a * b + a) * a, entry by entry
    let p = a.mul(&b, &mut rt);
    let q = p.add(&a, &mut rt);
    let y = q.mul(&a, &mut rt);
    let s = y.sum(0, false, &mut rt).sum(0, true, &mut rt);
    s.backward(&mut rt);
    let ga = grad_of(&a, &mut rt);
    let gb = grad_of(&b, &mut rt);
    let dot = |x: &[f32], z: &[f32]| x.iter().zip(z).map(|(u, v)| u * v).sum::<f32>();
    let weighed = dot(&ga, &da) + dot(&gb, &db);
    let mut change = 0.0;
    for i in 0..4 {
        let (x, w, dx, dw) = (av[i], bv[i % 2], da[i], db[i % 2]);
        change += (dx * w + x * dw + dx) * x + (x * w + x) * dx;
    }
    assert_eq!(weighed, change);
}
