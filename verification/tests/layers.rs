//! Layers, optimizers and training.
use vearo::autograd::backward::{backward_impl, read_tape};
use vearo::autograd::checkpoint::{begin_checkpoint, begin_replay, checkpoint, end_replay};
use vearo::autograd::numeric::numerical_grad;
use vearo::autograd::replay::leave_replay;
use vearo::autograd::store::{reset_active_tape, zero_gradients};
use vearo::autograd::sweep::Sweep;
use vearo::dense::Dense;
use vearo::device::Device;
use vearo::mutate::AdamSettings;
use vearo::nn::attention::MultiHeadAttention;
use vearo::nn::batchnorm::BatchNorm2d;
use vearo::nn::block::TransformerBlock;
use vearo::nn::conv::Conv2d;
use vearo::nn::dropout::Dropout;
use vearo::nn::embedding::{Embedding, LayerNorm};
use vearo::nn::gpt::SimpleGPT;
use vearo::nn::linear::Linear;
use vearo::nn::module::Module;
use vearo::nn::pooling::{AvgPool2d, MaxPool2d};
use vearo::nn::rng::SimpleRng;
use vearo::optim::{clip_grad_norm, AdamW, CosineSchedule, SGD};
use vearo::runtime::Runtime;
use vearo::scalar::{Constant, Scalar};
use vearo::shape::Shape;
use vearo::storage::NUM_SHARDS;
use vearo::switches::{
    is_recomputing, is_training, next_rng_counter, rng_counter, set_rng_counter, set_training,
};
use vearo::tensor::Tensor;

/// 32-bit floating point.
#[derive(Clone, Copy, Debug, PartialEq)]
struct F(f32);

impl Scalar for F {
    fn constant_spec(c: Constant) -> Self {
        F::constant(c)
    }

    fn add_spec(a: Self, b: Self) -> Self {
        Scalar::add(a, b)
    }

    fn sub_spec(a: Self, b: Self) -> Self {
        Scalar::sub(a, b)
    }

    fn mul_spec(a: Self, b: Self) -> Self {
        Scalar::mul(a, b)
    }

    fn div_spec(a: Self, b: Self) -> Self {
        Scalar::div(a, b)
    }

    fn mul_add_spec(a: Self, b: Self, c: Self) -> Self {
        a.mul_add(b, c)
    }

    fn gt_spec(a: Self, b: Self) -> bool {
        Scalar::gt(a, b)
    }

    fn eq_zero_spec(a: Self) -> bool {
        a.eq_zero()
    }

    fn exp_spec(a: Self) -> Self {
        a.exp()
    }

    fn ln_spec(a: Self) -> Self {
        a.ln()
    }

    fn sqrt_spec(a: Self) -> Self {
        a.sqrt()
    }

    fn tanh_spec(a: Self) -> Self {
        a.tanh()
    }

    fn cos_spec(a: Self) -> Self {
        a.cos()
    }

    fn powi_spec(a: Self, n: i32) -> Self {
        a.powi(n)
    }

    fn count_spec(n: usize) -> Self {
        F::count(n)
    }

    fn fraction_spec(n: u64) -> Self {
        F::fraction(n)
    }

    fn index_spec(a: Self) -> Option<usize> {
        a.index()
    }

    fn bits_spec(a: Self) -> u32 {
        a.bits()
    }

    fn from_bits_spec(b: u32) -> Self {
        F::from_bits(b)
    }

    fn lemma_bits(_a: Self) {}

    fn constant(c: Constant) -> Self {
        F(match c {
            Constant::Zero => 0.0,
            Constant::One => 1.0,
            Constant::NegOne => -1.0,
            Constant::Half => 0.5,
            Constant::Two => 2.0,
            Constant::Six => 6.0,
            Constant::Pi => std::f32::consts::PI,
            Constant::NegInfinity => f32::NEG_INFINITY,
            Constant::Infinity => f32::INFINITY,
            Constant::Epsilon => f32::EPSILON,
            Constant::MaskFloor => -1e9,
            Constant::SparkHeight => 1.15,
            Constant::GeluScale => 0.797_884_56,
            Constant::GeluCubic => 0.044_715,
            Constant::GeluSlope => 0.134_145,
            Constant::AttentionFloor => 1e-9,
            Constant::ClipFloor => 1e-6,
            Constant::NormFloor => 1e-5,
        })
    }

    fn add(self, b: Self) -> Self {
        F(self.0 + b.0)
    }

    fn sub(self, b: Self) -> Self {
        F(self.0 - b.0)
    }

    fn mul(self, b: Self) -> Self {
        F(self.0 * b.0)
    }

    fn div(self, b: Self) -> Self {
        F(self.0 / b.0)
    }

    fn mul_add(self, b: Self, c: Self) -> Self {
        F(self.0.mul_add(b.0, c.0))
    }

    fn gt(self, b: Self) -> bool {
        self.0 > b.0
    }

    fn eq_zero(self) -> bool {
        self.0 == 0.0
    }

    fn exp(self) -> Self {
        F(self.0.exp())
    }

    fn ln(self) -> Self {
        F(self.0.ln())
    }

    fn sqrt(self) -> Self {
        F(self.0.sqrt())
    }

    fn tanh(self) -> Self {
        F(self.0.tanh())
    }

    fn cos(self) -> Self {
        F(self.0.cos())
    }

    fn powi(self, n: i32) -> Self {
        F(self.0.powi(n))
    }

    fn count(n: usize) -> Self {
        F(n as f32)
    }

    fn fraction(n: u64) -> Self {
        F(n as f32 / 18_446_744_073_709_551_616.0)
    }

    fn index(self) -> Option<usize> {
        if self.0 >= 0.0 {
            Some(self.0.round() as usize)
        } else {
            None
        }
    }

    fn bits(self) -> u32 {
        self.0.to_bits()
    }

    fn from_bits(b: u32) -> Self {
        F(f32::from_bits(b))
    }
}

fn fs(v: &[f32]) -> Vec<F> {
    v.iter().map(|x| F(*x)).collect()
}

fn ready() -> Runtime<F> {
    let mut rt = Runtime::new();
    vearo::init(&mut rt);
    rt
}

fn tensor(v: &[f32], dims: &[usize], rt: &mut Runtime<F>) -> Tensor {
    Tensor::from_f32(&fs(v), Shape::new(dims), rt)
}

fn leaf(v: &[f32], dims: &[usize], rt: &mut Runtime<F>) -> Tensor {
    let t = tensor(v, dims, rt);
    t.set_requires_grad(true, rt);
    t
}

fn vec_of(t: &Tensor, rt: &mut Runtime<F>) -> Vec<f32> {
    let c = t.contiguous(rt);
    c.to_vec_f32(rt).iter().map(|x| x.0).collect()
}

fn grad_of(t: &Tensor, rt: &mut Runtime<F>) -> Vec<f32> {
    let g = t.grad(rt).unwrap();
    vec_of(&g, rt)
}

/// Runs a block without recording it, and records that it can be run again.
fn checkpointed(
    x: &Tensor,
    f: &dyn Fn(&Tensor, &mut Runtime<F>) -> Tensor,
    rt: &mut Runtime<F>,
) -> Tensor {
    let suspended = begin_checkpoint(rt);
    let out = f(x, rt);
    let _ = checkpoint(x, &out, suspended, rt);
    out
}

/// Differentiates a scalar, running the block again where it was recorded.
fn backward_through(
    out: &Tensor,
    f: &dyn Fn(&Tensor, &mut Runtime<F>) -> Tensor,
    rt: &mut Runtime<F>,
) {
    let token = out.node_id(rt);
    let at = rt.tape.live(token).unwrap();
    let saved = read_tape(rt);
    let one = Dense::new(*out.shape(), vec![F(1.0); out.shape().numel()]);
    let mut sweep = Sweep::start(rt.tape.nodes.len(), at, &one);
    while let Some(node) = sweep.resume(&rt.tape.nodes, &saved) {
        let g = sweep.gradient(node).unwrap().duplicate();
        let replay = begin_replay(node, rt);
        let y = f(&replay.x, rt);
        end_replay(&replay, rt);
        let shape = *g.shape();
        let grad = Tensor::from_f32(&g.into_data(), shape, rt);
        backward_impl(&y, &grad, rt);
        let gx = leave_replay(replay, rt);
        sweep.replayed(&rt.tape.nodes, &gx);
    }
    rt.finish_backward(&sweep);
}

#[test]
fn test_linear_layer() {
    let mut rt = ready();
    let layer = Linear::new(3, 2, true, 42, &mut rt);
    assert_eq!(layer.weight.shape().dims(), &[2, 3]);
    assert!(layer.bias.is_some());
    assert_eq!(layer.bias.as_ref().unwrap().shape().dims(), &[2]);

    let input = tensor(&[1.0, 2.0, 3.0], &[1, 3], &mut rt);
    let output = layer.forward(&input, &mut rt);
    assert_eq!(output.shape().dims(), &[1, 2]);

    // x W^T + b, element by element
    let w = vec_of(&layer.weight, &mut rt);
    let b = vec_of(layer.bias.as_ref().unwrap(), &mut rt);
    let y = vec_of(&output, &mut rt);
    for o in 0..2 {
        let dot = w[3 * o] + 2.0 * w[3 * o + 1] + 3.0 * w[3 * o + 2];
        assert!((y[o] - (dot + b[o])).abs() < 1e-5);
    }
}

#[test]
fn test_sgd_step() {
    let mut rt = ready();
    let x = leaf(&[1.0, 2.0], &[2], &mut rt);
    let grad = tensor(&[0.1, 0.2], &[2], &mut rt);
    let mut velocity = vec![F(0.0), F(0.0)];
    x.sgd_step(&grad, &mut velocity, F(0.1), F(0.9), F(0.01), &mut rt);
    // 1.0 - 0.1 * (0.0 + 0.1 + 0.01 * 1.0) = 0.989
    assert!((x.get_f32(0, &rt).0 - 0.989).abs() < 1e-5);
    assert!((velocity[0].0 - 0.11).abs() < 1e-6);
}

#[test]
fn test_set_lr() {
    let mut opt = AdamW::new(vec![], F(0.1), F(0.9), F(0.999), F(1e-8), F(0.0));
    assert!((opt.lr().0 - 0.1).abs() < 1e-6);
    opt.set_lr(F(0.05));
    assert!((opt.lr().0 - 0.05).abs() < 1e-6);
}

#[test]
fn test_cosine_schedule() {
    let s = CosineSchedule::new(F(0.1), F(0.01), 10, 100);

    // Warmup ramps from ~0 up toward base over `warmup_steps`.
    assert!((s.lr_at(0).0 - 0.1 * 1.0 / 11.0).abs() < 1e-6);
    assert!((s.lr_at(9).0 - 0.1 * 10.0 / 11.0).abs() < 1e-6);

    // First post-warmup step (decay ratio 0) is exactly base_lr.
    assert!((s.lr_at(10).0 - 0.1).abs() < 1e-6);

    // Midpoint of decay: progress = 45/90 = 0.5 -> coeff 0.5.
    let expected_mid = 0.01 + 0.5 * (0.1 - 0.01);
    assert!((s.lr_at(55).0 - expected_mid).abs() < 1e-6);

    // End of decay hits min_lr; beyond `total_steps` stays there.
    assert!((s.lr_at(100).0 - 0.01).abs() < 1e-6);
    assert!((s.lr_at(200).0 - 0.01).abs() < 1e-6);

    // Warmup increases, decay decreases.
    assert!(s.lr_at(1).0 > s.lr_at(0).0);
    assert!(s.lr_at(60).0 < s.lr_at(50).0);
}

#[test]
fn test_clip_grad_norm() {
    let mut rt = ready();
    let x = leaf(&[3.0, 4.0], &[2], &mut rt);
    // loss = sum(x^2) -> grad = 2x = [6, 8], so the global norm is 10.
    let loss = x.mul(&x, &mut rt).sum(0, false, &mut rt);
    loss.backward(&mut rt);

    let params = vec![x];
    let norm = clip_grad_norm(&params, F(5.0), &mut rt);
    assert!((norm.0 - 10.0).abs() < 1e-4, "pre-clip norm should be 10, got {}", norm.0);

    // Scaled by 5/10 = 0.5 -> [3, 4].
    let g = grad_of(&params[0], &mut rt);
    assert!((g[0] - 3.0).abs() < 1e-3);
    assert!((g[1] - 4.0).abs() < 1e-3);

    // Below the limit nothing is scaled.
    let norm = clip_grad_norm(&params, F(50.0), &mut rt);
    assert!((norm.0 - 5.0).abs() < 1e-3);
    assert_eq!(grad_of(&params[0], &mut rt), g);
}

#[test]
fn test_tensor_operators_and_dispatched_methods() {
    let mut rt = ready();
    let x = tensor(&[1.0, 2.0, 3.0], &[3], &mut rt);
    let y = tensor(&[10.0, 20.0, 30.0], &[3], &mut rt);

    let z_method = x.add(&y, &mut rt);
    assert_eq!(z_method.shape().dims(), &[3]);
    assert_eq!(vec_of(&z_method, &mut rt), vec![11.0, 22.0, 33.0]);

    let row = x.reshape(Shape::from([1, 3]), &mut rt);
    let column = y.reshape(Shape::from([3, 1]), &mut rt);
    let p = row.matmul(&column, &mut rt);
    assert_eq!(p.shape().dims(), &[1, 1]);
}

#[test]
fn test_batchnorm_gradcheck_training() {
    let (n, c, h, w) = (2usize, 3usize, 2usize, 2usize);
    let dims = [n, c, h, w];
    let numel = n * c * h * w;
    let xd: Vec<f32> = (0..numel).map(|i| (i as f32 * 0.37).sin() * 1.5 + 0.2).collect();
    let coefd: Vec<f32> = (0..numel).map(|i| (i as f32 * 0.71).cos() + 1.3).collect();
    let (gd, bd) = ([1.2, 0.8, 1.5], [0.1, -0.2, 0.3]);

    // The output is weighted: its plain sum does not depend on the input at all.
    let forward = |x: &Tensor, gamma: &Tensor, beta: &Tensor, rt: &mut Runtime<F>| {
        let rm = tensor(&vec![0.0f32; c], &[c], rt);
        let rv = tensor(&vec![1.0f32; c], &[c], rt);
        let coef = tensor(&coefd, &dims, rt);
        x.batchnorm(gamma, beta, &rm, &rv, true, F(0.1), F(1e-5), rt)
            .mul(&coef, rt)
            .reshape(Shape::from([numel]), rt)
            .sum(0, false, rt)
    };

    let mut rt = ready();
    set_training(true, &mut rt);
    let x = leaf(&xd, &dims, &mut rt);
    let gamma = leaf(&gd, &[c], &mut rt);
    let beta = leaf(&bd, &[c], &mut rt);
    let out = forward(&x, &gamma, &beta, &mut rt);
    out.backward(&mut rt);
    let gx_ana = grad_of(&x, &mut rt);
    let gg_ana = grad_of(&gamma, &mut rt);
    let gb_ana = grad_of(&beta, &mut rt);

    let numeric = |which: usize, at: &[f32]| -> Vec<f32> {
        let g = numerical_grad(
            |v: &Vec<F>| {
                let mut rt = ready();
                let x = tensor(&xd, &dims, &mut rt);
                let gamma = tensor(&gd, &[c], &mut rt);
                let beta = tensor(&bd, &[c], &mut rt);
                let shape = if which == 0 { Shape::new(&dims) } else { Shape::from([c]) };
                let t = Tensor::from_f32(v, shape, &mut rt);
                let out = match which {
                    0 => forward(&t, &gamma, &beta, &mut rt),
                    1 => forward(&x, &t, &beta, &mut rt),
                    _ => forward(&x, &gamma, &t, &mut rt),
                };
                out.get_f32(0, &rt)
            },
            &fs(at),
            F(1e-3),
        );
        g.iter().map(|v| v.0).collect()
    };

    let gx_num = numeric(0, &xd);
    // If the gradient were ~0 the comparison would be vacuous.
    let maxabs = gx_num.iter().fold(0.0f32, |a, &b| a.max(b.abs()));
    assert!(maxabs > 1e-3);
    for i in 0..numel {
        assert!((gx_ana[i] - gx_num[i]).abs() < 5e-2, "grad_x[{}]", i);
    }
    let gg_num = numeric(1, &gd);
    let gb_num = numeric(2, &bd);
    for i in 0..c {
        assert!((gg_ana[i] - gg_num[i]).abs() < 5e-2, "grad_gamma[{}]", i);
        assert!((gb_ana[i] - gb_num[i]).abs() < 5e-2, "grad_beta[{}]", i);
    }
}

#[test]
fn test_batchnorm_running_stats_lifecycle() {
    let mut rt = ready();
    let (n, c, h, w) = (2usize, 2usize, 2usize, 2usize);
    let momentum = 0.1f32;
    let bn = BatchNorm2d::new(c, F(momentum), F(1e-5), &mut rt);

    // Channel 0 is all 2.0, channel 1 is all 6.0 -> batch means 2.0 / 6.0, batch var 0.
    let xd: Vec<f32> =
        (0..n * c * h * w).map(|i| if (i / (h * w)) % c == 0 { 2.0 } else { 6.0 }).collect();
    let x = tensor(&xd, &[n, c, h, w], &mut rt);

    // Training: running stats move toward the batch stats.
    set_training(true, &mut rt);
    let _ = bn.forward(&x, &mut rt);
    let rm = vec_of(&bn.running_mean, &mut rt);
    let rv = vec_of(&bn.running_var, &mut rt);
    assert!((rm[0] - momentum * 2.0).abs() < 1e-5);
    assert!((rm[1] - momentum * 6.0).abs() < 1e-5);
    // batch var is 0, so running_var = (1-m)*1.0 + m*0 = 0.9
    assert!((rv[0] - 0.9).abs() < 1e-5);

    // Eval: running stats must be frozen.
    set_training(false, &mut rt);
    let before_m = vec_of(&bn.running_mean, &mut rt);
    let before_v = vec_of(&bn.running_var, &mut rt);
    let _ = bn.forward(&x, &mut rt);
    assert_eq!(before_m, vec_of(&bn.running_mean, &mut rt));
    assert_eq!(before_v, vec_of(&bn.running_var, &mut rt));
}

#[test]
fn dropout_inside_checkpoint_is_reproducible() {
    let mut rt = ready();
    set_training(true, &mut rt);
    let x = leaf(&[0.5, -1.5, 2.0, 0.25, 1.0, -0.75], &[2, 3], &mut rt);

    // Reference: no checkpointing.
    let drop = Dropout::new(F(0.25), 7);
    set_rng_counter(0, &mut rt);
    zero_gradients(&mut rt);
    reset_active_tape(&mut rt);
    let plain = drop.forward(&x, &mut rt).sum(0, false, &mut rt).sum(0, false, &mut rt);
    plain.backward(&mut rt);
    let grad_plain = grad_of(&x, &mut rt);

    // Checkpointed, rewound to the same counter.
    set_rng_counter(0, &mut rt);
    zero_gradients(&mut rt);
    reset_active_tape(&mut rt);
    let drop2 = Dropout::new(F(0.25), 7);
    let block = move |inp: &Tensor, rt: &mut Runtime<F>| drop2.forward(inp, rt);
    let ckp = checkpointed(&x, &block, &mut rt).sum(0, false, &mut rt).sum(0, false, &mut rt);
    backward_through(&ckp, &block, &mut rt);
    let grad_ckp = grad_of(&x, &mut rt);

    // Two all-zero gradients would agree trivially.
    let live = grad_plain.iter().filter(|g| g.abs() > 1e-9).count();
    assert!(live > 0);
    for (a, b) in grad_plain.iter().zip(grad_ckp.iter()) {
        assert!((a - b).abs() < 1e-6);
    }
    assert!(!is_recomputing(&rt));
}

#[test]
fn batchnorm_running_stats_not_updated_twice() {
    let mut rt = ready();
    set_training(true, &mut rt);
    let x = leaf(&[1.0, 2.0, 3.0, 4.0, 5.0, 6.0, 7.0, 8.0], &[2, 2, 1, 2], &mut rt);
    let reduce = |t: &Tensor, rt: &mut Runtime<F>| {
        t.sum(0, false, rt).sum(0, false, rt).sum(0, false, rt).sum(0, false, rt)
    };

    // Reference: one plain forward advances the running stats once.
    let bn_plain = BatchNorm2d::new(2, F(0.1), F(1e-5), &mut rt);
    let y = bn_plain.forward(&x, &mut rt);
    let out = reduce(&y, &mut rt);
    out.backward(&mut rt);
    let mean_plain = vec_of(&bn_plain.running_mean, &mut rt);
    let var_plain = vec_of(&bn_plain.running_var, &mut rt);

    // Checkpointed: the block runs twice for a single step.
    let bn_ckp = BatchNorm2d::new(2, F(0.1), F(1e-5), &mut rt);
    zero_gradients(&mut rt);
    reset_active_tape(&mut rt);
    let block = |inp: &Tensor, rt: &mut Runtime<F>| bn_ckp.forward(inp, rt);
    let y2 = checkpointed(&x, &block, &mut rt);
    let out2 = reduce(&y2, &mut rt);
    backward_through(&out2, &block, &mut rt);
    let mean_ckp = vec_of(&bn_ckp.running_mean, &mut rt);
    let var_ckp = vec_of(&bn_ckp.running_var, &mut rt);

    for (a, b) in mean_plain.iter().zip(mean_ckp.iter()) {
        assert!((a - b).abs() < 1e-6);
    }
    for (a, b) in var_plain.iter().zip(var_ckp.iter()) {
        assert!((a - b).abs() < 1e-6);
    }
}

#[test]
fn test_dropout_eval_is_identity() {
    let mut rt = ready();
    set_training(false, &mut rt);
    let x = tensor(&[1.0, 2.0, 3.0, 4.0], &[4], &mut rt);
    let d = Dropout::new(F(0.5), 7);
    let y = d.forward(&x, &mut rt);
    assert_eq!(vec_of(&y, &mut rt), vec_of(&x, &mut rt));
}

#[test]
fn test_dropout_train_masks_and_scales() {
    let mut rt = ready();
    set_training(true, &mut rt);
    let n = 10_000;
    let p = 0.5f32;
    let scale = 1.0 / (1.0 - p);
    let x = tensor(&vec![1.0f32; n], &[n], &mut rt);
    let d = Dropout::new(F(p), 42);
    let out = d.forward(&x, &mut rt);
    let y = vec_of(&out, &mut rt);

    // Every element is either dropped (0) or kept and scaled by 1/(1-p).
    for &v in &y {
        assert!(v == 0.0 || (v - scale).abs() < 1e-5, "unexpected value {}", v);
    }
    // Kept fraction ~ (1-p), and the expectation is preserved (mean ~ 1.0).
    let kept = y.iter().filter(|&&v| v != 0.0).count() as f32 / n as f32;
    assert!((kept - (1.0 - p)).abs() < 0.03, "kept fraction {}", kept);
    let mean = y.iter().sum::<f32>() / n as f32;
    assert!((mean - 1.0).abs() < 0.05, "mean {}", mean);
}

#[test]
fn test_dropout_grad_through_mask() {
    let mut rt = ready();
    set_training(true, &mut rt);
    let x = leaf(&[1.0, 2.0, 3.0, 4.0, 5.0, 6.0, 7.0, 8.0], &[8], &mut rt);
    let d = Dropout::new(F(0.5), 123);
    let y = d.forward(&x, &mut rt);
    let y_vec = vec_of(&y, &mut rt);
    y.sum(0, false, &mut rt).backward(&mut rt);
    let g = grad_of(&x, &mut rt);

    // d(loss)/dx_i = mask_i (0 if dropped, 1 / (1 - 0.5) if kept).
    for i in 0..8 {
        if y_vec[i] == 0.0 {
            assert_eq!(g[i], 0.0, "dropped elem {} must have zero grad", i);
        } else {
            assert!((g[i] - 2.0).abs() < 1e-5, "kept elem {}", i);
        }
    }
}

fn live_cpu_slots(rt: &Runtime<F>) -> usize {
    (0..NUM_SHARDS)
        .map(|i| {
            let shard = rt.mem.arena.get_cpu_shard(i);
            shard.slots.len() - shard.free_indices.len()
        })
        .sum()
}

#[test]
fn test_no_memory_growth() {
    let mut rt = ready();
    let (b, c, h, w) = (32usize, 3usize, 16usize, 16usize);
    let flat = 16 * 8 * 8;
    let conv = Conv2d::new(c, 16, 3, 1, 1, true, 1, &mut rt);
    let bn = BatchNorm2d::new(16, F(0.1), F(1e-5), &mut rt);
    let pool = MaxPool2d::new(2, 2, 0);
    let fc = Linear::new(flat, 10, true, 2, &mut rt);

    let mut params = conv.parameters(&mut rt);
    params.extend(bn.parameters(&mut rt));
    params.extend(fc.parameters(&mut rt));
    let mut opt = AdamW::new(params, F(1e-3), F(0.9), F(0.999), F(1e-8), F(1e-4));

    let xd: Vec<f32> = (0..b * c * h * w).map(|i| (i as f32 * 0.013).sin()).collect();
    let yd: Vec<f32> = (0..b).map(|i| (i % 10) as f32).collect();
    set_training(true, &mut rt);

    let mut losses = Vec::new();
    let mut step = |rt: &mut Runtime<F>, opt: &mut AdamW<F>| {
        zero_gradients(rt);
        reset_active_tape(rt);
        let x = tensor(&xd, &[b, c, h, w], rt);
        let y = tensor(&yd, &[b], rt);
        let t1 = conv.forward(&x, rt);
        let t2 = bn.forward(&t1, rt);
        let t3 = t2.relu(rt);
        let t4 = pool.forward(&t3, rt);
        let t5 = t4.reshape(Shape::from([b, flat]), rt);
        let t6 = fc.forward(&t5, rt);
        let loss = t6.cross_entropy(&y, rt);
        loss.backward(rt);
        opt.step(rt);
        losses.push(loss.get_f32(0, rt).0);
        for t in vec![x, y, t1, t2, t3, t4, t5, t6, loss] {
            rt.release(t);
        }
    };

    // Warm up so one-time allocations are not counted as growth.
    for _ in 0..3 {
        step(&mut rt, &mut opt);
    }
    let before = live_cpu_slots(&rt);
    for _ in 0..25 {
        step(&mut rt, &mut opt);
    }
    assert!(live_cpu_slots(&rt) <= before, "storage is not being reclaimed");
    // Training on one batch lowers its loss.
    assert!(losses[27] < losses[0]);
}

#[test]
fn generator_draws_are_fixed_by_the_seed() {
    let mut a = SimpleRng::new(42);
    let mut b = SimpleRng::new(42);
    for _ in 0..100 {
        assert_eq!(a.next_u64(), b.next_u64());
    }
    // A zero seed would stay at zero.
    let mut z = SimpleRng::new(0);
    assert!(z.next_u64() != 0);
    for _ in 0..1000 {
        let x: F = z.next_f32();
        assert!(x.0 >= 0.0 && x.0 < 1.0);
        let u = z.next_uniform(F(-2.0), F(3.0));
        assert!(u.0 >= -2.0 && u.0 <= 3.0);
    }
}

#[test]
fn counter_advances_once_per_draw() {
    let mut rt = ready();
    set_rng_counter(5, &mut rt);
    assert_eq!(next_rng_counter(&mut rt), 5);
    assert_eq!(rng_counter(&rt), 6);
    set_training(false, &mut rt);
    assert!(!is_training(&rt));
    // Nothing is drawn outside training.
    let x = tensor(&[1.0], &[1], &mut rt);
    let _ = Dropout::new(F(0.5), 1).forward(&x, &mut rt);
    assert_eq!(rng_counter(&rt), 6);
    set_training(true, &mut rt);
    let _ = Dropout::new(F(0.5), 1).forward(&x, &mut rt);
    assert_eq!(rng_counter(&rt), 7);
}

#[test]
fn optimizers_move_each_parameter_by_its_own_gradient() {
    let mut rt = ready();
    let a = leaf(&[1.0, 2.0], &[2], &mut rt);
    let b = leaf(&[3.0], &[1], &mut rt);
    let c = leaf(&[9.0], &[1], &mut rt);
    let s = a.mul(&a, &mut rt).sum(0, true, &mut rt);
    s.mul(&b, &mut rt).sum(0, false, &mut rt).backward(&mut rt);
    assert_eq!(grad_of(&a, &mut rt), vec![6.0, 12.0]);
    assert_eq!(grad_of(&b, &mut rt), vec![5.0]);

    let params = vec![a.clone(&mut rt), b.clone(&mut rt), c.clone(&mut rt)];
    let mut sgd = SGD::new(params, F(0.5), F(0.0), F(0.0));
    sgd.step(&mut rt);
    assert_eq!(vec_of(&a, &mut rt), vec![-2.0, -4.0]);
    assert_eq!(vec_of(&b, &mut rt), vec![0.5]);
    assert_eq!(vec_of(&c, &mut rt), vec![9.0]);
    assert_eq!(sgd.lr(), F(0.5));
    sgd.set_lr(F(0.25));
    assert_eq!(sgd.lr(), F(0.25));

    // The first step of Adam moves by the learning rate against the sign of the gradient.
    let params = vec![b.clone(&mut rt), c.clone(&mut rt)];
    let mut adam = AdamW::new(params, F(0.125), F(0.9), F(0.999), F(0.0), F(0.0));
    adam.step(&mut rt);
    assert!((vec_of(&b, &mut rt)[0] - 0.375).abs() < 1e-5);
    assert_eq!(vec_of(&c, &mut rt), vec![9.0]);
    assert_eq!(adam.t, 1);
}

#[test]
fn adamw_decays_weights_apart_from_the_moments() {
    let mut rt = ready();
    let x = tensor(&[2.0], &[1], &mut rt);
    let g = tensor(&[0.0], &[1], &mut rt);
    let (mut m, mut v) = (vec![F(0.0)], vec![F(0.0)]);
    let settings = AdamSettings {
        lr: F(0.5),
        beta1: F(0.9),
        beta2: F(0.999),
        epsilon: F(1e-8),
        weight_decay: F(0.25),
    };
    x.adamw_step(&g, &mut m, &mut v, 1, settings, &mut rt);
    // 2 - 0.5 * 0.25 * 2
    assert!((x.get_f32(0, &rt).0 - 1.75).abs() < 1e-6);
    assert_eq!(m, vec![F(0.0)]);
}

#[test]
fn layers_have_the_shapes_they_promise() {
    let mut rt = ready();
    let e = Embedding::new(5, 4, 1, &mut rt);
    let ids = tensor(&[0.0, 4.0, 2.0], &[3], &mut rt);
    let rows = e.forward(&ids, &mut rt);
    assert_eq!(rows.shape().dims(), &[3, 4]);
    let table = vec_of(&e.weight, &mut rt);
    assert_eq!(vec_of(&rows, &mut rt)[4..8], table[16..20]);

    let ln = LayerNorm::new(4, F(1e-5), &mut rt);
    let y = ln.forward(&rows, &mut rt);
    assert_eq!(y.shape().dims(), &[3, 4]);
    assert_eq!(ln.parameters(&mut rt).len(), 2);

    let attn = MultiHeadAttention::new(4, 2, 3, &mut rt);
    let x = tensor(&(0..24).map(|i| (i as f32).sin()).collect::<Vec<f32>>(), &[2, 3, 4], &mut rt);
    let z = attn.forward(&x, None, &mut rt);
    assert_eq!(z.shape().dims(), &[2, 3, 4]);
    assert_eq!(attn.parameters(&mut rt).len(), 8);

    let block: TransformerBlock<F> = TransformerBlock::new(4, 2, 8, 5, &mut rt);
    let z = block.forward(&x, None, &mut rt);
    assert_eq!(z.shape().dims(), &[2, 3, 4]);

    let image = tensor(&[1.0, 2.0, 3.0, 4.0], &[1, 1, 2, 2], &mut rt);
    assert_eq!(vec_of(&AvgPool2d::new(2, 2, 0).forward(&image, &mut rt), &mut rt), vec![2.5]);
    assert_eq!(vec_of(&MaxPool2d::new(2, 2, 0).forward(&image, &mut rt), &mut rt), vec![4.0]);
}

#[test]
fn a_small_language_model_learns_its_targets() {
    let mut rt = ready();
    let gpt: SimpleGPT<F> = SimpleGPT::new(7, 4, 8, 2, 1, 16, 11, &mut rt);
    let x = tensor(&[1.0, 2.0, 3.0, 4.0, 0.0, 5.0], &[2, 3], &mut rt);
    let targets = tensor(&[2.0, 3.0, 4.0, 0.0, 5.0, 6.0], &[2, 3], &mut rt);
    let (logits, none) = gpt.forward(&x, None, &mut rt);
    assert_eq!(logits.shape().dims(), &[6, 7]);
    assert!(none.is_none());

    let params = gpt.parameters(&mut rt);
    let mut opt = AdamW::new(params, F(0.01), F(0.9), F(0.999), F(1e-8), F(0.0));
    let mut losses = Vec::new();
    for _ in 0..20 {
        zero_gradients(&mut rt);
        reset_active_tape(&mut rt);
        let (_, loss) = gpt.forward(&x, Some(&targets), &mut rt);
        let loss = loss.unwrap();
        loss.backward(&mut rt);
        opt.step(&mut rt);
        losses.push(loss.get_f32(0, &rt).0);
    }
    assert!(losses[19] < 0.5 * losses[0]);
}

#[test]
fn causal_scores_ignore_later_tokens() {
    let mut rt = ready();
    let gpt: SimpleGPT<F> = SimpleGPT::new(7, 4, 8, 2, 2, 16, 11, &mut rt);
    let a = tensor(&[1.0, 2.0, 3.0], &[1, 3], &mut rt);
    let b = tensor(&[1.0, 2.0, 6.0], &[1, 3], &mut rt);
    let (la, _) = gpt.forward(&a, None, &mut rt);
    let (lb, _) = gpt.forward(&b, None, &mut rt);
    let (va, vb) = (vec_of(&la, &mut rt), vec_of(&lb, &mut rt));
    assert_eq!(va[..14], vb[..14]);
    assert!(va[14..] != vb[14..]);
}

#[test]
fn moving_a_layer_keeps_its_weights() {
    let mut rt = ready();
    let layer = Linear::new(3, 2, true, 42, &mut rt);
    let there = layer.to(Device::Cpu, &mut rt);
    assert_eq!(vec_of(&layer.weight, &mut rt), vec_of(&there.weight, &mut rt));
    assert!(there.weight.requires_grad(&rt));
    let conv = Conv2d::new(1, 2, 3, 1, 1, false, 4, &mut rt);
    let there = conv.to(Device::Cpu, &mut rt);
    assert!(there.bias.is_none());
    assert_eq!(there.weight.shape().dims(), &[2, 1, 3, 3]);
}

#[test]
fn layers_record_what_they_compute() {
    let mut rt = ready();
    let layer = Linear::new(3, 2, true, 42, &mut rt);
    let input = leaf(&[1.0, 2.0, 3.0], &[1, 3], &mut rt);
    let output = layer.forward(&input, &mut rt);
    assert!(output.requires_grad(&rt));
    // Leaves for weight, input and bias; nodes for transposition, product and sum.
    assert_eq!(rt.tape.nodes.len(), 6);
    assert_eq!(rt.tape.live(output.node_id(&rt)), Some(5));
    // Without autograd nothing is recorded.
    vearo::switches::set_autograd_enabled(false, &mut rt);
    let silent = layer.forward(&input, &mut rt);
    assert!(!silent.requires_grad(&rt));
    assert_eq!(rt.tape.nodes.len(), 6);
}
