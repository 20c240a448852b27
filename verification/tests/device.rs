//! What is asked of the device.
use vearo::autograd::device_choice::Action;
use vearo::autograd::device_pass::{DevicePass, Stage};
use vearo::autograd::store::zero_gradients;
use vearo::checkpoint::{encode_checkpoint, load_checkpoint};
use vearo::cuda::command::{Command, Kernel, Launch};
use vearo::cuda::dispatch::dispatch_packed;
use vearo::cuda::slots::{CudaSlots, Served};
use vearo::dense::Dense;
use vearo::device::Device;
use vearo::fixed::Fixed;
use vearo::mutate::AdamSettings;
use vearo::nn::embedding::Embedding;
use vearo::nn::module::Module;
use vearo::nn::pooling::{AvgPool2d, MaxPool2d};
use vearo::op::OpType;
use vearo::runtime::Runtime;
use vearo::shape::Shape;
use vearo::tensor::Tensor;

const GPU: Device = Device::Cuda(0);

fn ready() -> Runtime<Fixed> {
    let mut rt = Runtime::new();
    vearo::init(&mut rt);
    rt
}

fn numbers(v: &[i32]) -> Vec<Fixed> {
    v.iter().map(|x| Fixed { raw: x * 65536 }).collect()
}

fn on_gpu(v: &[i32], dims: &[usize], rt: &mut Runtime<Fixed>) -> Tensor {
    Tensor::from_f32_cuda(&numbers(v), Shape::new(dims), GPU, rt)
}

fn last_launch(rt: &Runtime<Fixed>) -> &Launch<Fixed> {
    match rt.queue.last() {
        Some(Command::Run(l)) => l,
        _ => panic!("no launch"),
    }
}

#[test]
fn buffers_are_counted_and_pooled() {
    let mut slots = CudaSlots::new();
    let (a, served) = slots.cuda_alloc(10);
    assert_eq!(served, Served::Fresh);
    let (b, _) = slots.cuda_alloc(20);
    assert_eq!((a.slot_idx, b.slot_idx), (0, 1));
    assert_eq!(slots.get_peak_memory(), 120);
    slots.cuda_refcount_inc(a, GPU);
    assert!(!slots.cuda_refcount_dec(a, GPU));
    assert!(slots.cuda_refcount_dec(a, GPU));
    // A buffer of the same size is used again; the pool counts towards the peak.
    let (c, served) = slots.cuda_alloc(10);
    assert_eq!((c.slot_idx, served), (0, Served::Reused));
    let (d, served) = slots.cuda_alloc(11);
    assert_eq!((d.slot_idx, served), (2, Served::Fresh));
    assert_eq!(slots.get_peak_memory(), 164);
}

#[test]
fn moving_to_the_device_makes_and_fills_a_buffer() {
    let mut rt = ready();
    let t = on_gpu(&[1, 2, 3], &[3], &mut rt);
    assert!(t.device().is_cuda());
    assert_eq!(rt.queue.len(), 2);
    assert!(matches!(rt.queue[0], Command::Create { slot: 0, len: 3 }));
    match &rt.queue[1] {
        Command::Write { slot, data } => {
            assert_eq!(*slot, 0);
            assert_eq!(*data, numbers(&[1, 2, 3]));
        },
        _ => panic!("not a write"),
    }
}

#[test]
fn elementwise_launches_cover_every_element() {
    let mut rt = ready();
    let n = 2500;
    let x = on_gpu(&vec![1; n], &[n], &mut rt);
    let y = on_gpu(&[2], &[1], &mut rt);
    let z = x.add(&y, &mut rt);
    assert_eq!(z.shape().dims(), &[n]);
    let l = last_launch(&rt);
    assert_eq!(l.kernel, Kernel::AddBroadcast);
    assert_eq!(l.kernel.name(), "add_broadcast_kernel");
    // 2500 threads in blocks of 1024
    assert_eq!(l.grid, (3, 1, 1));
    assert_eq!(l.block, (1024, 1, 1));
    assert_eq!(l.buffers, vec![0, 1, 2]);
    assert_eq!(l.info.len(), 51);
    assert_eq!(l.info[0..4], [1, 1, 1, 2500]);
    assert_eq!(l.info[19], 2500);
    assert_eq!(l.info[35], 1);
}

#[test]
fn products_are_tiled() {
    let mut rt = ready();
    let a = on_gpu(&vec![1; 2 * 17 * 3], &[2, 17, 3], &mut rt);
    let b = on_gpu(&vec![1; 3 * 5], &[3, 5], &mut rt);
    let c = a.matmul(&b, &mut rt);
    assert_eq!(c.shape().dims(), &[2, 17, 5]);
    let l = last_launch(&rt);
    assert_eq!(l.kernel, Kernel::Matmul);
    assert_eq!(l.grid, (1, 2, 2));
    assert_eq!(l.block, (16, 16, 1));
    assert_eq!(l.scalars, vec![17, 3, 5, 2, 51, 0, 85]);
}

#[test]
fn reductions_pass_extents_and_strides() {
    let mut rt = ready();
    let x = on_gpu(&[1, 2, 3, 4, 5, 6], &[2, 3], &mut rt);
    let s = x.sum(1, false, &mut rt);
    assert_eq!(s.shape().dims(), &[2]);
    let l = last_launch(&rt);
    assert_eq!(l.info[0..3], [2, 2, 1]);
    assert_eq!(l.info[3..5], [2, 1]);
    let r = x.relu(&mut rt);
    assert_eq!(r.shape().dims(), &[2, 3]);
    assert_eq!(last_launch(&rt).kernel, Kernel::ReluForward);
}

#[test]
fn operations_on_the_device_are_recorded() {
    let mut rt = ready();
    let x = on_gpu(&[1, 2], &[2], &mut rt);
    x.set_requires_grad(true, &mut rt);
    let y = x.mul(&x, &mut rt);
    assert!(y.requires_grad(&rt));
    assert!(y.node_id(&rt).is_some());
    let a = x.storage_id().slot_idx;
    rt.release(x);
    rt.release(y);
    vearo::autograd::store::reset_active_tape(&mut rt);
    // Both buffers are free again.
    let t = on_gpu(&[7, 7], &[2], &mut rt);
    let u = on_gpu(&[8, 8], &[2], &mut rt);
    let slots = [t.storage_id().slot_idx, u.storage_id().slot_idx];
    assert!(slots.contains(&a));
    assert!(rt.queue.iter().any(|c| matches!(c, Command::Clear { .. })));
}

#[test]
fn initialising_twice_changes_nothing() {
    let mut rt = ready();
    let before = format!("{:?}", rt.hooks);
    vearo::init(&mut rt);
    assert_eq!(format!("{:?}", rt.hooks), before);
    assert!(vearo::cuda_available());
}

#[test]
fn steps_on_the_device_write_their_results_back() {
    let mut rt = ready();
    let p = on_gpu(&[4, 8], &[2], &mut rt);
    let mut velocity = numbers(&[0, 0]);
    let half = Fixed { raw: 32768 };
    let zero = Fixed { raw: 0 };
    p.sgd_step_cuda(numbers(&[4, 8]), &numbers(&[2, 4]), &mut velocity, half, zero, zero, &mut rt);
    match rt.queue.last() {
        Some(Command::Write { slot, data }) => {
            assert_eq!(*slot, p.storage_id().slot_idx);
            assert_eq!(*data, numbers(&[3, 6]));
        },
        _ => panic!("not a write"),
    }
    assert_eq!(velocity, numbers(&[2, 4]));
    p.add_assign_scaled_cuda(numbers(&[3, 6]), &numbers(&[2, 2]), half, &mut rt);
    assert!(matches!(rt.queue.last(), Some(Command::Write { data, .. }) if *data == numbers(&[4, 7])));
    p.set_f32_cuda(1, zero, numbers(&[4, 7]), &mut rt);
    assert!(matches!(rt.queue.last(), Some(Command::Write { data, .. }) if *data == numbers(&[4, 0])));
    let settings = AdamSettings {
        lr: half,
        beta1: zero,
        beta2: zero,
        epsilon: zero,
        weight_decay: zero,
    };
    let (mut m, mut v) = (numbers(&[0, 0]), numbers(&[0, 0]));
    p.adamw_step_cuda(numbers(&[4, 7]), &numbers(&[2, -3]), &mut m, &mut v, 1, settings, &mut rt);
    assert_eq!(m, numbers(&[2, -3]));
    assert_eq!(v, numbers(&[4, 9]));
    let moved = vec![Fixed { raw: 3 * 65536 + 32768 }, Fixed { raw: 7 * 65536 + 32768 }];
    assert!(matches!(rt.queue.last(), Some(Command::Write { data, .. }) if *data == moved));
}

fn leaf_on_gpu(v: &[i32], dims: &[usize], rt: &mut Runtime<Fixed>) -> Tensor {
    let t = on_gpu(v, dims, rt);
    t.set_requires_grad(true, rt);
    t
}

/// Runs a pass to its end and counts its stages: launches, deposits and nodes that wait.
fn run_pass(pass: &mut DevicePass, rt: &mut Runtime<Fixed>) -> (usize, usize, usize) {
    let (mut launches, mut deposits) = (0, 0);
    loop {
        match pass.stage(rt) {
            Stage::Deposit => {
                deposits += 1;
                pass.deposit(rt);
            }
            Stage::Skip => pass.skip(rt),
            Stage::Launch => {
                launches += 1;
                pass.launch(rt);
            }
            Stage::Wait => return (launches, deposits, 1),
            Stage::Done => return (launches, deposits, 0),
        }
    }
}

fn kernels_from(rt: &Runtime<Fixed>, start: usize) -> Vec<Kernel> {
    rt.queue[start..]
        .iter()
        .filter_map(|c| match c {
            Command::Run(l) => Some(l.kernel),
            _ => None,
        })
        .collect()
}

#[test]
fn a_pass_on_the_device_queues_its_gradients() {
    let mut rt = ready();
    let a = leaf_on_gpu(&[1, 2, 3], &[3], &mut rt);
    let b = leaf_on_gpu(&[4, 5, 6], &[3], &mut rt);
    let y = a.mul(&b, &mut rt);
    let at = rt.tape.live(y.node_id(&rt)).unwrap();
    vearo::switches::set_autograd_enabled(false, &mut rt);
    let grad = on_gpu(&[1, 1, 1], &[3], &mut rt);
    let start = rt.queue.len();
    let mut pass = DevicePass::start(at, grad, &rt);
    assert_eq!(pass.stage(&rt), Stage::Launch);
    assert_eq!(run_pass(&mut pass, &mut rt), (1, 2, 0));
    assert_eq!(kernels_from(&rt, start), vec![Kernel::MulBroadcast, Kernel::MulBroadcast]);
    // The first product reads the gradient and the other operand.
    let Some(Command::Run(first)) =
        rt.queue[start..].iter().find(|c| matches!(c, Command::Run(_)))
    else {
        panic!("no launch");
    };
    assert_eq!(first.buffers[1], b.storage_id().slot_idx);
    zero_gradients(&mut rt);
    for k in 0..2 {
        pass.keep_leaf(at as usize, k, &mut rt);
    }
    pass.close(&mut rt);
    let ga = a.grad(&mut rt).unwrap();
    assert!(ga.device().is_cuda());
    assert_eq!(ga.shape().dims(), &[3]);
    let gb = b.grad(&mut rt).unwrap();
    assert_ne!(ga.storage_id(), gb.storage_id());
}

#[test]
fn gradients_of_one_tensor_add_up_on_the_device() {
    let mut rt = ready();
    let a = leaf_on_gpu(&[1, 2, 3], &[3], &mut rt);
    let y = a.sub(&a, &mut rt);
    let at = rt.tape.live(y.node_id(&rt)).unwrap();
    vearo::switches::set_autograd_enabled(false, &mut rt);
    let grad = on_gpu(&[1, 1, 1], &[3], &mut rt);
    let start = rt.queue.len();
    let mut pass = DevicePass::start(at, grad, &rt);
    assert_eq!(run_pass(&mut pass, &mut rt), (1, 2, 0));
    assert_eq!(kernels_from(&rt, start), vec![Kernel::MulBroadcast, Kernel::AddBroadcast]);
    // One gradient for the output and one for the leaf.
    assert_eq!(pass.grads.len(), 2);
    pass.close(&mut rt);
}

#[test]
fn kernels_of_gradients_are_queued_by_a_pass() {
    let mut rt = ready();
    let x = leaf_on_gpu(&[1, 2, 3, 4], &[2, 2], &mut rt);
    let w = leaf_on_gpu(&[1, 1], &[2], &mut rt);
    let b = leaf_on_gpu(&[0, 0], &[2], &mut rt);
    let y = x.layernorm(&w, &b, Fixed { raw: 1 }, &mut rt);
    let at = rt.tape.live(y.node_id(&rt)).unwrap();
    vearo::switches::set_autograd_enabled(false, &mut rt);
    let grad = on_gpu(&[1, 1, 1, 1], &[2, 2], &mut rt);
    let start = rt.queue.len();
    let mut pass = DevicePass::start(at, grad, &rt);
    assert_eq!(run_pass(&mut pass, &mut rt), (1, 3, 0));
    assert_eq!(kernels_from(&rt, start), vec![Kernel::LayernormBackward]);
    pass.close(&mut rt);
}

#[test]
fn a_pass_waits_for_gradients_that_need_values() {
    let mut rt = ready();
    let x = leaf_on_gpu(&[1, 2, 3], &[3], &mut rt);
    let y = x.relu(&mut rt);
    let at = rt.tape.live(y.node_id(&rt)).unwrap();
    vearo::switches::set_autograd_enabled(false, &mut rt);
    let grad = on_gpu(&[1, 1, 1], &[3], &mut rt);
    let mut pass = DevicePass::start(at, grad, &rt);
    assert_eq!(run_pass(&mut pass, &mut rt), (0, 0, 1));
    let outside = on_gpu(&[1, 1, 1], &[3], &mut rt);
    let slot = outside.storage_id().slot_idx;
    pass.supply(&vec![outside], &rt);
    assert_eq!(run_pass(&mut pass, &mut rt), (0, 1, 0));
    zero_gradients(&mut rt);
    pass.keep_leaf(at as usize, 0, &mut rt);
    pass.close(&mut rt);
    assert_eq!(x.grad(&mut rt).unwrap().storage_id().slot_idx, slot);
}

#[test]
fn products_and_slopes_are_queued_with_what_they_take_from_outside() {
    let mut rt = ready();
    let x = leaf_on_gpu(&[1, 2, 3, 4], &[2, 2], &mut rt);
    let w = leaf_on_gpu(&[1, 0, 0, 1], &[2, 2], &mut rt);
    let y = x.matmul(&w, &mut rt).relu(&mut rt);
    let at = rt.tape.live(y.node_id(&rt)).unwrap();
    vearo::switches::set_autograd_enabled(false, &mut rt);
    let grad = on_gpu(&[1, 1, 1, 1], &[2, 2], &mut rt);
    let mut pass = DevicePass::start(at, grad, &rt);
    assert_eq!(run_pass(&mut pass, &mut rt), (0, 0, 1));
    let start = rt.queue.len();
    let slope = vec![on_gpu(&[1, 1, 1, 1], &[2, 2], &mut rt)];
    pass.assist(&slope, &mut rt);
    assert_eq!(kernels_from(&rt, start), vec![Kernel::MulBroadcast]);
    assert_eq!(run_pass(&mut pass, &mut rt), (0, 1, 1));
    let start = rt.queue.len();
    let turned = vec![
        on_gpu(&[1, 3, 2, 4], &[2, 2], &mut rt),
        on_gpu(&[1, 0, 0, 1], &[2, 2], &mut rt),
    ];
    pass.assist(&turned, &mut rt);
    let kernels = kernels_from(&rt, start);
    assert_eq!(kernels.len(), 2);
    assert_eq!(kernels[0], kernels[1]);
    assert_eq!(run_pass(&mut pass, &mut rt), (0, 2, 0));
    zero_gradients(&mut rt);
    // The product is the node before the activation.
    for k in 0..2 {
        pass.keep_leaf(at as usize - 1, k, &mut rt);
    }
    pass.close(&mut rt);
    assert!(x.grad(&mut rt).unwrap().device().is_cuda());
    assert_eq!(w.grad(&mut rt).unwrap().shape().dims(), &[2, 2]);
}

#[test]
fn batch_normalisation_is_queued_forward_and_backward() {
    let mut rt = ready();
    let x = leaf_on_gpu(&[1, 2, 3, 4], &[1, 1, 2, 2], &mut rt);
    let gamma = leaf_on_gpu(&[1], &[1], &mut rt);
    let beta = leaf_on_gpu(&[0], &[1], &mut rt);
    let mean = on_gpu(&[0], &[1], &mut rt);
    let var = on_gpu(&[1], &[1], &mut rt);
    let eps = Fixed { raw: 1 };
    let start = rt.queue.len();
    let y = x.batchnorm(&gamma, &beta, &mean, &var, true, eps, eps, &mut rt);
    assert_eq!(kernels_from(&rt, start), vec![Kernel::BatchnormForward]);
    assert!(y.requires_grad(&rt));
    let at = rt.tape.live(y.node_id(&rt)).unwrap();
    vearo::switches::set_autograd_enabled(false, &mut rt);
    let grad = on_gpu(&[1, 1, 1, 1], &[1, 1, 2, 2], &mut rt);
    let start = rt.queue.len();
    let mut pass = DevicePass::start(at, grad, &rt);
    assert_eq!(run_pass(&mut pass, &mut rt), (1, 5, 0));
    assert_eq!(kernels_from(&rt, start), vec![Kernel::BatchnormBackward]);
    pass.close(&mut rt);
}

#[test]
fn a_pass_names_what_it_needs_next() {
    let mut rt = ready();
    let x = leaf_on_gpu(&[1, 2, 3, 4], &[2, 2], &mut rt);
    let w = leaf_on_gpu(&[1, 0, 0, 1], &[2, 2], &mut rt);
    let y = x.matmul(&w, &mut rt).relu(&mut rt);
    let at = rt.tape.live(y.node_id(&rt)).unwrap();
    vearo::switches::set_autograd_enabled(false, &mut rt);
    let grad = on_gpu(&[1, 1, 1, 1], &[2, 2], &mut rt);
    let mut pass = DevicePass::start(at, grad, &rt);
    assert_eq!(pass.action(&rt), Action::Slope);
    let slope = vec![on_gpu(&[1, 1, 1, 1], &[2, 2], &mut rt)];
    pass.assist(&slope, &mut rt);
    assert_eq!(pass.action(&rt), Action::Deposit);
    pass.deposit(&mut rt);
    assert_eq!(pass.action(&rt), Action::Operands);
    let turned = vec![
        on_gpu(&[1, 3, 2, 4], &[2, 2], &mut rt),
        on_gpu(&[1, 0, 0, 1], &[2, 2], &mut rt),
    ];
    pass.assist(&turned, &mut rt);
    pass.deposit(&mut rt);
    pass.deposit(&mut rt);
    assert_eq!(pass.action(&rt), Action::Skip);
    pass.skip(&rt);
    pass.skip(&rt);
    assert_eq!(pass.action(&rt), Action::Done);
    zero_gradients(&mut rt);
    pass.finish(&mut rt);
    let gx = x.grad(&mut rt).unwrap();
    let gw = w.grad(&mut rt).unwrap();
    assert!(gx.device().is_cuda());
    assert_eq!(gw.shape().dims(), &[2, 2]);
    assert_ne!(gx.storage_id(), gw.storage_id());
}

#[test]
fn gradients_of_turned_tensors_are_left_to_the_host() {
    let mut rt = ready();
    let x = leaf_on_gpu(&[1, 2, 3, 4], &[2, 2], &mut rt);
    let t = x.transpose(0, 1, &mut rt);
    let y = t.sum(0, true, &mut rt);
    let at = rt.tape.live(y.node_id(&rt)).unwrap();
    vearo::switches::set_autograd_enabled(false, &mut rt);
    let grad = on_gpu(&[1, 1], &[1, 2], &mut rt);
    let pass = DevicePass::start(at, grad, &rt);
    assert_eq!(pass.stage(&rt), Stage::Launch);
    assert_eq!(pass.action(&rt), Action::Host);
    pass.close(&mut rt);
}

#[test]
fn layers_of_one_operation_are_queued_on_the_device() {
    let mut rt = ready();
    let image = on_gpu(&[1, 2, 3, 4], &[1, 1, 2, 2], &mut rt);
    let r = MaxPool2d::new(2, 1, 0).forward(&image, &mut rt);
    assert_eq!(r.shape().dims(), &[1, 1, 1, 1]);
    assert!(r.device().is_cuda());
    assert_eq!(last_launch(&rt).kernel, Kernel::Maxpool2dForward);
    let r = AvgPool2d::new(2, 1, 0).forward(&image, &mut rt);
    assert_eq!(r.shape().dims(), &[1, 1, 1, 1]);
    assert_eq!(last_launch(&rt).kernel, Kernel::Avgpool2dForward);
    let table = Embedding { weight: leaf_on_gpu(&[1, 2, 3, 4], &[2, 2], &mut rt) };
    let ids = on_gpu(&[1, 0, 1], &[3], &mut rt);
    let r = table.forward(&ids, &mut rt);
    assert_eq!(r.shape().dims(), &[3, 2]);
    assert!(r.requires_grad(&rt));
}

#[test]
fn weights_are_loaded_onto_the_device() {
    let mut rt = ready();
    let p = on_gpu(&[0, 0], &[2], &mut rt);
    let weights = Dense::new(Shape::from([2]), numbers(&[3, -4]));
    let bytes = encode_checkpoint(&[weights]);
    assert_eq!(load_checkpoint(&[p], &bytes, &mut rt), Ok(()));
    match rt.queue.last() {
        Some(Command::Write { slot: 0, data }) => assert_eq!(*data, numbers(&[3, -4])),
        _ => panic!("not a write"),
    }
}

#[test]
fn operations_read_row_major_copies_and_record_the_tensors() {
    let mut rt = ready();
    let x = on_gpu(&[1, 2, 3, 4], &[2, 2], &mut rt);
    let w = leaf_on_gpu(&[5, 6, 7, 8], &[2, 2], &mut rt);
    let turned = w.transpose(0, 1, &mut rt);
    let pack = on_gpu(&[5, 7, 6, 8], &[2, 2], &mut rt);
    let r = dispatch_packed(OpType::Matmul, &[&x, &turned], &[&x, &pack], &mut rt);
    assert_eq!(r.shape().dims(), &[2, 2]);
    assert!(r.requires_grad(&rt));
    let read = &last_launch(&rt).buffers;
    assert!(read.contains(&pack.storage_id().slot_idx));
    assert!(!read.contains(&w.storage_id().slot_idx));
    let node = rt.tape.nodes.last().unwrap();
    assert_eq!(node.saved_tensors[1].storage_id(), w.storage_id());
    assert!(!node.saved_tensors[1].is_contiguous());
}
