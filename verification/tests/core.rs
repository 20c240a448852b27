//! Shapes, storage and handles.
use std::collections::hash_map::DefaultHasher;
use std::hash::{Hash, Hasher};
use std::num::Wrapping;
use vearo::arena::ShardCounter;
use vearo::cpu::elementwise::add;
use vearo::device::Device;
use vearo::dtype::DType;
use vearo::runtime::Runtime;
use vearo::scalar::{Constant, Scalar};
use vearo::shape::{flat_to_coord, get_offset, NdIterator, Shape, MAX_RANK};
use vearo::storage::{CpuArenaShard, CpuStorage, StorageId};
use vearo::tensor::Tensor;

/// 32-bit floating point.
#[derive(Clone, Copy, Debug, PartialEq)]
struct F(f32);

impl Scalar for F {
    fn constant_spec(c: Constant) -> Self {
        F::constant(c)
    }

    fn add_spec(a: Self, b: Self) -> Self {
        Scalar::add(a, b)
    }

    fn sub_spec(a: Self, b: Self) -> Self {
        Scalar::sub(a, b)
    }

    fn mul_spec(a: Self, b: Self) -> Self {
        Scalar::mul(a, b)
    }

    fn div_spec(a: Self, b: Self) -> Self {
        Scalar::div(a, b)
    }

    fn mul_add_spec(a: Self, b: Self, c: Self) -> Self {
        a.mul_add(b, c)
    }

    fn gt_spec(a: Self, b: Self) -> bool {
        Scalar::gt(a, b)
    }

    fn eq_zero_spec(a: Self) -> bool {
        a.eq_zero()
    }

    fn exp_spec(a: Self) -> Self {
        a.exp()
    }

    fn ln_spec(a: Self) -> Self {
        a.ln()
    }

    fn sqrt_spec(a: Self) -> Self {
        a.sqrt()
    }

    fn tanh_spec(a: Self) -> Self {
        a.tanh()
    }

    fn cos_spec(a: Self) -> Self {
        a.cos()
    }

    fn powi_spec(a: Self, n: i32) -> Self {
        a.powi(n)
    }

    fn count_spec(n: usize) -> Self {
        F::count(n)
    }

    fn fraction_spec(n: u64) -> Self {
        F::fraction(n)
    }

    fn index_spec(a: Self) -> Option<usize> {
        a.index()
    }

    fn bits_spec(a: Self) -> u32 {
        a.bits()
    }

    fn from_bits_spec(b: u32) -> Self {
        F::from_bits(b)
    }

    fn lemma_bits(_a: Self) {}

    fn constant(c: Constant) -> Self {
        F(match c {
            Constant::Zero => 0.0,
            Constant::One => 1.0,
            Constant::NegOne => -1.0,
            Constant::Half => 0.5,
            Constant::Two => 2.0,
            Constant::Six => 6.0,
            Constant::Pi => std::f32::consts::PI,
            Constant::NegInfinity => f32::NEG_INFINITY,
            Constant::Infinity => f32::INFINITY,
            Constant::Epsilon => f32::EPSILON,
            Constant::MaskFloor => -1e9,
            Constant::SparkHeight => 1.15,
            Constant::GeluScale => 0.797_884_56,
            Constant::GeluCubic => 0.044_715,
            Constant::GeluSlope => 0.134_145,
            Constant::AttentionFloor => 1e-9,
            Constant::ClipFloor => 1e-6,
            Constant::NormFloor => 1e-5,
        })
    }

    fn add(self, b: Self) -> Self {
        F(self.0 + b.0)
    }

    fn sub(self, b: Self) -> Self {
        F(self.0 - b.0)
    }

    fn mul(self, b: Self) -> Self {
        F(self.0 * b.0)
    }

    fn div(self, b: Self) -> Self {
        F(self.0 / b.0)
    }

    fn mul_add(self, b: Self, c: Self) -> Self {
        F(self.0.mul_add(b.0, c.0))
    }

    fn gt(self, b: Self) -> bool {
        self.0 > b.0
    }

    fn eq_zero(self) -> bool {
        self.0 == 0.0
    }

    fn exp(self) -> Self {
        F(self.0.exp())
    }

    fn ln(self) -> Self {
        F(self.0.ln())
    }

    fn sqrt(self) -> Self {
        F(self.0.sqrt())
    }

    fn tanh(self) -> Self {
        F(self.0.tanh())
    }

    fn cos(self) -> Self {
        F(self.0.cos())
    }

    fn powi(self, n: i32) -> Self {
        F(self.0.powi(n))
    }

    fn count(n: usize) -> Self {
        F(n as f32)
    }

    fn fraction(n: u64) -> Self {
        F(n as f32 / 18_446_744_073_709_551_616.0)
    }

    fn index(self) -> Option<usize> {
        if self.0 >= 0.0 {
            Some(self.0.round() as usize)
        } else {
            None
        }
    }

    fn bits(self) -> u32 {
        self.0.to_bits()
    }

    fn from_bits(b: u32) -> Self {
        F(f32::from_bits(b))
    }
}

fn fs(v: &[f32]) -> Vec<F> {
    v.iter().map(|x| F(*x)).collect()
}

fn tensor(v: &[f32], shape: Shape, rt: &mut Runtime<F>) -> Tensor {
    Tensor::from_f32(&fs(v), shape, rt)
}

fn raw(t: &Tensor, rt: &Runtime<F>) -> Vec<F> {
    let id = t.storage_id();
    match &rt.mem.arena.get_cpu_shard(id.shard_idx as usize).slots[id.slot_idx as usize] {
        Some(slot) => match &slot.storage {
            CpuStorage::F32(v) => v.clone(),
            _ => unreachable!(),
        },
        None => unreachable!(),
    }
}

fn ref_count(id: StorageId, rt: &Runtime<F>) -> Option<usize> {
    rt.mem.arena.get_cpu_shard(id.shard_idx as usize).slots[id.slot_idx as usize]
        .as_ref()
        .map(|s| s.ref_count)
}

#[test]
fn dtype_sizes_and_float_flag() {
    assert_eq!(DType::F32.size_bytes(), 4);
    assert_eq!(DType::F16.size_bytes(), 2);
    assert_eq!(DType::BF16.size_bytes(), 2);
    assert_eq!(DType::I32.size_bytes(), 4);
    assert_eq!(DType::I64.size_bytes(), 8);
    assert_eq!(DType::Bool.size_bytes(), 1);

    assert!(DType::F32.is_float());
    assert!(DType::F16.is_float());
    assert!(DType::BF16.is_float());
    assert!(!DType::I32.is_float());
    assert!(!DType::I64.is_float());
    assert!(!DType::Bool.is_float());
}

#[test]
fn device_checks() {
    let cpu = Device::Cpu;
    let cuda = Device::Cuda(3);

    assert!(cpu.is_cpu());
    assert!(!cpu.is_cuda());
    assert!(cuda.is_cuda());
    assert!(!cuda.is_cpu());
    assert_eq!(Device::default(), Device::Cpu);
    assert_eq!(cpu.backend_idx(), 0);
    assert_eq!(cuda.backend_idx(), 1);
}

#[test]
fn shape_rank_and_numel() {
    let s = Shape::from([2, 3, 4]);
    assert_eq!(s.rank(), 3);
    assert_eq!(s.numel(), 24);
    assert_eq!(s.dims(), &[2, 3, 4]);
}

#[test]
fn scalar_shape_has_numel_one() {
    let s = Shape::from([]);
    assert_eq!(s.numel(), 1);
    assert_eq!(s.rank(), 0);
    assert_eq!(s.dims(), &[]);
}

#[test]
fn shape_max_rank_works() {
    let dims = [2; 8];
    let s = Shape::new(&dims);
    assert_eq!(s.rank(), 8);
    assert_eq!(s.numel(), 256);
}

#[test]
fn shape_indexing() {
    let s = Shape::from([5, 6, 7]);
    assert_eq!(s[0], 5);
    assert_eq!(s[1], 6);
    assert_eq!(s[2], 7);
    assert_eq!(s.dim(1), 6);
}

#[test]
fn shape_iterator_and_ref_into_iterator() {
    let s = Shape::from([2, 4, 8]);
    let mut idx = 0;
    let expected = [2, 4, 8];

    for &dim in &s {
        assert_eq!(dim, expected[idx]);
        idx += 1;
    }
    assert_eq!(idx, 3);

    let collected: Vec<usize> = s.iter().copied().collect();
    assert_eq!(collected, vec![2, 4, 8]);
}

#[test]
fn shape_contiguous_strides() {
    // Scalar strides
    let s_scalar = Shape::from([]);
    assert_eq!(s_scalar.contiguous_strides().dims(), &[]);

    // 1D strides
    let s_1d = Shape::from([7]);
    assert_eq!(s_1d.contiguous_strides().dims(), &[1]);

    // 2D strides
    let s_2d = Shape::from([3, 5]);
    assert_eq!(s_2d.contiguous_strides().dims(), &[5, 1]);

    // 3D strides
    let s_3d = Shape::from([2, 3, 4]);
    assert_eq!(s_3d.contiguous_strides().dims(), &[12, 4, 1]);

    // 4D strides
    let s_4d = Shape::from([2, 5, 3, 4]);
    assert_eq!(s_4d.contiguous_strides().dims(), &[60, 12, 4, 1]);
}

#[test]
fn test_reshape_non_contiguous() {
    let mut rt: Runtime<F> = Runtime::new();
    let t = tensor(&[1.0, 2.0, 3.0, 4.0, 5.0, 6.0], Shape::from([2, 3]), &mut rt);
    // shape [3, 2], strides [1, 3] (non-contiguous)
    let tt = t.transpose(0, 1, &mut rt);
    // copies and reads in the transposed order
    let r = tt.reshape(Shape::from([6]), &mut rt);
    assert_eq!(raw(&r, &rt), fs(&[1.0, 4.0, 2.0, 5.0, 3.0, 6.0]));
}

#[test]
fn test_reshape_empty_tensor() {
    let mut rt: Runtime<F> = Runtime::new();
    let t = Tensor::zeros(Shape::from([2, 0, 3]), DType::F32, &mut rt);
    let tt = t.transpose(0, 1, &mut rt);
    let r = tt.reshape(Shape::from([0, 6]), &mut rt);
    assert_eq!(r.shape().numel(), 0);
    assert_eq!(r.shape().dims(), &[0, 6]);
}

#[test]
fn test_permute_correctness() {
    let mut rt: Runtime<F> = Runtime::new();
    let t = tensor(&[1.0, 2.0, 3.0, 4.0, 5.0, 6.0], Shape::from([1, 2, 3]), &mut rt);
    let p = t.permute(&[2, 0, 1], &mut rt);
    assert_eq!(p.shape().dims(), &[3, 1, 2]);
    assert_eq!(p.strides().dims(), &[1, 6, 3]);
}

#[test]
fn test_tensor_refcount_lifecycle() {
    let mut rt: Runtime<F> = Runtime::new();

    // Initial allocation -> refcount 1.
    let t1 = Tensor::zeros(Shape::from([3]), DType::F32, &mut rt);
    let id1 = t1.storage_id();
    assert_eq!(ref_count(id1, &rt), Some(1));

    // Clone increases refcount.
    let t2 = t1.clone(&mut rt);
    assert_eq!(ref_count(id1, &rt), Some(2));

    // Drop decreases refcount.
    rt.release(t2);
    assert_eq!(ref_count(id1, &rt), Some(1));

    // A view (transpose) shares storage and increments refcount.
    let t3 = t1.transpose(0, 0, &mut rt);
    assert_eq!(t3.storage_id(), id1);
    assert_eq!(ref_count(id1, &rt), Some(2));

    // Dropping the parent keeps storage alive because the view still holds it.
    rt.release(t1);
    assert_eq!(ref_count(id1, &rt), Some(1));

    // Dropping the last owner frees the block.
    rt.release(t3);
    assert_eq!(ref_count(id1, &rt), None);
}

#[test]
fn test_custom_eq_and_hash_ignores_tail_garbage() {
    let s1 = Shape::new(&[2, 3, 0, 0, 0, 0, 0, 0][..2]);
    let s2 = Shape::new(&[2, 3, 99, 99, 99, 99, 99, 99][..2]);

    assert_eq!(s1, s2);

    let mut hasher1 = DefaultHasher::new();
    let mut hasher2 = DefaultHasher::new();
    s1.hash(&mut hasher1);
    s2.hash(&mut hasher2);

    assert_eq!(hasher1.finish(), hasher2.finish());
}

#[test]
fn test_is_scalar() {
    assert!(Shape::from([]).is_scalar());
    assert!(!Shape::from([1]).is_scalar());
    assert!(!Shape::from([2, 3]).is_scalar());
}

#[test]
fn test_broadcasting() {
    let s1 = Shape::from([3, 1]);
    let s2 = Shape::from([2, 3, 4]);
    let b = s1.broadcast(&s2).unwrap();
    assert_eq!(b.dims(), &[2, 3, 4]);

    let s3 = Shape::from([2, 1]);
    let s4 = Shape::from([3, 4]);
    assert!(s3.broadcast(&s4).is_none());

    let scalar = Shape::from([]);
    let s5 = Shape::from([5, 6]);
    assert_eq!(scalar.broadcast(&s5).unwrap().dims(), &[5, 6]);
    assert_eq!(s5.broadcast(&scalar).unwrap().dims(), &[5, 6]);
}

#[test]
fn test_can_broadcast_to() {
    let s1 = Shape::from([3, 1]);
    let target = Shape::from([2, 3, 4]);
    assert!(s1.can_broadcast_to(&target));

    let s2 = Shape::from([2, 3]);
    assert!(!s2.can_broadcast_to(&target));
}

#[test]
fn test_randomized_broadcasting_properties() {
    let mut seed = Wrapping(123_456_789usize);
    let mut next_rand = || {
        seed ^= seed << 13;
        seed ^= seed >> 17;
        seed ^= seed << 5;
        seed.0
    };

    for _ in 0..5000 {
        let rank_a = next_rand() % 9;
        let mut dims_a = Vec::with_capacity(rank_a);
        for _ in 0..rank_a {
            let dim = if next_rand() % 3 == 1 {
                2 + (next_rand() % 10)
            } else {
                1
            };
            dims_a.push(dim);
        }
        let s_a = Shape::new(&dims_a);

        let rank_b = next_rand() % 9;
        let mut dims_b = Vec::with_capacity(rank_b);
        for _ in 0..rank_b {
            let dim = if next_rand() % 3 == 1 {
                2 + (next_rand() % 10)
            } else {
                1
            };
            dims_b.push(dim);
        }
        let s_b = Shape::new(&dims_b);

        if let Some(s_c) = s_a.broadcast(&s_b) {
            assert!(s_c.rank() >= s_a.rank());
            assert!(s_c.rank() >= s_b.rank());
            assert!(s_c.rank() <= MAX_RANK);
            assert!(s_a.can_broadcast_to(&s_c));
            assert!(s_b.can_broadcast_to(&s_c));

            let s_c_alt = s_b.broadcast(&s_a).unwrap();
            assert_eq!(s_c, s_c_alt);

            assert_eq!(s_c.numel() % s_a.numel(), 0);
            assert_eq!(s_c.numel() % s_b.numel(), 0);
        } else {
            let mut conflict = false;
            let min_rank = std::cmp::min(s_a.rank(), s_b.rank());
            for i in 0..min_rank {
                let lhs = s_a.dims()[s_a.rank() - 1 - i];
                let rhs = s_b.dims()[s_b.rank() - 1 - i];
                if lhs != rhs && lhs != 1 && rhs != 1 {
                    conflict = true;
                    break;
                }
            }
            assert!(conflict);
        }
    }
}

#[test]
fn test_randomized_strides_correctness() {
    let mut seed = Wrapping(987_654_321usize);
    let mut next_rand = || {
        seed ^= seed << 13;
        seed ^= seed >> 17;
        seed ^= seed << 5;
        seed.0
    };

    for _ in 0..1000 {
        let rank = next_rand() % 9;
        let mut dims = Vec::with_capacity(rank);
        for _ in 0..rank {
            dims.push(1 + (next_rand() % 10));
        }
        let s = Shape::new(&dims);
        let strides = s.contiguous_strides();

        assert_eq!(strides.rank(), s.rank());

        let mut expected_strides = vec![0; rank];
        let mut current = 1;
        for i in (0..rank).rev() {
            expected_strides[i] = current;
            current *= dims[i];
        }
        assert_eq!(strides.dims(), &expected_strides[..]);
    }
}

#[test]
fn arena_alloc_free_and_slot_reuse() {
    let mut arena: CpuArenaShard<F> = CpuArenaShard::new();

    let a = arena.alloc_zeros(3, DType::F32, 0);
    let b = arena.alloc_zeros(2, DType::F32, 0);
    assert_eq!(a, StorageId { shard_idx: 0, slot_idx: 0 });
    assert_eq!(b, StorageId { shard_idx: 0, slot_idx: 1 });
    assert_eq!(arena.slots[a.slot_idx as usize].as_ref().unwrap().ref_count, 1);

    arena.increment(a.slot_idx);
    assert_eq!(arena.slots[a.slot_idx as usize].as_ref().unwrap().ref_count, 2);
    arena.decrement(a.slot_idx);
    assert_eq!(arena.slots[a.slot_idx as usize].as_ref().unwrap().ref_count, 1);

    arena.decrement(a.slot_idx);
    assert!(arena.slots[a.slot_idx as usize].is_none());
    assert_eq!(arena.free_indices, vec![a.slot_idx]);

    let c = arena.alloc_zeros(5, DType::F32, 0);
    assert_eq!(c, a);
    assert!(arena.free_indices.is_empty());

    assert_eq!(arena.slots[b.slot_idx as usize].as_ref().unwrap().ref_count, 1);
}

#[test]
fn arena_alloc_raw_preserves_data() {
    let mut arena: CpuArenaShard<F> = CpuArenaShard::new();
    let id = arena.alloc_raw(CpuStorage::F32(fs(&[1.0, 2.0, 3.0])), 0);
    match &arena.slots[id.slot_idx as usize].as_ref().unwrap().storage {
        CpuStorage::F32(v) => assert_eq!(v, &fs(&[1.0, 2.0, 3.0])),
        _ => unreachable!(),
    }
}

#[test]
fn test_empty_tensor_operations() {
    let mut rt: Runtime<F> = Runtime::new();
    vearo::init(&mut rt);
    let x = Tensor::zeros(Shape::from([2, 0, 3]), DType::F32, &mut rt);
    let x_t = x.transpose(0, 1, &mut rt);
    let r = x_t.reshape(Shape::from([0, 6]), &mut rt);
    assert_eq!(r.shape().dims(), &[0, 6]);
    assert_eq!(r.shape().numel(), 0);

    let y = Tensor::zeros(Shape::from([0, 6]), DType::F32, &mut rt);
    let z = add(&r.read(&rt), &y.read(&rt));
    assert_eq!(z.shape().dims(), &[0, 6]);
    assert_eq!(z.shape().numel(), 0);
    let w = r.add(&y, &mut rt);
    assert_eq!(w.shape().dims(), &[0, 6]);
}

#[test]
fn coordinates_walk_in_row_major_order() {
    let shape = Shape::from([2, 3]);
    let mut it = NdIterator::new(shape);
    let mut seen = Vec::new();
    loop {
        seen.push(it.coord().to_vec());
        if !it.step() {
            break;
        }
    }
    assert_eq!(
        seen,
        vec![vec![0, 0], vec![0, 1], vec![0, 2], vec![1, 0], vec![1, 1], vec![1, 2]]
    );
    for (i, c) in seen.iter().enumerate() {
        assert_eq!(flat_to_coord(i, &shape), *c);
        assert_eq!(get_offset(c, &shape, &shape.contiguous_strides()), i);
    }
    // An axis of extent one is always read at zero.
    assert_eq!(get_offset(&[1, 2], &Shape::from([1, 3]), &Shape::from([3, 1])), 2);
}

#[test]
fn broadcast_laws_on_values() {
    let a = Shape::from([3, 1]);
    let b = Shape::from([2, 3, 4]);
    let ab = a.broadcast(&b).unwrap();
    assert_eq!(ab, b.broadcast(&a).unwrap());
    assert!(a.can_broadcast_to(&ab));
    assert!(b.can_broadcast_to(&ab));
    assert_eq!(a.broadcast(&a).unwrap(), a);
    assert_eq!(Shape::from([]).broadcast(&a).unwrap(), a);
    assert_eq!(a.broadcast(&ab).unwrap(), ab);
    assert!(Shape::from([2]).broadcast(&Shape::from([3])).is_none());
}

#[test]
fn a_clone_given_back_leaves_no_trace() {
    let mut rt: Runtime<F> = Runtime::new();
    vearo::init(&mut rt);
    let t = tensor(&[1.0, 2.0], Shape::from([2]), &mut rt);
    let before = ref_count(t.storage_id(), &rt);
    let c = t.clone(&mut rt);
    rt.release(c);
    assert_eq!(ref_count(t.storage_id(), &rt), before);
    assert_eq!(t.to_vec_f32(&rt), fs(&[1.0, 2.0]));
}

#[test]
fn transposing_twice_and_permuting_back() {
    let mut rt: Runtime<F> = Runtime::new();
    let t = tensor(&[1.0, 2.0, 3.0, 4.0, 5.0, 6.0], Shape::from([1, 2, 3]), &mut rt);
    let a = t.transpose(0, 2, &mut rt);
    let b = a.transpose(0, 2, &mut rt);
    assert_eq!(b.shape(), t.shape());
    assert_eq!(b.strides(), t.strides());
    let p = t.permute(&[2, 0, 1], &mut rt);
    assert_eq!(p.contiguous(&mut rt).to_vec_f32(&rt), fs(&[1.0, 4.0, 2.0, 5.0, 3.0, 6.0]));
    let q = p.permute(&[1, 2, 0], &mut rt);
    assert_eq!(q.contiguous(&mut rt).to_vec_f32(&rt), fs(&[1.0, 2.0, 3.0, 4.0, 5.0, 6.0]));
}

#[test]
fn tensors_of_every_element_type() {
    let mut rt: Runtime<F> = Runtime::new();
    let i = Tensor::from_i32(&[1, -2], Shape::from([2]), &mut rt);
    assert_eq!(i.dtype(), DType::I32);
    let l = Tensor::from_i64(&[1, -2, 3], Shape::from([3]), &mut rt);
    assert_eq!(l.dtype(), DType::I64);
    let b = Tensor::from_bool(&[true], Shape::from([1]), &mut rt);
    assert_eq!(b.dtype(), DType::Bool);
    assert!(b.device().is_cpu());
    assert!(!b.requires_grad(&rt));
    b.set_requires_grad(true, &mut rt);
    assert!(b.requires_grad(&rt));
    assert_eq!(b.node_id(&rt), None);
    match &rt.mem.arena.get_cpu_shard(i.storage_id().shard_idx as usize).slots
        [i.storage_id().slot_idx as usize]
    {
        Some(slot) => assert!(matches!(&slot.storage, CpuStorage::I32(v) if *v == vec![1, -2])),
        None => unreachable!(),
    }
}

#[test]
fn writing_one_element() {
    let mut rt: Runtime<F> = Runtime::new();
    let t = tensor(&[1.0, 2.0, 3.0], Shape::from([3]), &mut rt);
    t.set_f32(1, F(7.5), &mut rt);
    assert_eq!(t.get_f32(1, &rt), F(7.5));
    assert_eq!(t.to_vec_f32(&rt), fs(&[1.0, 7.5, 3.0]));
    let u = tensor(&[1.0, 1.0, 2.0], Shape::from([3]), &mut rt);
    t.add_assign_scaled(&u, F(0.5), &mut rt);
    assert_eq!(t.to_vec_f32(&rt), fs(&[1.5, 8.0, 4.0]));
    assert!(t.is_contiguous());
}

#[test]
fn threads_take_the_shards_in_turn() {
    let mut c = ShardCounter::new();
    let first: Vec<u8> = (0..33).map(|_| c.assign()).collect();
    assert_eq!(first[..3], [0, 1, 2]);
    assert_eq!(first[31..], [31, 0]);

    let mut rt: Runtime<F> = Runtime::new();
    assert_eq!(rt.mem.arena.current_thread_shard_idx(), 0);
    let a = tensor(&[1.0], Shape::from([1]), &mut rt);
    rt.mem.arena.set_shard(7);
    let b = tensor(&[2.0], Shape::from([1]), &mut rt);
    assert_eq!(rt.mem.arena.current_thread_shard_idx(), 7);
    assert_eq!((a.storage_id().shard_idx, b.storage_id().shard_idx), (0, 7));
    assert_eq!((a.to_vec_f32(&rt), b.to_vec_f32(&rt)), (fs(&[1.0]), fs(&[2.0])));
}

#[test]
fn a_handle_from_its_parts() {
    let mut rt: Runtime<F> = Runtime::new();
    let t = tensor(&[1.0, 2.0, 3.0, 4.0], Shape::from([2, 2]), &mut rt);
    t.set_requires_grad(true, &mut rt);
    t.set_node_id(Some(9), &mut rt);
    assert_eq!(t.node_id(&rt), Some(9));
    let u = Tensor::from_components(
        t.storage_id(),
        Shape::from([2, 2]),
        Shape::from([1, 2]),
        DType::F32,
        Device::Cpu,
        &mut rt,
    );
    assert_eq!(u.storage_id(), t.storage_id());
    assert!(!u.requires_grad(&rt));
    assert_eq!(u.node_id(&rt), None);
    assert_eq!(u.contiguous(&mut rt).to_vec_f32(&rt), fs(&[1.0, 3.0, 2.0, 4.0]));
}

#[test]
fn blocks_are_free_once_every_handle_is_given_back() {
    let mut rt: Runtime<F> = Runtime::new();
    vearo::init(&mut rt);
    let ids: Vec<StorageId> = {
        let a = tensor(&[1.0, 2.0], Shape::from([2]), &mut rt);
        a.set_requires_grad(true, &mut rt);
        let b = tensor(&[3.0, 4.0], Shape::from([2]), &mut rt);
        let c = a.mul(&b, &mut rt);
        let d = c.sum(0, false, &mut rt);
        d.backward(&mut rt);
        let g = a.grad(&mut rt).unwrap();
        assert_eq!(g.to_vec_f32(&rt), fs(&[3.0, 4.0]));
        let ids = vec![
            a.storage_id(),
            b.storage_id(),
            c.storage_id(),
            d.storage_id(),
            g.storage_id(),
        ];
        for t in vec![g, d, c, b, a] {
            rt.release(t);
        }
        ids
    };
    for id in ids {
        assert_eq!(ref_count(id, &rt), None);
    }
}

#[test]
fn shapes_without_elements_may_have_any_extents() {
    let mut rt: Runtime<F> = Runtime::new();
    vearo::init(&mut rt);
    let wide = Shape::from([usize::MAX, 0, 2]);
    let t = Tensor::zeros(wide, DType::F32, &mut rt);
    assert_eq!(t.shape().dims(), &[usize::MAX, 0, 2]);
    assert_eq!(t.strides().dims(), &[0, 2, 1]);
    assert!(t.to_vec_f32(&rt).is_empty());
    let i = Tensor::from_i64(&[], wide, &mut rt);
    assert_eq!(i.dtype(), DType::I64);
    let empty = tensor(&[], Shape::from([0]), &mut rt);
    let r = empty.reshape(wide, &mut rt);
    assert_eq!(r.storage_id(), empty.storage_id());
    assert_eq!(r.shape().dims(), &[usize::MAX, 0, 2]);
}

#[test]
fn a_freed_block_is_used_next() {
    let mut rt: Runtime<F> = Runtime::new();
    vearo::init(&mut rt);
    let a = tensor(&[1.0], Shape::from([1]), &mut rt);
    let _b = tensor(&[2.0], Shape::from([1]), &mut rt);
    let id = a.storage_id();
    rt.release(a);
    let c = tensor(&[3.0], Shape::from([1]), &mut rt);
    assert_eq!(c.storage_id(), id);
}
