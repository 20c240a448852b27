//! The `.ve` weight file: parameters as bytes, and back.
use vstd::prelude::*;
use crate::autograd::rules::all_wf;
use crate::cuda::steps::{rewrite, rewritten};
use crate::dense::{Dense, Value};
use crate::device::Device;
use crate::forward::dense_views;
use crate::index::{lemma_sized_fits, numel};
use crate::mutate::{lemma_replaced, only_changes, replaced};
use crate::runtime::Runtime;
use crate::scalar::Scalar;
use crate::shape::Shape;
use crate::tensor::Tensor;

verus! {

/// The four bytes of a number, the lowest first. Of a larger number the low 32 bits are written.
pub open spec fn le(n: nat) -> Seq<u8> {
    seq![
        (n % 256) as u8,
        (n / 256 % 256) as u8,
        (n / 65536 % 256) as u8,
        (n / 16777216 % 256) as u8,
    ]
}

/// The number that four bytes write.
pub open spec fn u32_at(b: Seq<u8>, at: int) -> u32 {
    (b[at] + 256 * b[at + 1] + 65536 * b[at + 2] + 16777216 * b[at + 3]) as u32
}

/// Numbers one after the other.
pub open spec fn le_all(ns: Seq<nat>) -> Seq<u8>
    decreases ns.len(),
{
    if ns.len() == 0 {
        Seq::empty()
    } else {
        le_all(ns.drop_last()) + le(ns.last())
    }
}

/// Extents as numbers.
pub open spec fn extents(dims: Seq<usize>) -> Seq<nat> {
    dims.map_values(|d: usize| d as nat)
}

/// The patterns of elements.
pub open spec fn patterns<S: Scalar>(data: Seq<S>) -> Seq<nat> {
    data.map_values(|x: S| S::bits_spec(x) as nat)
}

/// One tensor: its rank, its extents, its element count and its elements.
pub open spec fn tensor_bytes<S: Scalar>(v: Value<S>) -> Seq<u8> {
    le(v.dims.len()) + le_all(extents(v.dims)) + le(v.data.len()) + le_all(patterns(v.data))
}

/// The first `n` tensors.
pub open spec fn tensors_bytes<S: Scalar>(vs: Seq<Value<S>>, n: nat) -> Seq<u8>
    decreases n,
{
    if n == 0 {
        le(vs.len())
    } else {
        tensors_bytes(vs, (n - 1) as nat) + tensor_bytes(vs[n - 1])
    }
}

/// A weight file: how many tensors there are, and the tensors.
pub open spec fn file_bytes<S: Scalar>(vs: Seq<Value<S>>) -> Seq<u8> {
    tensors_bytes(vs, vs.len())
}

/// Writes a number.
fn push_u32(out: &mut Vec<u8>, n: usize)
    ensures
        final(out)@ == old(out)@ + le(n as nat),
{
    let ghost before = out@;
    out.push((n % 256) as u8);
    out.push((n / 256 % 256) as u8);
    out.push((n / 65536 % 256) as u8);
    out.push((n / 16777216 % 256) as u8);
    assert(out@ =~= before + le(n as nat));
}

/// Writes extents.
fn push_dims(out: &mut Vec<u8>, shape: &Shape)
    ensures
        final(out)@ == old(out)@ + le_all(extents(shape@)),
{
    let ghost before = out@;
    let rank: usize = shape.rank();
    let mut i: usize = 0;
    assert(before + le_all(extents(shape@).take(0)) =~= before);
    while i < rank
        invariant
            i <= rank,
            rank == shape@.len(),
            out@ == before + le_all(extents(shape@).take(i as int)),
        decreases rank - i,
    {
        let ghost mid = out@;
        push_u32(out, shape.dim(i));
        i = i + 1;
        proof {
            let t = extents(shape@).take(i as int);
            assert(t.drop_last() =~= extents(shape@).take(i - 1));
            assert(t.last() == shape@[i - 1] as nat);
            assert(out@ =~= before + le_all(t));
        }
    }
    assert(extents(shape@).take(rank as int) =~= extents(shape@));
}

/// Writes elements.
fn push_data<S: Scalar>(out: &mut Vec<u8>, data: &Vec<S>)
    ensures
        final(out)@ == old(out)@ + le_all(patterns(data@)),
{
    let ghost before = out@;
    let mut i: usize = 0;
    assert(before + le_all(patterns(data@).take(0)) =~= before);
    while i < data.len()
        invariant
            i <= data@.len(),
            out@ == before + le_all(patterns(data@).take(i as int)),
        decreases data@.len() - i,
    {
        push_u32(out, data[i].bits() as usize);
        i = i + 1;
        proof {
            let t = patterns(data@).take(i as int);
            assert(t.drop_last() =~= patterns(data@).take(i - 1));
            assert(t.last() == S::bits_spec(data@[i - 1]) as nat);
            assert(out@ =~= before + le_all(t));
        }
    }
    assert(patterns(data@).take(data@.len() as int) =~= patterns(data@));
}

/// The values of parameters.
pub open spec fn param_values<S>(params: Seq<Tensor>, rt: Runtime<S>) -> Seq<Value<S>> {
    params.map_values(|p: Tensor| p.value(rt.mem))
}

/// The parameters can be written to a file: on the CPU and row-major.
pub open spec fn storable<S>(params: Seq<Tensor>, rt: Runtime<S>) -> bool {
    forall|i: int|
        0 <= i < params.len() ==> (#[trigger] params[i]).is_f32(rt.mem)
            && params[i].contiguous_spec()
}

/// The bytes of a `.ve` weight file for the given arrays.
pub fn encode_checkpoint<S: Scalar>(arrays: &[Dense<S>]) -> (r: Vec<u8>)
    requires
        all_wf(arrays@),
    ensures
        r@ == file_bytes(dense_views(arrays@)),
{
    let ghost vs = dense_views(arrays@);
    let mut out: Vec<u8> = Vec::new();
    push_u32(&mut out, arrays.len());
    assert(out@ =~= le(vs.len()));
    let mut i: usize = 0;
    while i < arrays.len()
        invariant
            i <= arrays@.len(),
            all_wf(arrays@),
            vs == dense_views(arrays@),
            out@ == tensors_bytes(vs, i as nat),
        decreases arrays@.len() - i,
    {
        let ghost before = out@;
        let d: &Dense<S> = &arrays[i];
        assert(arrays@[i as int].wf());
        push_u32(&mut out, d.shape().rank());
        push_dims(&mut out, d.shape());
        push_u32(&mut out, d.data().len());
        push_data(&mut out, d.data());
        proof {
            assert(vs[i as int] == d@);
            assert(out@ =~= before + tensor_bytes(vs[i as int]));
        }
        i = i + 1;
    }
    out
}

/// The bytes of a `.ve` weight file for the given parameters.
pub fn save_checkpoint<S: Scalar>(params: &[Tensor], rt: &Runtime<S>) -> (r: Vec<u8>)
    requires
        rt.wf(),
        storable(params@, *rt),
    ensures
        r@ == file_bytes(param_values(params@, *rt)),
{
    let mut arrays: Vec<Dense<S>> = Vec::new();
    let mut i: usize = 0;
    while i < params.len()
        invariant
            i <= params@.len(),
            rt.wf(),
            storable(params@, *rt),
            arrays@.len() == i,
            all_wf(arrays@),
            forall|k: int| 0 <= k < i ==> (#[trigger] arrays@[k])@ == params@[k].value(rt.mem),
        decreases params@.len() - i,
    {
        assert(params@[i as int].is_f32(rt.mem));
        arrays.push(params[i].read(rt));
        i = i + 1;
    }
    assert(dense_views(arrays@) =~= param_values(params@, *rt));
    encode_checkpoint(&arrays)
}

/// The parameters can be overwritten from a file: row-major, on the CPU or on a device.
pub open spec fn loadable<S>(params: Seq<Tensor>, rt: Runtime<S>) -> bool {
    forall|i: int| 0 <= i < params.len() ==> overwritable(#[trigger] params[i], rt)
}

/// A row-major tensor of 32-bit floats, on the CPU or on a device.
pub open spec fn overwritable<S>(t: Tensor, rt: Runtime<S>) -> bool {
    &&& t.is_f32(rt.mem) || (t.valid(rt.mem) && t.device is Cuda)
    &&& t.contiguous_spec()
}

/// The elements of a tensor are overwritten: at once on the CPU, by a request on a device.
pub open spec fn overwritten<S>(a: Runtime<S>, b: Runtime<S>, t: Tensor, data: Seq<S>) -> bool {
    match t.device {
        Device::Cpu => replaced(a, b, t, data),
        Device::Cuda(_) => rewritten(a, b, t, data),
    }
}

/// Why a weight file could not be loaded.
#[derive(Debug, Clone, Copy, PartialEq, Eq, Structural)]
pub enum LoadError {
    /// The file ends too early.
    Truncated,
    /// Checkpoint tensor count does not match model parameter count.
    Count,
    /// Checkpoint shape does not match parameter shape.
    Shape,
    /// A tensor does not have as many elements as its shape.
    Length,
}

/// `n` numbers from `at` on.
pub open spec fn u32s_at(b: Seq<u8>, at: int, n: nat) -> Seq<u32> {
    Seq::new(n, |i: int| u32_at(b, at + 4 * i))
}

/// Extents that were read are those of a shape.
pub open spec fn same_extents(read: Seq<u32>, dims: Seq<usize>) -> bool {
    &&& read.len() == dims.len()
    &&& forall|i: int| 0 <= i < dims.len() ==> #[trigger] read[i] == dims[i]
}

/// What reading one tensor of the given shape from `at` gives: its elements, and where it ends.
pub open spec fn tensor_at<S: Scalar>(
    b: Seq<u8>,
    at: int,
    dims: Seq<usize>,
) -> Result<(Seq<S>, int), LoadError> {
    let rank = u32_at(b, at);
    let mid = at + 4 + 4 * rank;
    let count = u32_at(b, mid);
    let end = mid + 4 + 4 * count;
    if at + 4 > b.len() || mid > b.len() {
        Err(LoadError::Truncated)
    } else if !same_extents(u32s_at(b, at + 4, rank as nat), dims) {
        Err(LoadError::Shape)
    } else if mid + 4 > b.len() || end > b.len() {
        Err(LoadError::Truncated)
    } else if count != numel(dims) {
        Err(LoadError::Length)
    } else {
        Ok(
            (
                Seq::new(count as nat, |i: int| S::from_bits_spec(u32_at(b, mid + 4 + 4 * i))),
                end,
            ),
        )
    }
}

/// How far reading a weight file has come.
pub ghost struct Reading<S> {
    /// The elements of the tensors that were read.
    pub data: Seq<Seq<S>>,
    /// Where the next tensor begins.
    pub at: int,
    /// What stopped the reading.
    pub error: Option<LoadError>,
}

/// Reading the first `n` tensors of a weight file for the given shapes.
pub open spec fn reading<S: Scalar>(b: Seq<u8>, shapes: Seq<Seq<usize>>, n: nat) -> Reading<S>
    decreases n,
{
    if n == 0 {
        Reading {
            data: Seq::empty(),
            at: 4,
            error: if b.len() < 4 {
                Some(LoadError::Truncated)
            } else if u32_at(b, 0) != shapes.len() {
                Some(LoadError::Count)
            } else {
                None
            },
        }
    } else {
        let before = reading::<S>(b, shapes, (n - 1) as nat);
        if before.error is Some {
            before
        } else {
            match tensor_at::<S>(b, before.at, shapes[n - 1]) {
                Ok((data, end)) => Reading { data: before.data.push(data), at: end, error: None },
                Err(e) => Reading { error: Some(e), ..before },
            }
        }
    }
}

/// Reads a number.
fn read_u32(b: &[u8], at: usize) -> (r: u32)
    requires
        at + 4 <= b@.len(),
    ensures
        r == u32_at(b@, at as int),
{
    b[at] as u32 + 256 * (b[at + 1] as u32) + 65536 * (b[at + 2] as u32) + 16777216 * (b[at + 3]
        as u32)
}

/// Whether `n` numbers follow from `at` on.
fn follows(b: &[u8], at: usize, n: u32) -> (r: bool)
    requires
        at <= b@.len(),
    ensures
        r == (at + 4 * n <= b@.len()),
{
    let room: usize = (b.len() - at) / 4;
    n as usize <= room
}

/// Whether the extents at `at` are those of a shape.
fn extents_match(b: &[u8], at: usize, rank: u32, shape: &Shape) -> (r: bool)
    requires
        at + 4 * rank <= b@.len(),
    ensures
        r == same_extents(u32s_at(b@, at as int, rank as nat), shape@),
{
    let len: usize = b.len();
    let n: usize = shape.rank();
    if rank as usize != n {
        return false;
    }
    let mut i: usize = 0;
    while i < n
        invariant
            i <= n,
            n == shape@.len(),
            n == rank,
            len == b@.len(),
            at + 4 * rank <= len,
            forall|k: int|
                0 <= k < i ==> #[trigger] u32s_at(b@, at as int, rank as nat)[k] == shape@[k],
        decreases n - i,
    {
        let d = read_u32(b, at + 4 * i);
        assert(u32s_at(b@, at as int, rank as nat)[i as int] == d);
        if d as usize != shape.dim(i) {
            return false;
        }
        i = i + 1;
    }
    true
}

/// Reads `n` elements.
fn read_data<S: Scalar>(b: &[u8], at: usize, n: u32) -> (r: Vec<S>)
    requires
        at + 4 * n <= b@.len(),
    ensures
        r@ == Seq::new(n as nat, |i: int| S::from_bits_spec(u32_at(b@, at + 4 * i))),
{
    let ghost want = Seq::new(n as nat, |i: int| S::from_bits_spec(u32_at(b@, at + 4 * i)));
    let len: usize = b.len();
    let mut out: Vec<S> = Vec::with_capacity(n as usize);
    let mut i: usize = 0;
    while i < n as usize
        invariant
            i <= n,
            len == b@.len(),
            at + 4 * n <= len,
            want == Seq::new(n as nat, |i: int| S::from_bits_spec(u32_at(b@, at + 4 * i))),
            out@.len() == i,
            forall|k: int| 0 <= k < i ==> #[trigger] out@[k] == want[k],
        decreases n - i,
    {
        out.push(S::from_bits(read_u32(b, at + 4 * i)));
        i = i + 1;
    }
    assert(out@ =~= want);
    out
}

/// Reads one tensor: its elements, and where it ends.
fn read_tensor<S: Scalar>(b: &[u8], at: usize, shape: &Shape) -> (r: Result<
    (Vec<S>, usize),
    LoadError,
>)
    requires
        at <= b@.len(),
        numel(shape@) <= usize::MAX,
        crate::index::head_fits(shape@),
    ensures
        match r {
            Ok((data, end)) => tensor_at::<S>(b@, at as int, shape@) == Ok::<
                (Seq<S>, int),
                LoadError,
            >((data@, end as int)) && end <= b@.len() && data@.len() == numel(shape@),
            Err(e) => tensor_at::<S>(b@, at as int, shape@) == Err::<(Seq<S>, int), LoadError>(e),
        },
{
    let len: usize = b.len();
    if !follows(b, at, 1) {
        return Err(LoadError::Truncated);
    }
    assert(at + 4 <= len);
    let rank = read_u32(b, at);
    if !follows(b, at + 4, rank) {
        return Err(LoadError::Truncated);
    }
    if !extents_match(b, at + 4, rank, shape) {
        return Err(LoadError::Shape);
    }
    let mid: usize = at + 4 + 4 * (rank as usize);
    if !follows(b, mid, 1) {
        return Err(LoadError::Truncated);
    }
    let count = read_u32(b, mid);
    if !follows(b, mid + 4, count) {
        return Err(LoadError::Truncated);
    }
    if count as usize != shape.numel() {
        return Err(LoadError::Length);
    }
    let data: Vec<S> = read_data(b, mid + 4, count);
    let end: usize = mid + 4 + 4 * (count as usize);
    Ok((data, end))
}

/// The extents of parameters.
pub open spec fn param_dims(params: Seq<Tensor>) -> Seq<Seq<usize>> {
    params.map_values(|p: Tensor| p.shape@)
}

/// Parameter `i` is overwritten between two states.
pub open spec fn load_step<S: Scalar>(
    states: Seq<Runtime<S>>,
    params: Seq<Tensor>,
    data: Seq<Seq<S>>,
    i: int,
) -> bool {
    overwritten(states[i], states[i + 1], params[i], data[i])
}

/// The states between the parameters that are overwritten.
pub open spec fn load_steps<S: Scalar>(
    states: Seq<Runtime<S>>,
    params: Seq<Tensor>,
    data: Seq<Seq<S>>,
) -> bool {
    &&& states.len() == data.len() + 1
    &&& forall|i: int| 0 <= i < data.len() ==> #[trigger] load_step(states, params, data, i)
}

impl Tensor {
    /// Overwrites the elements.
    pub fn copy_from_slice<S: Scalar>(&self, data: &[S], rt: &mut Runtime<S>)
        requires
            old(rt).wf(),
            overwritable(*self, *old(rt)),
            data@.len() == numel(self.shape@),
        ensures
            final(rt).wf(),
            overwritten(*old(rt), *final(rt), *self, data@),
            self.device is Cpu ==> only_changes(*old(rt), *final(rt), *self),
            self.device is Cpu ==> self.value(final(rt).mem) == (Value {
                dims: self.shape@,
                data: data@,
            }),
    {
        match self.device {
            Device::Cpu => self.write(crate::dense::copied(data), rt),
            Device::Cuda(_) => rewrite(self, crate::dense::copied(data), rt),
        }
    }
}

/// Loads weights from the bytes of a `.ve` weight file into the given parameters.
///
/// The parameters before one that cannot be read are overwritten; that one and those behind it
/// are not.
pub fn load_checkpoint<S: Scalar>(params: &[Tensor], bytes: &[u8], rt: &mut Runtime<S>) -> (r:
    Result<(), LoadError>)
    requires
        old(rt).wf(),
        loadable(params@, *old(rt)),
    ensures
        final(rt).wf(),
        loadable(params@, *final(rt)),
        match r {
            Ok(_) => reading::<S>(bytes@, param_dims(params@), params@.len()).error is None,
            Err(e) => reading::<S>(bytes@, param_dims(params@), params@.len()).error == Some(e),
        },
        exists|states: Seq<Runtime<S>>| #[trigger]
            load_steps(
                states,
                params@,
                reading::<S>(bytes@, param_dims(params@), params@.len()).data,
            ) && states[0] == *old(rt) && states.last() == *final(rt),
{
    let ghost dims = param_dims(params@);
    let ghost n = params@.len();
    let ghost mut states: Seq<Runtime<S>> = seq![*rt];
    if bytes.len() < 4 {
        proof {
            lemma_stuck::<S>(bytes@, dims, 0, n);
            assert(load_steps(states, params@, reading::<S>(bytes@, dims, n).data));
        }
        return Err(LoadError::Truncated);
    }
    if read_u32(bytes, 0) as usize != params.len() {
        proof {
            lemma_stuck::<S>(bytes@, dims, 0, n);
            assert(load_steps(states, params@, reading::<S>(bytes@, dims, n).data));
        }
        return Err(LoadError::Count);
    }
    let mut at: usize = 4;
    let mut i: usize = 0;
    while i < params.len()
        invariant
            i <= n,
            n == params@.len(),
            dims == param_dims(params@),
            rt.wf(),
            loadable(params@, *rt),
            at <= bytes@.len(),
            reading::<S>(bytes@, dims, i as nat).error is None,
            reading::<S>(bytes@, dims, i as nat).at == at,
            reading::<S>(bytes@, dims, i as nat).data.len() == i,
            load_steps(states, params@, reading::<S>(bytes@, dims, i as nat).data),
            states[0] == *old(rt),
            states.last() == *rt,
        decreases n - i,
    {
        let ghost a = *rt;
        let ghost p = params@[i as int];
        let ghost so_far = reading::<S>(bytes@, dims, i as nat).data;
        proof {
            assert(overwritable(p, a));
            lemma_sized_fits(p.shape@);
            assert(dims[i as int] == p.shape@);
        }
        match read_tensor::<S>(bytes, at, params[i].shape()) {
            Ok((data, end)) => {
                params[i].copy_from_slice(&data, rt);
                proof {
                    let prev = states;
                    states = states.push(*rt);
                    let now = reading::<S>(bytes@, dims, (i + 1) as nat).data;
                    assert(now == so_far.push(data@));
                    assert forall|k: int| 0 <= k < now.len() implies #[trigger] load_step(
                        states,
                        params@,
                        now,
                        k,
                    ) by {
                        if k < i {
                            assert(load_step(prev, params@, so_far, k));
                            assert(prev[k] == states[k] && prev[k + 1] == states[k + 1]);
                            assert(now[k] == so_far[k]);
                        } else {
                            assert(states[k] == a && states[k + 1] == *rt);
                        }
                    }
                    if p.device is Cpu {
                        lemma_replaced(a, *rt, p, data@);
                    }
                    assert forall|k: int| 0 <= k < params@.len() implies overwritable(
                        #[trigger] params@[k],
                        *rt,
                    ) by {
                        assert(overwritable(params@[k], a));
                        assert(params@[k].valid(a.mem));
                        assert(params@[k].valid(rt.mem));
                    }
                }
                at = end;
            },
            Err(e) => {
                proof {
                    lemma_stuck::<S>(bytes@, dims, (i + 1) as nat, n);
                    assert(load_steps(states, params@, reading::<S>(bytes@, dims, n).data));
                }
                return Err(e);
            },
        }
        i = i + 1;
    }
    assert(load_steps(states, params@, reading::<S>(bytes@, dims, n).data));
    Ok(())
}

/// Nothing is read behind an error.
proof fn lemma_stuck<S: Scalar>(b: Seq<u8>, shapes: Seq<Seq<usize>>, k: nat, n: nat)
    requires
        k <= n,
        reading::<S>(b, shapes, k).error is Some,
    ensures
        reading::<S>(b, shapes, n) == reading::<S>(b, shapes, k),
    decreases n,
{
    if k < n {
        lemma_stuck::<S>(b, shapes, k, (n - 1) as nat);
    }
}

/// The four bytes of a number that fits them write it.
proof fn lemma_le(n: nat, b: Seq<u8>, at: int)
    requires
        n <= u32::MAX,
        0 <= at,
        at + 4 <= b.len(),
        b.subrange(at, at + 4) == le(n),
    ensures
        u32_at(b, at) == n,
{
    let s = b.subrange(at, at + 4);
    assert(b[at] == s[0] && b[at + 1] == s[1] && b[at + 2] == s[2] && b[at + 3] == s[3]);
    assert(n % 256 + 256 * (n / 256 % 256) + 65536 * (n / 65536 % 256) + 16777216 * (n / 16777216
        % 256) == n) by (nonlinear_arith)
        requires
            n <= 0xffff_ffff,
    ;
}

proof fn lemma_le_all_len(ns: Seq<nat>)
    ensures
        le_all(ns).len() == 4 * ns.len(),
    decreases ns.len(),
{
    if ns.len() > 0 {
        lemma_le_all_len(ns.drop_last());
    }
}

/// Numbers are read back where they were written.
proof fn lemma_le_all(ns: Seq<nat>, b: Seq<u8>, at: int, i: int)
    requires
        0 <= at,
        at + 4 * ns.len() <= b.len(),
        b.subrange(at, at + 4 * ns.len()) == le_all(ns),
        0 <= i < ns.len(),
        ns[i] <= u32::MAX,
    ensures
        u32_at(b, at + 4 * i) == ns[i],
    decreases ns.len(),
{
    let head = ns.drop_last();
    let m = at + 4 * head.len();
    lemma_le_all_len(head);
    let all = b.subrange(at, at + 4 * ns.len());
    assert(all == le_all(head) + le(ns.last()));
    if i == ns.len() - 1 {
        assert(b.subrange(m, m + 4) =~= all.subrange(4 * head.len() as int, 4 * ns.len() as int));
        assert(all.subrange(4 * head.len() as int, 4 * ns.len() as int) =~= le(ns.last()));
        lemma_le(ns.last(), b, m);
    } else {
        assert(b.subrange(at, m) =~= all.subrange(0, 4 * head.len() as int));
        assert(all.subrange(0, 4 * head.len() as int) =~= le_all(head));
        assert(head[i] == ns[i]);
        lemma_le_all(head, b, at, i);
    }
}

/// A value that fits the file format.
pub open spec fn fits_file<S>(v: Value<S>) -> bool {
    &&& v.wf()
    &&& v.dims.len() <= u32::MAX
    &&& v.data.len() <= u32::MAX
    &&& forall|i: int| 0 <= i < v.dims.len() ==> #[trigger] v.dims[i] <= u32::MAX
}

/// A tensor is read back where it was written.
proof fn lemma_tensor_back<S: Scalar>(v: Value<S>, b: Seq<u8>, at: int)
    requires
        fits_file(v),
        0 <= at,
        at + tensor_bytes(v).len() <= b.len(),
        b.subrange(at, at + tensor_bytes(v).len()) == tensor_bytes(v),
    ensures
        tensor_at::<S>(b, at, v.dims) == Ok::<(Seq<S>, int), LoadError>(
            (v.data, at + tensor_bytes(v).len()),
        ),
{
    let rank = v.dims.len();
    let count = v.data.len();
    let ds = extents(v.dims);
    let xs = patterns(v.data);
    lemma_le_all_len(ds);
    lemma_le_all_len(xs);
    let all = tensor_bytes(v);
    let mid = at + 4 + 4 * rank;
    let whole = b.subrange(at, at + all.len());
    assert(b.subrange(at, at + 4) =~= whole.subrange(0, 4));
    assert(all.subrange(0, 4) =~= le(rank));
    lemma_le(rank, b, at);
    assert(b.subrange(at + 4, mid) =~= whole.subrange(4, 4 + 4 * rank as int));
    assert(all.subrange(4, 4 + 4 * rank as int) =~= le_all(ds));
    assert(b.subrange(mid, mid + 4) =~= whole.subrange(4 + 4 * rank as int, 8 + 4 * rank as int));
    assert(all.subrange(4 + 4 * rank as int, 8 + 4 * rank as int) =~= le(count));
    lemma_le(count, b, mid);
    let tail = 8 + 4 * rank as int;
    assert(b.subrange(mid + 4, mid + 4 + 4 * count) =~= whole.subrange(tail, tail + 4 * count));
    assert(all.subrange(tail, tail + 4 * count) =~= le_all(xs));
    let read = u32s_at(b, at + 4, rank);
    assert forall|i: int| 0 <= i < rank implies #[trigger] read[i] == v.dims[i] by {
        assert(ds[i] == v.dims[i] as nat);
        lemma_le_all(ds, b, at + 4, i);
    }
    assert(same_extents(read, v.dims));
    let got = Seq::new(count, |i: int| S::from_bits_spec(u32_at(b, mid + 4 + 4 * i)));
    assert forall|i: int| 0 <= i < count implies #[trigger] got[i] == v.data[i] by {
        assert(xs[i] == S::bits_spec(v.data[i]) as nat);
        lemma_le_all(xs, b, mid + 4, i);
        S::lemma_bits(v.data[i]);
    }
    assert(got =~= v.data);
}

/// The extents of values.
pub open spec fn value_dims<S>(vs: Seq<Value<S>>) -> Seq<Seq<usize>> {
    vs.map_values(|v: Value<S>| v.dims)
}

/// The elements of values.
pub open spec fn value_data<S>(vs: Seq<Value<S>>) -> Seq<Seq<S>> {
    vs.map_values(|v: Value<S>| v.data)
}

proof fn lemma_prefix_of_file<S: Scalar>(vs: Seq<Value<S>>, k: nat, n: nat)
    requires
        k <= n <= vs.len(),
    ensures
        tensors_bytes(vs, k).len() <= tensors_bytes(vs, n).len(),
        tensors_bytes(vs, n).subrange(0, tensors_bytes(vs, k).len() as int) == tensors_bytes(vs, k),
    decreases n - k,
{
    let a = tensors_bytes(vs, k);
    if k == n {
        assert(a.subrange(0, a.len() as int) =~= a);
    } else {
        lemma_prefix_of_file(vs, k + 1, n);
        let next = tensors_bytes(vs, k + 1);
        let all = tensors_bytes(vs, n);
        assert(next == a + tensor_bytes(vs[k as int]));
        assert(all.subrange(0, a.len() as int) =~= all.subrange(0, next.len() as int).subrange(
            0,
            a.len() as int,
        ));
        assert(next.subrange(0, a.len() as int) =~= a);
    }
}

#[verifier::spinoff_prover]
#[verifier::rlimit(60)]
proof fn lemma_read_back<S: Scalar>(vs: Seq<Value<S>>, k: nat)
    requires
        vs.len() <= u32::MAX,
        forall|i: int| 0 <= i < vs.len() ==> fits_file(#[trigger] vs[i]),
        k <= vs.len(),
    ensures
        reading::<S>(file_bytes(vs), value_dims(vs), k) == (Reading {
            data: value_data(vs).take(k as int),
            at: tensors_bytes(vs, k).len() as int,
            error: None,
        }),
    decreases k,
{
    let b = file_bytes(vs);
    let dims = value_dims(vs);
    if k == 0 {
        lemma_prefix_of_file(vs, 0, vs.len());
        assert(b.subrange(0, 4) == le(vs.len()));
        lemma_le(vs.len(), b, 0);
        assert(value_data(vs).take(0) =~= Seq::<Seq<S>>::empty());
    } else {
        let j = (k - 1) as nat;
        lemma_read_back(vs, j);
        let v = vs[j as int];
        let at = tensors_bytes(vs, j).len() as int;
        lemma_prefix_of_file(vs, k, vs.len());
        let head = tensors_bytes(vs, k);
        assert(head == tensors_bytes(vs, j) + tensor_bytes(v));
        assert(b.subrange(at, at + tensor_bytes(v).len()) =~= b.subrange(
            0,
            head.len() as int,
        ).subrange(at, at + tensor_bytes(v).len()));
        assert(head.subrange(at, at + tensor_bytes(v).len()) =~= tensor_bytes(v));
        lemma_tensor_back(v, b, at);
        assert(dims[j as int] == v.dims);
        assert(value_data(vs).take(k as int) =~= value_data(vs).take(j as int).push(v.data));
    }
}

/// What was saved is loaded: reading a file back for the shapes it was written for succeeds and
/// gives every element.
pub proof fn law_checkpoint_round_trip<S: Scalar>(vs: Seq<Value<S>>)
    requires
        vs.len() <= u32::MAX,
        forall|i: int| 0 <= i < vs.len() ==> fits_file(#[trigger] vs[i]),
    ensures
        reading::<S>(file_bytes(vs), value_dims(vs), vs.len()).error is None,
        reading::<S>(file_bytes(vs), value_dims(vs), vs.len()).data == value_data(vs),
{
    lemma_read_back(vs, vs.len());
    assert(value_data(vs).take(vs.len() as int) =~= value_data(vs));
}

} // verus!
