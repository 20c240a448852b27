//! Parameters of the kernels.
use vstd::prelude::*;
use crate::cuda::command::{requests, Command, Launch, LaunchView, Request};
use crate::create::{device_added, device_room};
use crate::cells::Meta;
use crate::cuda::slots::total_bytes;
use crate::dense::filled;
use crate::device::Device;
use crate::dtype::DType;
use crate::handle::{no_meta, same_meta, same_state, undisturbed};
use crate::index::{bounded, lemma_bounded_fits, numel, row_major};
use crate::runtime::Runtime;
use crate::shape::Shape;
use crate::tensor::Tensor;

verus! {

/// The parameters with extents or strides put in from `base` on.
pub open spec fn laid(info: Seq<i32>, base: int, d: Seq<usize>) -> Seq<i32> {
    Seq::new(
        info.len(),
        |i: int|
            if base <= i < base + d.len() {
                d[i - base] as i32
            } else {
                info[i]
            },
    )
}

/// Puts extents or strides into the parameters.
pub(crate) fn lay(info: &mut Vec<i32>, base: usize, d: &Shape)
    requires
        base + d@.len() <= old(info)@.len(),
    ensures
        final(info)@ == laid(old(info)@, base as int, d@),
{
    let ghost before = info@;
    let n = d.rank();
    let len: usize = info.len();
    let mut i: usize = 0;
    while i < n
        invariant
            i <= n == d@.len(),
            len == before.len(),
            base + n <= len,
            info@.len() == before.len(),
            forall|k: int|
                0 <= k < info@.len() ==> #[trigger] info@[k] == (if base <= k < base + i {
                    d@[k - base] as i32
                } else {
                    before[k]
                }),
        decreases n - i,
    {
        info[base + i] = d.dim(i) as i32;
        i = i + 1;
    }
    assert(info@ =~= laid(before, base as int, d@));
}

/// `n` zeros.
pub open spec fn blank(n: nat) -> Seq<i32> {
    Seq::new(n, |i: int| 0i32)
}

/// The parameters of an elementwise kernel: the ranks, then extents and strides of the output and
/// of both operands, eight places each.
pub open spec fn binary_info(
    out: Seq<usize>,
    lhs: Seq<usize>,
    lhs_strides: Seq<usize>,
    rhs: Seq<usize>,
    rhs_strides: Seq<usize>,
) -> Seq<i32> {
    let head = blank(51).update(0, out.len() as i32).update(1, lhs.len() as i32).update(
        2,
        rhs.len() as i32,
    );
    laid(
        laid(
            laid(laid(laid(laid(head, 3, out), 11, row_major(out)), 19, lhs), 27, lhs_strides),
            35,
            rhs,
        ),
        43,
        rhs_strides,
    )
}

/// The parameters of an elementwise kernel.
pub(crate) fn make_binary_info(out: &Shape, lhs: &Tensor, rhs: &Tensor) -> (r: Vec<i32>)
    requires
        bounded(out@),
        out@.len() <= 8,
        lhs.laid_out(),
        rhs.laid_out(),
    ensures
        r@ == binary_info(out@, lhs.shape@, lhs.strides@, rhs.shape@, rhs.strides@),
{
    proof {
        lemma_bounded_fits(out@);
    }
    let mut info: Vec<i32> = filled(51, 0i32);
    assert(info@ =~= blank(51));
    info[0] = out.rank() as i32;
    info[1] = lhs.shape.rank() as i32;
    info[2] = rhs.shape.rank() as i32;
    let out_strides = out.contiguous_strides();
    lay(&mut info, 3, out);
    lay(&mut info, 11, &out_strides);
    lay(&mut info, 19, &lhs.shape);
    lay(&mut info, 27, &lhs.strides);
    lay(&mut info, 35, &rhs.shape);
    lay(&mut info, 43, &rhs.strides);
    info
}

/// The parameters of a reduction kernel: ranks and axis, then extents and strides of the input
/// with the axis reduced to 1, and those of the input, eight places each.
pub open spec fn reduce_info(x: Seq<usize>, strides: Seq<usize>, dim: usize) -> Seq<i32> {
    let kept = x.update(dim as int, 1);
    let head = blank(35).update(0, x.len() as i32).update(1, x.len() as i32).update(
        2,
        dim as i32,
    );
    laid(laid(laid(laid(head, 3, kept), 11, row_major(kept)), 19, x), 27, strides)
}

/// The parameters of a reduction kernel.
pub(crate) fn make_reduce_info(x: &Tensor, dim: usize) -> (r: Vec<i32>)
    requires
        x.laid_out(),
        bounded(x.shape@),
        dim < x.shape@.len(),
    ensures
        r@ == reduce_info(x.shape@, x.strides@, dim),
{
    let kept = crate::cpu::reduce::reduced_shape(&x.shape, dim, true);
    proof {
        crate::cpu::reduce::lemma_reduced_bounded(x.shape@, dim as int, true);
        lemma_bounded_fits(kept@);
    }
    let mut info: Vec<i32> = filled(35, 0i32);
    assert(info@ =~= blank(35));
    info[0] = x.shape.rank() as i32;
    info[1] = x.shape.rank() as i32;
    info[2] = dim as i32;
    let kept_strides = kept.contiguous_strides();
    lay(&mut info, 3, &kept);
    lay(&mut info, 11, &kept_strides);
    lay(&mut info, 19, &x.shape);
    lay(&mut info, 27, &x.strides);
    info
}

/// The parameters of the softmax kernel: the rank, then extents and strides of the input from
/// place 2 and place 10 on.
pub open spec fn softmax_info(x: Seq<usize>, strides: Seq<usize>) -> Seq<i32> {
    laid(laid(blank(18).update(0, x.len() as i32), 2, x), 10, strides)
}

/// The parameters of the softmax kernel.
pub(crate) fn make_softmax_info(x: &Tensor) -> (r: Vec<i32>)
    requires
        x.laid_out(),
    ensures
        r@ == softmax_info(x.shape@, x.strides@),
{
    let mut info: Vec<i32> = filled(18, 0i32);
    assert(info@ =~= blank(18));
    info[0] = x.shape.rank() as i32;
    lay(&mut info, 2, &x.shape);
    lay(&mut info, 10, &x.strides);
    info
}

/// Integers as parameters.
pub open spec fn as_params(d: Seq<usize>) -> Seq<i32> {
    Seq::new(d.len(), |i: int| d[i] as i32)
}

/// Integers as parameters.
pub(crate) fn params_of(d: &[usize]) -> (r: Vec<i32>)
    ensures
        r@ == as_params(d@),
{
    let mut out: Vec<i32> = Vec::new();
    let mut i: usize = 0;
    while i < d.len()
        invariant
            i <= d@.len(),
            out@.len() == i,
            forall|k: int| 0 <= k < i ==> #[trigger] out@[k] == d@[k] as i32,
        decreases d@.len() - i,
    {
        out.push(d[i] as i32);
        i = i + 1;
    }
    assert(out@ =~= as_params(d@));
    out
}

/// Convolution shape parameters in the layout the kernels expect.
pub open spec fn conv_params(
    x: Seq<usize>,
    w: Seq<usize>,
    oh: usize,
    ow: usize,
    stride: usize,
    padding: usize,
) -> Seq<i32> {
    as_params(seq![x[0], x[1], x[2], x[3], w[0], w[2], w[3], oh, ow, stride, padding])
}

/// Pooling shape parameters in the layout the kernels expect.
pub open spec fn pool_params(
    x: Seq<usize>,
    k: usize,
    oh: usize,
    ow: usize,
    stride: usize,
    padding: usize,
) -> Seq<i32> {
    as_params(seq![x[0], x[1], x[2], x[3], k, oh, ow, stride, padding])
}

/// The buffers of tensors.
pub open spec fn buffers_of(ts: Seq<Tensor>) -> Seq<u32> {
    ts.map_values(|t: Tensor| t.storage_id.slot_idx)
}

/// The buffers of tensors.
pub(crate) fn buffers<'a>(ts: &[&'a Tensor]) -> (r: Vec<u32>)
    ensures
        r@ == buffers_of(crate::tape::derefs(ts@)),
{
    let mut out: Vec<u32> = Vec::new();
    let mut i: usize = 0;
    while i < ts.len()
        invariant
            i <= ts@.len(),
            out@.len() == i,
            forall|k: int| 0 <= k < i ==> #[trigger] out@[k] == ts@[k].storage_id.slot_idx,
        decreases ts@.len() - i,
    {
        let t: &Tensor = ts[i];
        out.push(t.storage_id.slot_idx);
        i = i + 1;
    }
    assert(out@ =~= buffers_of(crate::tape::derefs(ts@)));
    out
}

/// Launches were queued in order, and nothing else happened.
pub open spec fn queued<S>(a: Runtime<S>, b: Runtime<S>, ls: Seq<LaunchView<S>>) -> bool {
    &&& same_state(a, b)
    &&& b.mem == a.mem
    &&& requests(b.queue@) == requests(a.queue@) + ls.map_values(
        |l: LaunchView<S>| Request::Run(l),
    )
}

/// One new tensor on the device and the launches that fill it.
pub open spec fn planned<S>(
    a: Runtime<S>,
    b: Runtime<S>,
    t: Tensor,
    ls: Seq<LaunchView<S>>,
) -> bool {
    exists|mid: Runtime<S>|
        #[trigger] device_added(a, mid, t, no_meta()) && queued(mid, b, ls)
}

/// Three new tensors on the device and the launches that fill them.
pub open spec fn planned3<S>(
    a: Runtime<S>,
    b: Runtime<S>,
    ts: (Tensor, Tensor, Tensor),
    ls: Seq<LaunchView<S>>,
) -> bool {
    exists|m1: Runtime<S>, m2: Runtime<S>, m3: Runtime<S>|
        #[trigger] device_added(a, m1, ts.0, no_meta()) && #[trigger] device_added(
            m1,
            m2,
            ts.1,
            no_meta(),
        ) && #[trigger] device_added(m2, m3, ts.2, no_meta()) && queued(m3, b, ls)
}

/// A new row-major tensor of the caller's on the first device.
pub open spec fn on_device<S>(rt: Runtime<S>, t: Tensor, dims: Seq<usize>) -> bool {
    &&& t.owned(rt)
    &&& t.shape@ == dims
    &&& t.contiguous_spec()
    &&& t.dtype == DType::F32
    &&& t.device == Device::Cuda(0)
}

impl<S> Runtime<S> {
    /// Queues a launch.
    pub(crate) fn enqueue(&mut self, l: Launch<S>)
        requires
            old(self).wf(),
        ensures
            final(self).wf(),
            queued(*old(self), *final(self), seq![l@]),
            final(self).holds() == old(self).holds(),
            undisturbed(*old(self), *final(self)),
            same_meta(*old(self), *final(self)),
    {
        let ghost before = *self;
        let ghost queue0 = self.queue@;
        let ghost v = l@;
        self.queue.push(Command::Run(l));
        proof {
            assert(self.holds() == before.holds());
            assert(requests(self.queue@) =~= requests(queue0) + seq![v].map_values(
                |l: LaunchView<S>| Request::Run(l),
            ));
            crate::handle::lemma_undisturbed(before, *self);
        }
    }

    /// Makes a tensor of zeros on the first device.
    pub(crate) fn device_zeros(&mut self, shape: Shape) -> (t: Tensor)
        requires
            old(self).wf(),
            old(self).mem.cells.room() > 0,
            bounded(shape@),
            device_room(*old(self), numel(shape@) as usize),
        ensures
            final(self).wf(),
            device_added(*old(self), *final(self), t, no_meta()),
            final(self).mem.cuda.slots_spec().len() <= old(self).mem.cuda.slots_spec().len() + 1,
            total_bytes(final(self).mem.cuda.slots_spec()) <= total_bytes(
                old(self).mem.cuda.slots_spec(),
            ) + numel(shape@) * 4,
            on_device(*final(self), t, shape@),
            undisturbed(*old(self), *final(self)),
            same_meta(*old(self), *final(self)),
            final(self).holds() == old(self).holds(),
            t.shape == shape,
    {
        let meta = Meta { node_id: None, requires_grad: false };
        self.adopt_cuda(shape, Device::Cuda(0), meta)
    }
}

} // verus!
