//! Convolution and pooling on the device.
use vstd::prelude::*;
use crate::cpu::conv::{conv_dims, conv_geometry, sliding, window_ok};
use crate::cpu::pool::{pool_dims, pool_window};
use crate::create::{device_added, device_roomy};
use crate::cuda::command::{
    launch_over, launchable, over_elems, requests, Kernel, LaunchView, Request,
};
use crate::cuda::forward::{
    lemma_nothing_queued, list2, list3, list4, made, on_cuda, packed, room_for, unless_empty,
};
use crate::cuda::plan::{
    buffers_of, conv_params, on_device, params_of, planned, planned3, pool_params, queued,
};
use crate::handle::no_meta;
use crate::index::{bounded, lemma_bounded_fits, numel};
use crate::runtime::Runtime;
use crate::scalar::Scalar;
use crate::shape::Shape;
use crate::tensor::Tensor;

verus! {

/// The launch of the convolution kernel: one thread for each output pixel.
pub open spec fn conv_launch<S>(
    x: Tensor,
    weight: Tensor,
    bias: Tensor,
    out: Tensor,
    stride: usize,
    padding: usize,
) -> Seq<LaunchView<S>> {
    let o = out.shape@;
    unless_empty(
        numel(o),
        over_elems(
            Kernel::Conv2dForward,
            numel(o),
            buffers_of(seq![x, weight, bias, out]),
            conv_params(x.shape@, weight.shape@, o[2], o[3], stride, padding),
            Seq::empty(),
            Seq::empty(),
        ),
    )
}

fn make_conv_params(
    x: &Shape,
    w: &Shape,
    oh: usize,
    ow: usize,
    stride: usize,
    padding: usize,
) -> (r: Vec<i32>)
    requires
        x@.len() == 4,
        w@.len() == 4,
    ensures
        r@ == conv_params(x@, w@, oh, ow, stride, padding),
{
    let p: [usize; 11] = [
        x.dim(0),
        x.dim(1),
        x.dim(2),
        x.dim(3),
        w.dim(0),
        w.dim(2),
        w.dim(3),
        oh,
        ow,
        stride,
        padding,
    ];
    assert(p@ =~= seq![
        x@[0],
        x@[1],
        x@[2],
        x@[3],
        w@[0],
        w@[2],
        w@[3],
        oh,
        ow,
        stride,
        padding,
    ]);
    params_of(p.as_slice())
}

fn make_pool_params(
    x: &Shape,
    k: usize,
    oh: usize,
    ow: usize,
    stride: usize,
    padding: usize,
) -> (r: Vec<i32>)
    requires
        x@.len() == 4,
    ensures
        r@ == pool_params(x@, k, oh, ow, stride, padding),
{
    let p: [usize; 9] = [x.dim(0), x.dim(1), x.dim(2), x.dim(3), k, oh, ow, stride, padding];
    assert(p@ =~= seq![x@[0], x@[1], x@[2], x@[3], k, oh, ow, stride, padding]);
    params_of(p.as_slice())
}

fn shape4(a: usize, b: usize, c: usize, d: usize) -> (r: Shape)
    ensures
        r.wf(),
        r@ == seq![a, b, c, d],
{
    let dims: [usize; 4] = [a, b, c, d];
    assert(dims@ =~= seq![a, b, c, d]);
    Shape::new(dims.as_slice())
}

/// Two-dimensional convolution.
pub fn conv2d<S: Scalar>(
    input: &Tensor,
    weight: &Tensor,
    bias: &Tensor,
    stride: usize,
    padding: usize,
    rt: &mut Runtime<S>,
) -> (r: Tensor)
    requires
        old(rt).wf(),
        packed(*old(rt), *input),
        packed(*old(rt), *weight),
        packed(*old(rt), *bias),
        input.shape@.len() == 4,
        weight.shape@.len() == 4,
        window_ok(input.shape@, weight.shape@[2], weight.shape@[3], stride, padding),
        ({
            let dims = conv_dims(conv_geometry(input.shape@, weight.shape@, stride, padding));
            &&& bounded(dims)
            &&& room_for(*old(rt), numel(dims))
        }),
    ensures
        made(*old(rt), *final(rt)),
        on_device(
            *final(rt),
            r,
            conv_dims(conv_geometry(input.shape@, weight.shape@, stride, padding)),
        ),
        planned(
            *old(rt),
            *final(rt),
            r,
            conv_launch(*input, *weight, *bias, r, stride, padding),
        ),
{
    let ghost before = *rt;
    let d = &input.shape;
    let k = &weight.shape;
    let win = sliding(d.dim(2), d.dim(3), k.dim(2), k.dim(3), stride, padding);
    let shape = shape4(d.dim(0), k.dim(0), win.oh, win.ow);
    proof {
        assert(shape@ =~= conv_dims(conv_geometry(input.shape@, weight.shape@, stride, padding)));
        lemma_bounded_fits(shape@);
    }
    let n = shape.numel();
    let out = rt.device_zeros(shape);
    let ghost mid = *rt;
    if n == 0 {
        proof {
            lemma_nothing_queued(before, mid, out);
        }
        return out;
    }
    let info = make_conv_params(d, k, win.oh, win.ow, stride, padding);
    let l = launch_over(
        Kernel::Conv2dForward,
        n,
        list4(input, weight, bias, &out),
        info,
        Vec::new(),
        Vec::new(),
    );
    rt.enqueue(l);
    proof {
        assert(l@.params =~= Seq::<S>::empty());
        assert(l@.scalars =~= Seq::<i32>::empty());
        assert(queued(mid, *rt, conv_launch(*input, *weight, *bias, out, stride, padding)));
    }
    out
}

/// The launch of a pooling kernel: one thread for each output pixel.
pub open spec fn pool_launch<S>(
    x: Tensor,
    out: Tensor,
    k: usize,
    stride: usize,
    padding: usize,
    kernel: Kernel,
) -> Seq<LaunchView<S>> {
    let o = out.shape@;
    unless_empty(
        numel(o),
        over_elems(
            kernel,
            numel(o),
            buffers_of(seq![x, out]),
            pool_params(x.shape@, k, o[2], o[3], stride, padding),
            Seq::empty(),
            Seq::empty(),
        ),
    )
}

/// A pooling on the device can be launched.
pub open spec fn pool_ready<S>(
    rt: Runtime<S>,
    x: Tensor,
    k: usize,
    stride: usize,
    padding: usize,
) -> bool {
    let dims = pool_dims(x.shape@, pool_window(x.shape@, k, stride, padding));
    &&& packed(rt, x)
    &&& x.shape@.len() == 4
    &&& window_ok(x.shape@, k, k, stride, padding)
    &&& bounded(dims)
    &&& room_for(rt, numel(dims))
}

fn pool2d<S: Scalar>(
    input: &Tensor,
    k: usize,
    stride: usize,
    padding: usize,
    kernel: Kernel,
    rt: &mut Runtime<S>,
) -> (r: Tensor)
    requires
        old(rt).wf(),
        pool_ready(*old(rt), *input, k, stride, padding),
    ensures
        made(*old(rt), *final(rt)),
        on_device(
            *final(rt),
            r,
            pool_dims(input.shape@, pool_window(input.shape@, k, stride, padding)),
        ),
        planned(
            *old(rt),
            *final(rt),
            r,
            pool_launch(*input, r, k, stride, padding, kernel),
        ),
{
    let ghost before = *rt;
    let d = &input.shape;
    let win = sliding(d.dim(2), d.dim(3), k, k, stride, padding);
    let shape = shape4(d.dim(0), d.dim(1), win.oh, win.ow);
    proof {
        assert(shape@ =~= pool_dims(
            input.shape@,
            pool_window(input.shape@, k, stride, padding),
        ));
        lemma_bounded_fits(shape@);
    }
    let n = shape.numel();
    let out = rt.device_zeros(shape);
    let ghost mid = *rt;
    if n == 0 {
        proof {
            lemma_nothing_queued(before, mid, out);
        }
        return out;
    }
    let info = make_pool_params(d, k, win.oh, win.ow, stride, padding);
    let l = launch_over(kernel, n, list2(input, &out), info, Vec::new(), Vec::new());
    rt.enqueue(l);
    proof {
        assert(l@.params =~= Seq::<S>::empty());
        assert(l@.scalars =~= Seq::<i32>::empty());
        assert(queued(mid, *rt, pool_launch(*input, out, k, stride, padding, kernel)));
    }
    out
}

/// Two-dimensional max pooling.
pub fn maxpool2d<S: Scalar>(
    input: &Tensor,
    kernel_size: usize,
    stride: usize,
    padding: usize,
    rt: &mut Runtime<S>,
) -> (r: Tensor)
    requires
        old(rt).wf(),
        pool_ready(*old(rt), *input, kernel_size, stride, padding),
    ensures
        made(*old(rt), *final(rt)),
        on_device(
            *final(rt),
            r,
            pool_dims(input.shape@, pool_window(input.shape@, kernel_size, stride, padding)),
        ),
        planned(
            *old(rt),
            *final(rt),
            r,
            pool_launch(*input, r, kernel_size, stride, padding, Kernel::Maxpool2dForward),
        ),
{
    pool2d(input, kernel_size, stride, padding, Kernel::Maxpool2dForward, rt)
}

/// Two-dimensional average pooling.
pub fn avgpool2d<S: Scalar>(
    input: &Tensor,
    kernel_size: usize,
    stride: usize,
    padding: usize,
    rt: &mut Runtime<S>,
) -> (r: Tensor)
    requires
        old(rt).wf(),
        pool_ready(*old(rt), *input, kernel_size, stride, padding),
    ensures
        made(*old(rt), *final(rt)),
        on_device(
            *final(rt),
            r,
            pool_dims(input.shape@, pool_window(input.shape@, kernel_size, stride, padding)),
        ),
        planned(
            *old(rt),
            *final(rt),
            r,
            pool_launch(*input, r, kernel_size, stride, padding, Kernel::Avgpool2dForward),
        ),
{
    pool2d(input, kernel_size, stride, padding, Kernel::Avgpool2dForward, rt)
}

/// The launch of the max pooling gradient kernel: one thread for each input pixel.
pub open spec fn maxpool_backward_launch<S>(
    x: Tensor,
    go: Tensor,
    out: Tensor,
    k: usize,
    stride: usize,
    padding: usize,
) -> Seq<LaunchView<S>> {
    let n = numel(x.shape@);
    unless_empty(
        n,
        over_elems(
            Kernel::Maxpool2dBackward,
            n,
            buffers_of(seq![x, go, out]),
            pool_params(x.shape@, k, go.shape@[2], go.shape@[3], stride, padding),
            Seq::empty(),
            Seq::empty(),
        ),
    )
}

/// The gradient of max pooling with respect to its input.
pub fn maxpool2d_backward<S: Scalar>(
    input: &Tensor,
    grad_out: &Tensor,
    kernel_size: usize,
    stride: usize,
    padding: usize,
    rt: &mut Runtime<S>,
) -> (r: Tensor)
    requires
        old(rt).wf(),
        packed(*old(rt), *input),
        packed(*old(rt), *grad_out),
        input.shape@.len() == 4,
        grad_out.shape@.len() == 4,
        room_for(*old(rt), numel(input.shape@)),
    ensures
        made(*old(rt), *final(rt)),
        on_device(*final(rt), r, input.shape@),
        planned(
            *old(rt),
            *final(rt),
            r,
            maxpool_backward_launch(*input, *grad_out, r, kernel_size, stride, padding),
        ),
{
    let ghost before = *rt;
    proof {
        lemma_bounded_fits(input.shape@);
    }
    let n = input.shape.numel();
    let out = rt.device_zeros(input.shape);
    let ghost mid = *rt;
    if n == 0 {
        proof {
            lemma_nothing_queued(before, mid, out);
        }
        return out;
    }
    let info = make_pool_params(
        &input.shape,
        kernel_size,
        grad_out.shape.dim(2),
        grad_out.shape.dim(3),
        stride,
        padding,
    );
    let l = launch_over(
        Kernel::Maxpool2dBackward,
        n,
        list3(input, grad_out, &out),
        info,
        Vec::new(),
        Vec::new(),
    );
    rt.enqueue(l);
    proof {
        assert(l@.params =~= Seq::<S>::empty());
        assert(l@.scalars =~= Seq::<i32>::empty());
        assert(queued(
            mid,
            *rt,
            maxpool_backward_launch(*input, *grad_out, out, kernel_size, stride, padding),
        ));
    }
    out
}

/// The launch of the average pooling gradient kernel: one thread for each input pixel.
pub open spec fn avgpool_backward_launch<S>(
    x: Tensor,
    go: Tensor,
    out: Tensor,
    k: usize,
    stride: usize,
    padding: usize,
) -> Seq<LaunchView<S>> {
    let n = numel(x.shape@);
    unless_empty(
        n,
        over_elems(
            Kernel::Avgpool2dBackward,
            n,
            buffers_of(seq![go, out]),
            pool_params(x.shape@, k, go.shape@[2], go.shape@[3], stride, padding),
            Seq::empty(),
            Seq::empty(),
        ),
    )
}

/// The gradient of average pooling with respect to its input.
pub fn avgpool2d_backward<S: Scalar>(
    input: &Tensor,
    grad_out: &Tensor,
    kernel_size: usize,
    stride: usize,
    padding: usize,
    rt: &mut Runtime<S>,
) -> (r: Tensor)
    requires
        old(rt).wf(),
        on_cuda(*old(rt), *input),
        packed(*old(rt), *grad_out),
        input.shape@.len() == 4,
        grad_out.shape@.len() == 4,
        room_for(*old(rt), numel(input.shape@)),
    ensures
        made(*old(rt), *final(rt)),
        on_device(*final(rt), r, input.shape@),
        planned(
            *old(rt),
            *final(rt),
            r,
            avgpool_backward_launch(*input, *grad_out, r, kernel_size, stride, padding),
        ),
{
    let ghost before = *rt;
    proof {
        lemma_bounded_fits(input.shape@);
    }
    let n = input.shape.numel();
    let out = rt.device_zeros(input.shape);
    let ghost mid = *rt;
    if n == 0 {
        proof {
            lemma_nothing_queued(before, mid, out);
        }
        return out;
    }
    let info = make_pool_params(
        &input.shape,
        kernel_size,
        grad_out.shape.dim(2),
        grad_out.shape.dim(3),
        stride,
        padding,
    );
    let l = launch_over(
        Kernel::Avgpool2dBackward,
        n,
        list2(grad_out, &out),
        info,
        Vec::new(),
        Vec::new(),
    );
    rt.enqueue(l);
    proof {
        assert(l@.params =~= Seq::<S>::empty());
        assert(l@.scalars =~= Seq::<i32>::empty());
        assert(queued(
            mid,
            *rt,
            avgpool_backward_launch(*input, *grad_out, out, kernel_size, stride, padding),
        ));
    }
    out
}

/// Room for three tensors with `n` elements in all, and for their metadata.
pub open spec fn room_for3<S>(rt: Runtime<S>, n: nat) -> bool {
    &&& rt.mem.cells.room() >= 3
    &&& device_roomy(rt, 3, n as int)
}

/// Three new tensors of zeros.
pub open spec fn three_added<S>(
    a: Runtime<S>,
    b: Runtime<S>,
    ts: (Tensor, Tensor, Tensor),
) -> bool {
    exists|m1: Runtime<S>, m2: Runtime<S>|
        #[trigger] device_added(a, m1, ts.0, no_meta()) && #[trigger] device_added(
            m1,
            m2,
            ts.1,
            no_meta(),
        ) && device_added(m2, b, ts.2, no_meta())
}

/// Makes three tensors of zeros on the first device.
pub(crate) fn device_zeros3<S: Scalar>(a: Shape, b: Shape, c: Shape, rt: &mut Runtime<S>) -> (r: (
    Tensor,
    Tensor,
    Tensor,
))
    requires
        old(rt).wf(),
        bounded(a@),
        bounded(b@),
        bounded(c@),
        room_for3(*old(rt), numel(a@) + numel(b@) + numel(c@)),
    ensures
        made(*old(rt), *final(rt)),
        three_added(*old(rt), *final(rt), r),
        on_device(*final(rt), r.0, a@),
        on_device(*final(rt), r.1, b@),
        on_device(*final(rt), r.2, c@),
{
    let ghost first = *rt;
    proof {
        lemma_bounded_fits(a@);
        lemma_bounded_fits(b@);
        lemma_bounded_fits(c@);
    }
    let ta = rt.device_zeros(a);
    let ghost m1 = *rt;
    let tb = rt.device_zeros(b);
    let ghost m2 = *rt;
    let tc = rt.device_zeros(c);
    proof {
        let ts = (ta, tb, tc);
        assert(device_added(first, m1, ts.0, no_meta()));
        assert(device_added(m1, m2, ts.1, no_meta()));
        assert(device_added(m2, *rt, ts.2, no_meta()));
        assert(three_added(first, *rt, ts));
        assert forall|u: Tensor| #[trigger] u.owned(first) implies {
            &&& u.owned(*rt)
            &&& u.device is Cpu ==> u.block(rt.mem) == u.block(first.mem)
        } by {
            assert(u.owned(m1));
            assert(u.owned(m2));
        }
        assert(ta.owned(m2));
        assert(ta.owned(*rt));
        assert(tb.owned(*rt));
        assert forall|x: usize| #[trigger] first.mem.cells@.contains_key(x) implies
            rt.mem.cells@.contains_key(x) && rt.mem.cells@[x] == first.mem.cells@[x] by {
            assert(m1.mem.cells@.contains_key(x));
            assert(m2.mem.cells@.contains_key(x));
        }
    }
    (ta, tb, tc)
}

/// The launches of the convolution gradient kernels: bias, weight, then input.
pub open spec fn conv_backward_launch<S>(
    x: Tensor,
    weight: Tensor,
    go: Tensor,
    out: (Tensor, Tensor, Tensor),
    stride: usize,
    padding: usize,
) -> Seq<LaunchView<S>> {
    let info = conv_params(x.shape@, weight.shape@, go.shape@[2], go.shape@[3], stride, padding);
    if numel(x.shape@) == 0 {
        Seq::empty()
    } else {
        seq![
            over_elems(
                Kernel::Conv2dBackwardBias,
                weight.shape@[0] as nat,
                buffers_of(seq![go, out.2]),
                info,
                Seq::empty(),
                Seq::empty(),
            ),
            over_elems(
                Kernel::Conv2dBackwardWeight,
                numel(weight.shape@),
                buffers_of(seq![x, go, out.1]),
                info,
                Seq::empty(),
                Seq::empty(),
            ),
            over_elems(
                Kernel::Conv2dBackwardInput,
                numel(x.shape@),
                buffers_of(seq![weight, go, out.0]),
                info,
                Seq::empty(),
                Seq::empty(),
            ),
        ]
    }
}

/// The gradients of a convolution: input, weight, bias.
pub fn conv2d_backward<S: Scalar>(
    input: &Tensor,
    weight: &Tensor,
    grad_out: &Tensor,
    stride: usize,
    padding: usize,
    rt: &mut Runtime<S>,
) -> (r: (Tensor, Tensor, Tensor))
    requires
        old(rt).wf(),
        packed(*old(rt), *input),
        packed(*old(rt), *weight),
        packed(*old(rt), *grad_out),
        input.shape@.len() == 4,
        weight.shape@.len() == 4,
        grad_out.shape@.len() == 4,
        launchable(numel(input.shape@)),
        launchable(numel(weight.shape@)),
        launchable(weight.shape@[0] as nat),
        room_for3(
            *old(rt),
            numel(input.shape@) + numel(weight.shape@) + numel(seq![weight.shape@[0]]),
        ),
    ensures
        made(*old(rt), *final(rt)),
        on_device(*final(rt), r.0, input.shape@),
        on_device(*final(rt), r.1, weight.shape@),
        on_device(*final(rt), r.2, seq![weight.shape@[0]]),
        planned3(
            *old(rt),
            *final(rt),
            r,
            conv_backward_launch(*input, *weight, *grad_out, r, stride, padding),
        ),
{
    let ghost first = *rt;
    let cout = weight.shape.dim(0);
    let bias_dims: [usize; 1] = [cout];
    let bias_shape = Shape::new(bias_dims.as_slice());
    proof {
        assert(bias_shape@ =~= seq![cout]);
        crate::cpu::norm::lemma_single(bias_shape@, cout);
        lemma_bounded_fits(input.shape@);
        lemma_bounded_fits(weight.shape@);
    }
    let outs = device_zeros3(input.shape, weight.shape, bias_shape, rt);
    let ghost m3 = *rt;
    let n = input.shape.numel();
    if n == 0 {
        proof {
            lemma_queued3(first, m3, m3, outs, Seq::empty());
        }
        return outs;
    }
    let oh = grad_out.shape.dim(2);
    let ow = grad_out.shape.dim(3);
    let wn = weight.shape.numel();
    let l1 = launch_over(
        Kernel::Conv2dBackwardBias,
        cout,
        list2(grad_out, &outs.2),
        make_conv_params(&input.shape, &weight.shape, oh, ow, stride, padding),
        Vec::new(),
        Vec::new(),
    );
    let l2 = launch_over(
        Kernel::Conv2dBackwardWeight,
        wn,
        list3(input, grad_out, &outs.1),
        make_conv_params(&input.shape, &weight.shape, oh, ow, stride, padding),
        Vec::new(),
        Vec::new(),
    );
    let l3 = launch_over(
        Kernel::Conv2dBackwardInput,
        n,
        list3(weight, grad_out, &outs.0),
        make_conv_params(&input.shape, &weight.shape, oh, ow, stride, padding),
        Vec::new(),
        Vec::new(),
    );
    let ghost ls = conv_backward_launch::<S>(*input, *weight, *grad_out, outs, stride, padding);
    proof {
        assert(l1@ =~= ls[0]);
        assert(l2@ =~= ls[1]);
        assert(l3@ =~= ls[2]);
    }
    rt.enqueue(l1);
    let ghost q1 = *rt;
    rt.enqueue(l2);
    let ghost q2 = *rt;
    rt.enqueue(l3);
    proof {
        let f = |l: LaunchView<S>| Request::Run(l);
        assert(requests(rt.queue@) =~= requests(m3.queue@) + ls.map_values(f));
        assert(queued(m3, *rt, ls));
        lemma_queued3(first, m3, *rt, outs, ls);
        lemma_still_made(first, m3, *rt, outs);
    }
    outs
}

/// Launches behind three new tensors.
pub(crate) proof fn lemma_queued3<S>(
    a: Runtime<S>,
    m: Runtime<S>,
    b: Runtime<S>,
    ts: (Tensor, Tensor, Tensor),
    ls: Seq<LaunchView<S>>,
)
    requires
        three_added(a, m, ts),
        queued(m, b, ls) || (b == m && ls == Seq::<LaunchView<S>>::empty()),
    ensures
        planned3(a, b, ts, ls),
{
    if b == m && ls == Seq::<LaunchView<S>>::empty() {
        let f = |l: LaunchView<S>| Request::Run(l);
        assert(requests(b.queue@) =~= requests(b.queue@) + ls.map_values(f));
        assert(queued(m, b, ls));
    }
    let (m1, m2) = choose|m1: Runtime<S>, m2: Runtime<S>|
        #[trigger] device_added(a, m1, ts.0, no_meta()) && #[trigger] device_added(
            m1,
            m2,
            ts.1,
            no_meta(),
        ) && device_added(m2, m, ts.2, no_meta());
    assert(device_added(a, m1, ts.0, no_meta()) && device_added(m1, m2, ts.1, no_meta())
        && device_added(m2, m, ts.2, no_meta()) && queued(m, b, ls));
}

/// Queueing launches changes no tensor.
pub(crate) proof fn lemma_still_made<S>(
    a: Runtime<S>,
    m: Runtime<S>,
    b: Runtime<S>,
    ts: (Tensor, Tensor, Tensor),
)
    requires
        made(a, m),
        b.wf(),
        b.mem == m.mem,
        b.holds() == m.holds(),
        ts.0.owned(m),
        ts.1.owned(m),
        ts.2.owned(m),
    ensures
        made(a, b),
        ts.0.owned(b),
        ts.1.owned(b),
        ts.2.owned(b),
{
    assert forall|u: Tensor| #[trigger] u.owned(m) implies u.owned(b) by {
        assert(b.owners(u.key()) == m.owners(u.key()));
    }
    assert forall|u: Tensor| #[trigger] u.owned(a) implies {
        &&& u.owned(b)
        &&& u.device is Cpu ==> u.block(b.mem) == u.block(a.mem)
    } by {
        assert(u.owned(m));
    }
}

} // verus!
