//! Max and average pooling of `[N, C, H, W]` arrays.
use vstd::prelude::*;
use crate::cpu::batchnorm::lemma_numel4;
use crate::cpu::conv::{lemma_planes, lemma_window, places, sliding, window_ok, Window};
use crate::dense::{filled, Dense, Value};
use crate::index::{bounded, lemma_bounded_fits, lemma_numel_zero, numel};
use crate::math::{fold, lemma_index2, lemma_join2, lemma_split2};
use crate::scalar::{zero, Constant, Scalar};
use crate::shape::Shape;

verus! {

/// The window that the extents of an image batch and the pooling parameters give.
pub open spec fn pool_window(d: Seq<usize>, k: usize, stride: usize, padding: usize) -> Window {
    Window {
        h: d[2],
        w: d[3],
        kh: k,
        kw: k,
        stride,
        padding,
        oh: places(d[2] + 2 * padding, k as int, stride as int) as usize,
        ow: places(d[3] + 2 * padding, k as int, stride as int) as usize,
    }
}

/// The extents of a pooled image batch.
pub open spec fn pool_dims(d: Seq<usize>, win: Window) -> Seq<usize> {
    seq![d[0], d[1], win.oh, win.ow]
}

/// An image batch can be pooled: it has four axes, the window fits the padded plane, and the
/// output fits the machine.
pub open spec fn pool_ok<S>(x: Value<S>, k: usize, stride: usize, padding: usize) -> bool {
    &&& x.dims.len() == 4
    &&& window_ok(x.dims, k, k, stride, padding)
    &&& k * k <= usize::MAX
    &&& bounded(pool_dims(x.dims, pool_window(x.dims, k, stride, padding)))
}

/// Where offset `q` of the window at place `(y, xo)` falls on the image, counted within the
/// plane; `None` in the margin.
pub open spec fn under(win: Window, y: int, xo: int, q: int) -> Option<int> {
    let r = y * win.stride + q / win.kw as int;
    let s = xo * win.stride + q % win.kw as int;
    if win.inside(r, s) {
        Some((r - win.padding) * win.w + (s - win.padding))
    } else {
        None
    }
}

/// A window placed on the planes of an image batch with `channels` planes in all.
#[derive(Debug, Clone, Copy, PartialEq, Eq, Structural)]
pub struct Planes {
    pub channels: usize,
    pub win: Window,
}

impl Planes {
    pub open spec fn input_plane(self) -> int {
        self.win.h * self.win.w
    }

    pub open spec fn output_plane(self) -> int {
        self.win.oh * self.win.ow
    }

    /// The number of pixels under the window.
    pub open spec fn area(self) -> int {
        self.win.kh * self.win.kw
    }

    pub open spec fn wf(self) -> bool {
        &&& self.win.wf()
        &&& self.channels > 0 ==> self.input_plane() <= usize::MAX
        &&& self.channels > 0 ==> self.output_plane() <= usize::MAX
        &&& self.channels * self.input_plane() <= usize::MAX
        &&& self.channels * self.output_plane() <= usize::MAX
        &&& self.area() <= usize::MAX
    }
}

/// Where offset `q` of the window at place `o` falls on the image.
pub(crate) fn under_at(win: Window, o: usize, q: usize) -> (r: Option<usize>)
    requires
        win.wf(),
        win.h * win.w <= usize::MAX,
        o < win.oh * win.ow,
        q < win.kh * win.kw,
    ensures
        r is Some <==> under(
            win,
            o as int / win.ow as int,
            o as int % win.ow as int,
            q as int,
        ) is Some,
        r matches Some(v) ==> {
            &&& under(win, o as int / win.ow as int, o as int % win.ow as int, q as int)
                == Some(v as int)
            &&& v < win.h * win.w
        },
{
    proof {
        lemma_split2(o as int, win.oh as int, win.ow as int);
        lemma_split2(q as int, win.kh as int, win.kw as int);
    }
    let y: usize = o / win.ow;
    let xo: usize = o % win.ow;
    let i: usize = q / win.kw;
    let j: usize = q % win.kw;
    proof {
        lemma_window(
            y as int,
            win.oh as int,
            win.stride as int,
            i as int,
            win.kh as int,
            win.h + 2 * win.padding,
        );
        lemma_window(
            xo as int,
            win.ow as int,
            win.stride as int,
            j as int,
            win.kw as int,
            win.w + 2 * win.padding,
        );
    }
    let r: usize = y * win.stride + i;
    let s: usize = xo * win.stride + j;
    if r < win.padding || r >= win.h + win.padding || s < win.padding || s >= win.w + win.padding {
        return None;
    }
    proof {
        lemma_index2(r - win.padding, win.h as int, s - win.padding, win.w as int);
    }
    Some((r - win.padding) * win.w + (s - win.padding))
}

/// Keeps the larger of the running best and the pixel at offset `q`, with its place; the first
/// wins a tie.
pub open spec fn best_step<S: Scalar>(x: Seq<S>, pl: Planes, nc: int, o: int) -> spec_fn(
    int,
    (S, Option<int>),
) -> (S, Option<int>) {
    let win = pl.win;
    |q: int, best: (S, Option<int>)|
        match under(win, o / win.ow as int, o % win.ow as int, q) {
            Some(p) => if S::gt_spec(x[nc * pl.input_plane() + p], best.0) {
                (x[nc * pl.input_plane() + p], Some(p))
            } else {
                best
            },
            None => best,
        }
}

/// The largest pixel under the window at place `o` of plane `nc`, and where it is.
pub open spec fn best_at<S: Scalar>(x: Seq<S>, pl: Planes, nc: int, o: int) -> (S, Option<int>) {
    fold(
        pl.area() as nat,
        (S::constant_spec(Constant::NegInfinity), None::<int>),
        best_step(x, pl, nc, o),
    )
}

/// The largest pixel under the window, and where it is.
fn best_under<S: Scalar>(x: &Vec<S>, pl: Planes, nc: usize, o: usize) -> (r: (S, Option<usize>))
    requires
        pl.wf(),
        nc < pl.channels,
        o < pl.output_plane(),
        x@.len() == pl.channels * pl.input_plane(),
    ensures
        r.0 == best_at(x@, pl, nc as int, o as int).0,
        r.1 is Some <==> best_at(x@, pl, nc as int, o as int).1 is Some,
        r.1 matches Some(p) ==> {
            &&& best_at(x@, pl, nc as int, o as int).1 == Some(p as int)
            &&& p < pl.input_plane()
        },
{
    let win = pl.win;
    let ghost step = best_step(x@, pl, nc as int, o as int);
    let ghost start = (S::constant_spec(Constant::NegInfinity), None::<int>);
    let area: usize = win.kh * win.kw;
    let plane: usize = win.h * win.w;
    let mut best = S::constant(Constant::NegInfinity);
    let mut place: Option<usize> = None;
    let mut q: usize = 0;
    while q < area
        invariant
            q <= area == pl.area(),
            plane == pl.input_plane(),
            win == pl.win,
            pl.wf(),
            nc < pl.channels,
            o < pl.output_plane(),
            x@.len() == pl.channels * pl.input_plane(),
            step == best_step(x@, pl, nc as int, o as int),
            start == (S::constant_spec(Constant::NegInfinity), None::<int>),
            best == fold(q as nat, start, step).0,
            place is Some <==> fold(q as nat, start, step).1 is Some,
            place matches Some(p) ==> fold(q as nat, start, step).1 == Some(p as int) && p
                < plane,
        decreases area - q,
    {
        if let Some(p) = under_at(win, o, q) {
            proof {
                lemma_index2(nc as int, pl.channels as int, p as int, plane as int);
            }
            let v = x[nc * plane + p];
            if v.gt(best) {
                best = v;
                place = Some(p);
            }
        }
        q = q + 1;
    }
    (best, place)
}

/// The largest pixel under every place of the window.
pub open spec fn maxpool_value<S: Scalar>(
    x: Value<S>,
    k: usize,
    stride: usize,
    padding: usize,
) -> Value<S> {
    let win = pool_window(x.dims, k, stride, padding);
    let pl = Planes { channels: (x.dims[0] * x.dims[1]) as usize, win };
    let plane = pl.output_plane();
    Value {
        dims: pool_dims(x.dims, win),
        data: Seq::new(
            numel(pool_dims(x.dims, win)),
            |t: int| best_at(x.data, pl, t / plane, t % plane).0,
        ),
    }
}

/// The pooled planes `start..end`, planes counted over all images.
///
/// Different planes are independent of each other, so that they can be computed in parallel.
pub fn maxpool2d_planes<S: Scalar>(
    x: &Vec<S>,
    pl: Planes,
    start: usize,
    end: usize,
) -> (r: Vec<S>)
    requires
        pl.wf(),
        x@.len() == pl.channels * pl.input_plane(),
        start <= end <= pl.channels,
    ensures
        r@ == Seq::new(
            (pl.channels * pl.output_plane()) as nat,
            |t: int| best_at(x@, pl, t / pl.output_plane(), t % pl.output_plane()).0,
        ).subrange(start * pl.output_plane(), end * pl.output_plane()),
{
    let ghost plane = pl.output_plane();
    let ghost want = Seq::new(
        (pl.channels * plane) as nat,
        |t: int| best_at(x@, pl, t / plane, t % plane).0,
    );
    let mut out: Vec<S> = Vec::new();
    proof {
        assert(0 <= plane) by (nonlinear_arith)
            requires
                plane == pl.win.oh * pl.win.ow,
        ;
        assert(0 <= start * plane <= end * plane && end * plane <= pl.channels * plane)
            by (nonlinear_arith)
            requires
                0 <= start <= end <= pl.channels,
                0 <= plane,
        ;
    }
    let mut nc: usize = start;
    while nc < end
        invariant
            start <= nc <= end <= pl.channels,
            pl.wf(),
            x@.len() == pl.channels * pl.input_plane(),
            plane == pl.output_plane(),
            0 <= plane,
            want == Seq::new(
                (pl.channels * plane) as nat,
                |t: int| best_at(x@, pl, t / plane, t % plane).0,
            ),
            0 <= start * plane <= nc * plane,
            out@ == want.subrange(start * plane, nc * plane),
        decreases end - nc,
    {
        let len: usize = pl.win.oh * pl.win.ow;
        proof {
            assert(nc * plane + plane <= pl.channels * plane) by (nonlinear_arith)
                requires
                    0 <= nc < pl.channels,
                    0 <= plane,
            ;
        }
        let mut o: usize = 0;
        while o < len
            invariant
                o <= len == plane,
                nc < pl.channels,
                pl.wf(),
                x@.len() == pl.channels * pl.input_plane(),
                plane == pl.output_plane(),
                want == Seq::new(
                    (pl.channels * plane) as nat,
                    |t: int| best_at(x@, pl, t / plane, t % plane).0,
                ),
                0 <= start * plane <= nc * plane,
                nc * plane + plane <= pl.channels * plane,
                out@ == want.subrange(start * plane, nc * plane + o),
            decreases len - o,
        {
            proof {
                lemma_join2(nc as int, o as int, plane);
            }
            let (best, _place) = best_under(x, pl, nc, o);
            out.push(best);
            o = o + 1;
            assert(out@ =~= want.subrange(start * plane, nc * plane + o));
        }
        nc = nc + 1;
        proof {
            assert((nc - 1) * plane + plane == nc * plane) by (nonlinear_arith);
        }
    }
    out
}

/// The planes of an image batch and the window on them.
pub fn pool_planes<S>(input: &Dense<S>, k: usize, stride: usize, padding: usize) -> (pl: Planes)
    requires
        input.wf(),
        pool_ok(input@, k, stride, padding),
        numel(pool_dims(input@.dims, pool_window(input@.dims, k, stride, padding))) > 0,
    ensures
        pl.wf(),
        pl.win == pool_window(input@.dims, k, stride, padding),
        pl.channels == input@.dims[0] * input@.dims[1],
        pl.channels > 0,
        input@.data.len() == pl.channels * pl.input_plane(),
        numel(pool_dims(input@.dims, pl.win)) == pl.channels * pl.output_plane(),
{
    let d = input.shape();
    let win = sliding(d.dim(2), d.dim(3), k, k, stride, padding);
    let ghost out_dims = pool_dims(input@.dims, win);
    proof {
        lemma_numel4(input@.dims);
        lemma_numel4(out_dims);
        lemma_bounded_fits(input@.dims);
        lemma_bounded_fits(out_dims);
        lemma_numel_zero(out_dims);
        assert(out_dims[0] > 0 && out_dims[1] > 0 && out_dims[2] > 0 && out_dims[3] > 0);
        lemma_planes(
            out_dims[0] as int,
            out_dims[1] as int,
            out_dims[2] as int,
            out_dims[3] as int,
        );
        lemma_planes(
            input@.dims[0] as int,
            input@.dims[1] as int,
            input@.dims[2] as int,
            input@.dims[3] as int,
        );
        assert(out_dims[0] * out_dims[1] > 0) by (nonlinear_arith)
            requires
                out_dims[0] > 0,
                out_dims[1] > 0,
        ;
    }
    Planes { channels: d.dim(0) * d.dim(1), win }
}

/// Two-dimensional max pooling. Padded positions are never selected.
pub fn maxpool2d<S: Scalar>(
    input: &Dense<S>,
    kernel_size: usize,
    stride: usize,
    padding: usize,
) -> (r: Dense<S>)
    requires
        input.wf(),
        pool_ok(input@, kernel_size, stride, padding),
    ensures
        r.wf(),
        r@ == maxpool_value(input@, kernel_size, stride, padding),
{
    let d = input.shape();
    let win = sliding(d.dim(2), d.dim(3), kernel_size, kernel_size, stride, padding);
    let shape = Shape::from([d.dim(0), d.dim(1), win.oh, win.ow]);
    let ghost value = maxpool_value(input@, kernel_size, stride, padding);
    proof {
        assert(shape@ =~= pool_dims(input@.dims, win));
        lemma_bounded_fits(shape@);
    }
    if shape.numel() == 0 {
        let empty: Vec<S> = Vec::new();
        assert(empty@ =~= value.data);
        return Dense::new(shape, empty);
    }
    let pl = pool_planes(input, kernel_size, stride, padding);
    let data = maxpool2d_planes(input.data(), pl, 0, pl.channels);
    proof {
        let plane = pl.output_plane();
        assert(0 * plane == 0) by (nonlinear_arith);
        assert(data@ =~= value.data);
    }
    Dense::new(shape, data)
}

/// The window that an image batch and an output gradient give.
pub open spec fn grad_window(
    d: Seq<usize>,
    g: Seq<usize>,
    k: usize,
    stride: usize,
    padding: usize,
) -> Window {
    Window { h: d[2], w: d[3], kh: k, kw: k, stride, padding, oh: g[2], ow: g[3] }
}

/// Input and output gradient belong to one pooling.
pub open spec fn pool_backward_ok<S>(
    x: Value<S>,
    go: Value<S>,
    k: usize,
    stride: usize,
    padding: usize,
) -> bool {
    &&& x.dims.len() == 4
    &&& go.dims.len() == 4
    &&& go.dims[0] == x.dims[0]
    &&& go.dims[1] == x.dims[1]
    &&& k * k <= usize::MAX
    &&& grad_window(x.dims, go.dims, k, stride, padding).wf()
}

/// Adds the gradient of place `o` when its largest pixel is pixel `p`.
pub open spec fn route_step<S: Scalar>(
    x: Seq<S>,
    go: Seq<S>,
    pl: Planes,
    nc: int,
    p: int,
) -> spec_fn(int, S) -> S {
    |o: int, acc: S|
        if best_at(x, pl, nc, o).1 == Some(p) {
            S::add_spec(acc, go[nc * pl.output_plane() + o])
        } else {
            acc
        }
}

/// The gradients of the places whose largest pixel is pixel `p` of plane `nc`, added up.
pub open spec fn routed<S: Scalar>(x: Seq<S>, go: Seq<S>, pl: Planes, nc: int, p: int) -> S {
    fold(pl.output_plane() as nat, zero(), route_step(x, go, pl, nc, p))
}

/// The gradient of max pooling with respect to its input.
pub open spec fn maxpool_backward_value<S: Scalar>(
    x: Value<S>,
    go: Value<S>,
    k: usize,
    stride: usize,
    padding: usize,
) -> Value<S> {
    let win = grad_window(x.dims, go.dims, k, stride, padding);
    let pl = Planes { channels: (x.dims[0] * x.dims[1]) as usize, win };
    let plane = pl.input_plane();
    Value {
        dims: x.dims,
        data: Seq::new(x.data.len(), |t: int| routed(x.data, go.data, pl, t / plane, t % plane)),
    }
}

/// The input gradient of one plane.
fn maxpool_plane_grad<S: Scalar>(x: &Vec<S>, go: &Vec<S>, pl: Planes, nc: usize) -> (gi: Vec<S>)
    requires
        pl.wf(),
        nc < pl.channels,
        x@.len() == pl.channels * pl.input_plane(),
        go@.len() == pl.channels * pl.output_plane(),
    ensures
        gi@ == Seq::new(
            pl.input_plane() as nat,
            |p: int| routed(x@, go@, pl, nc as int, p),
        ),
{
    let plane: usize = pl.win.h * pl.win.w;
    let len: usize = pl.win.oh * pl.win.ow;
    let mut gi: Vec<S> = filled(plane, S::constant(Constant::Zero));
    let mut o: usize = 0;
    while o < len
        invariant
            o <= len == pl.output_plane(),
            plane == pl.input_plane(),
            pl.wf(),
            nc < pl.channels,
            x@.len() == pl.channels * pl.input_plane(),
            go@.len() == pl.channels * pl.output_plane(),
            gi@.len() == plane,
            forall|p: int|
                0 <= p < plane ==> #[trigger] gi@[p] == fold(
                    o as nat,
                    zero::<S>(),
                    route_step(x@, go@, pl, nc as int, p),
                ),
        decreases len - o,
    {
        let ghost before = gi@;
        let (_best, place) = best_under(x, pl, nc, o);
        if let Some(p) = place {
            proof {
                lemma_index2(nc as int, pl.channels as int, o as int, len as int);
            }
            let v = gi[p].add(go[nc * len + o]);
            gi[p] = v;
        }
        o = o + 1;
        proof {
            assert forall|p: int| 0 <= p < plane implies #[trigger] gi@[p] == fold(
                o as nat,
                zero::<S>(),
                route_step(x@, go@, pl, nc as int, p),
            ) by {
                assert(before[p] == fold(
                    (o - 1) as nat,
                    zero::<S>(),
                    route_step(x@, go@, pl, nc as int, p),
                ));
            }
        }
    }
    assert(gi@ =~= Seq::new(pl.input_plane() as nat, |p: int| routed(x@, go@, pl, nc as int, p)));
    gi
}

/// The planes of a pooling gradient.
pub(crate) fn grad_planes<S>(
    input: &Dense<S>,
    grad_out: &Dense<S>,
    k: usize,
    stride: usize,
    padding: usize,
) -> (pl: Planes)
    requires
        input.wf(),
        grad_out.wf(),
        pool_backward_ok(input@, grad_out@, k, stride, padding),
        input@.data.len() > 0,
    ensures
        pl.wf(),
        pl.win == grad_window(input@.dims, grad_out@.dims, k, stride, padding),
        pl.channels == input@.dims[0] * input@.dims[1],
        pl.channels > 0,
        pl.input_plane() > 0,
        input@.data.len() == pl.channels * pl.input_plane(),
        grad_out@.data.len() == pl.channels * pl.output_plane(),
{
    let d = input.shape();
    let g = grad_out.shape();
    let win = Window {
        h: d.dim(2),
        w: d.dim(3),
        kh: k,
        kw: k,
        stride,
        padding,
        oh: g.dim(2),
        ow: g.dim(3),
    };
    proof {
        let a = input@.dims;
        let b = grad_out@.dims;
        lemma_numel4(a);
        lemma_numel4(b);
        lemma_bounded_fits(a);
        lemma_bounded_fits(b);
        lemma_numel_zero(a);
        lemma_planes(a[0] as int, a[1] as int, a[2] as int, a[3] as int);
        lemma_planes(b[0] as int, b[1] as int, b[2] as int, b[3] as int);
        assert(a[0] * a[1] > 0 && a[2] * a[3] > 0) by (nonlinear_arith)
            requires
                a[0] > 0,
                a[1] > 0,
                a[2] > 0,
                a[3] > 0,
        ;
    }
    Planes { channels: d.dim(0) * d.dim(1), win }
}

/// Backward for max pooling: routes each output gradient to the largest pixel under its window,
/// the first one on ties.
pub fn maxpool2d_backward<S: Scalar>(
    input: &Dense<S>,
    grad_out: &Dense<S>,
    kernel_size: usize,
    stride: usize,
    padding: usize,
) -> (r: Dense<S>)
    requires
        input.wf(),
        grad_out.wf(),
        pool_backward_ok(input@, grad_out@, kernel_size, stride, padding),
    ensures
        r.wf(),
        r@ == maxpool_backward_value(input@, grad_out@, kernel_size, stride, padding),
{
    let ghost value = maxpool_backward_value(input@, grad_out@, kernel_size, stride, padding);
    let mut out: Vec<S> = Vec::new();
    if input.numel() == 0 {
        assert(out@ =~= value.data);
        return Dense::new(*input.shape(), out);
    }
    let pl = grad_planes(input, grad_out, kernel_size, stride, padding);
    let ghost plane = pl.input_plane();
    let mut nc: usize = 0;
    proof {
        assert(0 * plane == 0) by (nonlinear_arith);
    }
    while nc < pl.channels
        invariant
            nc <= pl.channels,
            pl.wf(),
            input.wf(),
            grad_out.wf(),
            plane == pl.input_plane(),
            plane > 0,
            input@.data.len() == pl.channels * plane,
            grad_out@.data.len() == pl.channels * pl.output_plane(),
            value.data == Seq::new(
                input@.data.len(),
                |t: int| routed(input@.data, grad_out@.data, pl, t / plane, t % plane),
            ),
            0 <= nc * plane <= pl.channels * plane,
            out@ == value.data.subrange(0, nc * plane),
        decreases pl.channels - nc,
    {
        let mut gi = maxpool_plane_grad(input.data(), grad_out.data(), pl, nc);
        proof {
            lemma_index2(nc as int, pl.channels as int, 0, plane);
            assert((nc + 1) * plane == nc * plane + plane) by (nonlinear_arith);
            assert forall|p: int| 0 <= p < plane implies gi@[p] == value.data[nc * plane + p] by {
                lemma_join2(nc as int, p, plane);
            }
        }
        out.append(&mut gi);
        nc = nc + 1;
        assert(out@ =~= value.data.subrange(0, nc * plane));
    }
    assert(out@ =~= value.data);
    Dense::new(*input.shape(), out)
}

} // verus!
