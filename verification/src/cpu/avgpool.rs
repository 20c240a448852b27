//! Average pooling of `[N, C, H, W]` arrays.
use vstd::prelude::*;
use crate::cpu::conv::{sliding, Window};
use crate::cpu::pool::{
    grad_planes, grad_window, pool_backward_ok, pool_dims, pool_ok, pool_planes, pool_window, under,
    under_at, Planes,
};
use crate::dense::{filled, Dense, Value};
use crate::index::{lemma_bounded_fits, numel};
use crate::math::{fold, lemma_index2, lemma_join2, lemma_split2};
use crate::scalar::{zero, Constant, Scalar};
use crate::shape::Shape;

verus! {

pub open spec fn window_sum_step<S: Scalar>(x: Seq<S>, pl: Planes, nc: int, o: int) -> spec_fn(
    int,
    S,
) -> S {
    let win = pl.win;
    |q: int, acc: S|
        match under(win, o / win.ow as int, o % win.ow as int, q) {
            Some(p) => S::add_spec(acc, x[nc * pl.input_plane() + p]),
            None => acc,
        }
}

pub open spec fn window_count_step(win: Window, o: int) -> spec_fn(int, nat) -> nat {
    |q: int, acc: nat|
        if under(win, o / win.ow as int, o % win.ow as int, q) is Some {
            acc + 1
        } else {
            acc
        }
}

/// How many pixels of the image lie under the window at place `o`.
pub open spec fn window_count(pl: Planes, o: int) -> nat {
    fold(pl.area() as nat, 0nat, window_count_step(pl.win, o))
}

/// The mean of the pixels of the image under the window at place `o` of plane `nc`.
pub open spec fn window_mean<S: Scalar>(x: Seq<S>, pl: Planes, nc: int, o: int) -> S {
    S::div_spec(
        fold(pl.area() as nat, zero(), window_sum_step(x, pl, nc, o)),
        S::count_spec(window_count(pl, o) as usize),
    )
}

/// How many pixels of the image lie under the window.
fn count_under(pl: Planes, o: usize) -> (r: usize)
    requires
        pl.wf(),
        pl.channels > 0,
        o < pl.output_plane(),
    ensures
        r == window_count(pl, o as int),
        r <= pl.area(),
{
    let win = pl.win;
    let ghost step = window_count_step(win, o as int);
    let area: usize = win.kh * win.kw;
    let mut count: usize = 0;
    let mut q: usize = 0;
    while q < area
        invariant
            q <= area == pl.area(),
            win == pl.win,
            pl.wf(),
            pl.channels > 0,
            o < pl.output_plane(),
            step == window_count_step(win, o as int),
            count == fold(q as nat, 0nat, step),
            count <= q,
        decreases area - q,
    {
        if under_at(win, o, q).is_some() {
            count = count + 1;
        }
        q = q + 1;
    }
    count
}

/// The mean of the pixels of the image under the window.
fn mean_under<S: Scalar>(x: &Vec<S>, pl: Planes, nc: usize, o: usize) -> (r: S)
    requires
        pl.wf(),
        nc < pl.channels,
        o < pl.output_plane(),
        x@.len() == pl.channels * pl.input_plane(),
    ensures
        r == window_mean(x@, pl, nc as int, o as int),
{
    let win = pl.win;
    let ghost step = window_sum_step(x@, pl, nc as int, o as int);
    let area: usize = win.kh * win.kw;
    let plane: usize = win.h * win.w;
    let mut sum = S::constant(Constant::Zero);
    let mut q: usize = 0;
    while q < area
        invariant
            q <= area == pl.area(),
            plane == pl.input_plane(),
            win == pl.win,
            pl.wf(),
            nc < pl.channels,
            o < pl.output_plane(),
            x@.len() == pl.channels * pl.input_plane(),
            step == window_sum_step(x@, pl, nc as int, o as int),
            sum == fold(q as nat, zero::<S>(), step),
        decreases area - q,
    {
        if let Some(p) = under_at(win, o, q) {
            proof {
                lemma_index2(nc as int, pl.channels as int, p as int, plane as int);
            }
            sum = sum.add(x[nc * plane + p]);
        }
        q = q + 1;
    }
    sum.div(S::count(count_under(pl, o)))
}

/// The mean of the pixels under every place of the window.
pub open spec fn avgpool_value<S: Scalar>(
    x: Value<S>,
    k: usize,
    stride: usize,
    padding: usize,
) -> Value<S> {
    let win = pool_window(x.dims, k, stride, padding);
    let pl = Planes { channels: (x.dims[0] * x.dims[1]) as usize, win };
    let plane = pl.output_plane();
    Value {
        dims: pool_dims(x.dims, win),
        data: Seq::new(
            numel(pool_dims(x.dims, win)),
            |t: int| window_mean(x.data, pl, t / plane, t % plane),
        ),
    }
}

/// Two-dimensional average pooling over the pixels of the image only.
pub fn avgpool2d<S: Scalar>(
    input: &Dense<S>,
    kernel_size: usize,
    stride: usize,
    padding: usize,
) -> (r: Dense<S>)
    requires
        input.wf(),
        pool_ok(input@, kernel_size, stride, padding),
    ensures
        r.wf(),
        r@ == avgpool_value(input@, kernel_size, stride, padding),
{
    let d = input.shape();
    let win = sliding(d.dim(2), d.dim(3), kernel_size, kernel_size, stride, padding);
    let shape = Shape::from([d.dim(0), d.dim(1), win.oh, win.ow]);
    let ghost value = avgpool_value(input@, kernel_size, stride, padding);
    proof {
        assert(shape@ =~= pool_dims(input@.dims, win));
        lemma_bounded_fits(shape@);
    }
    let total = shape.numel();
    let mut out: Vec<S> = Vec::with_capacity(total);
    if total == 0 {
        assert(out@ =~= value.data);
        return Dense::new(shape, out);
    }
    let pl = pool_planes(input, kernel_size, stride, padding);
    let plane: usize = win.oh * win.ow;
    let mut t: usize = 0;
    while t < total
        invariant
            t <= total == pl.channels * plane,
            plane == pl.output_plane(),
            pl.wf(),
            input.wf(),
            input@.data.len() == pl.channels * pl.input_plane(),
            value.data.len() == total,
            forall|k: int|
                0 <= k < total ==> #[trigger] value.data[k] == window_mean(
                    input@.data,
                    pl,
                    k / plane as int,
                    k % plane as int,
                ),
            out@.len() == t,
            forall|k: int| 0 <= k < t ==> out@[k] == value.data[k],
        decreases total - t,
    {
        proof {
            lemma_split2(t as int, pl.channels as int, plane as int);
        }
        out.push(mean_under(input.data(), pl, t / plane, t % plane));
        t = t + 1;
    }
    assert(out@ =~= value.data);
    Dense::new(shape, out)
}

/// Pixel `p` lies under the window at place `o`.
pub open spec fn covers(win: Window, o: int, p: int) -> bool {
    let r = p / win.w as int + win.padding;
    let s = p % win.w as int + win.padding;
    let y = o / win.ow as int;
    let xo = o % win.ow as int;
    &&& y * win.stride <= r < y * win.stride + win.kh
    &&& xo * win.stride <= s < xo * win.stride + win.kw
}

/// The offset of the window at place `o` that falls on pixel `p`.
pub open spec fn offset_on(win: Window, o: int, p: int) -> int {
    let r = p / win.w as int + win.padding;
    let s = p % win.w as int + win.padding;
    let y = o / win.ow as int;
    let xo = o % win.ow as int;
    (r - y * win.stride) * win.kw + (s - xo * win.stride)
}

/// Exactly the offset on a covered pixel falls on it.
pub proof fn lemma_under(win: Window, o: int, q: int, p: int)
    requires
        0 <= q < win.kh * win.kw,
        0 <= p < win.h * win.w,
    ensures
        under(win, o / win.ow as int, o % win.ow as int, q) == Some(p) <==> covers(win, o, p)
            && offset_on(win, o, p) == q,
{
    lemma_split2(p, win.h as int, win.w as int);
    lemma_split2(q, win.kh as int, win.kw as int);
    let y = o / win.ow as int;
    let xo = o % win.ow as int;
    let r = p / win.w as int + win.padding;
    let s = p % win.w as int + win.padding;
    if covers(win, o, p) && offset_on(win, o, p) == q {
        lemma_join2(r - y * win.stride, s - xo * win.stride, win.kw as int);
    }
    if under(win, y, xo, q) == Some(p) {
        let r2 = y * win.stride + q / win.kw as int;
        let s2 = xo * win.stride + q % win.kw as int;
        lemma_join2(r2 - win.padding, s2 - win.padding, win.w as int);
    }
}

/// The share of the gradient of place `o` that each pixel under it gets.
pub open spec fn window_share<S: Scalar>(go: Seq<S>, pl: Planes, nc: int, o: int) -> S {
    S::div_spec(go[nc * pl.output_plane() + o], S::count_spec(window_count(pl, o) as usize))
}

/// Adds the share of place `o` when pixel `p` lies under it.
pub open spec fn share_step<S: Scalar>(go: Seq<S>, pl: Planes, nc: int, p: int) -> spec_fn(
    int,
    S,
) -> S {
    |o: int, acc: S|
        if covers(pl.win, o, p) {
            S::add_spec(acc, window_share(go, pl, nc, o))
        } else {
            acc
        }
}

/// The shares of all places over pixel `p` of plane `nc`.
pub open spec fn shared<S: Scalar>(go: Seq<S>, pl: Planes, nc: int, p: int) -> S {
    fold(pl.output_plane() as nat, zero(), share_step(go, pl, nc, p))
}

/// The gradient of average pooling with respect to its input.
pub open spec fn avgpool_backward_value<S: Scalar>(
    x: Value<S>,
    go: Value<S>,
    k: usize,
    stride: usize,
    padding: usize,
) -> Value<S> {
    let win = grad_window(x.dims, go.dims, k, stride, padding);
    let pl = Planes { channels: (x.dims[0] * x.dims[1]) as usize, win };
    let plane = pl.input_plane();
    Value {
        dims: x.dims,
        data: Seq::new(x.data.len(), |t: int| shared(go.data, pl, t / plane, t % plane)),
    }
}

/// The gradient of one pixel while the window at place `o` is being spread, up to offset `q`.
spec fn spread<S: Scalar>(base: S, g: S, win: Window, o: int, q: int, p: int) -> S {
    if covers(win, o, p) && offset_on(win, o, p) < q {
        S::add_spec(base, g)
    } else {
        base
    }
}

/// Adds `g` to every pixel under the window at place `o`.
fn spread_share<S: Scalar>(gi: &mut Vec<S>, pl: Planes, o: usize, g: S)
    requires
        pl.wf(),
        pl.channels > 0,
        o < pl.output_plane(),
        old(gi)@.len() == pl.input_plane(),
    ensures
        final(gi)@ == Seq::new(
            pl.input_plane() as nat,
            |p: int|
                if covers(pl.win, o as int, p) {
                    S::add_spec(old(gi)@[p], g)
                } else {
                    old(gi)@[p]
                },
        ),
{
    let win = pl.win;
    let ghost base = gi@;
    let area: usize = win.kh * win.kw;
    let mut q: usize = 0;
    proof {
        assert forall|p: int| 0 <= p < pl.input_plane() && covers(win, o as int, p) implies 0
            <= #[trigger] offset_on(win, o as int, p) < area by {
            lemma_offset_range(win, o as int, p);
        }
    }
    while q < area
        invariant
            q <= area == pl.area(),
            win == pl.win,
            pl.wf(),
            pl.channels > 0,
            o < pl.output_plane(),
            base.len() == pl.input_plane(),
            gi@.len() == base.len(),
            forall|p: int|
                0 <= p < base.len() ==> #[trigger] gi@[p] == spread(
                    base[p],
                    g,
                    win,
                    o as int,
                    q as int,
                    p,
                ),
        decreases area - q,
    {
        let ghost before = gi@;
        let place = under_at(win, o, q);
        if let Some(p) = place {
            let v = gi[p].add(g);
            gi[p] = v;
        }
        proof {
            assert forall|p: int| 0 <= p < base.len() implies #[trigger] gi@[p] == spread(
                base[p],
                g,
                win,
                o as int,
                q + 1,
                p,
            ) by {
                lemma_under(win, o as int, q as int, p);
                assert(before[p] == spread(base[p], g, win, o as int, q as int, p));
            }
        }
        q = q + 1;
    }
    proof {
        let want = Seq::new(
            pl.input_plane() as nat,
            |p: int|
                if covers(win, o as int, p) {
                    S::add_spec(base[p], g)
                } else {
                    base[p]
                },
        );
        assert forall|p: int| 0 <= p < base.len() implies gi@[p] == want[p] by {
            if covers(win, o as int, p) {
                lemma_offset_range(win, o as int, p);
            }
        }
        assert(gi@ =~= want);
    }
}

proof fn lemma_offset_range(win: Window, o: int, p: int)
    requires
        covers(win, o, p),
    ensures
        0 <= offset_on(win, o, p) < win.kh * win.kw,
{
    let r = p / win.w as int + win.padding;
    let s = p % win.w as int + win.padding;
    let y = o / win.ow as int;
    let xo = o % win.ow as int;
    lemma_index2(r - y * win.stride, win.kh as int, s - xo * win.stride, win.kw as int);
}

/// The input gradient of one plane.
fn avgpool_plane_grad<S: Scalar>(go: &Vec<S>, pl: Planes, nc: usize) -> (gi: Vec<S>)
    requires
        pl.wf(),
        nc < pl.channels,
        go@.len() == pl.channels * pl.output_plane(),
    ensures
        gi@ == Seq::new(pl.input_plane() as nat, |p: int| shared(go@, pl, nc as int, p)),
{
    let plane: usize = pl.win.h * pl.win.w;
    let len: usize = pl.win.oh * pl.win.ow;
    let mut gi: Vec<S> = filled(plane, S::constant(Constant::Zero));
    let mut o: usize = 0;
    while o < len
        invariant
            o <= len == pl.output_plane(),
            plane == pl.input_plane(),
            pl.wf(),
            nc < pl.channels,
            go@.len() == pl.channels * pl.output_plane(),
            gi@.len() == plane,
            forall|p: int|
                0 <= p < plane ==> #[trigger] gi@[p] == fold(
                    o as nat,
                    zero::<S>(),
                    share_step(go@, pl, nc as int, p),
                ),
        decreases len - o,
    {
        let ghost before = gi@;
        proof {
            lemma_index2(nc as int, pl.channels as int, o as int, len as int);
        }
        let count = S::count(count_under(pl, o));
        let g = go[nc * len + o].div(count);
        spread_share(&mut gi, pl, o, g);
        o = o + 1;
        proof {
            assert forall|p: int| 0 <= p < plane implies #[trigger] gi@[p] == fold(
                o as nat,
                zero::<S>(),
                share_step(go@, pl, nc as int, p),
            ) by {
                assert(before[p] == fold(
                    (o - 1) as nat,
                    zero::<S>(),
                    share_step(go@, pl, nc as int, p),
                ));
            }
        }
    }
    assert(gi@ =~= Seq::new(pl.input_plane() as nat, |p: int| shared(go@, pl, nc as int, p)));
    gi
}

/// Backward for average pooling: each output gradient is split evenly across the pixels of the
/// image under its window.
pub fn avgpool2d_backward<S: Scalar>(
    input: &Dense<S>,
    grad_out: &Dense<S>,
    kernel_size: usize,
    stride: usize,
    padding: usize,
) -> (r: Dense<S>)
    requires
        input.wf(),
        grad_out.wf(),
        pool_backward_ok(input@, grad_out@, kernel_size, stride, padding),
    ensures
        r.wf(),
        r@ == avgpool_backward_value(input@, grad_out@, kernel_size, stride, padding),
{
    let ghost value = avgpool_backward_value(input@, grad_out@, kernel_size, stride, padding);
    let mut out: Vec<S> = Vec::new();
    if input.numel() == 0 {
        assert(out@ =~= value.data);
        return Dense::new(*input.shape(), out);
    }
    let pl = grad_planes(input, grad_out, kernel_size, stride, padding);
    let ghost plane = pl.input_plane();
    let mut nc: usize = 0;
    proof {
        assert(0 * plane == 0) by (nonlinear_arith);
    }
    while nc < pl.channels
        invariant
            nc <= pl.channels,
            pl.wf(),
            grad_out.wf(),
            plane == pl.input_plane(),
            plane > 0,
            input@.data.len() == pl.channels * plane,
            grad_out@.data.len() == pl.channels * pl.output_plane(),
            value.data == Seq::new(
                input@.data.len(),
                |t: int| shared(grad_out@.data, pl, t / plane, t % plane),
            ),
            0 <= nc * plane <= pl.channels * plane,
            out@ == value.data.subrange(0, nc * plane),
        decreases pl.channels - nc,
    {
        let mut gi = avgpool_plane_grad(grad_out.data(), pl, nc);
        proof {
            lemma_index2(nc as int, pl.channels as int, 0, plane);
            assert((nc + 1) * plane == nc * plane + plane) by (nonlinear_arith);
            assert forall|p: int| 0 <= p < plane implies gi@[p] == value.data[nc * plane + p] by {
                lemma_join2(nc as int, p, plane);
            }
        }
        out.append(&mut gi);
        nc = nc + 1;
        assert(out@ =~= value.data.subrange(0, nc * plane));
    }
    assert(out@ =~= value.data);
    Dense::new(*input.shape(), out)
}

} // verus!
