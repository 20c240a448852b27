//! Two-dimensional convolution of `[N, C, H, W]` arrays.
use vstd::prelude::*;
use crate::cpu::batchnorm::lemma_numel4;
use crate::dense::{Dense, Value};
use crate::index::{bounded, lemma_bounded_fits, numel};
use crate::math::{fold, lemma_index2, lemma_index4, lemma_join2, lemma_split2, lemma_split3};
use crate::scalar::{zero, Constant, Scalar};
use crate::shape::Shape;

verus! {

/// A window that slides over the plane of an image.
///
/// The plane has `h` by `w` pixels and `padding` more on each side; the window covers `kh` by `kw`
/// pixels, moves by `stride`, and stands at `oh` by `ow` places.
#[derive(Debug, Clone, Copy, PartialEq, Eq, Structural)]
pub struct Window {
    pub h: usize,
    pub w: usize,
    pub kh: usize,
    pub kw: usize,
    pub stride: usize,
    pub padding: usize,
    pub oh: usize,
    pub ow: usize,
}

/// At how many places a window of `k` pixels stands that moves by `stride` over `n` pixels.
pub open spec fn places(n: int, k: int, stride: int) -> int {
    (n - k) / stride + 1
}

impl Window {
    /// All places lie within the padded plane.
    pub open spec fn wf(self) -> bool {
        &&& self.stride > 0
        &&& self.h + 2 * self.padding <= usize::MAX
        &&& self.w + 2 * self.padding <= usize::MAX
        &&& self.oh > 0 ==> (self.oh - 1) * self.stride + self.kh <= self.h + 2 * self.padding
        &&& self.ow > 0 ==> (self.ow - 1) * self.stride + self.kw <= self.w + 2 * self.padding
    }

    /// The window stands at every place where it fits.
    pub open spec fn full(self) -> bool {
        &&& self.kh <= self.h + 2 * self.padding
        &&& self.kw <= self.w + 2 * self.padding
        &&& self.oh == places(self.h + 2 * self.padding, self.kh as int, self.stride as int)
        &&& self.ow == places(self.w + 2 * self.padding, self.kw as int, self.stride as int)
    }

    /// The pixel at row `r` and column `s` of the padded plane is one of the image.
    pub open spec fn inside(self, r: int, s: int) -> bool {
        &&& self.padding <= r < self.h + self.padding
        &&& self.padding <= s < self.w + self.padding
    }
}

/// Pixels under the window lie within the padded plane.
pub proof fn lemma_window(y: int, oh: int, stride: int, i: int, k: int, n: int)
    requires
        0 <= y < oh,
        0 <= i < k,
        stride > 0,
        (oh - 1) * stride + k <= n,
    ensures
        0 <= y * stride,
        0 <= y * stride + i < n,
{
    assert(0 <= y * stride <= (oh - 1) * stride) by (nonlinear_arith)
        requires
            0 <= y <= oh - 1,
            stride > 0,
    ;
}

/// The window that fits everywhere, when the padded plane and the place counts fit the machine.
pub fn sliding(
    h: usize,
    w: usize,
    kh: usize,
    kw: usize,
    stride: usize,
    padding: usize,
) -> (r: Window)
    requires
        stride > 0,
        h + 2 * padding <= usize::MAX,
        w + 2 * padding <= usize::MAX,
        kh <= h + 2 * padding,
        kw <= w + 2 * padding,
        places(h + 2 * padding, kh as int, stride as int) <= usize::MAX,
        places(w + 2 * padding, kw as int, stride as int) <= usize::MAX,
    ensures
        r.wf(),
        r.full(),
        r.h == h,
        r.w == w,
        r.kh == kh,
        r.kw == kw,
        r.stride == stride,
        r.padding == padding,
{
    let hp: usize = h + 2 * padding;
    let wp: usize = w + 2 * padding;
    let oh: usize = (hp - kh) / stride + 1;
    let ow: usize = (wp - kw) / stride + 1;
    proof {
        lemma_last_place(hp - kh, stride as int);
        lemma_last_place(wp - kw, stride as int);
    }
    Window { h, w, kh, kw, stride, padding, oh, ow }
}

proof fn lemma_last_place(n: int, stride: int)
    requires
        n >= 0,
        stride > 0,
    ensures
        (n / stride) * stride <= n,
{
    vstd::arithmetic::div_mod::lemma_fundamental_div_mod(n, stride);
    vstd::arithmetic::mul::lemma_mul_is_commutative(stride, n / stride);
}

/// The extents of a convolution: images, input channels and output channels, and its window.
#[derive(Debug, Clone, Copy, PartialEq, Eq, Structural)]
pub struct Geometry {
    pub n: usize,
    pub cin: usize,
    pub cout: usize,
    pub win: Window,
}

impl Geometry {
    /// The number of weights of one output channel.
    pub open spec fn patch(self) -> int {
        (self.cin * self.win.kh) * self.win.kw
    }

    /// The number of pixels of one output plane.
    pub open spec fn plane(self) -> int {
        self.win.oh * self.win.ow
    }

    pub open spec fn input_len(self) -> int {
        ((self.n * self.cin) * self.win.h) * self.win.w
    }

    pub open spec fn weight_len(self) -> int {
        ((self.cout * self.cin) * self.win.kh) * self.win.kw
    }

    pub open spec fn output_len(self) -> int {
        ((self.n * self.cout) * self.win.oh) * self.win.ow
    }

    pub open spec fn wf(self) -> bool {
        &&& self.win.wf()
        &&& self.input_len() <= usize::MAX
        &&& self.weight_len() <= usize::MAX
        &&& self.output_len() <= usize::MAX
    }
}

/// The pixel at row `r`, column `s` of a padded plane: zero in the margin.
pub open spec fn padded<S: Scalar>(x: Seq<S>, ge: Geometry, nn: int, c: int, r: int, s: int) -> S {
    let win = ge.win;
    if win.inside(r, s) {
        x[((nn * ge.cin + c) * win.h + (r - win.padding)) * win.w + (s - win.padding)]
    } else {
        zero()
    }
}

/// Adds the product of weight `q` of an output channel and the pixel under it; a weight of zero
/// is skipped.
pub open spec fn conv_step<S: Scalar>(
    x: Seq<S>,
    wt: Seq<S>,
    ge: Geometry,
    nn: int,
    co: int,
    y: int,
    xo: int,
) -> spec_fn(int, S) -> S {
    let win = ge.win;
    |q: int, acc: S|
        {
            let w_val = wt[co * ge.patch() + q];
            let c = q / win.kw as int / win.kh as int;
            let i = (q / win.kw as int) % win.kh as int;
            let j = q % win.kw as int;
            if S::eq_zero_spec(w_val) {
                acc
            } else {
                S::mul_add_spec(
                    w_val,
                    padded(x, ge, nn, c, y * win.stride + i, xo * win.stride + j),
                    acc,
                )
            }
        }
}

/// One output pixel: the bias, then every weight of the channel in turn.
pub open spec fn conv_at<S: Scalar>(
    x: Seq<S>,
    wt: Seq<S>,
    b: Seq<S>,
    ge: Geometry,
    nn: int,
    co: int,
    y: int,
    xo: int,
) -> S {
    fold(ge.patch() as nat, b[co], conv_step(x, wt, ge, nn, co, y, xo))
}

/// The geometry that the extents of an input and a weight give.
pub open spec fn conv_geometry(
    d: Seq<usize>,
    k: Seq<usize>,
    stride: usize,
    padding: usize,
) -> Geometry {
    Geometry {
        n: d[0],
        cin: d[1],
        cout: k[0],
        win: Window {
            h: d[2],
            w: d[3],
            kh: k[2],
            kw: k[3],
            stride,
            padding,
            oh: places(d[2] + 2 * padding, k[2] as int, stride as int) as usize,
            ow: places(d[3] + 2 * padding, k[3] as int, stride as int) as usize,
        },
    }
}

/// The extents of the output of a convolution.
pub open spec fn conv_dims(ge: Geometry) -> Seq<usize> {
    seq![ge.n, ge.cout, ge.win.oh, ge.win.ow]
}

/// An input can be convolved with a weight: both have four axes, the channels agree, the window
/// fits the padded plane, and the output fits the machine.
pub open spec fn conv_ok<S>(
    x: Value<S>,
    weight: Value<S>,
    bias: Value<S>,
    stride: usize,
    padding: usize,
) -> bool {
    &&& x.dims.len() == 4
    &&& weight.dims.len() == 4
    &&& weight.dims[1] == x.dims[1]
    &&& bias.data.len() >= weight.dims[0]
    &&& window_ok(x.dims, weight.dims[2], weight.dims[3], stride, padding)
    &&& bounded(conv_dims(conv_geometry(x.dims, weight.dims, stride, padding)))
}

/// A window of `kh` by `kw` pixels fits the padded planes of an image batch.
pub open spec fn window_ok(
    d: Seq<usize>,
    kh: usize,
    kw: usize,
    stride: usize,
    padding: usize,
) -> bool {
    &&& stride > 0
    &&& d[2] + 2 * padding <= usize::MAX
    &&& d[3] + 2 * padding <= usize::MAX
    &&& kh <= d[2] + 2 * padding
    &&& kw <= d[3] + 2 * padding
    &&& places(d[2] + 2 * padding, kh as int, stride as int) <= usize::MAX
    &&& places(d[3] + 2 * padding, kw as int, stride as int) <= usize::MAX
}

/// The convolution of an image batch with a set of weights.
pub open spec fn conv_value<S: Scalar>(
    x: Value<S>,
    weight: Value<S>,
    bias: Value<S>,
    stride: usize,
    padding: usize,
) -> Value<S> {
    let ge = conv_geometry(x.dims, weight.dims, stride, padding);
    let win = ge.win;
    Value {
        dims: conv_dims(ge),
        data: Seq::new(
            numel(conv_dims(ge)),
            |o: int|
                {
                    let ow = win.ow as int;
                    let oh = win.oh as int;
                    let cout = ge.cout as int;
                    conv_at(
                        x.data,
                        weight.data,
                        bias.data,
                        ge,
                        o / ow / oh / cout,
                        (o / ow / oh) % cout,
                        (o / ow) % oh,
                        o % ow,
                    )
                },
        ),
    }
}

/// The pixel at row `r`, column `s` of a padded plane.
pub(crate) fn padded_at<S: Scalar>(
    x: &Vec<S>,
    ge: Geometry,
    nn: usize,
    c: usize,
    r: usize,
    s: usize,
) -> (v: S)
    requires
        ge.wf(),
        x@.len() == ge.input_len(),
        nn < ge.n,
        c < ge.cin,
    ensures
        v == padded(x@, ge, nn as int, c as int, r as int, s as int),
{
    let win = ge.win;
    if r < win.padding || r >= win.h + win.padding || s < win.padding || s >= win.w + win.padding {
        return S::constant(Constant::Zero);
    }
    proof {
        lemma_index4(
            nn as int,
            ge.n as int,
            c as int,
            ge.cin as int,
            r - win.padding,
            win.h as int,
            s - win.padding,
            win.w as int,
        );
    }
    x[((nn * ge.cin + c) * win.h + (r - win.padding)) * win.w + (s - win.padding)]
}

/// The number of weights of one output channel.
pub(crate) fn patch_len(ge: Geometry) -> (r: usize)
    requires
        ge.wf(),
        ge.cout > 0,
    ensures
        r == ge.patch(),
{
    proof {
        lemma_patch(ge);
    }
    if ge.win.kw == 0 {
        assert((ge.cin * ge.win.kh) * 0 == 0) by (nonlinear_arith);
        0
    } else {
        ge.cin * ge.win.kh * ge.win.kw
    }
}

/// One output pixel.
fn conv_pixel<S: Scalar>(
    x: &Vec<S>,
    wt: &Vec<S>,
    b: &Vec<S>,
    ge: Geometry,
    nn: usize,
    co: usize,
    y: usize,
    xo: usize,
) -> (v: S)
    requires
        ge.wf(),
        x@.len() == ge.input_len(),
        wt@.len() == ge.weight_len(),
        b@.len() >= ge.cout,
        nn < ge.n,
        co < ge.cout,
        y < ge.win.oh,
        xo < ge.win.ow,
    ensures
        v == conv_at(x@, wt@, b@, ge, nn as int, co as int, y as int, xo as int),
{
    let win = ge.win;
    let ghost step = conv_step(x@, wt@, ge, nn as int, co as int, y as int, xo as int);
    proof {
        lemma_patch(ge);
    }
    let patch = patch_len(ge);
    let mut acc = b[co];
    let mut q: usize = 0;
    while q < patch
        invariant
            q <= patch == ge.patch(),
            win == ge.win,
            ge.wf(),
            x@.len() == ge.input_len(),
            wt@.len() == ge.weight_len(),
            wt@.len() == ge.cout * ge.patch(),
            b@.len() >= ge.cout,
            nn < ge.n,
            co < ge.cout,
            y < win.oh,
            xo < win.ow,
            step == conv_step(x@, wt@, ge, nn as int, co as int, y as int, xo as int),
            acc == fold(q as nat, b@[co as int], step),
        decreases patch - q,
    {
        proof {
            lemma_split3(q as int, ge.cin as int, win.kh as int, win.kw as int);
            lemma_index2(co as int, ge.cout as int, q as int, patch as int);
        }
        let c: usize = q / win.kw / win.kh;
        let i: usize = (q / win.kw) % win.kh;
        let j: usize = q % win.kw;
        let w_val = wt[co * patch + q];
        if !w_val.eq_zero() {
            proof {
                lemma_window(
                    y as int,
                    win.oh as int,
                    win.stride as int,
                    i as int,
                    win.kh as int,
                    win.h + 2 * win.padding,
                );
                lemma_window(
                    xo as int,
                    win.ow as int,
                    win.stride as int,
                    j as int,
                    win.kw as int,
                    win.w + 2 * win.padding,
                );
            }
            let v = padded_at(x, ge, nn, c, y * win.stride + i, xo * win.stride + j);
            acc = w_val.mul_add(v, acc);
        }
        q = q + 1;
    }
    acc
}

/// The weights of all output channels together, and bounds on the counts of one channel.
pub proof fn lemma_patch(ge: Geometry)
    requires
        ge.wf(),
        ge.cout > 0,
    ensures
        ge.weight_len() == ge.cout * ge.patch(),
        0 <= ge.patch() <= ge.weight_len(),
        0 <= ge.cin * ge.win.kh,
        ge.win.kw > 0 ==> ge.cin * ge.win.kh <= ge.patch(),
        ge.win.kw > 0 ==> ge.cin * ge.win.kh <= usize::MAX,
{
    let a = ge.cout as int;
    let b = ge.cin as int;
    let c = ge.win.kh as int;
    let d = ge.win.kw as int;
    assert(((a * b) * c) * d == a * ((b * c) * d)) by (nonlinear_arith);
    assert(0 <= b * c) by (nonlinear_arith)
        requires
            0 <= b,
            0 <= c,
    ;
    assert(0 <= (b * c) * d <= a * ((b * c) * d)) by (nonlinear_arith)
        requires
            0 <= b * c,
            0 <= d,
            a >= 1,
    ;
    if d > 0 {
        assert(b * c <= (b * c) * d) by (nonlinear_arith)
            requires
                0 <= b * c,
                d >= 1,
        ;
    }
}

/// Position `(task, y, xo)` of a stack of planes, split again.
pub proof fn lemma_plane_split(task: int, y: int, xo: int, oh: int, ow: int)
    requires
        0 <= task,
        0 <= y < oh,
        0 <= xo < ow,
    ensures
        ({
            let o = task * (oh * ow) + (y * ow + xo);
            &&& o / ow / oh == task
            &&& (o / ow) % oh == y
            &&& o % ow == xo
        }),
{
    assert(task * (oh * ow) + (y * ow + xo) == (task * oh + y) * ow + xo) by (nonlinear_arith);
    assert(0 <= task * oh) by (nonlinear_arith)
        requires
            0 <= task,
            0 < oh,
    ;
    lemma_join2(task * oh + y, xo, ow);
    lemma_join2(task, y, oh);
}

/// The counts of a batch of output planes.
pub proof fn lemma_planes(n: int, c: int, oh: int, ow: int)
    requires
        0 <= n,
        0 <= c,
        0 <= oh,
        0 <= ow,
        ((n * c) * oh) * ow <= usize::MAX,
    ensures
        ((n * c) * oh) * ow == (n * c) * (oh * ow),
        0 <= oh * ow,
        0 <= n * c,
        n > 0 && c > 0 ==> oh * ow <= usize::MAX,
        oh > 0 && ow > 0 ==> n * c <= usize::MAX,
{
    assert(((n * c) * oh) * ow == (n * c) * (oh * ow)) by (nonlinear_arith);
    assert(0 <= oh * ow && 0 <= n * c) by (nonlinear_arith)
        requires
            0 <= n,
            0 <= c,
            0 <= oh,
            0 <= ow,
    ;
    if n > 0 && c > 0 {
        assert(oh * ow <= (n * c) * (oh * ow)) by (nonlinear_arith)
            requires
                n >= 1,
                c >= 1,
                0 <= oh * ow,
        ;
    }
    if oh > 0 && ow > 0 {
        assert(n * c <= (n * c) * (oh * ow)) by (nonlinear_arith)
            requires
                oh >= 1,
                ow >= 1,
                0 <= n * c,
        ;
    }
}

/// The output planes `start..end`, planes counted over all images.
///
/// Different planes are independent of each other, so that they can be computed in parallel.
pub fn conv2d_planes<S: Scalar>(
    input: &Dense<S>,
    weight: &Dense<S>,
    bias: &Dense<S>,
    ge: Geometry,
    start: usize,
    end: usize,
) -> (r: Vec<S>)
    requires
        input.wf(),
        weight.wf(),
        bias.wf(),
        conv_ok(input@, weight@, bias@, ge.win.stride, ge.win.padding),
        ge == conv_geometry(input@.dims, weight@.dims, ge.win.stride, ge.win.padding),
        ge.wf(),
        start <= end <= ge.n * ge.cout,
    ensures
        r@ == conv_value(
            input@,
            weight@,
            bias@,
            ge.win.stride,
            ge.win.padding,
        ).data.subrange(start * ge.plane(), end * ge.plane()),
{
    let win = ge.win;
    let ghost value = conv_value(input@, weight@, bias@, win.stride, win.padding);
    let mut out: Vec<S> = Vec::new();
    proof {
        lemma_numel4(input@.dims);
        lemma_numel4(weight@.dims);
        lemma_numel4(conv_dims(ge));
        lemma_planes(ge.n as int, ge.cout as int, win.oh as int, win.ow as int);
        let plane = ge.plane();
        let total = ge.n * ge.cout;
        assert(0 <= start * plane <= end * plane && end * plane <= total * plane)
            by (nonlinear_arith)
            requires
                0 <= start <= end <= total,
                0 <= plane,
        ;
    }
    let mut task: usize = start;
    while task < end
        invariant
            start <= task <= end <= ge.n * ge.cout,
            win == ge.win,
            ge.wf(),
            input.wf(),
            weight.wf(),
            bias.wf(),
            input@.data.len() == ge.input_len(),
            weight@.data.len() == ge.weight_len(),
            bias@.data.len() >= ge.cout,
            ge == conv_geometry(input@.dims, weight@.dims, win.stride, win.padding),
            value == conv_value(input@, weight@, bias@, win.stride, win.padding),
            value.data.len() == (ge.n * ge.cout) * ge.plane(),
            0 <= start * ge.plane() <= task * ge.plane(),
            ge.plane() >= 0,
            ge.n > 0 && ge.cout > 0 ==> ge.plane() <= usize::MAX,
            out@ == value.data.subrange(start * ge.plane(), task * ge.plane()),
        decreases end - task,
    {
        proof {
            lemma_split2(task as int, ge.n as int, ge.cout as int);
            let plane = ge.plane();
            let total = ge.n * ge.cout;
            assert(task * plane + plane <= total * plane) by (nonlinear_arith)
                requires
                    0 <= task < total,
                    0 <= plane,
            ;
        }
        let nn: usize = task / ge.cout;
        let co: usize = task % ge.cout;
        let plane: usize = win.oh * win.ow;
        let mut p: usize = 0;
        while p < plane
            invariant
                p <= plane == ge.plane(),
                task < end <= ge.n * ge.cout,
                win == ge.win,
                ge.wf(),
                input.wf(),
                weight.wf(),
                bias.wf(),
                input@.data.len() == ge.input_len(),
                weight@.data.len() == ge.weight_len(),
                bias@.data.len() >= ge.cout,
                ge == conv_geometry(input@.dims, weight@.dims, win.stride, win.padding),
                value == conv_value(input@, weight@, bias@, win.stride, win.padding),
                nn < ge.n,
                co < ge.cout,
                nn == task / ge.cout,
                co == task % ge.cout,
                0 <= start * plane <= task * plane,
                task * plane + plane <= value.data.len(),
                out@ == value.data.subrange(start * plane, task * plane + p),
            decreases plane - p,
        {
            proof {
                lemma_split2(p as int, win.oh as int, win.ow as int);
                lemma_plane_split(
                    task as int,
                    p as int / win.ow as int,
                    p as int % win.ow as int,
                    win.oh as int,
                    win.ow as int,
                );
            }
            let y: usize = p / win.ow;
            let xo: usize = p % win.ow;
            let v = conv_pixel(input.data(), weight.data(), bias.data(), ge, nn, co, y, xo);
            assert(v == value.data[task * plane + p]);
            out.push(v);
            p = p + 1;
            assert(out@ =~= value.data.subrange(start * plane, task * plane + p));
        }
        task = task + 1;
        proof {
            let plane = ge.plane();
            assert((task - 1) * plane + plane == task * plane) by (nonlinear_arith);
        }
    }
    out
}

/// The geometry of a convolution.
pub(crate) fn geometry<S>(
    input: &Dense<S>,
    weight: &Dense<S>,
    bias: &Dense<S>,
    stride: usize,
    padding: usize,
) -> (ge: Geometry)
    requires
        input.wf(),
        weight.wf(),
        bias.wf(),
        conv_ok(input@, weight@, bias@, stride, padding),
    ensures
        ge.wf(),
        ge.win.full(),
        ge == conv_geometry(input@.dims, weight@.dims, stride, padding),
{
    let d = input.shape();
    let k = weight.shape();
    let win = sliding(d.dim(2), d.dim(3), k.dim(2), k.dim(3), stride, padding);
    let ge = Geometry { n: d.dim(0), cin: d.dim(1), cout: k.dim(0), win };
    proof {
        lemma_numel4(input@.dims);
        lemma_numel4(weight@.dims);
        lemma_numel4(conv_dims(ge));
        lemma_bounded_fits(input@.dims);
        lemma_bounded_fits(weight@.dims);
        lemma_bounded_fits(conv_dims(ge));
    }
    ge
}

/// Two-dimensional convolution.
///
/// Deterministic: every output pixel starts from the bias and adds the weights of its channel one
/// by one, in the order in which they are stored.
pub fn conv2d<S: Scalar>(
    input: &Dense<S>,
    weight: &Dense<S>,
    bias: &Dense<S>,
    stride: usize,
    padding: usize,
) -> (r: Dense<S>)
    requires
        input.wf(),
        weight.wf(),
        bias.wf(),
        conv_ok(input@, weight@, bias@, stride, padding),
    ensures
        r.wf(),
        r@ == conv_value(input@, weight@, bias@, stride, padding),
{
    let ge = geometry(input, weight, bias, stride, padding);
    let shape = Shape::from([ge.n, ge.cout, ge.win.oh, ge.win.ow]);
    let ghost value = conv_value(input@, weight@, bias@, stride, padding);
    proof {
        assert(shape@ =~= conv_dims(ge));
        lemma_numel4(conv_dims(ge));
        lemma_bounded_fits(conv_dims(ge));
        lemma_planes(ge.n as int, ge.cout as int, ge.win.oh as int, ge.win.ow as int);
    }
    if shape.numel() == 0 {
        let empty: Vec<S> = Vec::new();
        assert(empty@ =~= value.data);
        return Dense::new(shape, empty);
    }
    proof {
        crate::index::lemma_numel_zero(conv_dims(ge));
        assert(conv_dims(ge)[2] == ge.win.oh && conv_dims(ge)[3] == ge.win.ow);
    }
    let data = conv2d_planes(input, weight, bias, ge, 0, ge.n * ge.cout);
    assert(0 * ge.plane() == 0) by (nonlinear_arith);
    assert(data@ =~= value.data);
    Dense::new(shape, data)
}

} // verus!
