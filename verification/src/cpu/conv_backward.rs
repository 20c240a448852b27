//! Gradients of the two-dimensional convolution.
use vstd::prelude::*;
use crate::cpu::batchnorm::lemma_numel4;
use crate::cpu::conv::{lemma_window, padded, padded_at, Geometry, Window};
use crate::cpu::norm::{group_sum, lemma_single, sum_group, Groups};
use crate::dense::{Dense, Value};
use crate::index::{bounded, lemma_bounded_fits, numel};
use crate::math::{fold, lemma_index4, lemma_split2, lemma_split3, lemma_split4};
use crate::scalar::{zero, Constant, Scalar};
use crate::shape::Shape;

verus! {

/// The geometry that the extents of an input, a weight and an output gradient give.
pub open spec fn grad_geometry(
    d: Seq<usize>,
    k: Seq<usize>,
    g: Seq<usize>,
    stride: usize,
    padding: usize,
) -> Geometry {
    Geometry {
        n: d[0],
        cin: d[1],
        cout: k[0],
        win: Window {
            h: d[2],
            w: d[3],
            kh: k[2],
            kw: k[3],
            stride,
            padding,
            oh: g[2],
            ow: g[3],
        },
    }
}

/// Input, weight and output gradient belong to one convolution.
pub open spec fn conv_backward_ok<S>(
    x: Value<S>,
    weight: Value<S>,
    go: Value<S>,
    stride: usize,
    padding: usize,
) -> bool {
    &&& x.dims.len() == 4
    &&& weight.dims.len() == 4
    &&& go.dims.len() == 4
    &&& weight.dims[1] == x.dims[1]
    &&& go.dims[0] == x.dims[0]
    &&& go.dims[1] == weight.dims[0]
    &&& grad_geometry(x.dims, weight.dims, go.dims, stride, padding).win.wf()
}

/// The output planes of one channel belong together.
pub open spec fn output_groups(ge: Geometry) -> Groups {
    Groups { n: ge.n, c: ge.cout, hw: (ge.win.oh * ge.win.ow) as usize }
}

/// Where the output gradient of one pixel is stored.
pub open spec fn go_index(ge: Geometry, nn: int, co: int, y: int, xo: int) -> int {
    ((nn * ge.cout + co) * ge.win.oh + y) * ge.win.ow + xo
}

/// Adds what output pixel `t` of a channel contributes to weight `q` of that channel.
pub open spec fn weight_step<S: Scalar>(
    x: Seq<S>,
    go: Seq<S>,
    ge: Geometry,
    co: int,
    q: int,
) -> spec_fn(int, S) -> S {
    let win = ge.win;
    |t: int, acc: S|
        {
            let nn = t / win.ow as int / win.oh as int;
            let y = (t / win.ow as int) % win.oh as int;
            let xo = t % win.ow as int;
            let c = q / win.kw as int / win.kh as int;
            let i = (q / win.kw as int) % win.kh as int;
            let j = q % win.kw as int;
            S::mul_add_spec(
                go[go_index(ge, nn, co, y, xo)],
                padded(x, ge, nn, c, y * win.stride + i, xo * win.stride + j),
                acc,
            )
        }
}

/// The gradient of weight `q` of output channel `co`.
pub open spec fn weight_grad<S: Scalar>(
    x: Seq<S>,
    go: Seq<S>,
    ge: Geometry,
    co: int,
    q: int,
) -> S {
    fold(((ge.n * ge.win.oh) * ge.win.ow) as nat, zero(), weight_step(x, go, ge, co, q))
}

/// Offset `i` of the window falls on row (or column) `r` of the padded plane at one of the
/// places.
pub open spec fn reaches(r: int, i: int, stride: int, count: int) -> bool {
    r >= i && (r - i) % stride == 0 && (r - i) / stride < count
}

/// Adds what weight `u` of an input channel contributes to the pixel at row `r`, column `s` of the
/// padded plane; a weight of zero is skipped.
pub open spec fn input_step<S: Scalar>(
    wt: Seq<S>,
    go: Seq<S>,
    ge: Geometry,
    nn: int,
    c: int,
    r: int,
    s: int,
) -> spec_fn(int, S) -> S {
    let win = ge.win;
    |u: int, acc: S|
        {
            let co = u / win.kw as int / win.kh as int;
            let i = (u / win.kw as int) % win.kh as int;
            let j = u % win.kw as int;
            let w_val = wt[((co * ge.cin + c) * win.kh + i) * win.kw + j];
            let stride = win.stride as int;
            if !S::eq_zero_spec(w_val) && reaches(r, i, stride, win.oh as int) && reaches(
                s,
                j,
                stride,
                win.ow as int,
            ) {
                S::mul_add_spec(
                    go[go_index(ge, nn, co, (r - i) / stride, (s - j) / stride)],
                    w_val,
                    acc,
                )
            } else {
                acc
            }
        }
}

/// The gradient of the input pixel at `(nn, c, ih, iw)`.
pub open spec fn input_grad<S: Scalar>(
    wt: Seq<S>,
    go: Seq<S>,
    ge: Geometry,
    nn: int,
    c: int,
    ih: int,
    iw: int,
) -> S {
    fold(
        ((ge.cout * ge.win.kh) * ge.win.kw) as nat,
        zero(),
        input_step(wt, go, ge, nn, c, ih + ge.win.padding, iw + ge.win.padding),
    )
}

/// The gradients of a convolution with respect to input, weight and bias.
pub open spec fn conv_backward_value<S: Scalar>(
    x: Value<S>,
    weight: Value<S>,
    go: Value<S>,
    stride: usize,
    padding: usize,
) -> (Value<S>, Value<S>, Value<S>) {
    let ge = grad_geometry(x.dims, weight.dims, go.dims, stride, padding);
    let h = ge.win.h as int;
    let w = ge.win.w as int;
    let cin = ge.cin as int;
    (
        Value {
            dims: x.dims,
            data: Seq::new(
                x.data.len(),
                |k: int|
                    input_grad(
                        weight.data,
                        go.data,
                        ge,
                        k / w / h / cin,
                        (k / w / h) % cin,
                        (k / w) % h,
                        k % w,
                    ),
            ),
        },
        Value {
            dims: weight.dims,
            data: Seq::new(
                weight.data.len(),
                |k: int| weight_grad(x.data, go.data, ge, k / ge.patch(), k % ge.patch()),
            ),
        },
        Value {
            dims: seq![ge.cout],
            data: Seq::new(
                ge.cout as nat,
                |co: int| group_sum(go.data, output_groups(ge), co),
            ),
        },
    )
}

/// The gradient of one weight.
fn weight_grad_at<S: Scalar>(
    x: &Vec<S>,
    go: &Vec<S>,
    ge: Geometry,
    co: usize,
    q: usize,
) -> (v: S)
    requires
        ge.wf(),
        x@.len() == ge.input_len(),
        go@.len() == ge.output_len(),
        co < ge.cout,
        q < ge.patch(),
    ensures
        v == weight_grad(x@, go@, ge, co as int, q as int),
{
    let win = ge.win;
    let ghost step = weight_step(x@, go@, ge, co as int, q as int);
    proof {
        lemma_split3(q as int, ge.cin as int, win.kh as int, win.kw as int);
        lemma_drop_factor(ge.n as int, ge.cout as int, win.oh as int, win.ow as int);
    }
    let c: usize = q / win.kw / win.kh;
    let i: usize = (q / win.kw) % win.kh;
    let j: usize = q % win.kw;
    let len: usize = if win.ow == 0 {
        assert((ge.n * win.oh) * 0 == 0) by (nonlinear_arith);
        0
    } else {
        ge.n * win.oh * win.ow
    };
    let mut acc = S::constant(Constant::Zero);
    let mut t: usize = 0;
    while t < len
        invariant
            t <= len == (ge.n * win.oh) * win.ow,
            win == ge.win,
            ge.wf(),
            x@.len() == ge.input_len(),
            go@.len() == ge.output_len(),
            co < ge.cout,
            c < ge.cin,
            i < win.kh,
            j < win.kw,
            c == q as int / win.kw as int / win.kh as int,
            i == (q as int / win.kw as int) % win.kh as int,
            j == q as int % win.kw as int,
            step == weight_step(x@, go@, ge, co as int, q as int),
            acc == fold(t as nat, zero::<S>(), step),
        decreases len - t,
    {
        proof {
            lemma_split3(t as int, ge.n as int, win.oh as int, win.ow as int);
            lemma_index4(
                t as int / win.ow as int / win.oh as int,
                ge.n as int,
                co as int,
                ge.cout as int,
                (t as int / win.ow as int) % win.oh as int,
                win.oh as int,
                t as int % win.ow as int,
                win.ow as int,
            );
        }
        let nn: usize = t / win.ow / win.oh;
        let y: usize = (t / win.ow) % win.oh;
        let xo: usize = t % win.ow;
        proof {
            lemma_window(
                y as int,
                win.oh as int,
                win.stride as int,
                i as int,
                win.kh as int,
                win.h + 2 * win.padding,
            );
            lemma_window(
                xo as int,
                win.ow as int,
                win.stride as int,
                j as int,
                win.kw as int,
                win.w + 2 * win.padding,
            );
        }
        let v = padded_at(x, ge, nn, c, y * win.stride + i, xo * win.stride + j);
        let g = go[((nn * ge.cout + co) * win.oh + y) * win.ow + xo];
        acc = g.mul_add(v, acc);
        t = t + 1;
    }
    acc
}

/// A product stays within its bound when a positive factor is left out.
proof fn lemma_drop_factor(a: int, b: int, c: int, d: int)
    requires
        0 <= a,
        1 <= b,
        0 <= c,
        0 <= d,
        ((a * b) * c) * d <= usize::MAX,
    ensures
        0 <= a * c,
        (a * c) * d <= usize::MAX,
        d > 0 ==> a * c <= usize::MAX,
{
    assert(0 <= a * c) by (nonlinear_arith)
        requires
            0 <= a,
            0 <= c,
    ;
    assert(((a * b) * c) * d == b * ((a * c) * d)) by (nonlinear_arith);
    assert(0 <= (a * c) * d <= b * ((a * c) * d)) by (nonlinear_arith)
        requires
            0 <= a * c,
            0 <= d,
            1 <= b,
    ;
    if d > 0 {
        assert(a * c <= (a * c) * d) by (nonlinear_arith)
            requires
                0 <= a * c,
                1 <= d,
        ;
    }
}

/// The gradient of one input pixel.
fn input_grad_at<S: Scalar>(
    wt: &Vec<S>,
    go: &Vec<S>,
    ge: Geometry,
    nn: usize,
    c: usize,
    ih: usize,
    iw: usize,
) -> (v: S)
    requires
        ge.wf(),
        wt@.len() == ge.weight_len(),
        go@.len() == ge.output_len(),
        nn < ge.n,
        c < ge.cin,
        ih < ge.win.h,
        iw < ge.win.w,
    ensures
        v == input_grad(wt@, go@, ge, nn as int, c as int, ih as int, iw as int),
{
    let win = ge.win;
    let r: usize = ih + win.padding;
    let s: usize = iw + win.padding;
    let ghost step = input_step(wt@, go@, ge, nn as int, c as int, r as int, s as int);
    proof {
        lemma_drop_factor(ge.cout as int, ge.cin as int, win.kh as int, win.kw as int);
    }
    let len: usize = if win.kw == 0 {
        assert((ge.cout * win.kh) * 0 == 0) by (nonlinear_arith);
        0
    } else {
        ge.cout * win.kh * win.kw
    };
    let mut acc = S::constant(Constant::Zero);
    let mut u: usize = 0;
    while u < len
        invariant
            u <= len == (ge.cout * win.kh) * win.kw,
            win == ge.win,
            ge.wf(),
            wt@.len() == ge.weight_len(),
            go@.len() == ge.output_len(),
            nn < ge.n,
            c < ge.cin,
            step == input_step(wt@, go@, ge, nn as int, c as int, r as int, s as int),
            acc == fold(u as nat, zero::<S>(), step),
        decreases len - u,
    {
        proof {
            lemma_split3(u as int, ge.cout as int, win.kh as int, win.kw as int);
        }
        let co: usize = u / win.kw / win.kh;
        let i: usize = (u / win.kw) % win.kh;
        let j: usize = u % win.kw;
        proof {
            lemma_index4(
                co as int,
                ge.cout as int,
                c as int,
                ge.cin as int,
                i as int,
                win.kh as int,
                j as int,
                win.kw as int,
            );
        }
        let w_val = wt[((co * ge.cin + c) * win.kh + i) * win.kw + j];
        if !w_val.eq_zero() && r >= i && (r - i) % win.stride == 0 && (r - i) / win.stride < win.oh
            && s >= j && (s - j) % win.stride == 0 && (s - j) / win.stride < win.ow {
            let y: usize = (r - i) / win.stride;
            let xo: usize = (s - j) / win.stride;
            proof {
                lemma_index4(
                    nn as int,
                    ge.n as int,
                    co as int,
                    ge.cout as int,
                    y as int,
                    win.oh as int,
                    xo as int,
                    win.ow as int,
                );
            }
            let g = go[((nn * ge.cout + co) * win.oh + y) * win.ow + xo];
            acc = g.mul_add(w_val, acc);
        }
        u = u + 1;
    }
    acc
}

/// Two-dimensional convolution backward: the gradients of input, weight and bias.
pub fn conv2d_backward<S: Scalar>(
    input: &Dense<S>,
    weight: &Dense<S>,
    grad_output: &Dense<S>,
    stride: usize,
    padding: usize,
) -> (r: (Dense<S>, Dense<S>, Dense<S>))
    requires
        input.wf(),
        weight.wf(),
        grad_output.wf(),
        conv_backward_ok(input@, weight@, grad_output@, stride, padding),
    ensures
        r.0.wf() && r.1.wf() && r.2.wf(),
        (r.0@, r.1@, r.2@) == conv_backward_value(input@, weight@, grad_output@, stride, padding),
{
    let d = input.shape();
    let k = weight.shape();
    let g = grad_output.shape();
    let win = Window {
        h: d.dim(2),
        w: d.dim(3),
        kh: k.dim(2),
        kw: k.dim(3),
        stride,
        padding,
        oh: g.dim(2),
        ow: g.dim(3),
    };
    let ge = Geometry { n: d.dim(0), cin: d.dim(1), cout: k.dim(0), win };
    let ghost want = conv_backward_value(input@, weight@, grad_output@, stride, padding);
    proof {
        lemma_numel4(input@.dims);
        lemma_numel4(weight@.dims);
        lemma_numel4(grad_output@.dims);
        lemma_bounded_fits(input@.dims);
        lemma_bounded_fits(weight@.dims);
        lemma_bounded_fits(grad_output@.dims);
    }
    // bias
    let mut gb: Vec<S> = Vec::with_capacity(ge.cout);
    let mut co: usize = 0;
    while co < ge.cout
        invariant
            co <= ge.cout,
            win == ge.win,
            ge.wf(),
            ge == grad_geometry(input@.dims, weight@.dims, grad_output@.dims, stride, padding),
            want == conv_backward_value(input@, weight@, grad_output@, stride, padding),
            grad_output.wf(),
            grad_output@.data.len() == ge.output_len(),
            grad_output@.dims.len() == 4,
            grad_output@.dims[0] == ge.n,
            grad_output@.dims[1] == ge.cout,
            gb@.len() == co,
            forall|t: int| 0 <= t < co ==> gb@[t] == want.2.data[t],
        decreases ge.cout - co,
    {
        proof {
            lemma_output_groups(ge, grad_output@.dims);
        }
        let groups = Groups { n: ge.n, c: ge.cout, hw: win.oh * win.ow };
        gb.push(sum_group(grad_output.data(), groups, co));
        co = co + 1;
    }
    // weight
    let n_weight = weight.numel();
    let mut gw: Vec<S> = Vec::with_capacity(n_weight);
    let mut a: usize = 0;
    while a < n_weight
        invariant
            a <= n_weight == ge.weight_len(),
            win == ge.win,
            ge.wf(),
            ge == grad_geometry(input@.dims, weight@.dims, grad_output@.dims, stride, padding),
            want == conv_backward_value(input@, weight@, grad_output@, stride, padding),
            input.wf(),
            weight@.data.len() == n_weight,
            grad_output.wf(),
            input@.data.len() == ge.input_len(),
            grad_output@.data.len() == ge.output_len(),
            gw@.len() == a,
            forall|t: int| 0 <= t < a ==> gw@[t] == want.1.data[t],
        decreases n_weight - a,
    {
        proof {
            lemma_split4(a as int, ge.cout as int, ge.cin as int, win.kh as int, win.kw as int);
            crate::cpu::conv::lemma_patch(ge);
            lemma_split2(a as int, ge.cout as int, ge.patch());
        }
        let patch = crate::cpu::conv::patch_len(ge);
        gw.push(weight_grad_at(input.data(), grad_output.data(), ge, a / patch, a % patch));
        a = a + 1;
    }
    // input
    let n_input = input.numel();
    let mut gi: Vec<S> = Vec::with_capacity(n_input);
    let mut b: usize = 0;
    while b < n_input
        invariant
            b <= n_input == ge.input_len(),
            win == ge.win,
            ge.wf(),
            ge == grad_geometry(input@.dims, weight@.dims, grad_output@.dims, stride, padding),
            want == conv_backward_value(input@, weight@, grad_output@, stride, padding),
            weight.wf(),
            input@.data.len() == n_input,
            grad_output.wf(),
            weight@.data.len() == ge.weight_len(),
            grad_output@.data.len() == ge.output_len(),
            gi@.len() == b,
            forall|t: int| 0 <= t < b ==> gi@[t] == want.0.data[t],
        decreases n_input - b,
    {
        proof {
            lemma_split4(b as int, ge.n as int, ge.cin as int, win.h as int, win.w as int);
        }
        let iw: usize = b % win.w;
        let ih: usize = (b / win.w) % win.h;
        let c: usize = (b / win.w / win.h) % ge.cin;
        let nn: usize = b / win.w / win.h / ge.cin;
        gi.push(input_grad_at(weight.data(), grad_output.data(), ge, nn, c, ih, iw));
        b = b + 1;
    }
    let bias_shape = Shape::from([ge.cout]);
    proof {
        assert(bias_shape@ =~= seq![ge.cout]);
        lemma_single(bias_shape@, ge.cout);
    }
    assert(gi@ =~= want.0.data);
    assert(gw@ =~= want.1.data);
    assert(gb@ =~= want.2.data);
    (
        Dense::new(*input.shape(), gi),
        Dense::new(*weight.shape(), gw),
        Dense::new(bias_shape, gb),
    )
}

/// The planes of the output channels make up the output gradient.
proof fn lemma_output_groups(ge: Geometry, g: Seq<usize>)
    requires
        ge.cout > 0,
        g.len() == 4,
        g[0] == ge.n,
        g[1] == ge.cout,
        g[2] == ge.win.oh,
        g[3] == ge.win.ow,
        bounded(g),
    ensures
        ge.win.oh * ge.win.ow <= usize::MAX,
        output_groups(ge).hw == ge.win.oh * ge.win.ow,
        output_groups(ge).covers(numel(g)),
{
    lemma_numel4(g);
    lemma_bounded_fits(g);
    let a = g[0] as int;
    let b = g[1] as int;
    let c = g[2] as int;
    let d = g[3] as int;
    // The tail product of the last two axes fits whatever the number of images is.
    reveal_with_fuel(crate::index::tail_numel, 3);
    assert(crate::index::tail_numel(g, 2) <= usize::MAX);
    assert(crate::index::tail_numel(g, 2) == c * d);
    assert(a * (c * d) <= (a * b) * (c * d)) by (nonlinear_arith)
        requires
            a >= 0,
            b >= 1,
            c >= 0,
            d >= 0,
    ;
}

} // verus!
