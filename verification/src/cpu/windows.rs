//! What convolution and pooling compute, entry by entry.
use vstd::prelude::*;
use crate::autograd::adjoint_attention::lemma_blocks;
use crate::autograd::exact::{
    exact, lemma_add, lemma_derived, lemma_fold_from, lemma_fold_total, lemma_mul, lemma_total_eq,
    total,
};
use crate::autograd::ring::{invertible, lemma_inverse};
use crate::cpu::avgpool::{avgpool_value, window_count_step, window_mean, window_sum_step};
use crate::cpu::batchnorm::lemma_numel4;
use crate::cpu::conv::{
    conv_at, conv_dims, conv_geometry, conv_ok, conv_step, conv_value, padded, places,
};
use crate::cpu::loss::{class_of, embedding_ok, embedding_value, lemma_numel_push};
use crate::cpu::pool::{
    best_at, best_step, maxpool_value, pool_dims, pool_ok, pool_window, under, Planes,
};
use crate::dense::Value;
use crate::fixed::Fixed;
use crate::index::numel;
use crate::math::{fold, lemma_index2, lemma_join2, lemma_split2};
use crate::scalar::{zero, Scalar};

verus! {

/// The places of a window along an axis: as many as fit, one stride apart.
pub proof fn law_places(n: int, k: int, stride: int)
    requires
        0 <= k <= n,
        stride > 0,
    ensures
        places(n, k, stride) >= 1,
        (places(n, k, stride) - 1) * stride + k <= n,
        n < places(n, k, stride) * stride + k,
{
    let q = (n - k) / stride;
    let m = n - k;
    assert(q >= 0 && q * stride <= m && m < (q + 1) * stride) by (nonlinear_arith)
        requires
            q == m / stride,
            m >= 0,
            stride > 0,
    ;
}

/// A pixel of a plane of `h` rows and `w` columns; zero outside of it.
pub open spec fn pixel<S: Scalar>(x: Seq<S>, h: int, w: int, plane: int, r: int, s: int) -> S {
    if 0 <= r < h && 0 <= s < w {
        x[(plane * h + r) * w + s]
    } else {
        zero()
    }
}

/// A convolution: the bias of an output channel, and the sum over all input channels and all
/// pixels under the window of the pixel times the weight over it. The window at place `(y, z)`
/// starts `padding` before row `y * stride` and column `z * stride`, and what lies outside of the
/// image is zero.
pub proof fn law_conv_entry<S: Scalar>(
    x: Value<S>,
    weight: Value<S>,
    bias: Value<S>,
    stride: usize,
    padding: usize,
    n: int,
    co: int,
    y: int,
    z: int,
)
    requires
        exact::<S>(),
        x.wf(),
        weight.wf(),
        conv_ok(x, weight, bias, stride, padding),
        0 <= n < x.dims[0],
        0 <= co < weight.dims[0],
        0 <= y < places(x.dims[2] + 2 * padding, weight.dims[2] as int, stride as int),
        0 <= z < places(x.dims[3] + 2 * padding, weight.dims[3] as int, stride as int),
    ensures
        ({
            let (cin, h, w) = (x.dims[1] as int, x.dims[2] as int, x.dims[3] as int);
            let (cout, kh, kw) = (
                weight.dims[0] as int,
                weight.dims[2] as int,
                weight.dims[3] as int,
            );
            let oh = places(h + 2 * padding, kh, stride as int);
            let ow = places(w + 2 * padding, kw, stride as int);
            let out = conv_value(x, weight, bias, stride, padding);
            let at = ((n * cout + co) * oh + y) * ow + z;
            &&& out.dims == seq![x.dims[0], weight.dims[0], oh as usize, ow as usize]
            &&& 0 <= at < out.data.len()
            &&& out.data[at] == S::add_spec(
                bias.data[co],
                total(
                    cin as nat,
                    |c: int|
                        total(
                            kh as nat,
                            |i: int|
                                total(
                                    kw as nat,
                                    |j: int|
                                        S::mul_spec(
                                            weight.data[((co * cin + c) * kh + i) * kw + j],
                                            pixel(
                                                x.data,
                                                h,
                                                w,
                                                n * cin + c,
                                                y * stride + i - padding,
                                                z * stride + j - padding,
                                            ),
                                        ),
                                ),
                        ),
                ),
            )
        }),
{
    let (cin, h, w) = (x.dims[1] as int, x.dims[2] as int, x.dims[3] as int);
    let (cout, kh, kw) = (weight.dims[0] as int, weight.dims[2] as int, weight.dims[3] as int);
    law_places(h + 2 * padding, kh, stride as int);
    law_places(w + 2 * padding, kw, stride as int);
    let ge = conv_geometry(x.dims, weight.dims, stride, padding);
    let oh = ge.win.oh as int;
    let ow = ge.win.ow as int;
    let out = conv_value(x, weight, bias, stride, padding);
    let at = ((n * cout + co) * oh + y) * ow + z;
    lemma_numel4(conv_dims(ge));
    lemma_index2(n, ge.n as int, co, cout);
    lemma_index2(n * cout + co, ge.n * cout, y, oh);
    lemma_index2((n * cout + co) * oh + y, (ge.n * cout) * oh, z, ow);
    lemma_join2((n * cout + co) * oh + y, z, ow);
    lemma_join2(n * cout + co, y, oh);
    lemma_join2(n, co, cout);
    assert(out.data[at] == conv_at(x.data, weight.data, bias.data, ge, n, co, y, z));
    let patch = ge.patch() as nat;
    assert(patch == (cin * kh) * kw);
    let f = |q: int|
        S::mul_spec(
            weight.data[co * patch + q],
            padded(
                x.data,
                ge,
                n,
                q / kw / kh,
                y * stride + (q / kw) % kh,
                z * stride + q % kw,
            ),
        );
    let step = conv_step(x.data, weight.data, ge, n, co, y, z);
    assert forall|q: int, acc: S| 0 <= q < patch implies #[trigger] step(q, acc) == S::add_spec(
        acc,
        f(q),
    ) by {
        let wv = weight.data[co * patch + q];
        let pv = padded(
            x.data,
            ge,
            n,
            q / kw / kh,
            y * stride + (q / kw) % kh,
            z * stride + q % kw,
        );
        lemma_derived(wv, pv, acc);
        lemma_mul(pv, zero(), zero());
        lemma_add(acc, f(q), zero());
        lemma_add(acc, zero(), zero());
    }
    lemma_fold_from(patch, bias.data[co], step, f);
    lemma_blocks(cin as nat, kh as nat, kw as nat, f);
    let a = |c: int|
        total(kh as nat, |i: int| total(kw as nat, |j: int| f((c * kh + i) * kw + j)));
    let g = |c: int, i: int, j: int|
        S::mul_spec(
            weight.data[((co * cin + c) * kh + i) * kw + j],
            pixel(
                x.data,
                h,
                w,
                n * cin + c,
                y * stride + i - padding,
                z * stride + j - padding,
            ),
        );
    let b = |c: int| total(kh as nat, |i: int| total(kw as nat, |j: int| g(c, i, j)));
    assert forall|c: int| 0 <= c < cin implies #[trigger] a(c) == b(c) by {
        let a1 = |i: int| total(kw as nat, |j: int| f((c * kh + i) * kw + j));
        let b1 = |i: int| total(kw as nat, |j: int| g(c, i, j));
        assert forall|i: int| 0 <= i < kh implies #[trigger] a1(i) == b1(i) by {
            let a2 = |j: int| f((c * kh + i) * kw + j);
            let b2 = |j: int| g(c, i, j);
            assert forall|j: int| 0 <= j < kw implies #[trigger] a2(j) == b2(j) by {
                let q = (c * kh + i) * kw + j;
                lemma_join2(c * kh + i, j, kw);
                lemma_join2(c, i, kh);
                lemma_weight_index(co, cin, c, kh, i, kw, j);
                let (r, s) = (y * stride + i - padding, z * stride + j - padding);
                if ge.win.inside(y * stride + i, z * stride + j) {
                    assert(0 <= r < h && 0 <= s < w);
                }
            }
            lemma_total_eq(kw as nat, a2, b2);
        }
        lemma_total_eq(kh as nat, a1, b1);
    }
    lemma_total_eq(cin as nat, a, b);
    let e = |c: int|
        total(
            kh as nat,
            |i: int|
                total(
                    kw as nat,
                    |j: int|
                        S::mul_spec(
                            weight.data[((co * cin + c) * kh + i) * kw + j],
                            pixel(
                                x.data,
                                h,
                                w,
                                n * cin + c,
                                y * stride + i - padding,
                                z * stride + j - padding,
                            ),
                        ),
                ),
        );
    assert forall|c: int| 0 <= c < cin implies #[trigger] b(c) == e(c) by {
        let b1 = |i: int| total(kw as nat, |j: int| g(c, i, j));
        let e1 = |i: int|
            total(
                kw as nat,
                |j: int|
                    S::mul_spec(
                        weight.data[((co * cin + c) * kh + i) * kw + j],
                        pixel(
                            x.data,
                            h,
                            w,
                            n * cin + c,
                            y * stride + i - padding,
                            z * stride + j - padding,
                        ),
                    ),
            );
        assert forall|i: int| 0 <= i < kh implies #[trigger] b1(i) == e1(i) by {
            lemma_total_eq(
                kw as nat,
                |j: int| g(c, i, j),
                |j: int|
                    S::mul_spec(
                        weight.data[((co * cin + c) * kh + i) * kw + j],
                        pixel(
                            x.data,
                            h,
                            w,
                            n * cin + c,
                            y * stride + i - padding,
                            z * stride + j - padding,
                        ),
                    ),
            );
        }
        lemma_total_eq(kh as nat, b1, e1);
    }
    lemma_total_eq(cin as nat, b, e);
}

proof fn lemma_weight_index(co: int, cin: int, c: int, kh: int, i: int, kw: int, j: int)
    ensures
        co * ((cin * kh) * kw) + ((c * kh + i) * kw + j) == ((co * cin + c) * kh + i) * kw + j,
{
    let a = co * cin;
    assert(co * ((cin * kh) * kw) == (co * (cin * kh)) * kw) by (nonlinear_arith);
    assert(co * (cin * kh) == a * kh) by (nonlinear_arith)
        requires
            a == co * cin,
    ;
    assert((a + c) * kh == a * kh + c * kh) by (nonlinear_arith);
    let (p, q) = (a * kh, c * kh + i);
    assert((p + q) * kw == p * kw + q * kw) by (nonlinear_arith);
}

/// A pixel of a padded image lies on the image.
pub open spec fn on_image(d: Seq<usize>, r: int, s: int) -> bool {
    0 <= r < d[2] && 0 <= s < d[3]
}

/// Max pooling, on fixed-point numbers: no pixel of the image under the window is larger than the
/// output, and where there is one above the smallest number the output is one of them.
pub proof fn law_maxpool(
    x: Value<Fixed>,
    k: usize,
    stride: usize,
    padding: usize,
    plane: int,
    y: int,
    z: int,
    i: int,
    j: int,
)
    requires
        x.wf(),
        pool_ok(x, k, stride, padding),
        0 <= plane < x.dims[0] * x.dims[1],
        0 <= y < places(x.dims[2] + 2 * padding, k as int, stride as int),
        0 <= z < places(x.dims[3] + 2 * padding, k as int, stride as int),
        0 <= i < k,
        0 <= j < k,
        on_image(x.dims, y * stride + i - padding, z * stride + j - padding),
    ensures
        ({
            let (h, w) = (x.dims[2] as int, x.dims[3] as int);
            let oh = places(h + 2 * padding, k as int, stride as int);
            let ow = places(w + 2 * padding, k as int, stride as int);
            let out = maxpool_value(x, k, stride, padding);
            let at = (plane * oh + y) * ow + z;
            let here = |a: int, b: int|
                pixel(x.data, h, w, plane, y * stride + a - padding, z * stride + b - padding);
            &&& out.dims == seq![x.dims[0], x.dims[1], oh as usize, ow as usize]
            &&& 0 <= at < out.data.len()
            &&& here(i, j).raw <= out.data[at].raw
            &&& here(i, j).raw > i32::MIN ==> exists|a: int, b: int|
                0 <= a < k && 0 <= b < k && on_image(
                    x.dims,
                    y * stride + a - padding,
                    z * stride + b - padding,
                ) && #[trigger] here(a, b) == out.data[at]
        }),
{
    let (h, w) = (x.dims[2] as int, x.dims[3] as int);
    law_places(h + 2 * padding, k as int, stride as int);
    law_places(w + 2 * padding, k as int, stride as int);
    let win = pool_window(x.dims, k, stride, padding);
    let oh = win.oh as int;
    let ow = win.ow as int;
    let channels = x.dims[0] * x.dims[1];
    lemma_numel4(pool_dims(x.dims, win));
    lemma_numel4(x.dims);
    let out = maxpool_value(x, k, stride, padding);
    let at = (plane * oh + y) * ow + z;
    lemma_index2(plane, channels, y, oh);
    lemma_index2(plane * oh + y, channels * oh, z, ow);
    let o = y * ow + z;
    lemma_index2(y, oh, z, ow);
    lemma_join2(y, z, ow);
    assert(at == plane * (oh * ow) + o) by (nonlinear_arith)
        requires
            at == (plane * oh + y) * ow + z,
            o == y * ow + z,
    ;
    lemma_join2(plane, o, oh * ow);
    assert(channels <= usize::MAX) by {
        assert(channels * (oh * ow) == numel(pool_dims(x.dims, win)));
        crate::index::lemma_bounded_fits(pool_dims(x.dims, win));
        assert(channels <= channels * (oh * ow)) by (nonlinear_arith)
            requires
                channels >= 0,
                oh * ow >= 1,
        ;
    }
    let pl = Planes { channels: channels as usize, win };
    assert(out.data[at] == best_at(x.data, pl, plane, o).0);
    let here = |a: int, b: int|
        pixel(x.data, h, w, plane, y * stride + a - padding, z * stride + b - padding);
    let q = i * k + j;
    lemma_index2(i, k as int, j, k as int);
    lemma_join2(i, j, k as int);
    lemma_best(x.data, pl, plane, o, y, z, pl.area() as nat);
    assert(pl.area() == k * k);
    lemma_pixel(x.data, pl, plane, y, z, q);
    if here(i, j).raw > i32::MIN {
        let t = choose|t: int|
            0 <= t < pl.area() && under(win, y, z, t) is Some && out.data[at]
                == x.data[plane * pl.input_plane() + #[trigger] under(win, y, z, t)->0];
        lemma_pixel(x.data, pl, plane, y, z, t);
        lemma_split2(t, k as int, k as int);
        assert(here(t / k as int, t % k as int) == out.data[at]);
    }
}

/// What lies under an offset of the window.
proof fn lemma_pixel<S: Scalar>(x: Seq<S>, pl: Planes, plane: int, y: int, z: int, q: int)
    requires
        pl.win.kw > 0,
    ensures
        ({
            let win = pl.win;
            let r = y * win.stride + q / win.kw as int - win.padding;
            let s = z * win.stride + q % win.kw as int - win.padding;
            let (h, w) = (win.h as int, win.w as int);
            &&& under(win, y, z, q) is Some <==> 0 <= r < h && 0 <= s < w
            &&& under(win, y, z, q) matches Some(p) ==> x[plane * pl.input_plane() + p] == pixel(
                x,
                h,
                w,
                plane,
                r,
                s,
            )
        }),
{
    let win = pl.win;
    let r = y * win.stride + q / win.kw as int - win.padding;
    let s = z * win.stride + q % win.kw as int - win.padding;
    let (h, w) = (win.h as int, win.w as int);
    assert(plane * (h * w) + (r * w + s) == (plane * h + r) * w + s) by (nonlinear_arith);
}

/// The best of the first `n` offsets.
proof fn lemma_best(x: Seq<Fixed>, pl: Planes, plane: int, o: int, y: int, z: int, n: nat)
    requires
        y == o / pl.win.ow as int,
        z == o % pl.win.ow as int,
    ensures
        ({
            let low = (Fixed { raw: i32::MIN }, None::<int>);
            let best = fold(n, low, best_step(x, pl, plane, o)).0;
            &&& forall|t: int|
                0 <= t < n && under(pl.win, y, z, t) is Some ==> x[plane * pl.input_plane()
                    + #[trigger] under(pl.win, y, z, t)->0].raw <= best.raw
            &&& best.raw > i32::MIN ==> exists|t: int|
                0 <= t < n && under(pl.win, y, z, t) is Some && best == x[plane
                    * pl.input_plane() + #[trigger] under(pl.win, y, z, t)->0]
        }),
    decreases n,
{
    if n > 0 {
        let low = (Fixed { raw: i32::MIN }, None::<int>);
        let m = (n - 1) as nat;
        lemma_best(x, pl, plane, o, y, z, m);
        let before = fold(m, low, best_step(x, pl, plane, o));
        let best = fold(n, low, best_step(x, pl, plane, o));
        assert(best == best_step(x, pl, plane, o)(m as int, before));
        if best.0.raw > i32::MIN {
            if best == before {
                let t = choose|t: int|
                    0 <= t < m && under(pl.win, y, z, t) is Some && before.0 == x[plane
                        * pl.input_plane() + #[trigger] under(pl.win, y, z, t)->0];
                assert(under(pl.win, y, z, t) is Some);
            } else {
                assert(under(pl.win, y, z, m as int) is Some);
            }
        }
    }
}

/// How many of the first `n` offsets of a window lie on the image.
pub open spec fn seen(d: Seq<usize>, k: int, r: int, s: int, n: nat) -> nat
    decreases n,
{
    if n == 0 {
        0
    } else {
        let q = n - 1;
        seen(d, k, r, s, (n - 1) as nat) + if on_image(d, r + q / k, s + q % k) {
            1nat
        } else {
            0nat
        }
    }
}

/// Average pooling: the output times the number of pixels of the image under the window is their
/// sum.
pub proof fn law_avgpool<S: Scalar>(
    x: Value<S>,
    k: usize,
    stride: usize,
    padding: usize,
    plane: int,
    y: int,
    z: int,
)
    requires
        exact::<S>(),
        x.wf(),
        pool_ok(x, k, stride, padding),
        k > 0,
        0 <= plane < x.dims[0] * x.dims[1],
        0 <= y < places(x.dims[2] + 2 * padding, k as int, stride as int),
        0 <= z < places(x.dims[3] + 2 * padding, k as int, stride as int),
        invertible(
            S::count_spec(
                seen(
                    x.dims,
                    k as int,
                    y * stride - padding,
                    z * stride - padding,
                    (k * k) as nat,
                ) as usize,
            ),
        ),
    ensures
        ({
            let (h, w) = (x.dims[2] as int, x.dims[3] as int);
            let oh = places(h + 2 * padding, k as int, stride as int);
            let ow = places(w + 2 * padding, k as int, stride as int);
            let out = avgpool_value(x, k, stride, padding);
            let at = (plane * oh + y) * ow + z;
            let (r, s) = (y * stride - padding, z * stride - padding);
            let number = seen(x.dims, k as int, r, s, (k * k) as nat);
            &&& out.dims == seq![x.dims[0], x.dims[1], oh as usize, ow as usize]
            &&& 0 <= at < out.data.len()
            &&& S::mul_spec(out.data[at], S::count_spec(number as usize)) == total(
                (k * k) as nat,
                |q: int| pixel(x.data, h, w, plane, r + q / k as int, s + q % k as int),
            )
        }),
{
    let (h, w) = (x.dims[2] as int, x.dims[3] as int);
    law_places(h + 2 * padding, k as int, stride as int);
    law_places(w + 2 * padding, k as int, stride as int);
    let win = pool_window(x.dims, k, stride, padding);
    let oh = win.oh as int;
    let ow = win.ow as int;
    let channels = x.dims[0] * x.dims[1];
    lemma_numel4(pool_dims(x.dims, win));
    let out = avgpool_value(x, k, stride, padding);
    let at = (plane * oh + y) * ow + z;
    lemma_index2(plane, channels, y, oh);
    lemma_index2(plane * oh + y, channels * oh, z, ow);
    let o = y * ow + z;
    lemma_index2(y, oh, z, ow);
    lemma_join2(y, z, ow);
    assert(at == plane * (oh * ow) + o) by (nonlinear_arith)
        requires
            at == (plane * oh + y) * ow + z,
            o == y * ow + z,
    ;
    lemma_join2(plane, o, oh * ow);
    assert(channels <= usize::MAX) by {
        assert(channels * (oh * ow) == numel(pool_dims(x.dims, win)));
        crate::index::lemma_bounded_fits(pool_dims(x.dims, win));
        assert(channels <= channels * (oh * ow)) by (nonlinear_arith)
            requires
                channels >= 0,
                oh * ow >= 1,
        ;
    }
    let pl = Planes { channels: channels as usize, win };
    assert(out.data[at] == window_mean(x.data, pl, plane, o));
    let (r, s) = (y * stride - padding, z * stride - padding);
    let n = (k * k) as nat;
    let f = |q: int| pixel(x.data, h, w, plane, r + q / k as int, s + q % k as int);
    let step = window_sum_step(x.data, pl, plane, o);
    assert forall|q: int, acc: S| 0 <= q < n implies #[trigger] step(q, acc) == S::add_spec(
        acc,
        f(q),
    ) by {
        lemma_pixel(x.data, pl, plane, y, z, q);
        lemma_add(acc, zero(), zero());
    }
    lemma_fold_total(n, step, f);
    lemma_seen(x.dims, pl, o, y, z, n);
    lemma_inverse(
        fold(n, zero(), step),
        S::count_spec(seen(x.dims, k as int, r, s, n) as usize),
    );
}

proof fn lemma_seen(d: Seq<usize>, pl: Planes, o: int, y: int, z: int, n: nat)
    requires
        y == o / pl.win.ow as int,
        z == o % pl.win.ow as int,
        pl.win.kw > 0,
        pl.win.h == d[2],
        pl.win.w == d[3],
    ensures
        fold(n, 0nat, window_count_step(pl.win, o)) == seen(
            d,
            pl.win.kw as int,
            y * pl.win.stride - pl.win.padding,
            z * pl.win.stride - pl.win.padding,
            n,
        ),
    decreases n,
{
    if n > 0 {
        lemma_seen(d, pl, o, y, z, (n - 1) as nat);
        lemma_pixel::<Fixed>(Seq::empty(), pl, 0, y, z, n - 1);
    }
}

/// An embedding takes the row of the table that an id names.
pub proof fn law_embedding_entry<S: Scalar>(ids: Value<S>, table: Value<S>, t: int, e: int)
    requires
        ids.wf(),
        embedding_ok(ids, table),
        0 <= t < ids.data.len(),
        0 <= e < table.dims[1],
    ensures
        ({
            let width = table.dims[1];
            let y = embedding_value(ids, table);
            &&& y.dims == ids.dims.push(width)
            &&& 0 <= t * width + e < y.data.len()
            &&& y.data[t * width + e] == table.data[class_of(ids.data[t]) * width + e]
        }),
{
    let width = table.dims[1];
    lemma_numel_push(ids.dims, width);
    lemma_index2(t, ids.data.len() as int, e, width as int);
    lemma_join2(t, e, width as int);
}

/// What is picked among the first `n` offsets.
proof fn lemma_picked(x: Seq<Fixed>, pl: Planes, plane: int, o: int, t: int, n: nat)
    requires
        picked(x, pl, plane, o, t),
        n <= pl.area(),
    ensures
        ({
            let low = (Fixed { raw: i32::MIN }, None::<int>);
            let best = fold(n, low, best_step(x, pl, plane, o));
            let p = under(pl.win, o / pl.win.ow as int, o % pl.win.ow as int, t)->0;
            let v = x[plane * pl.input_plane() + p];
            if n <= t {
                best.0.raw < v.raw
            } else {
                best == (v, Some(p))
            }
        }),
    decreases n,
{
    let low = (Fixed { raw: i32::MIN }, None::<int>);
    if n > 0 {
        let m = (n - 1) as nat;
        lemma_picked(x, pl, plane, o, t, m);
        let before = fold(m, low, best_step(x, pl, plane, o));
        let best = fold(n, low, best_step(x, pl, plane, o));
        assert(best == best_step(x, pl, plane, o)(m as int, before));
        let here = under(pl.win, o / pl.win.ow as int, o % pl.win.ow as int, m as int);
        if here is Some {
            assert(x[plane * pl.input_plane() + here->0].raw <= i32::MAX);
        }
    }
}

/// Offset `t` of the window at place `o` is the first of the largest pixels of the image under it.
pub open spec fn picked(x: Seq<Fixed>, pl: Planes, plane: int, o: int, t: int) -> bool {
    let (y, z) = (o / pl.win.ow as int, o % pl.win.ow as int);
    let at = |s: int| x[plane * pl.input_plane() + under(pl.win, y, z, s)->0].raw;
    &&& 0 <= t < pl.area()
    &&& under(pl.win, y, z, t) is Some
    &&& at(t) > i32::MIN
    &&& forall|s: int|
        0 <= s < pl.area() && (#[trigger] under(pl.win, y, z, s)) is Some ==> if s < t {
            at(s) < at(t)
        } else {
            at(s) <= at(t)
        }
}

/// Among equally large pixels under a window, max pooling picks the first, row by row: that is the
/// pixel that a gradient goes to.
pub proof fn law_maxpool_first(x: Seq<Fixed>, pl: Planes, plane: int, o: int, t: int)
    requires
        picked(x, pl, plane, o, t),
    ensures
        best_at(x, pl, plane, o).1 == under(
            pl.win,
            o / pl.win.ow as int,
            o % pl.win.ow as int,
            t,
        ),
{
    lemma_picked(x, pl, plane, o, t, pl.area() as nat);
}

} // verus!
