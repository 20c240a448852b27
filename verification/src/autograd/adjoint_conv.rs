//! The gradients of a convolution, as the other side of it.
use vstd::prelude::*;
use crate::autograd::exact::{
    exact, lemma_add, lemma_derived, lemma_distribute, lemma_fold_from, lemma_fold_total, lemma_mul,
    lemma_scatter, lemma_total_add, lemma_total_eq, lemma_total_match, lemma_total_mul,
    lemma_total_runs, lemma_total_zero, only, pairing, total,
};
use crate::autograd::rules::rule_value;
use crate::cpu::batchnorm::lemma_numel4;
use crate::cpu::conv::{
    conv_dims, conv_geometry, conv_ok, conv_step, conv_value, lemma_planes, padded, Geometry,
};
use crate::cpu::conv_backward::{
    conv_backward_value, go_index, grad_geometry, input_grad, input_step, output_groups, reaches,
    weight_grad, weight_step,
};
use crate::cpu::norm::{group_sum, group_sum_step};
use crate::dense::Value;
use crate::index::{lemma_bounded_fits, numel};
use crate::math::{
    lemma_index2, lemma_index3, lemma_index4, lemma_join2, lemma_split2, lemma_split3, lemma_split4,
};
use crate::op::OpType;
use crate::scalar::{zero, Scalar};

verus! {

/// The image, the channel, the row and the column of output pixel `o`.
spec fn place(ge: Geometry, o: int) -> (int, int, int, int) {
    let ow = ge.win.ow as int;
    let oh = ge.win.oh as int;
    let cout = ge.cout as int;
    (o / ow / oh / cout, (o / ow / oh) % cout, (o / ow) % oh, o % ow)
}

/// The channel, the row and the column of weight `q` of an output channel.
spec fn spot(ge: Geometry, q: int) -> (int, int, int) {
    let kw = ge.win.kw as int;
    let kh = ge.win.kh as int;
    (q / kw / kh, (q / kw) % kh, q % kw)
}

/// The pixel under weight `q` at output pixel `o`.
spec fn pixel<S: Scalar>(x: Seq<S>, ge: Geometry, o: int, q: int) -> S {
    let (nn, co, y, xo) = place(ge, o);
    let (c, i, j) = spot(ge, q);
    padded(x, ge, nn, c, y * ge.win.stride + i, xo * ge.win.stride + j)
}

/// What one weight adds to the weight of the convolution at one output pixel.
spec fn term<S: Scalar>(x: Seq<S>, w: Seq<S>, g: Seq<S>, ge: Geometry) -> spec_fn(int) -> S {
    |z: int|
        {
            let o = z / ge.patch();
            let q = z % ge.patch();
            S::mul_spec(
                g[o],
                S::mul_spec(w[place(ge, o).1 * ge.patch() + q], pixel(x, ge, o, q)),
            )
        }
}

/// The gradient of every output pixel against the bias of its channel.
spec fn bias_term<S: Scalar>(b: Seq<S>, g: Seq<S>, ge: Geometry) -> spec_fn(int) -> S {
    |o: int| S::mul_spec(g[o], b[place(ge, o).1])
}

/// Operands, and an output gradient, of one convolution.
pub open spec fn conv_fits<S>(
    x: Value<S>,
    w: Value<S>,
    b: Value<S>,
    g: Value<S>,
    stride: usize,
    padding: usize,
) -> bool {
    &&& x.wf()
    &&& w.wf()
    &&& b.wf()
    &&& g.wf()
    &&& conv_ok(x, w, b, stride, padding)
    &&& g.dims == conv_dims(conv_geometry(x.dims, w.dims, stride, padding))
}

/// The sizes of the operands.
proof fn lemma_sizes<S>(
    x: Value<S>,
    w: Value<S>,
    b: Value<S>,
    g: Value<S>,
    stride: usize,
    padding: usize,
)
    requires
        conv_fits(x, w, b, g, stride, padding),
    ensures
        ({
            let ge = conv_geometry(x.dims, w.dims, stride, padding);
            &&& grad_geometry(x.dims, w.dims, g.dims, stride, padding) == ge
            &&& x.data.len() == ge.input_len()
            &&& w.data.len() == ge.cout * ge.patch()
            &&& w.data.len() == ge.weight_len()
            &&& g.data.len() == ge.output_len()
            &&& numel(g.dims) == ge.output_len()
            &&& b.data.len() >= ge.cout
            &&& ge.patch() >= 0
        }),
{
    let ge = conv_geometry(x.dims, w.dims, stride, padding);
    lemma_numel4(x.dims);
    lemma_numel4(w.dims);
    lemma_numel4(g.dims);
    assert(ge.weight_len() == ge.cout * ge.patch()) by (nonlinear_arith)
        requires
            ge.weight_len() == ((ge.cout * ge.cin) * ge.win.kh) * ge.win.kw,
            ge.patch() == (ge.cin * ge.win.kh) * ge.win.kw,
    ;
    assert(ge.patch() >= 0) by (nonlinear_arith)
        requires
            ge.patch() == (ge.cin * ge.win.kh) * ge.win.kw,
    ;
}

/// The weight of the output's gradient against the convolution, weight by weight.
proof fn lemma_weight<S: Scalar>(
    x: Value<S>,
    w: Value<S>,
    b: Value<S>,
    g: Value<S>,
    stride: usize,
    padding: usize,
)
    requires
        exact::<S>(),
        conv_fits(x, w, b, g, stride, padding),
    ensures
        ({
            let ge = conv_geometry(x.dims, w.dims, stride, padding);
            pairing(g.data, conv_value(x, w, b, stride, padding).data) == S::add_spec(
                total(
                    (ge.output_len() * ge.patch()) as nat,
                    term(x.data, w.data, g.data, ge),
                ),
                total(ge.output_len() as nat, bias_term(b.data, g.data, ge)),
            )
        }),
{
    let ge = conv_geometry(x.dims, w.dims, stride, padding);
    lemma_sizes(x, w, b, g, stride, padding);
    let y = conv_value(x, w, b, stride, padding);
    let n = ge.output_len() as nat;
    let p = ge.patch() as nat;
    let f = term(x.data, w.data, g.data, ge);
    let fb = bias_term(b.data, g.data, ge);
    let all = |o: int| S::mul_spec(g.data[o], y.data[o]);
    let run = |o: int| total(p, |q: int| f(o * p + q));
    assert forall|o: int| 0 <= o < n implies #[trigger] all(o) == S::add_spec(run(o), fb(o)) by {
        let (nn, co, yy, xo) = place(ge, o);
        let step = conv_step(x.data, w.data, ge, nn, co, yy, xo);
        let h = |q: int| S::mul_spec(w.data[co * ge.patch() + q], pixel(x.data, ge, o, q));
        assert forall|q: int, acc: S| 0 <= q < p implies #[trigger] step(q, acc) == S::add_spec(
            acc,
            h(q),
        ) by {
            let wv = w.data[co * ge.patch() + q];
            let px = pixel(x.data, ge, o, q);
            lemma_derived(wv, px, acc);
            lemma_add(acc, h(q), zero());
            lemma_mul(px, wv, zero());
            lemma_add(acc, zero(), zero());
        }
        lemma_fold_from(p, b.data[co], step, h);
        assert(y.data[o] == S::add_spec(b.data[co], total(p, h)));
        lemma_distribute(g.data[o], b.data[co], total(p, h));
        lemma_total_mul(p, g.data[o], h);
        let go = g.data[o];
        let scaled = |q: int| S::mul_spec(go, h(q));
        let part = |q: int| f(o * p + q);
        assert forall|q: int| 0 <= q < p implies #[trigger] scaled(q) == part(q) by {
            lemma_join2(o, q, p as int);
        }
        lemma_total_eq(p, scaled, part);
        lemma_add(fb(o), run(o), zero());
    }
    lemma_total_eq(n, all, |o: int| S::add_spec(run(o), fb(o)));
    lemma_total_add(n, run, fb);
    lemma_total_runs(n, p, f);
    assert(n * p == ge.output_len() * ge.patch());
}

/// Output pixels and their places name each other.
proof fn lemma_place(ge: Geometry, nn: int, co: int, y: int, xo: int)
    requires
        0 <= nn < ge.n,
        0 <= co < ge.cout,
        0 <= y < ge.win.oh,
        0 <= xo < ge.win.ow,
    ensures
        0 <= go_index(ge, nn, co, y, xo) < ge.output_len(),
        place(ge, go_index(ge, nn, co, y, xo)) == (nn, co, y, xo),
{
    let (oh, ow) = (ge.win.oh as int, ge.win.ow as int);
    lemma_index4(nn, ge.n as int, co, ge.cout as int, y, oh, xo, ow);
    lemma_join2((nn * ge.cout + co) * oh + y, xo, ow);
    lemma_join2(nn * ge.cout + co, y, oh);
    lemma_join2(nn, co, ge.cout as int);
}

/// Every output pixel has its place.
proof fn lemma_placed(ge: Geometry, o: int)
    requires
        0 <= o < ge.output_len(),
    ensures
        ({
            let (nn, co, y, xo) = place(ge, o);
            &&& 0 <= nn < ge.n
            &&& 0 <= co < ge.cout
            &&& 0 <= y < ge.win.oh
            &&& 0 <= xo < ge.win.ow
            &&& go_index(ge, nn, co, y, xo) == o
        }),
{
    lemma_split4(o, ge.n as int, ge.cout as int, ge.win.oh as int, ge.win.ow as int);
}

/// Every weight has its spot.
proof fn lemma_spot(ge: Geometry, q: int)
    requires
        0 <= q < ge.patch(),
    ensures
        ({
            let (c, i, j) = spot(ge, q);
            &&& 0 <= c < ge.cin
            &&& 0 <= i < ge.win.kh
            &&& 0 <= j < ge.win.kw
            &&& (c * ge.win.kh + i) * ge.win.kw + j == q
        }),
{
    lemma_split3(q, ge.cin as int, ge.win.kh as int, ge.win.kw as int);
}

/// The gradient of weight `k`, as a sum over all pairs of an output pixel and a weight.
proof fn lemma_weight_grad<S: Scalar>(x: Seq<S>, g: Seq<S>, ge: Geometry, k: int)
    requires
        exact::<S>(),
        0 <= k < ge.cout * ge.patch(),
        ge.patch() >= 0,
        ge.output_len() >= 0,
    ensures
        weight_grad(x, g, ge, k / ge.patch(), k % ge.patch()) == total(
            (ge.output_len() * ge.patch()) as nat,
            only(on_weight(ge, k), pixel_part(x, g, ge)),
        ),
{
    let p = ge.patch();
    let (co, q) = (k / p, k % p);
    lemma_split2(k, ge.cout as int, p);
    let win = ge.win;
    let (oh, ow) = (win.oh as int, win.ow as int);
    let len = (ge.n * win.oh) * win.ow;
    let n = ge.output_len() * p;
    let f = pixel_part(x, g, ge);
    let index = |t: int| go_index(ge, t / ow / oh, co, (t / ow) % oh, t % ow) * p + q;
    let on = |t: int| true;
    let entry = |z: int|
        {
            let (nn, c2, y, xo) = place(ge, z / p);
            (nn * oh + y) * ow + xo
        };
    let selected = on_weight(ge, k);
    assert(len >= 0) by (nonlinear_arith)
        requires
            len == (ge.n * win.oh) * win.ow,
    ;
    assert forall|t: int| 0 <= t < len && #[trigger] on(t) implies 0 <= index(t) < n && selected(
        index(t),
    ) && entry(index(t)) == t by {
        lemma_split3(t, ge.n as int, oh, ow);
        let (nn, y, xo) = (t / ow / oh, (t / ow) % oh, t % ow);
        lemma_place(ge, nn, co, y, xo);
        let o = go_index(ge, nn, co, y, xo);
        lemma_index2(o, ge.output_len(), q, p);
        lemma_join2(o, q, p);
    }
    assert forall|z: int| 0 <= z < n && #[trigger] selected(z) implies 0 <= entry(z) < len && on(
        entry(z),
    ) && index(entry(z)) == z by {
        lemma_split2(z, ge.output_len(), p);
        let o = z / p;
        lemma_placed(ge, o);
        let (nn, c2, y, xo) = place(ge, o);
        lemma_join2(c2, z % p, p);
        lemma_index3(nn, ge.n as int, y, oh, xo, ow);
        lemma_join2(nn * oh + y, xo, ow);
        lemma_join2(nn, y, oh);
    }
    lemma_total_match(n as nat, len as nat, index, on, entry, selected, f);
    let step = weight_step(x, g, ge, co, q);
    let all = only(on, |t: int| f(index(t)));
    assert forall|t: int, acc: S| 0 <= t < len implies #[trigger] step(t, acc) == S::add_spec(
        acc,
        all(t),
    ) by {
        lemma_split3(t, ge.n as int, oh, ow);
        let (nn, y, xo) = (t / ow / oh, (t / ow) % oh, t % ow);
        lemma_place(ge, nn, co, y, xo);
        let o = go_index(ge, nn, co, y, xo);
        lemma_join2(o, q, p);
        lemma_derived(g[o], pixel(x, ge, o, q), acc);
        lemma_add(acc, all(t), zero());
    }
    lemma_fold_total(len as nat, step, all);
}

/// The pairs of an output pixel and a weight that is weight `k` of all.
spec fn on_weight(ge: Geometry, k: int) -> spec_fn(int) -> bool {
    |z: int| place(ge, z / ge.patch()).1 * ge.patch() + z % ge.patch() == k
}

/// The gradient of the output pixel times the pixel under the weight.
spec fn pixel_part<S: Scalar>(x: Seq<S>, g: Seq<S>, ge: Geometry) -> spec_fn(int) -> S {
    |z: int| S::mul_spec(g[z / ge.patch()], pixel(x, ge, z / ge.patch(), z % ge.patch()))
}

/// The weights' gradient weighs what the terms weigh.
proof fn lemma_weight_side<S: Scalar>(x: Seq<S>, w: Seq<S>, g: Seq<S>, ge: Geometry, gw: Seq<S>)
    requires
        exact::<S>(),
        ge.patch() >= 0,
        ge.output_len() >= 0,
        w.len() == ge.cout * ge.patch(),
        gw.len() == w.len(),
        forall|k: int|
            0 <= k < gw.len() ==> #[trigger] gw[k] == weight_grad(
                x,
                g,
                ge,
                k / ge.patch(),
                k % ge.patch(),
            ),
    ensures
        pairing(gw, w) == total((ge.output_len() * ge.patch()) as nat, term(x, w, g, ge)),
{
    let p = ge.patch();
    let n = ge.output_len() * p;
    let land = |z: int| place(ge, z / p).1 * p + z % p;
    let val = pixel_part(x, g, ge);
    let wk = |k: int| w[k];
    assert(n >= 0) by (nonlinear_arith)
        requires
            n == ge.output_len() * p,
            ge.output_len() >= 0,
            p >= 0,
    ;
    assert forall|z: int| 0 <= z < n implies 0 <= #[trigger] land(z) < w.len() by {
        lemma_split2(z, ge.output_len(), p);
        lemma_placed(ge, z / p);
        lemma_index2(place(ge, z / p).1, ge.cout as int, z % p, p);
    }
    lemma_scatter(n as nat, w.len(), land, val, wk);
    let landed = |k: int|
        S::mul_spec(
            total(
                n as nat,
                |z: int|
                    if land(z) == k {
                        val(z)
                    } else {
                        zero()
                    },
            ),
            wk(k),
        );
    let left = |k: int| S::mul_spec(gw[k], w[k]);
    assert forall|k: int| 0 <= k < w.len() implies #[trigger] landed(k) == left(k) by {
        lemma_weight_grad(x, g, ge, k);
        let theirs = |z: int|
            if land(z) == k {
                val(z)
            } else {
                zero()
            };
        lemma_total_eq(n as nat, theirs, only(on_weight(ge, k), val));
        assert(landed(k) == S::mul_spec(total(n as nat, theirs), wk(k)));
    }
    lemma_total_eq(w.len(), landed, left);
    let read = |z: int| S::mul_spec(val(z), wk(land(z)));
    let f = term(x, w, g, ge);
    assert forall|z: int| 0 <= z < n implies #[trigger] read(z) == f(z) by {
        let (a, b, c) = (g[z / p], pixel(x, ge, z / p, z % p), w[land(z)]);
        lemma_mul(a, b, c);
        lemma_mul(b, c, zero());
    }
    lemma_total_eq(n as nat, read, f);
}

/// The output pixels of channel `co`.
spec fn on_channel(ge: Geometry, co: int) -> spec_fn(int) -> bool {
    |o: int| place(ge, o).1 == co
}

/// The gradient of a channel's bias, as a sum over all output pixels.
proof fn lemma_bias_grad<S: Scalar>(g: Seq<S>, ge: Geometry, co: int)
    requires
        exact::<S>(),
        0 <= co < ge.cout,
        0 <= ge.output_len() <= usize::MAX,
    ensures
        group_sum(g, output_groups(ge), co) == total(
            ge.output_len() as nat,
            only(on_channel(ge, co), |o: int| g[o]),
        ),
{
    let gr = output_groups(ge);
    let (oh, ow) = (ge.win.oh as int, ge.win.ow as int);
    let cout = ge.cout as int;
    lemma_planes(ge.n as int, cout, oh, ow);
    let plane = oh * ow;
    let n = ge.output_len();
    let f = |o: int| g[o];
    let len = gr.len();
    let selected = on_channel(ge, co);
    let on = |t: int| true;
    let index = |t: int| gr.at(co, t);
    let entry = |o: int| (o / plane / cout) * plane + o % plane;
    let all = only(on, |t: int| f(index(t)));
    let step = group_sum_step(g, gr, co);
    assert forall|t: int, acc: S| 0 <= t < len implies #[trigger] step(t, acc) == S::add_spec(
        acc,
        all(t),
    ) by {}
    lemma_fold_total(len, step, all);
    if ge.n > 0 {
        assert(gr.hw == plane);
        assert forall|t: int| 0 <= t < len && #[trigger] on(t) implies 0 <= index(t) < n
            && selected(index(t)) && entry(index(t)) == t by {
            lemma_split2(t, ge.n as int, plane);
            let (nn, r) = (t / plane, t % plane);
            lemma_split2(r, oh, ow);
            lemma_index3(nn, ge.n as int, co, cout, r, plane);
            lemma_join2(nn * cout + co, r, plane);
            lemma_join2(nn, co, cout);
            lemma_plane_of(ge, index(t));
        }
        assert forall|o: int| 0 <= o < n && #[trigger] selected(o) implies 0 <= entry(o) < len
            && on(entry(o)) && index(entry(o)) == o by {
            lemma_plane_of(ge, o);
            lemma_split3(o, ge.n as int, cout, plane);
            lemma_index2(o / plane / cout, ge.n as int, o % plane, plane);
            lemma_join2(o / plane / cout, o % plane, plane);
        }
    } else {
        assert(len == 0) by (nonlinear_arith)
            requires
                len == ge.n as nat * gr.hw as nat,
                ge.n == 0,
        ;
        assert(n == 0) by (nonlinear_arith)
            requires
                n == ((ge.n * ge.cout) * ge.win.oh) * ge.win.ow,
                ge.n == 0,
        ;
    }
    lemma_total_match(n as nat, len, index, on, entry, selected, f);
}

/// The plane of an output pixel.
proof fn lemma_plane_of(ge: Geometry, o: int)
    requires
        ge.win.oh > 0,
        ge.win.ow > 0,
        0 <= o,
    ensures
        o / (ge.win.oh * ge.win.ow) == o / ge.win.ow as int / ge.win.oh as int,
{
    vstd::arithmetic::div_mod::lemma_div_denominator(o, ge.win.ow as int, ge.win.oh as int);
    assert(ge.win.ow * ge.win.oh == ge.win.oh * ge.win.ow) by (nonlinear_arith);
}

/// The bias' gradient weighs what the output's gradient weighs against the bias.
proof fn lemma_bias_side<S: Scalar>(b: Seq<S>, g: Seq<S>, ge: Geometry, gb: Seq<S>)
    requires
        exact::<S>(),
        0 <= ge.output_len() <= usize::MAX,
        gb.len() == ge.cout,
        forall|co: int|
            0 <= co < gb.len() ==> #[trigger] gb[co] == group_sum(g, output_groups(ge), co),
    ensures
        pairing(gb, b) == total(ge.output_len() as nat, bias_term(b, g, ge)),
{
    let n = ge.output_len() as nat;
    let m = ge.cout as nat;
    let land = |o: int| place(ge, o).1;
    let go = |o: int| g[o];
    let bk = |co: int| b[co];
    assert forall|o: int| 0 <= o < n implies 0 <= #[trigger] land(o) < m by {
        lemma_placed(ge, o);
    }
    lemma_scatter(n, m, land, go, bk);
    let landed = |co: int|
        S::mul_spec(
            total(
                n,
                |o: int|
                    if land(o) == co {
                        go(o)
                    } else {
                        zero()
                    },
            ),
            bk(co),
        );
    let left = |co: int| S::mul_spec(gb[co], b[co]);
    assert forall|co: int| 0 <= co < m implies #[trigger] landed(co) == left(co) by {
        lemma_bias_grad(g, ge, co);
        let theirs = |o: int|
            if land(o) == co {
                go(o)
            } else {
                zero()
            };
        lemma_total_eq(n, theirs, only(on_channel(ge, co), |o: int| g[o]));
        assert(landed(co) == S::mul_spec(total(n, theirs), bk(co)));
    }
    lemma_total_eq(m, landed, left);
    lemma_total_eq(n, |o: int| S::mul_spec(go(o), bk(land(o))), bias_term(b, g, ge));
}

/// Where the pixel under weight `q` at output pixel `o` is stored, if it is one of the image.
spec fn source(ge: Geometry, o: int, q: int) -> Option<int> {
    let (nn, co, y, xo) = place(ge, o);
    let (c, i, j) = spot(ge, q);
    let win = ge.win;
    let r = y * win.stride + i;
    let s = xo * win.stride + j;
    if win.inside(r, s) {
        Some(((nn * ge.cin + c) * win.h + (r - win.padding)) * win.w + (s - win.padding))
    } else {
        None
    }
}

/// The pairs of an output pixel and a weight that read input pixel `k`.
spec fn on_pixel(ge: Geometry, k: int) -> spec_fn(int) -> bool {
    |z: int| source(ge, z / ge.patch(), z % ge.patch()) == Some(k)
}

/// The gradient of the output pixel times the weight.
spec fn weight_part<S: Scalar>(w: Seq<S>, g: Seq<S>, ge: Geometry) -> spec_fn(int) -> S {
    |z: int|
        S::mul_spec(
            g[z / ge.patch()],
            w[place(ge, z / ge.patch()).1 * ge.patch() + z % ge.patch()],
        )
}

/// The place whose window puts offset `i` on row (or column) `r`.
proof fn lemma_reach(r: int, i: int, stride: int, count: int, y: int)
    requires
        stride > 0,
        i >= 0,
        0 <= y < count,
    ensures
        y * stride + i == r <==> reaches(r, i, stride, count) && (r - i) / stride == y,
{
    if y * stride + i == r {
        lemma_join2(y, 0, stride);
        assert(y * stride >= 0) by (nonlinear_arith)
            requires
                y >= 0,
                stride > 0,
        ;
    }
    if reaches(r, i, stride, count) && (r - i) / stride == y {
        vstd::arithmetic::div_mod::lemma_fundamental_div_mod(r - i, stride);
        assert(stride * y == y * stride) by (nonlinear_arith);
    }
}

/// The four coordinates of input pixel `k`.
spec fn home(ge: Geometry, k: int) -> (int, int, int, int) {
    let h = ge.win.h as int;
    let w = ge.win.w as int;
    let cin = ge.cin as int;
    (k / w / h / cin, (k / w / h) % cin, (k / w) % h, k % w)
}

/// A pair reads input pixel `k` just when its coordinates meet there.
proof fn lemma_source(ge: Geometry, o: int, q: int, k: int)
    requires
        0 <= o < ge.output_len(),
        0 <= q < ge.patch(),
        0 <= k < ge.input_len(),
    ensures
        ({
            let (nn, co, y, xo) = place(ge, o);
            let (c, i, j) = spot(ge, q);
            let (n2, c2, ih, iw) = home(ge, k);
            source(ge, o, q) == Some(k) <==> {
                &&& nn == n2
                &&& c == c2
                &&& y * ge.win.stride + i == ih + ge.win.padding
                &&& xo * ge.win.stride + j == iw + ge.win.padding
            }
        }),
{
    let win = ge.win;
    let (nn, co, y, xo) = place(ge, o);
    let (c, i, j) = spot(ge, q);
    lemma_placed(ge, o);
    lemma_spot(ge, q);
    lemma_split4(k, ge.n as int, ge.cin as int, win.h as int, win.w as int);
    let r = y * win.stride + i;
    let s = xo * win.stride + j;
    if win.inside(r, s) {
        let (a, b) = (r - win.padding, s - win.padding);
        lemma_join2((nn * ge.cin + c) * win.h + a, b, win.w as int);
        lemma_index3(nn, ge.n as int, c, ge.cin as int, a, win.h as int);
        lemma_join2(nn * ge.cin + c, a, win.h as int);
        lemma_join2(nn, c, ge.cin as int);
    }
}

/// The gradient of input pixel `k`, as a sum over all pairs of an output pixel and a weight.
proof fn lemma_input_grad<S: Scalar>(w: Seq<S>, g: Seq<S>, ge: Geometry, k: int)
    requires
        exact::<S>(),
        ge.win.stride > 0,
        0 <= k < ge.input_len(),
        ge.patch() >= 0,
        ge.output_len() >= 0,
    ensures
        ({
            let (nn, c, ih, iw) = home(ge, k);
            input_grad(w, g, ge, nn, c, ih, iw) == total(
                (ge.output_len() * ge.patch()) as nat,
                only(on_pixel(ge, k), weight_part(w, g, ge)),
            )
        }),
{
    let p = ge.patch();
    let win = ge.win;
    let (kh, kw) = (win.kh as int, win.kw as int);
    let stride = win.stride as int;
    let (nn, c, ih, iw) = home(ge, k);
    lemma_split4(k, ge.n as int, ge.cin as int, win.h as int, win.w as int);
    let (r, s) = (ih + win.padding, iw + win.padding);
    let len = (ge.cout * win.kh) * win.kw;
    let n = ge.output_len() * p;
    let f = weight_part(w, g, ge);
    let selected = on_pixel(ge, k);
    let on = |u: int|
        reaches(r, (u / kw) % kh, stride, win.oh as int) && reaches(
            s,
            u % kw,
            stride,
            win.ow as int,
        );
    let index = |u: int|
        {
            let (co, i, j) = (u / kw / kh, (u / kw) % kh, u % kw);
            go_index(ge, nn, co, (r - i) / stride, (s - j) / stride) * p + ((c * kh + i) * kw + j)
        };
    let entry = |z: int|
        {
            let (c2, i, j) = spot(ge, z % p);
            (place(ge, z / p).1 * kh + i) * kw + j
        };
    assert(len >= 0) by (nonlinear_arith)
        requires
            len == (ge.cout * win.kh) * win.kw,
    ;
    assert forall|u: int| 0 <= u < len && #[trigger] on(u) implies 0 <= index(u) < n && selected(
        index(u),
    ) && entry(index(u)) == u && index(u) / p == go_index(
        ge,
        nn,
        u / kw / kh,
        (r - (u / kw) % kh) / stride,
        (s - u % kw) / stride,
    ) && index(u) % p == (c * kh + (u / kw) % kh) * kw + u % kw && place(ge, index(u) / p).1 == u
        / kw / kh by {
        lemma_split3(u, ge.cout as int, kh, kw);
        let (co, i, j) = (u / kw / kh, (u / kw) % kh, u % kw);
        let (y, xo) = ((r - i) / stride, (s - j) / stride);
        lemma_quotient(r - i, stride);
        lemma_quotient(s - j, stride);
        lemma_place(ge, nn, co, y, xo);
        let o = go_index(ge, nn, co, y, xo);
        let q = (c * kh + i) * kw + j;
        lemma_index3(c, ge.cin as int, i, kh, j, kw);
        lemma_join2(c * kh + i, j, kw);
        lemma_join2(c, i, kh);
        assert(spot(ge, q) == (c, i, j));
        lemma_index2(o, ge.output_len(), q, p);
        lemma_join2(o, q, p);
        lemma_reach(r, i, stride, win.oh as int, y);
        lemma_reach(s, j, stride, win.ow as int, xo);
        lemma_source(ge, o, q, k);
    }
    assert forall|z: int| 0 <= z < n && #[trigger] selected(z) implies 0 <= entry(z) < len && on(
        entry(z),
    ) && index(entry(z)) == z by {
        lemma_split2(z, ge.output_len(), p);
        let (o, q) = (z / p, z % p);
        lemma_placed(ge, o);
        lemma_spot(ge, q);
        lemma_source(ge, o, q, k);
        let (n2, co, y, xo) = place(ge, o);
        let (c2, i, j) = spot(ge, q);
        lemma_index3(co, ge.cout as int, i, kh, j, kw);
        lemma_join2(co * kh + i, j, kw);
        lemma_join2(co, i, kh);
        lemma_reach(r, i, stride, win.oh as int, y);
        lemma_reach(s, j, stride, win.ow as int, xo);
    }
    lemma_total_match(n as nat, len as nat, index, on, entry, selected, f);
    let step = input_step(w, g, ge, nn, c, r, s);
    let all = only(on, |u: int| f(index(u)));
    assert forall|u: int, acc: S| 0 <= u < len implies #[trigger] step(u, acc) == S::add_spec(
        acc,
        all(u),
    ) by {
        let (co, i, j) = (u / kw / kh, (u / kw) % kh, u % kw);
        let w_val = w[((co * ge.cin + c) * win.kh + i) * win.kw + j];
        let gv = g[go_index(ge, nn, co, (r - i) / stride, (s - j) / stride)];
        lemma_weight_index(ge, co, c, i, j);
        lemma_derived(gv, w_val, acc);
        lemma_derived(w_val, w_val, acc);
        lemma_mul(gv, zero(), zero());
        lemma_add(acc, S::mul_spec(gv, w_val), zero());
        if on(u) {
            assert(all(u) == S::mul_spec(gv, w_val));
        }
    }
    lemma_fold_total(len as nat, step, all);
}

proof fn lemma_quotient(a: int, stride: int)
    requires
        stride > 0,
        a >= 0,
    ensures
        a / stride >= 0,
{
    vstd::arithmetic::div_mod::lemma_div_pos_is_pos(a, stride);
}

/// Two ways to count to a weight.
proof fn lemma_weight_index(ge: Geometry, co: int, c: int, i: int, j: int)
    ensures
        ((co * ge.cin + c) * ge.win.kh + i) * ge.win.kw + j == co * ge.patch() + ((c * ge.win.kh
            + i) * ge.win.kw + j),
{
    let (cin, kh, kw) = (ge.cin as int, ge.win.kh as int, ge.win.kw as int);
    assert(((co * cin + c) * kh + i) * kw + j == co * ((cin * kh) * kw) + ((c * kh + i) * kw + j))
        by (nonlinear_arith);
}

/// The input's gradient weighs what the terms weigh.
proof fn lemma_input_side<S: Scalar>(x: Seq<S>, w: Seq<S>, g: Seq<S>, ge: Geometry, gx: Seq<S>)
    requires
        exact::<S>(),
        ge.win.stride > 0,
        ge.patch() >= 0,
        ge.output_len() >= 0,
        x.len() == ge.input_len(),
        gx.len() == x.len(),
        forall|k: int|
            0 <= k < gx.len() ==> #[trigger] gx[k] == ({
                let (nn, c, ih, iw) = home(ge, k);
                input_grad(w, g, ge, nn, c, ih, iw)
            }),
    ensures
        pairing(gx, x) == total((ge.output_len() * ge.patch()) as nat, term(x, w, g, ge)),
{
    let p = ge.patch();
    let n = ge.output_len() * p;
    let f = term(x, w, g, ge);
    let part = weight_part(w, g, ge);
    assert(n >= 0) by (nonlinear_arith)
        requires
            n == ge.output_len() * p,
            ge.output_len() >= 0,
            p >= 0,
    ;
    let land = |z: int|
        match source(ge, z / p, z % p) {
            Some(k) => k,
            None => 0,
        };
    let val = |z: int|
        if source(ge, z / p, z % p) is Some {
            part(z)
        } else {
            zero()
        };
    assert forall|z: int| 0 <= z < n implies (source(ge, z / p, z % p) matches Some(k) ==> 0 <= k
        < x.len()) && #[trigger] f(z) == S::mul_spec(
        val(z),
        if source(ge, z / p, z % p) is Some {
            x[land(z)]
        } else {
            zero()
        },
    ) by {
        lemma_split2(z, ge.output_len(), p);
        let (o, q) = (z / p, z % p);
        lemma_source_bound(ge, o, q);
        let (a, b, c) = (g[o], w[place(ge, o).1 * p + q], pixel(x, ge, o, q));
        lemma_mul(a, b, c);
        lemma_mul(b, c, zero());
        lemma_mul(a, zero(), zero());
        lemma_mul(zero::<S>(), zero(), zero());
    }
    if x.len() == 0 {
        assert forall|z: int| 0 <= z < n implies #[trigger] f(z) == zero::<S>() by {
            lemma_mul(zero::<S>(), zero(), zero());
        }
        lemma_total_zero(n as nat, f);
    } else {
        let xk = |k: int| x[k];
        assert forall|z: int| 0 <= z < n implies 0 <= #[trigger] land(z) < x.len() by {
            lemma_split2(z, ge.output_len(), p);
            lemma_source_bound(ge, z / p, z % p);
        }
        lemma_scatter(n as nat, x.len(), land, val, xk);
        let landed = |k: int|
            S::mul_spec(
                total(
                    n as nat,
                    |z: int|
                        if land(z) == k {
                            val(z)
                        } else {
                            zero()
                        },
                ),
                xk(k),
            );
        let left = |k: int| S::mul_spec(gx[k], x[k]);
        assert forall|k: int| 0 <= k < x.len() implies #[trigger] landed(k) == left(k) by {
            lemma_input_grad(w, g, ge, k);
            let theirs = |z: int|
                if land(z) == k {
                    val(z)
                } else {
                    zero()
                };
            lemma_total_eq(n as nat, theirs, only(on_pixel(ge, k), part));
            assert(landed(k) == S::mul_spec(total(n as nat, theirs), xk(k)));
        }
        lemma_total_eq(x.len(), landed, left);
        let read = |z: int| S::mul_spec(val(z), xk(land(z)));
        assert forall|z: int| 0 <= z < n implies #[trigger] read(z) == f(z) by {
            assert(f(z) == f(z));
            lemma_mul(xk(land(z)), zero(), zero());
            lemma_mul(zero::<S>(), zero(), zero());
        }
        lemma_total_eq(n as nat, read, f);
    }
}

/// A pixel that is read is stored.
proof fn lemma_source_bound(ge: Geometry, o: int, q: int)
    requires
        0 <= o < ge.output_len(),
        0 <= q < ge.patch(),
    ensures
        source(ge, o, q) matches Some(k) ==> 0 <= k < ge.input_len(),
{
    let win = ge.win;
    let (nn, co, y, xo) = place(ge, o);
    let (c, i, j) = spot(ge, q);
    lemma_placed(ge, o);
    lemma_spot(ge, q);
    let r = y * win.stride + i;
    let s = xo * win.stride + j;
    if win.inside(r, s) {
        lemma_index4(
            nn,
            ge.n as int,
            c,
            ge.cin as int,
            r - win.padding,
            win.h as int,
            s - win.padding,
            win.w as int,
        );
    }
}

/// The gradients of a convolution: with the bias' gradient against the bias, the input's gradient
/// against the input and the weights' gradient against the weights each weigh what the output's
/// gradient weighs against the convolution.
pub proof fn law_conv_adjoint<S: Scalar>(
    x: Value<S>,
    w: Value<S>,
    b: Value<S>,
    g: Value<S>,
    stride: usize,
    padding: usize,
)
    requires
        exact::<S>(),
        conv_fits(x, w, b, g, stride, padding),
    ensures
        ({
            let grads = rule_value(OpType::Conv2d { stride, padding }, seq![x, w, b], g);
            let weight = pairing(g.data, conv_value(x, w, b, stride, padding).data);
            let bias = pairing(grads[2].data, b.data);
            &&& weight == S::add_spec(pairing(grads[0].data, x.data), bias)
            &&& weight == S::add_spec(pairing(grads[1].data, w.data), bias)
        }),
{
    let ge = conv_geometry(x.dims, w.dims, stride, padding);
    let r = conv_backward_value(x, w, g, stride, padding);
    let grads = rule_value(OpType::Conv2d { stride, padding }, seq![x, w, b], g);
    assert(grads[0] == r.0 && grads[1] == r.1 && grads[2] == r.2);
    lemma_sizes(x, w, b, g, stride, padding);
    lemma_bounded_fits(g.dims);
    lemma_weight(x, w, b, g, stride, padding);
    lemma_weight_side(x.data, w.data, g.data, ge, r.1.data);
    lemma_bias_side(b.data, g.data, ge, r.2.data);
    lemma_input_side(x.data, w.data, g.data, ge, r.0.data);
}

} // verus!
