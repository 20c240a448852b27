//! The gradients of pooling, as the other side of it.
use vstd::prelude::*;
use crate::autograd::exact::{
    exact, lemma_add, lemma_derived, lemma_fold_total, lemma_mul, lemma_total_eq, lemma_total_match,
    lemma_total_mul, lemma_total_runs, lemma_total_swap, only, pairing, total,
};
use crate::autograd::rules::rule_value;
use crate::cpu::avgpool::{
    avgpool_backward_value, avgpool_value, covers, lemma_under, offset_on, share_step, window_count,
    window_mean, window_share, window_sum_step,
};
use crate::cpu::batchnorm::lemma_numel4;
use crate::cpu::conv::Window;
use crate::cpu::pool::{
    best_at, best_step, grad_window, maxpool_backward_value, maxpool_value, pool_dims, pool_ok,
    pool_window, route_step, under, Planes,
};
use crate::dense::Value;
use crate::index::{head_numel, lemma_bounded_fits, numel};
use crate::math::{fold, lemma_index2, lemma_join2};
use crate::op::OpType;
use crate::scalar::{zero, Constant, Scalar};

verus! {

/// An image batch, and an output gradient, of one pooling.
pub open spec fn pool_fits<S>(
    x: Value<S>,
    g: Value<S>,
    k: usize,
    stride: usize,
    padding: usize,
) -> bool {
    &&& x.wf()
    &&& g.wf()
    &&& pool_ok(x, k, stride, padding)
    &&& g.dims == pool_dims(x.dims, pool_window(x.dims, k, stride, padding))
}

/// The planes that are pooled.
pub open spec fn pool_planes_of<S>(x: Value<S>, k: usize, stride: usize, padding: usize) -> Planes {
    Planes {
        channels: (x.dims[0] * x.dims[1]) as usize,
        win: pool_window(x.dims, k, stride, padding),
    }
}

proof fn lemma_pool_sizes<S>(x: Value<S>, g: Value<S>, k: usize, stride: usize, padding: usize)
    requires
        pool_fits(x, g, k, stride, padding),
    ensures
        ({
            let pl = pool_planes_of(x, k, stride, padding);
            &&& grad_window(x.dims, g.dims, k, stride, padding) == pl.win
            &&& x.data.len() == pl.channels * pl.input_plane()
            &&& g.data.len() == pl.channels * pl.output_plane()
            &&& numel(g.dims) == pl.channels * pl.output_plane()
            &&& pl.input_plane() >= 0
            &&& pl.output_plane() >= 0
            &&& pl.area() >= 0
        }),
{
    let d = x.dims;
    let pl = pool_planes_of(x, k, stride, padding);
    lemma_numel4(d);
    lemma_numel4(g.dims);
    lemma_bounded_fits(d);
    assert(head_numel(d, 2) <= usize::MAX);
    reveal_with_fuel(head_numel, 3);
    assert(head_numel(d, 2) == d[0] * d[1]) by {
        assert((1 * d[0] as nat) * d[1] as nat == d[0] * d[1]) by (nonlinear_arith);
    }
    assert(pl.input_plane() >= 0 && pl.output_plane() >= 0 && pl.area() >= 0) by (nonlinear_arith)
        requires
            pl.input_plane() == pl.win.h * pl.win.w,
            pl.output_plane() == pl.win.oh * pl.win.ow,
            pl.area() == pl.win.kh * pl.win.kw,
    ;
}

/// A weight that is summed plane by plane, from either side.
proof fn lemma_by_planes<S: Scalar>(
    planes: nat,
    outs: nat,
    ins: nat,
    part: spec_fn(int, int, int) -> S,
    f: spec_fn(int) -> S,
    h: spec_fn(int) -> S,
)
    requires
        exact::<S>(),
        forall|c: int, o: int|
            0 <= c < planes && 0 <= o < outs ==> #[trigger] f(c * outs + o) == total(
                ins,
                |p: int| part(c, o, p),
            ),
        forall|c: int, p: int|
            0 <= c < planes && 0 <= p < ins ==> #[trigger] h(c * ins + p) == total(
                outs,
                |o: int| part(c, o, p),
            ),
    ensures
        total(planes * outs, f) == total(planes * ins, h),
{
    lemma_total_runs(planes, outs, f);
    lemma_total_runs(planes, ins, h);
    let left = |c: int| total(outs, |o: int| f(c * outs + o));
    let right = |c: int| total(ins, |p: int| h(c * ins + p));
    assert forall|c: int| 0 <= c < planes implies #[trigger] left(c) == right(c) by {
        let cell = |o: int, p: int| part(c, o, p);
        lemma_total_swap(outs, ins, cell);
        let by_o = |o: int| total(ins, |p: int| cell(o, p));
        let by_p = |p: int| total(outs, |o: int| cell(o, p));
        assert forall|o: int| 0 <= o < outs implies #[trigger] by_o(o) == f(c * outs + o) by {
            lemma_total_eq(ins, |p: int| cell(o, p), |p: int| part(c, o, p));
        }
        assert forall|p: int| 0 <= p < ins implies #[trigger] by_p(p) == h(c * ins + p) by {
            lemma_total_eq(outs, |o: int| cell(o, p), |o: int| part(c, o, p));
        }
        lemma_total_eq(outs, by_o, |o: int| f(c * outs + o));
        lemma_total_eq(ins, by_p, |p: int| h(c * ins + p));
    }
    lemma_total_eq(planes, left, right);
}

/// The pixels under the window at place `o`.
spec fn covered(win: Window, o: int) -> spec_fn(int) -> bool {
    |p: int| covers(win, o, p)
}

/// The sum of the pixels under a window, as a sum over the plane.
proof fn lemma_window_total<S: Scalar>(x: Seq<S>, pl: Planes, nc: int, o: int)
    requires
        exact::<S>(),
        pl.input_plane() >= 0,
        pl.area() >= 0,
    ensures
        fold(pl.area() as nat, zero(), window_sum_step(x, pl, nc, o)) == total(
            pl.input_plane() as nat,
            only(covered(pl.win, o), |p: int| x[nc * pl.input_plane() + p]),
        ),
{
    let win = pl.win;
    let n = pl.input_plane() as nat;
    let len = pl.area() as nat;
    let f = |p: int| x[nc * pl.input_plane() + p];
    let (y, xo) = (o / win.ow as int, o % win.ow as int);
    let on = |q: int| under(win, y, xo, q) is Some;
    let index = |q: int| under(win, y, xo, q)->0;
    let entry = |p: int| offset_on(win, o, p);
    let selected = covered(win, o);
    assert forall|q: int| 0 <= q < len && #[trigger] on(q) implies 0 <= index(q) < n && selected(
        index(q),
    ) && entry(index(q)) == q by {
        let r = y * win.stride + q / win.kw as int;
        let s = xo * win.stride + q % win.kw as int;
        lemma_index2(r - win.padding, win.h as int, s - win.padding, win.w as int);
        lemma_under(win, o, q, index(q));
    }
    assert forall|p: int| 0 <= p < n && #[trigger] selected(p) implies 0 <= entry(p) < len && on(
        entry(p),
    ) && index(entry(p)) == p by {
        let r = p / win.w as int + win.padding;
        let s = p % win.w as int + win.padding;
        lemma_index2(r - y * win.stride, win.kh as int, s - xo * win.stride, win.kw as int);
        lemma_under(win, o, entry(p), p);
    }
    lemma_total_match(n, len, index, on, entry, selected, f);
    let step = window_sum_step(x, pl, nc, o);
    let all = only(on, |q: int| f(index(q)));
    assert forall|q: int, acc: S| 0 <= q < len implies #[trigger] step(q, acc) == S::add_spec(
        acc,
        all(q),
    ) by {
        lemma_add(acc, zero(), zero());
    }
    lemma_fold_total(len, step, all);
}

/// What one pixel weighs at one place of an average pooling.
spec fn mean_part<S: Scalar>(x: Seq<S>, g: Seq<S>, pl: Planes) -> spec_fn(int, int, int) -> S {
    |c: int, o: int, p: int|
        if covers(pl.win, o, p) {
            S::mul_spec(window_share(g, pl, c, o), x[c * pl.input_plane() + p])
        } else {
            zero()
        }
}

/// The gradient of average pooling.
pub proof fn law_avgpool_adjoint<S: Scalar>(
    x: Value<S>,
    g: Value<S>,
    kernel_size: usize,
    stride: usize,
    padding: usize,
)
    requires
        exact::<S>(),
        pool_fits(x, g, kernel_size, stride, padding),
    ensures
        pairing(g.data, avgpool_value(x, kernel_size, stride, padding).data) == pairing(
            rule_value(OpType::AvgPool2d { kernel_size, stride, padding }, seq![x], g)[0].data,
            x.data,
        ),
{
    let pl = pool_planes_of(x, kernel_size, stride, padding);
    lemma_pool_sizes(x, g, kernel_size, stride, padding);
    let y = avgpool_value(x, kernel_size, stride, padding);
    let grad = avgpool_backward_value(x, g, kernel_size, stride, padding);
    assert(rule_value(OpType::AvgPool2d { kernel_size, stride, padding }, seq![x], g)[0] == grad);
    let (planes, outs, ins) = (
        pl.channels as nat,
        pl.output_plane() as nat,
        pl.input_plane() as nat,
    );
    let f = |i: int| S::mul_spec(g.data[i], y.data[i]);
    let h = |i: int| S::mul_spec(grad.data[i], x.data[i]);
    let part = mean_part(x.data, g.data, pl);
    assert forall|c: int, o: int| 0 <= c < planes && 0 <= o < outs implies #[trigger] f(
        c * outs + o,
    ) == total(ins, |p: int| part(c, o, p)) by {
        lemma_index2(c, planes as int, o, outs as int);
        lemma_join2(c, o, outs as int);
        lemma_window_total(x.data, pl, c, o);
        let gi = g.data[c * outs + o];
        let n = S::count_spec(window_count(pl, o) as usize);
        let xs = only(covered(pl.win, o), |p: int| x.data[c * pl.input_plane() + p]);
        let sum = total(ins, xs);
        let one_over = S::div_spec(crate::scalar::one(), n);
        let share = window_share(g.data, pl, c, o);
        lemma_derived(sum, n, zero());
        lemma_derived(gi, n, zero());
        lemma_mul(gi, sum, one_over);
        lemma_mul(sum, one_over, zero());
        lemma_mul(gi, one_over, sum);
        assert(y.data[c * outs + o] == window_mean(x.data, pl, c, o));
        assert(f(c * outs + o) == S::mul_spec(share, sum));
        lemma_total_mul(ins, share, xs);
        let scaled = |p: int| S::mul_spec(share, xs(p));
        let want = |p: int| part(c, o, p);
        assert forall|p: int| 0 <= p < ins implies #[trigger] scaled(p) == want(p) by {
            lemma_mul(share, zero(), zero());
        }
        lemma_total_eq(ins, scaled, want);
    }
    assert forall|c: int, p: int| 0 <= c < planes && 0 <= p < ins implies #[trigger] h(
        c * ins + p,
    ) == total(outs, |o: int| part(c, o, p)) by {
        lemma_index2(c, planes as int, p, ins as int);
        lemma_join2(c, p, ins as int);
        let xi = x.data[c * ins + p];
        let step = share_step(g.data, pl, c, p);
        let shares = |o: int|
            if covers(pl.win, o, p) {
                window_share(g.data, pl, c, o)
            } else {
                zero()
            };
        assert forall|o: int, acc: S| 0 <= o < outs implies #[trigger] step(o, acc) == S::add_spec(
            acc,
            shares(o),
        ) by {
            lemma_add(acc, zero(), zero());
        }
        lemma_fold_total(outs, step, shares);
        assert(grad.data[c * ins + p] == total(outs, shares));
        lemma_mul(total(outs, shares), xi, zero());
        lemma_total_mul(outs, xi, shares);
        let scaled = |o: int| S::mul_spec(xi, shares(o));
        let want = |o: int| part(c, o, p);
        assert forall|o: int| 0 <= o < outs implies #[trigger] scaled(o) == want(o) by {
            lemma_mul(xi, shares(o), zero());
        }
        lemma_total_eq(outs, scaled, want);
    }
    lemma_by_planes(planes, outs, ins, part, f, h);
}

/// The largest pixel is the one at its place.
proof fn lemma_best<S: Scalar>(x: Seq<S>, pl: Planes, nc: int, o: int, n: nat)
    requires
        n <= pl.area(),
    ensures
        ({
            let best = fold(
                n,
                (S::constant_spec(Constant::NegInfinity), None::<int>),
                best_step(x, pl, nc, o),
            );
            best.1 matches Some(p) ==> {
                &&& best.0 == x[nc * pl.input_plane() + p]
                &&& 0 <= p < pl.input_plane()
            }
        }),
    decreases n,
{
    if n > 0 {
        lemma_best(x, pl, nc, o, (n - 1) as nat);
        let win = pl.win;
        let q = n - 1;
        let (y, xo) = (o / win.ow as int, o % win.ow as int);
        let r = y * win.stride + q / win.kw as int;
        let s = xo * win.stride + q % win.kw as int;
        if win.inside(r, s) {
            lemma_index2(r - win.padding, win.h as int, s - win.padding, win.w as int);
        }
    }
}

/// What one pixel weighs at one place of a max pooling.
spec fn best_part<S: Scalar>(x: Seq<S>, g: Seq<S>, pl: Planes) -> spec_fn(int, int, int) -> S {
    |c: int, o: int, p: int|
        if best_at(x, pl, c, o).1 == Some(p) {
            S::mul_spec(g[c * pl.output_plane() + o], x[c * pl.input_plane() + p])
        } else {
            zero()
        }
}

/// The gradient of max pooling, where every window has a largest pixel.
pub proof fn law_maxpool_adjoint<S: Scalar>(
    x: Value<S>,
    g: Value<S>,
    kernel_size: usize,
    stride: usize,
    padding: usize,
)
    requires
        exact::<S>(),
        pool_fits(x, g, kernel_size, stride, padding),
        ({
            let pl = pool_planes_of(x, kernel_size, stride, padding);
            forall|c: int, o: int|
                0 <= c < pl.channels && 0 <= o < pl.output_plane() ==> (#[trigger] best_at(
                    x.data,
                    pl,
                    c,
                    o,
                )).1 is Some
        }),
    ensures
        pairing(g.data, maxpool_value(x, kernel_size, stride, padding).data) == pairing(
            rule_value(OpType::MaxPool2d { kernel_size, stride, padding }, seq![x], g)[0].data,
            x.data,
        ),
{
    let pl = pool_planes_of(x, kernel_size, stride, padding);
    lemma_pool_sizes(x, g, kernel_size, stride, padding);
    let y = maxpool_value(x, kernel_size, stride, padding);
    let grad = maxpool_backward_value(x, g, kernel_size, stride, padding);
    assert(rule_value(OpType::MaxPool2d { kernel_size, stride, padding }, seq![x], g)[0] == grad);
    let (planes, outs, ins) = (
        pl.channels as nat,
        pl.output_plane() as nat,
        pl.input_plane() as nat,
    );
    let f = |i: int| S::mul_spec(g.data[i], y.data[i]);
    let h = |i: int| S::mul_spec(grad.data[i], x.data[i]);
    let part = best_part(x.data, g.data, pl);
    assert forall|c: int, o: int| 0 <= c < planes && 0 <= o < outs implies #[trigger] f(
        c * outs + o,
    ) == total(ins, |p: int| part(c, o, p)) by {
        lemma_index2(c, planes as int, o, outs as int);
        lemma_join2(c, o, outs as int);
        lemma_best(x.data, pl, c, o, pl.area() as nat);
        let p = best_at(x.data, pl, c, o).1->0;
        let want = |p: int| part(c, o, p);
        crate::autograd::exact::lemma_total_pick(ins, p, want);
    }
    assert forall|c: int, p: int| 0 <= c < planes && 0 <= p < ins implies #[trigger] h(
        c * ins + p,
    ) == total(outs, |o: int| part(c, o, p)) by {
        lemma_index2(c, planes as int, p, ins as int);
        lemma_join2(c, p, ins as int);
        let xi = x.data[c * ins + p];
        let step = route_step(x.data, g.data, pl, c, p);
        let taken = |o: int|
            if best_at(x.data, pl, c, o).1 == Some(p) {
                g.data[c * pl.output_plane() + o]
            } else {
                zero()
            };
        assert forall|o: int, acc: S| 0 <= o < outs implies #[trigger] step(o, acc) == S::add_spec(
            acc,
            taken(o),
        ) by {
            lemma_add(acc, zero(), zero());
        }
        lemma_fold_total(outs, step, taken);
        assert(grad.data[c * ins + p] == total(outs, taken));
        lemma_mul(total(outs, taken), xi, zero());
        lemma_total_mul(outs, xi, taken);
        let scaled = |o: int| S::mul_spec(xi, taken(o));
        let want = |o: int| part(c, o, p);
        assert forall|o: int| 0 <= o < outs implies #[trigger] scaled(o) == want(o) by {
            lemma_mul(xi, taken(o), zero());
        }
        lemma_total_eq(outs, scaled, want);
    }
    lemma_by_planes(planes, outs, ins, part, f, h);
}

} // verus!
