//! What the weights of softmax, cross entropy and attention are on fixed-point numbers.
use vstd::prelude::*;
use crate::cpu::attention::Attention;
use crate::cpu::loss::{
    class_of, cross_entropy_ok, cross_entropy_value, log_softmax_at, loss_step,
};
use crate::cpu::reduce::{
    exp_step, inner, lemma_line_index, lemma_line_injective, lemma_line_of, line_at, line_exp, line_exp_sum, line_index,
    line_max, line_sum, max_step, outer, softmax_value, sum_step,
};
use crate::dense::Value;
use crate::fixed::{
    law_exp_order, law_exp_range, law_exp_vanishes, law_ln_bounds, law_ln_order, Fixed,
};
use crate::index::lemma_dims1;
use crate::math::{fold, lemma_fold_eq};
use crate::scalar::{zero, Scalar};

verus! {

/// Of a fold that keeps the larger value, no step is above the result, and some step attains it.
proof fn lemma_fold_max(n: nat, f: spec_fn(int, Fixed) -> Fixed, v: spec_fn(int) -> Fixed)
    requires
        forall|k: int, acc: Fixed|
            0 <= k < n ==> #[trigger] f(k, acc) == if v(k).raw > acc.raw {
                v(k)
            } else {
                acc
            },
    ensures
        ({
            let m = fold(n, Fixed { raw: i32::MIN }, f);
            &&& forall|k: int| 0 <= k < n ==> (#[trigger] v(k)).raw <= m.raw
            &&& n > 0 ==> exists|k: int| 0 <= k < n && #[trigger] v(k) == m
        }),
    decreases n,
{
    if n > 0 {
        let low = Fixed { raw: i32::MIN };
        lemma_fold_max((n - 1) as nat, f, v);
        let m = fold((n - 1) as nat, low, f);
        assert(fold(n, low, f) == f(n - 1, m));
        if v(n - 1).raw > m.raw {
            assert(v(n - 1) == fold(n, low, f));
        } else if n == 1 {
            assert(m == low);
            assert(v(0) == m);
        } else {
            let k = choose|k: int| 0 <= k < n - 1 && #[trigger] v(k) == m;
            assert(v(k) == fold(n, low, f));
        }
    }
}

/// Of a fold that adds up what is not negative, no step is above the result.
proof fn lemma_fold_add(n: nat, f: spec_fn(int, Fixed) -> Fixed, v: spec_fn(int) -> Fixed)
    requires
        forall|k: int, acc: Fixed| 0 <= k < n ==> #[trigger] f(k, acc) == acc.plus(v(k)),
        forall|k: int| 0 <= k < n ==> 0 <= (#[trigger] v(k)).raw,
    ensures
        ({
            let s = fold(n, Fixed { raw: 0 }, f);
            &&& 0 <= s.raw
            &&& forall|k: int| 0 <= k < n ==> (#[trigger] v(k)).raw <= s.raw
        }),
    decreases n,
{
    if n > 0 {
        lemma_fold_add((n - 1) as nat, f, v);
        let s = fold((n - 1) as nat, Fixed { raw: 0 }, f);
        assert(fold(n, Fixed { raw: 0 }, f) == s.plus(v(n - 1)));
    }
}

/// The largest entry of a line is an entry, and no entry is above it.
pub proof fn law_line_max(x: Value<Fixed>, dim: int, p: int)
    requires
        0 <= dim < x.dims.len(),
    ensures
        forall|k: int|
            0 <= k < x.dims[dim] ==> (#[trigger] line_at(x, dim, p, k)).raw <= line_max(
                x,
                dim,
                p,
            ).raw,
        x.dims[dim] > 0 ==> exists|k: int|
            0 <= k < x.dims[dim] && #[trigger] line_at(x, dim, p, k) == line_max(x, dim, p),
{
    let v = |k: int| line_at(x, dim, p, k);
    lemma_fold_max(x.dims[dim] as nat, max_step(x, dim, p), v);
    assert forall|k: int| 0 <= k < x.dims[dim] implies (#[trigger] line_at(x, dim, p, k)).raw
        <= line_max(x, dim, p).raw by {
        assert(v(k) == line_at(x, dim, p, k));
    }
    if x.dims[dim] > 0 {
        let k = choose|k: int| 0 <= k < x.dims[dim] && #[trigger] v(k) == line_max(x, dim, p);
        assert(line_at(x, dim, p, k) == line_max(x, dim, p));
    }
}

/// The shifted exponentials of a line lie between 0 and 1 and none is above their sum, which is
/// at least 1.
pub proof fn law_line_exp(x: Value<Fixed>, dim: int, p: int)
    requires
        0 <= dim < x.dims.len(),
    ensures
        forall|k: int|
            0 <= k < x.dims[dim] ==> 0 <= (#[trigger] line_exp(x, dim, p, k)).raw <= 65536
                && line_exp(x, dim, p, k).raw <= line_exp_sum(x, dim, p).raw,
        x.dims[dim] > 0 ==> line_exp_sum(x, dim, p).raw >= 65536,
{
    let v = |k: int| line_exp(x, dim, p, k);
    let m = line_max(x, dim, p);
    law_line_max(x, dim, p);
    assert forall|k: int| 0 <= k < x.dims[dim] implies 0 <= (#[trigger] v(k)).raw <= 65536 by {
        assert(line_at(x, dim, p, k).raw <= m.raw);
        law_exp_range(line_at(x, dim, p, k).minus(m));
    }
    lemma_fold_add(x.dims[dim] as nat, exp_step(x, dim, p), v);
    assert forall|k: int| 0 <= k < x.dims[dim] implies 0 <= (#[trigger] line_exp(x, dim, p, k)).raw
        <= 65536 && line_exp(x, dim, p, k).raw <= line_exp_sum(x, dim, p).raw by {
        assert(v(k) == line_exp(x, dim, p, k));
    }
    if x.dims[dim] > 0 {
        let k = choose|k: int| 0 <= k < x.dims[dim] && #[trigger] line_at(x, dim, p, k) == m;
        law_exp_range(line_at(x, dim, p, k).minus(m));
        assert(v(k).raw == 65536);
    }
}

/// A part of a sum, as a fraction of it, lies between 0 and 1, and a larger part is the larger
/// fraction.
proof fn lemma_fraction(a: Fixed, b: Fixed, s: Fixed)
    requires
        0 <= a.raw <= b.raw <= s.raw,
        s.raw > 0,
    ensures
        0 <= a.over(s).raw <= b.over(s).raw <= 65536,
        a.raw == 0 ==> a.over(s).raw == 0,
        a.over(s).raw * s.raw <= a.raw * 65536,
        a.raw * 65536 < a.over(s).raw * s.raw + s.raw,
{
    let d = s.raw as int;
    let x = a.raw * 65536;
    let y = b.raw * 65536;
    assert(0 <= x / d <= y / d <= 65536) by (nonlinear_arith)
        requires
            0 <= x <= y <= d * 65536,
            d > 0,
    ;
    assert(x / d * d <= x && x < x / d * d + d) by (nonlinear_arith)
        requires
            0 <= x,
            d > 0,
    ;
}

/// Entry `k` of line `p` of a softmax.
pub proof fn law_softmax_entry<S: Scalar>(x: Value<S>, dim: int, p: int, k: int)
    requires
        x.wf(),
        0 <= dim < x.dims.len(),
        0 <= p < outer(x.dims, dim) * inner(x.dims, dim),
        0 <= k < x.dims[dim],
    ensures
        line_at(softmax_value(x, dim), dim, p, k) == S::div_spec(
            line_exp(x, dim, p, k),
            line_exp_sum(x, dim, p),
        ),
{
    let d = x.dims;
    let i = line_index(d, dim, p, k);
    lemma_line_index(d, dim, p, k);
    lemma_line_of(d, dim, i);
    let n = inner(d, dim);
    let len = d[dim] as int;
    lemma_line_injective(d, dim, p, k, (i / n / len) * n + i % n, (i / n) % len);
}

/// The entries of a softmax lie between 0 and 1, in the order of the entries that they come from.
pub proof fn law_softmax_order(x: Value<Fixed>, dim: int, p: int, j: int, k: int)
    requires
        x.wf(),
        0 <= dim < x.dims.len(),
        0 <= p < outer(x.dims, dim) * inner(x.dims, dim),
        0 <= j < x.dims[dim],
        0 <= k < x.dims[dim],
        line_at(x, dim, p, j).raw <= line_at(x, dim, p, k).raw,
    ensures
        0 <= line_at(softmax_value(x, dim), dim, p, j).raw <= line_at(
            softmax_value(x, dim),
            dim,
            p,
            k,
        ).raw <= 65536,
{
    law_softmax_entry(x, dim, p, j);
    law_softmax_entry(x, dim, p, k);
    law_line_exp(x, dim, p);
    let m = line_max(x, dim, p);
    law_exp_order(line_at(x, dim, p, j).minus(m), line_at(x, dim, p, k).minus(m));
    assert(line_exp(x, dim, p, j).raw <= line_exp(x, dim, p, k).raw);
    assert(line_exp(x, dim, p, k).raw <= line_exp_sum(x, dim, p).raw);
    lemma_fraction(
        line_exp(x, dim, p, j),
        line_exp(x, dim, p, k),
        line_exp_sum(x, dim, p),
    );
}

/// An entry that lies 12 or more below another one of its line gets no weight.
pub proof fn law_softmax_hidden(x: Value<Fixed>, dim: int, p: int, j: int, k: int)
    requires
        x.wf(),
        0 <= dim < x.dims.len(),
        0 <= p < outer(x.dims, dim) * inner(x.dims, dim),
        0 <= j < x.dims[dim],
        0 <= k < x.dims[dim],
        line_at(x, dim, p, j).raw + 786432 <= line_at(x, dim, p, k).raw,
    ensures
        line_at(softmax_value(x, dim), dim, p, j).raw == 0,
{
    law_softmax_entry(x, dim, p, j);
    law_line_exp(x, dim, p);
    law_line_max(x, dim, p);
    let m = line_max(x, dim, p);
    assert(line_at(x, dim, p, k).raw <= m.raw);
    law_exp_vanishes(line_at(x, dim, p, j).minus(m));
    assert(line_exp(x, dim, p, j).raw == 0);
    lemma_fraction(
        line_exp(x, dim, p, j),
        line_exp(x, dim, p, j),
        line_exp_sum(x, dim, p),
    );
}

/// Folds of larger values whose start lies as much higher end as much higher.
proof fn lemma_max_shift(
    n: nat,
    f: spec_fn(int, Fixed) -> Fixed,
    g: spec_fn(int, Fixed) -> Fixed,
    v: spec_fn(int) -> Fixed,
    w: spec_fn(int) -> Fixed,
    c: int,
)
    requires
        n > 0,
        forall|k: int, acc: Fixed|
            0 <= k < n ==> #[trigger] f(k, acc) == if v(k).raw > acc.raw {
                v(k)
            } else {
                acc
            },
        forall|k: int, acc: Fixed|
            0 <= k < n ==> #[trigger] g(k, acc) == if w(k).raw > acc.raw {
                w(k)
            } else {
                acc
            },
        forall|k: int| 0 <= k < n ==> (#[trigger] w(k)).raw == v(k).raw + c,
    ensures
        fold(n, Fixed { raw: i32::MIN }, g).raw == fold(n, Fixed { raw: i32::MIN }, f).raw + c,
{
    let low = Fixed { raw: i32::MIN };
    lemma_fold_max(n, f, v);
    lemma_fold_max(n, g, w);
    let a = choose|k: int| 0 <= k < n && #[trigger] v(k) == fold(n, low, f);
    let b = choose|k: int| 0 <= k < n && #[trigger] w(k) == fold(n, low, g);
    assert(w(a).raw == v(a).raw + c);
    assert(w(b).raw == v(b).raw + c);
}

/// Adding one number to every entry of a line leaves the line's softmax as it is, bit for bit, as
/// long as no entry leaves the range of the numbers.
pub proof fn law_softmax_shift(x: Value<Fixed>, y: Value<Fixed>, dim: int, p: int, c: int)
    requires
        x.wf(),
        y.wf(),
        x.dims == y.dims,
        0 <= dim < x.dims.len(),
        0 <= p < outer(x.dims, dim) * inner(x.dims, dim),
        forall|k: int|
            0 <= k < x.dims[dim] ==> (#[trigger] line_at(y, dim, p, k)).raw == line_at(
                x,
                dim,
                p,
                k,
            ).raw + c,
    ensures
        forall|k: int|
            0 <= k < x.dims[dim] ==> #[trigger] line_at(softmax_value(y, dim), dim, p, k)
                == line_at(softmax_value(x, dim), dim, p, k),
{
    let n = x.dims[dim] as nat;
    if n > 0 {
        let v = |k: int| line_at(x, dim, p, k);
        let w = |k: int| line_at(y, dim, p, k);
        assert forall|k: int| 0 <= k < n implies (#[trigger] w(k)).raw == v(k).raw + c by {
            assert(w(k) == line_at(y, dim, p, k));
        }
        lemma_max_shift(n, max_step(x, dim, p), max_step(y, dim, p), v, w, c);
        assert forall|k: int| 0 <= k < n implies #[trigger] line_exp(y, dim, p, k) == line_exp(
            x,
            dim,
            p,
            k,
        ) by {
            assert(w(k).raw == v(k).raw + c);
            assert(line_at(y, dim, p, k).minus(line_max(y, dim, p)) == line_at(
                x,
                dim,
                p,
                k,
            ).minus(line_max(x, dim, p)));
        }
        let f = exp_step(x, dim, p);
        let g = exp_step(y, dim, p);
        assert forall|k: int, acc: Fixed| 0 <= k < n implies #[trigger] g(k, acc) == f(k, acc) by {
            assert(line_exp(y, dim, p, k) == line_exp(x, dim, p, k));
        }
        lemma_fold_eq(n, zero::<Fixed>(), g, f);
        assert forall|k: int| 0 <= k < x.dims[dim] implies #[trigger] line_at(
            softmax_value(y, dim),
            dim,
            p,
            k,
        ) == line_at(softmax_value(x, dim), dim, p, k) by {
            law_softmax_entry(x, dim, p, k);
            law_softmax_entry(y, dim, p, k);
            assert(line_exp(y, dim, p, k) == line_exp(x, dim, p, k));
        }
    }
}

/// The fractions that the first `n` parts are of a sum, added up: short of the fraction that the
/// parts are together by less than one step each.
proof fn lemma_fractions_sum(
    n: nat,
    f: spec_fn(int, Fixed) -> Fixed,
    v: spec_fn(int) -> Fixed,
    g: spec_fn(int, Fixed) -> Fixed,
    s: Fixed,
)
    requires
        n <= 32767,
        0 < s.raw,
        forall|k: int, acc: Fixed| 0 <= k < n ==> #[trigger] f(k, acc) == acc.plus(v(k)),
        forall|k: int, acc: Fixed| 0 <= k < n ==> #[trigger] g(k, acc) == acc.plus(v(k).over(s)),
        forall|k: int| 0 <= k < n ==> 0 <= (#[trigger] v(k)).raw <= 65536 && v(k).raw <= s.raw,
    ensures
        ({
            let e = fold(n, Fixed { raw: 0 }, f).raw;
            let r = fold(n, Fixed { raw: 0 }, g).raw;
            &&& 0 <= e <= n * 65536
            &&& 0 <= r <= n * 65536
            &&& r * s.raw <= e * 65536 <= r * s.raw + n * s.raw
        }),
    decreases n,
{
    if n > 0 {
        lemma_fractions_sum((n - 1) as nat, f, v, g, s);
        let e0 = fold((n - 1) as nat, Fixed { raw: 0 }, f);
        let r0 = fold((n - 1) as nat, Fixed { raw: 0 }, g);
        let a = v(n - 1);
        lemma_fraction(a, a, s);
        assert(fold(n, Fixed { raw: 0 }, f) == e0.plus(a));
        assert(fold(n, Fixed { raw: 0 }, g) == r0.plus(a.over(s)));
        let d = s.raw as int;
        let x = r0.raw as int;
        let y = a.over(s).raw as int;
        let m = n as int;
        assert((x + y) * d == x * d + y * d) by (nonlinear_arith);
        assert((m - 1) * d + d == m * d) by (nonlinear_arith);
    } else {
        assert(0 * s.raw == 0);
    }
}

/// The entries of a softmax line add up to 1, but for at most one step per entry, in a line short
/// enough for its sum to be a number.
pub proof fn law_softmax_sum(x: Value<Fixed>, dim: int, p: int)
    requires
        x.wf(),
        0 <= dim < x.dims.len(),
        0 <= p < outer(x.dims, dim) * inner(x.dims, dim),
        0 < x.dims[dim] <= 32767,
    ensures
        65536 - x.dims[dim] <= line_sum(softmax_value(x, dim), dim, p).raw <= 65536,
{
    let n = x.dims[dim] as nat;
    let y = softmax_value(x, dim);
    let s = line_exp_sum(x, dim, p);
    let v = |k: int| line_exp(x, dim, p, k);
    law_line_exp(x, dim, p);
    assert forall|k: int| 0 <= k < n implies 0 <= (#[trigger] v(k)).raw <= 65536 && v(k).raw
        <= s.raw by {
        assert(v(k) == line_exp(x, dim, p, k));
    }
    let g = sum_step(y, dim, p);
    assert forall|k: int, acc: Fixed| 0 <= k < n implies #[trigger] g(k, acc) == acc.plus(
        v(k).over(s),
    ) by {
        law_softmax_entry(x, dim, p, k);
    }
    lemma_fractions_sum(n, exp_step(x, dim, p), v, g, s);
    let r = line_sum(y, dim, p).raw as int;
    let d = s.raw as int;
    let m = n as int;
    assert(r <= 65536 && 65536 <= r + m) by (nonlinear_arith)
        requires
            r * d <= d * 65536,
            d * 65536 <= r * d + m * d,
            d > 0,
    ;
}

/// The loss of a row is never negative, and 0 where every other logit lies 12 or more below the
/// target's.
pub proof fn law_row_loss(logits: Value<Fixed>, targets: Value<Fixed>, b: int)
    requires
        logits.wf(),
        targets.wf(),
        cross_entropy_ok(logits, targets),
        0 <= b < logits.dims[0],
    ensures
        log_softmax_at(logits, targets, b).raw <= 0,
        (forall|c: int|
            0 <= c < logits.dims[1] && c != class_of(targets.data[b]) ==> (#[trigger] line_at(
                logits,
                1,
                b,
                c,
            )).raw + 786432 <= line_at(logits, 1, b, class_of(targets.data[b])).raw)
            ==> log_softmax_at(logits, targets, b).raw == 0,
{
    lemma_dims1(logits.dims[0]);
    assert(class_of(targets.data[b]) < logits.dims[1]);
    let t = class_of(targets.data[b]) as int;
    let n = logits.dims[1] as nat;
    let s = line_exp_sum(logits, 1, b);
    let m = line_max(logits, 1, b);
    law_line_max(logits, 1, b);
    law_line_exp(logits, 1, b);
    law_ln_bounds(s);
    law_ln_order(Fixed { raw: 65536 }, s);
    law_ln_bounds(Fixed { raw: 65536 });
    if forall|c: int|
        0 <= c < n && c != t ==> (#[trigger] line_at(logits, 1, b, c)).raw + 786432 <= line_at(
            logits,
            1,
            b,
            t,
        ).raw {
        let k = choose|k: int| 0 <= k < n && #[trigger] line_at(logits, 1, b, k) == m;
        assert(k == t);
        let v = |c: int| line_exp(logits, 1, b, c);
        assert forall|c: int| 0 <= c < n implies (#[trigger] v(c)).raw == if c == t {
            65536int
        } else {
            0
        } by {
            if c == t {
                law_exp_range(line_at(logits, 1, b, c).minus(m));
            } else {
                law_exp_vanishes(line_at(logits, 1, b, c).minus(m));
            }
        }
        lemma_single(n, exp_step(logits, 1, b), v, t);
        assert(s == (Fixed { raw: 65536 }));
    }
}

/// A sum with one term.
proof fn lemma_single(n: nat, f: spec_fn(int, Fixed) -> Fixed, v: spec_fn(int) -> Fixed, t: int)
    requires
        0 <= t,
        forall|k: int, acc: Fixed| 0 <= k < n ==> #[trigger] f(k, acc) == acc.plus(v(k)),
        forall|k: int|
            0 <= k < n ==> (#[trigger] v(k)).raw == if k == t {
                65536int
            } else {
                0
            },
    ensures
        fold(n, Fixed { raw: 0 }, f).raw == if t < n {
            65536int
        } else {
            0
        },
    decreases n,
{
    if n > 0 {
        lemma_single((n - 1) as nat, f, v, t);
        let s = fold((n - 1) as nat, Fixed { raw: 0 }, f);
        assert(fold(n, Fixed { raw: 0 }, f) == s.plus(v(n - 1)));
    }
}

/// Taking away what is not positive, from what is not negative.
proof fn lemma_losses(n: nat, logits: Value<Fixed>, targets: Value<Fixed>)
    requires
        logits.wf(),
        targets.wf(),
        cross_entropy_ok(logits, targets),
        n <= logits.dims[0],
    ensures
        fold(n, zero::<Fixed>(), loss_step(logits, targets)).raw >= 0,
        (forall|b: int| 0 <= b < n ==> (#[trigger] log_softmax_at(logits, targets, b)).raw == 0)
            ==> fold(n, zero::<Fixed>(), loss_step(logits, targets)).raw == 0,
    decreases n,
{
    if n > 0 {
        lemma_losses((n - 1) as nat, logits, targets);
        law_row_loss(logits, targets, n - 1);
    }
}

/// The target's logit of each row lies 12 or more above the others.
pub open spec fn certain(logits: Value<Fixed>, targets: Value<Fixed>) -> bool {
    forall|b: int, c: int|
        0 <= b < logits.dims[0] && 0 <= c < logits.dims[1] && c != class_of(targets.data[b]) ==> (
        #[trigger] line_at(logits, 1, b, c)).raw + 786432 <= line_at(
            logits,
            1,
            b,
            class_of(targets.data[b]),
        ).raw
}

/// The cross entropy is never negative, and 0 for logits that are certain of the targets, however
/// large they are.
pub proof fn law_cross_entropy_stable(logits: Value<Fixed>, targets: Value<Fixed>)
    requires
        logits.wf(),
        targets.wf(),
        cross_entropy_ok(logits, targets),
    ensures
        cross_entropy_value(logits, targets).data[0].raw >= 0,
        certain(logits, targets) ==> cross_entropy_value(logits, targets).data[0].raw == 0,
{
    let n = logits.dims[0] as nat;
    lemma_losses(n, logits, targets);
    let total = fold(n, zero::<Fixed>(), loss_step(logits, targets));
    let k = Fixed::count_spec(logits.dims[0]);
    let x = total.raw * 65536;
    let d = k.raw as int;
    assert(0 <= x / d) by (nonlinear_arith)
        requires
            0 <= x,
            d > 0,
    ;
    if certain(logits, targets) {
        assert forall|b: int| 0 <= b < n implies (#[trigger] log_softmax_at(
            logits,
            targets,
            b,
        )).raw == 0 by {
            law_row_loss(logits, targets, b);
        }
        assert(0int / d == 0) by (nonlinear_arith)
            requires
                d > 0,
        ;
    }
}

/// The weight that attention gives a key lies between 0 and 1, and it is 0 for a key whose score
/// lies 12 or more below that of another key, as that of a masked key does.
pub proof fn law_attention_weight(a: Attention<Fixed>, g: int, i: int, j: int, k: int)
    requires
        0 <= j < a.hd.s,
        0 <= k < a.hd.s,
    ensures
        0 <= a.prob(g, i, j).raw <= 65536,
        a.score(g, i, j).raw + 786432 <= a.score(g, i, k).raw ==> a.prob(g, i, j).raw == 0,
{
    let n = a.hd.s as nat;
    let v = |j: int| a.score(g, i, j);
    let m = a.max_score(g, i);
    lemma_fold_max(n, a.max_step(g, i), v);
    assert(v(k).raw <= m.raw);
    let w = |j: int| a.weight(g, i, j);
    assert forall|t: int| 0 <= t < n implies 0 <= (#[trigger] w(t)).raw <= 65536 by {
        assert(v(t).raw <= m.raw);
        law_exp_range(a.score(g, i, t).minus(m));
    }
    lemma_fold_add(n, a.sum_step(g, i), w);
    let s = fold(n, zero::<Fixed>(), a.sum_step(g, i));
    let top = choose|t: int| 0 <= t < n && #[trigger] v(t) == m;
    law_exp_range(a.score(g, i, top).minus(m));
    assert(w(top).raw == 65536);
    let inv = a.inv_sum(g, i);
    let one = Fixed { raw: 65536 };
    lemma_fraction(one, one, s.plus(Fixed { raw: 1 }));
    assert(0 <= inv.raw <= 65536);
    let x = w(j).raw as int;
    let y = inv.raw as int;
    assert(0 <= x * y / 65536 <= 65536) by (nonlinear_arith)
        requires
            0 <= x <= 65536,
            0 <= y <= 65536,
    ;
    if a.score(g, i, j).raw + 786432 <= a.score(g, i, k).raw {
        law_exp_vanishes(a.score(g, i, j).minus(m));
        assert(0 * y == 0);
    }
}

} // verus!
