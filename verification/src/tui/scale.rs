//! What plots and reports show, on fixed-point numbers.
use vstd::prelude::*;
use crate::fixed::{product, quotient, Fixed};
use crate::scalar::Scalar;
use crate::tui::canvas::{highest, last_pixel, lowest, pixel_at, plot_point, spread};
use crate::text::decimal;
use crate::tui::chart::{block_of, bucket, bucket_max, peak, scaled};
use crate::tui::monitor::{best_of, Point};
use crate::tui::style::{duration_text, two_digits};

verus! {

/// The smallest and the largest value of a series are values of it, and all lie between them.
pub proof fn law_bounds(values: Seq<Fixed>, n: nat)
    requires
        n <= values.len(),
    ensures
        forall|i: int|
            0 <= i < n ==> lowest(values, n).raw <= (#[trigger] values[i]).raw
                && values[i].raw <= highest(values, n).raw,
        n > 0 ==> exists|i: int| 0 <= i < n && #[trigger] values[i] == lowest(values, n),
        n > 0 ==> exists|i: int| 0 <= i < n && #[trigger] values[i] == highest(values, n),
    decreases n,
{
    if n > 0 {
        let m = (n - 1) as nat;
        law_bounds(values, m);
        let (lo, hi) = (lowest(values, m), highest(values, m));
        if lo.raw > values[n - 1].raw || m == 0 {
            assert(values[n - 1] == lowest(values, n));
        } else {
            let i = choose|i: int| 0 <= i < m && #[trigger] values[i] == lo;
            assert(values[i] == lowest(values, n));
        }
        if values[n - 1].raw > hi.raw || m == 0 {
            assert(values[n - 1] == highest(values, n));
        } else {
            let i = choose|i: int| 0 <= i < m && #[trigger] values[i] == hi;
            assert(values[i] == highest(values, n));
        }
    }
}

/// The best accuracy is none below any, and its epoch is the first that reached it.
pub proof fn law_best(points: Seq<Point<Fixed>>, epochs: Seq<usize>, n: nat)
    requires
        n <= points.len(),
        n <= epochs.len(),
    ensures
        ({
            let (best, epoch) = best_of(points, epochs, n);
            &&& forall|i: int|
                0 <= i < n ==> ((#[trigger] points[i]).val_acc matches Some(acc) ==> acc.raw
                    <= best.raw)
            &&& best.raw > i32::MIN ==> exists|i: int|
                {
                    &&& 0 <= i < n
                    &&& (#[trigger] points[i]).val_acc == Some(best)
                    &&& epochs[i] == epoch
                    &&& forall|j: int|
                        0 <= j < i ==> ((#[trigger] points[j]).val_acc matches Some(acc)
                            ==> acc.raw < best.raw)
                }
        }),
    decreases n,
{
    if n > 0 {
        let m = (n - 1) as nat;
        law_best(points, epochs, m);
        let (before, at) = best_of(points, epochs, m);
        let (best, epoch) = best_of(points, epochs, n);
        if best.raw > i32::MIN {
            if points[n - 1].val_acc matches Some(acc) && acc.raw > before.raw {
                assert(points[n - 1].val_acc == Some(best));
            } else {
                let i = choose|i: int|
                    {
                        &&& 0 <= i < m
                        &&& (#[trigger] points[i]).val_acc == Some(before)
                        &&& epochs[i] == at
                        &&& forall|j: int|
                            0 <= j < i ==> ((#[trigger] points[j]).val_acc matches Some(acc)
                                ==> acc.raw < before.raw)
                    };
                assert(points[i].val_acc == Some(best));
            }
        }
    }
}

/// A larger dividend has the larger quotient.
proof fn lemma_over(a: Fixed, b: Fixed, d: Fixed)
    requires
        a.raw <= b.raw,
        d.raw > 0,
    ensures
        a.over(d).raw <= b.over(d).raw,
        a.raw >= 0 ==> a.over(d).raw >= 0,
{
    let k = d.raw as int;
    let x = if a.raw < 0 {
        -a.raw * 65536
    } else {
        a.raw * 65536
    };
    let y = if b.raw < 0 {
        -b.raw * 65536
    } else {
        b.raw * 65536
    };
    assert(x / k >= 0 && y / k >= 0) by (nonlinear_arith)
        requires
            x >= 0,
            y >= 0,
            k > 0,
    ;
    if a.raw >= 0 {
        assert(x / k <= y / k) by (nonlinear_arith)
            requires
                0 <= x <= y,
                k > 0,
        ;
    } else if b.raw < 0 {
        assert(y / k <= x / k) by (nonlinear_arith)
            requires
                0 <= y <= x,
                k > 0,
        ;
    }
}

/// A larger factor has the larger product with what is not negative.
proof fn lemma_times(a: Fixed, b: Fixed, c: Fixed)
    requires
        a.raw <= b.raw,
        c.raw >= 0,
    ensures
        a.times(c).raw <= b.times(c).raw,
{
    let k = c.raw as int;
    let (x, y) = (
        if a.raw < 0 {
            -a.raw as int
        } else {
            a.raw as int
        },
        if b.raw < 0 {
            -b.raw as int
        } else {
            b.raw as int
        },
    );
    assert(x * k >= 0 && y * k >= 0) by (nonlinear_arith)
        requires
            x >= 0,
            y >= 0,
            k >= 0,
    ;
    if a.raw >= 0 {
        assert(x * k <= y * k) by (nonlinear_arith)
            requires
                x <= y,
                k >= 0,
        ;
    } else if b.raw < 0 {
        assert(y * k <= x * k) by (nonlinear_arith)
            requires
                y <= x,
                k >= 0,
        ;
    }
}

/// The pixels keep the order of the numbers.
proof fn lemma_pixel_order(a: Fixed, b: Fixed, last: int)
    requires
        a.raw <= b.raw,
        0 <= last <= usize::MAX,
    ensures
        pixel_at(a, last) <= pixel_at(b, last),
{
}

/// A plot runs from left to right, and what is higher is plotted no lower: rows are counted from
/// the top.
pub proof fn law_plot_order(values: Seq<Fixed>, size: (nat, nat), i: int, j: int)
    requires
        2 <= values.len() <= 32768,
        2 * size.0 <= 32768,
        4 * size.1 <= 32768,
        0 <= i < values.len(),
        0 <= j < values.len(),
    ensures
        i <= j ==> plot_point(values, size, i).0 <= plot_point(values, size, j).0,
        values[i].raw <= values[j].raw ==> plot_point(values, size, j).1 <= plot_point(
            values,
            size,
            i,
        ).1,
{
    let px = last_pixel(2 * size.0);
    let py = last_pixel(4 * size.1);
    let n = values.len();
    let steps = Fixed::count_spec((n - 1) as usize);
    let (ci, cj) = (Fixed::count_spec(i as usize), Fixed::count_spec(j as usize));
    let wide = Fixed::count_spec(px as usize);
    let tall = Fixed::count_spec(py as usize);
    if i <= j {
        lemma_over(ci, cj, steps);
        lemma_times(ci.over(steps), cj.over(steps), wide);
        lemma_pixel_order(ci.over(steps).times(wide), cj.over(steps).times(wide), px);
    }
    if values[i].raw <= values[j].raw {
        law_bounds(values, n);
        let lo = lowest(values, n);
        let hi = highest(values, n);
        assert(lo.raw <= values[i].raw <= hi.raw);
        let range = spread(values);
        assert(range.raw > 0);
        let (a, b) = (values[i].minus(lo), values[j].minus(lo));
        lemma_over(a, b, range);
        let one = Fixed { raw: 65536 };
        let (p, q) = (one.minus(a.over(range)), one.minus(b.over(range)));
        lemma_times(q, p, tall);
        lemma_pixel_order(q.times(tall), p.times(tall), py);
    }
}

/// Curves on a common scale keep the order of their values, from 0 at the lower bound to 1 at the
/// upper one.
pub proof fn law_scaled(values: Seq<Fixed>, lo: Fixed, hi: Fixed, i: int, j: int)
    requires
        lo.raw <= hi.raw,
        hi.raw - lo.raw <= i32::MAX,
        0 <= i < values.len(),
        0 <= j < values.len(),
        lo.raw <= values[i].raw <= values[j].raw <= hi.raw,
    ensures
        ({
            let y = scaled(values, lo, hi);
            &&& y.len() == values.len()
            &&& 0 <= y[i].raw <= y[j].raw <= 65536
            &&& lo.raw < hi.raw && values[i] == lo ==> y[i].raw == 0
            &&& lo.raw < hi.raw && values[j] == hi ==> y[j].raw == 65536
        }),
{
    if lo.raw < hi.raw {
        let d = hi.minus(lo);
        let (a, b) = (values[i].minus(lo), values[j].minus(lo));
        lemma_over(a, b, d);
        lemma_over(b, d, d);
        let k = d.raw as int;
        assert(k * 65536 / k == 65536) by (nonlinear_arith)
            requires
                k > 0,
        ;
        assert(0int / k == 0) by (nonlinear_arith)
            requires
                k > 0,
        ;
    }
}

/// The peak of a series is not below any value nor below zero, and it is one of these.
pub proof fn law_peak(values: Seq<Fixed>, n: nat)
    requires
        n <= values.len(),
    ensures
        peak(values, n).raw >= 0,
        forall|i: int| 0 <= i < n ==> (#[trigger] values[i]).raw <= peak(values, n).raw,
        peak(values, n).raw == 0 || exists|i: int|
            0 <= i < n && #[trigger] values[i] == peak(values, n),
    decreases n,
{
    if n > 0 {
        let m = (n - 1) as nat;
        law_peak(values, m);
        let before = peak(values, m);
        if values[n - 1].raw > before.raw {
            assert(values[n - 1] == peak(values, n));
        } else if before.raw != 0 {
            let i = choose|i: int| 0 <= i < m && #[trigger] values[i] == before;
            assert(values[i] == peak(values, n));
        }
    }
}

/// The blocks of a sparkline rise with the values, from the lowest for what is not positive.
pub proof fn law_spark_order(a: Fixed, b: Fixed, ceiling: Fixed)
    requires
        a.raw <= b.raw,
    ensures
        0 <= block_of(a, ceiling) <= block_of(b, ceiling) <= 7,
        a.raw <= 0 ==> block_of(a, ceiling) == 0,
{
    if ceiling.raw > 0 {
        let seven = Fixed::count_spec(7);
        let zero = Fixed { raw: 0 };
        lemma_over(a, b, ceiling);
        lemma_times(a.over(ceiling), b.over(ceiling), seven);
        if a.raw <= 0 {
            lemma_over(a, zero, ceiling);
            lemma_times(a.over(ceiling), zero.over(ceiling), seven);
            let k = ceiling.raw as int;
            assert(0int / k == 0) by (nonlinear_arith)
                requires
                    k > 0,
            ;
            assert(zero.over(ceiling) == zero);
            assert(zero.times(seven).raw == 0);
        }
    }
}

/// A column of a plain plot shows the largest of its values.
pub proof fn law_bucket_max(values: Seq<Fixed>, n: int, c: int, k: nat)
    requires
        k <= values.len(),
    ensures
        forall|i: int|
            #![trigger values[i]]
            0 <= i < k && bucket(i, n, values.len() as int) == c ==> values[i].raw <= bucket_max(
                values,
                n,
                c,
                k,
            ).raw,
        bucket_max(values, n, c, k).raw > i32::MIN ==> exists|i: int|
            #![trigger values[i]]
            0 <= i < k && bucket(i, n, values.len() as int) == c && values[i] == bucket_max(
                values,
                n,
                c,
                k,
            ),
    decreases k,
{
    if k > 0 {
        let m = (k - 1) as nat;
        law_bucket_max(values, n, c, m);
        let before = bucket_max(values, n, c, m);
        let now = bucket_max(values, n, c, k);
        if now.raw > i32::MIN {
            if bucket(k - 1, n, values.len() as int) == c && values[k - 1].raw > before.raw {
                assert(values[k - 1] == now);
            } else {
                let i = choose|i: int|
                    #![trigger values[i]]
                    0 <= i < m && bucket(i, n, values.len() as int) == c && values[i] == before;
                assert(values[i] == now);
            }
        }
    }
}

/// The values of a series fall into the columns in their order.
pub proof fn law_bucket_order(i: int, j: int, n: int, len: int)
    requires
        0 <= i <= j < len,
        0 < n,
    ensures
        0 <= bucket(i, n, len) <= bucket(j, n, len) < n,
{
    assert(0 <= i * n / len <= j * n / len) by (nonlinear_arith)
        requires
            0 <= i <= j < len,
            0 < n,
    ;
}

/// A duration is written in hours, minutes and seconds that add up to it; hours are left out where
/// there are none.
pub proof fn law_duration(s: nat)
    ensures
        exists|h: nat, m: nat, sec: nat|
            {
                &&& m < 60
                &&& sec < 60
                &&& h * 3600 + m * 60 + sec == s
                &&& h > 0 ==> #[trigger] clock(h, m, sec) == duration_text(s)
                &&& h == 0 ==> duration_text(s) == decimal(m) + ":"@ + two_digits(sec)
            },
{
    let (h, m, sec) = (s / 3600, (s % 3600) / 60, s % 60);
    assert(h * 3600 + m * 60 + sec == s);
    assert(s % 60 == (s % 3600) % 60);
    if h > 0 {
        assert(clock(h, m, sec) == duration_text(s));
    } else {
        assert(clock(h, m, sec) == clock(h, m, sec));
        assert(s / 60 == m);
    }
}

/// `H:MM:SS`
pub open spec fn clock(h: nat, m: nat, sec: nat) -> Seq<char> {
    decimal(h) + ":"@ + two_digits(m) + ":"@ + two_digits(sec)
}

} // verus!
