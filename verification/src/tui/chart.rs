//! Charts: overlaid curves, bars of characters and sparklines.
use vstd::prelude::*;
use crate::scalar::{one, zero, Constant, Scalar};
use crate::text::{char_from, chars_of, push_text, to_text};
use crate::tui::canvas::{
    bounds, braille_char, highest, lowest, plotted, span_between, span_of, Braille,
};
use crate::tui::style::{glyph_text, repeated, Glyph, Rgb, Theme, DIM, TEXT};

verus! {

/// Inner width of each chart panel, in characters.
pub const PANEL_W: usize = 34;

/// Height of each chart panel's plot area, in lines.
pub const PANEL_H: usize = 6;

/// How many samples the memory sparklines keep on screen.
pub const SPARK_N: usize = 24;

/// The characters of a chart, each with the series that it belongs to.
pub type Cells = Vec<Vec<(char, usize)>>;

/// The elements of several series.
pub open spec fn joined<S>(series: Seq<Vec<S>>, n: nat) -> Seq<S>
    decreases n,
{
    if n == 0 {
        Seq::empty()
    } else {
        joined(series, (n - 1) as nat) + series[n - 1]@
    }
}

/// A number that is neither infinite nor undefined.
pub open spec fn finite<S: Scalar>(x: S) -> bool {
    S::gt_spec(S::constant_spec(Constant::Infinity), x) && S::gt_spec(
        x,
        S::constant_spec(Constant::NegInfinity),
    )
}

/// Every value, as its place between two bounds; in the middle where there is next to no room
/// between them.
pub open spec fn scaled<S: Scalar>(values: Seq<S>, lo: S, hi: S) -> Seq<S> {
    if narrow(lo, hi) {
        Seq::new(values.len(), |i: int| S::constant_spec(Constant::Half))
    } else {
        Seq::new(
            values.len(),
            |i: int| S::div_spec(S::sub_spec(values[i], lo), S::sub_spec(hi, lo)),
        )
    }
}

/// There is next to no room between two bounds.
pub open spec fn narrow<S: Scalar>(lo: S, hi: S) -> bool {
    let d = S::sub_spec(hi, lo);
    let size = if S::gt_spec(zero::<S>(), d) {
        S::sub_spec(zero::<S>(), d)
    } else {
        d
    };
    S::gt_spec(S::constant_spec(Constant::Epsilon), size)
}

/// Scales values to the room between two bounds.
fn scale<S: Scalar>(values: &Vec<S>, lo: S, hi: S) -> (r: Vec<S>)
    ensures
        r@ == scaled(values@, lo, hi),
{
    let d = hi.sub(lo);
    let zero_s = S::constant(Constant::Zero);
    let size = if zero_s.gt(d) {
        zero_s.sub(d)
    } else {
        d
    };
    let flat = S::constant(Constant::Epsilon).gt(size);
    let half = S::constant(Constant::Half);
    let mut out: Vec<S> = Vec::with_capacity(values.len());
    let mut i: usize = 0;
    while i < values.len()
        invariant
            i <= values@.len(),
            flat == narrow(lo, hi),
            d == S::sub_spec(hi, lo),
            half == S::constant_spec(Constant::Half),
            out@.len() == i,
            forall|k: int| 0 <= k < i ==> #[trigger] out@[k] == scaled(values@, lo, hi)[k],
        decreases values@.len() - i,
    {
        if flat {
            out.push(half);
        } else {
            out.push(values[i].sub(lo).div(d));
        }
        i = i + 1;
    }
    assert(out@ =~= scaled(values@, lo, hi));
    out
}

/// `c` is a canvas of a panel's size with the curve of `values` and nothing else.
pub open spec fn curve<S: Scalar>(c: Braille, values: Seq<S>, lo: S, hi: S) -> bool {
    &&& c.wf()
    &&& c.size() == (PANEL_W as nat, PANEL_H as nat)
    &&& forall|u: int, v: int| #[trigger]
        c.lit(u, v) == (c.inside(u, v) && values.len() > 0 && finite(lo) && plotted(
            scaled(values, lo, hi),
            c.size(),
            u,
            v,
        ))
}

/// The canvases of several series on a common scale.
pub open spec fn curves<S: Scalar>(cs: Seq<Braille>, series: Seq<Vec<S>>) -> bool {
    let all = joined(series, series.len());
    &&& cs.len() == series.len()
    &&& forall|i: int|
        0 <= i < cs.len() ==> curve(
            #[trigger] cs[i],
            series[i]@,
            lowest(all, all.len()),
            highest(all, all.len()),
        )
}

/// The first of the layers `k` and up that is not blank at a cell, or a space.
pub open spec fn topmost(cs: Seq<Braille>, r: int, c: int, k: nat) -> (char, usize)
    decreases cs.len() - k,
{
    if k >= cs.len() {
        (' ', 0)
    } else if braille_char(cs[k as int].cell(c, r)) != '\u{2800}' {
        (braille_char(cs[k as int].cell(c, r)), k as usize)
    } else {
        topmost(cs, r, c, k + 1)
    }
}

/// What rows of characters hold.
pub open spec fn cell_views(rows: Seq<Vec<(char, usize)>>) -> Seq<Seq<(char, usize)>> {
    rows.map_values(|r: Vec<(char, usize)>| r@)
}

/// The layers on top of each other.
pub open spec fn merged(cs: Seq<Braille>) -> Seq<Seq<(char, usize)>> {
    Seq::new(
        PANEL_H as nat,
        |r: int| Seq::new(PANEL_W as nat, |c: int| topmost(cs, r, c, 0)),
    )
}

/// Draws one series on a canvas of its own.
fn draw_curve<S: Scalar>(values: &Vec<S>, lo: S, hi: S) -> (c: Braille)
    ensures
        curve(c, values@, lo, hi),
{
    let mut c = Braille::new(PANEL_W, PANEL_H);
    let infinity = S::constant(Constant::Infinity);
    let neg_infinity = S::constant(Constant::NegInfinity);
    if values.len() > 0 && infinity.gt(lo) && lo.gt(neg_infinity) {
        let s = scale(values, lo, hi);
        c.plot(s.as_slice());
    }
    c
}

/// The characters of a canvas.
fn canvas_chars(c: &Braille) -> (r: Vec<Vec<char>>)
    requires
        c.wf(),
    ensures
        r@.len() == c.size().1,
        forall|i: int|
            0 <= i < r@.len() ==> (#[trigger] r@[i])@ == Seq::new(
                c.size().0,
                |k: int| braille_char(c.cell(k, i)),
            ),
{
    let rows = c.rows();
    let mut out: Vec<Vec<char>> = Vec::new();
    let mut i: usize = 0;
    while i < rows.len()
        invariant
            i <= rows@.len(),
            rows@.len() == c.size().1,
            forall|k: int|
                0 <= k < rows@.len() ==> (#[trigger] rows@[k])@ == Seq::new(
                    c.size().0,
                    |j: int| braille_char(c.cell(j, k)),
                ),
            out@.len() == i,
            forall|k: int| 0 <= k < i ==> (#[trigger] out@[k])@ == rows@[k]@,
        decreases rows@.len() - i,
    {
        out.push(chars_of(rows[i].as_str()));
        i = i + 1;
    }
    out
}

/// The topmost mark of a cell, from layer `k` on.
fn top_mark(
    layers: &Vec<Vec<Vec<char>>>,
    r: usize,
    c: usize,
    Ghost(cs): Ghost<Seq<Braille>>,
) -> (m: (char, usize))
    requires
        layers_show(layers@, cs),
        r < PANEL_H,
        c < PANEL_W,
    ensures
        m == topmost(cs, r as int, c as int, 0),
{
    let mut k: usize = 0;
    while k < layers.len()
        invariant
            k <= layers@.len(),
            layers_show(layers@, cs),
            r < PANEL_H,
            c < PANEL_W,
            topmost(cs, r as int, c as int, 0) == topmost(cs, r as int, c as int, k as nat),
        decreases layers@.len() - k,
    {
        assert(shows(layers@[k as int]@, cs[k as int]));
        let ch = layers[k][r][c];
        if ch != '\u{2800}' {
            return (ch, k);
        }
        k = k + 1;
    }
    (' ', 0)
}

/// Characters are those of a canvas of a panel's size.
pub open spec fn shows(rows: Seq<Vec<char>>, c: Braille) -> bool {
    &&& rows.len() == PANEL_H
    &&& c.size() == (PANEL_W as nat, PANEL_H as nat)
    &&& forall|i: int|
        0 <= i < rows.len() ==> (#[trigger] rows[i])@ == Seq::new(
            PANEL_W as nat,
            |k: int| braille_char(c.cell(k, i)),
        )
}

/// Characters are those of several canvases.
pub open spec fn layers_show(layers: Seq<Vec<Vec<char>>>, cs: Seq<Braille>) -> bool {
    &&& layers.len() == cs.len()
    &&& forall|i: int| 0 <= i < cs.len() ==> shows((#[trigger] layers[i])@, cs[i])
}

/// Draws each series on its own canvas, on a common scale so that overlaid curves stay
/// comparable, and stacks them: the first layer with a mark has the cell.
#[must_use]
pub fn braille_rows<S: Scalar>(series: &Vec<Vec<S>>) -> (r: Cells)
    ensures
        exists|cs: Seq<Braille>| #[trigger] curves(cs, series@) && cell_views(r@) == merged(cs),
{
    let mut all: Vec<S> = Vec::new();
    let mut i: usize = 0;
    while i < series.len()
        invariant
            i <= series@.len(),
            all@ == joined(series@, i as nat),
        decreases series@.len() - i,
    {
        let ghost before = all@;
        let one_series: &Vec<S> = &series[i];
        let mut j: usize = 0;
        assert(before + one_series@.take(0) =~= before);
        while j < one_series.len()
            invariant
                j <= one_series@.len(),
                all@ == before + one_series@.take(j as int),
            decreases one_series@.len() - j,
        {
            all.push(one_series[j]);
            j = j + 1;
            assert(one_series@.take(j as int) =~= one_series@.take(j - 1).push(
                one_series@[j - 1],
            ));
            assert(all@ =~= before + one_series@.take(j as int));
        }
        assert(one_series@.take(one_series@.len() as int) =~= one_series@);
        i = i + 1;
    }
    let (lo, hi) = bounds(all.as_slice());
    let ghost mut cs: Seq<Braille> = Seq::empty();
    let mut layers: Vec<Vec<Vec<char>>> = Vec::new();
    let mut i: usize = 0;
    while i < series.len()
        invariant
            i <= series@.len(),
            all@ == joined(series@, series@.len()),
            lo == lowest(all@, all@.len()),
            hi == highest(all@, all@.len()),
            cs.len() == i,
            layers_show(layers@, cs),
            forall|k: int| 0 <= k < i ==> curve(#[trigger] cs[k], series@[k]@, lo, hi),
        decreases series@.len() - i,
    {
        let c = draw_curve(&series[i], lo, hi);
        let chars = canvas_chars(&c);
        proof {
            cs = cs.push(c);
        }
        layers.push(chars);
        i = i + 1;
    }
    let mut out: Cells = Vec::new();
    let mut r: usize = 0;
    while r < PANEL_H
        invariant
            r <= PANEL_H,
            layers_show(layers@, cs),
            out@.len() == r,
            forall|k: int| 0 <= k < r ==> (#[trigger] out@[k])@ == merged(cs)[k],
        decreases PANEL_H - r,
    {
        let mut row: Vec<(char, usize)> = Vec::new();
        let mut c: usize = 0;
        while c < PANEL_W
            invariant
                r < PANEL_H,
                c <= PANEL_W,
                layers_show(layers@, cs),
                row@.len() == c,
                forall|k: int| 0 <= k < c ==> #[trigger] row@[k] == merged(cs)[r as int][k],
            decreases PANEL_W - c,
        {
            row.push(top_mark(&layers, r, c, Ghost(cs)));
            c = c + 1;
        }
        assert(row@ =~= merged(cs)[r as int]);
        out.push(row);
        r = r + 1;
    }
    proof {
        assert(curves(cs, series@));
        assert(cell_views(out@) =~= merged(cs));
    }
    out
}

/// A number that can be compared.
pub open spec fn comparable<S: Scalar>(x: S) -> bool {
    S::gt_spec(x, S::constant_spec(Constant::NegInfinity)) || S::gt_spec(
        S::constant_spec(Constant::Infinity),
        x,
    )
}

/// `a >= b`
pub open spec fn at_least<S: Scalar>(a: S, b: S) -> bool {
    comparable(a) && comparable(b) && !S::gt_spec(b, a)
}

fn is_at_least<S: Scalar>(a: S, b: S) -> (r: bool)
    ensures
        r == at_least(a, b),
{
    let infinity = S::constant(Constant::Infinity);
    let neg_infinity = S::constant(Constant::NegInfinity);
    (a.gt(neg_infinity) || infinity.gt(a)) && (b.gt(neg_infinity) || infinity.gt(b)) && !b.gt(a)
}

/// The bucket of value `i` among `n`.
pub open spec fn bucket(i: int, n: int, len: int) -> int {
    if i * n / len < n - 1 {
        i * n / len
    } else {
        n - 1
    }
}

/// The largest of the first `k` values in bucket `c` of `n`.
pub open spec fn bucket_max<S: Scalar>(values: Seq<S>, n: int, c: int, k: nat) -> S
    decreases k,
{
    if k == 0 {
        S::constant_spec(Constant::NegInfinity)
    } else {
        let before = bucket_max(values, n, c, (k - 1) as nat);
        let v = values[k - 1];
        if bucket(k - 1, n, values.len() as int) == c && S::gt_spec(v, before) {
            v
        } else {
            before
        }
    }
}

/// How many columns a series takes.
pub open spec fn columns(len: nat) -> int {
    if len < PANEL_W {
        len as int
    } else {
        PANEL_W as int
    }
}

/// The upper edge of a row, between 0 and 1.
pub open spec fn row_edge<S: Scalar>(row: int) -> S {
    S::sub_spec(
        one::<S>(),
        S::div_spec(S::count_spec(row as usize), S::count_spec(PANEL_H)),
    )
}

/// The character of a column whose value is `v`, in a row.
pub open spec fn ascii_mark<S: Scalar>(v: S, lo: S, span: S, row: int) -> char {
    let norm = S::div_spec(S::sub_spec(v, lo), span);
    let top = row_edge::<S>(row);
    let bot = row_edge::<S>(row + 1);
    let ceiling = S::add_spec(top, S::constant_spec(Constant::Epsilon));
    if at_least(norm, bot) && S::gt_spec(ceiling, norm) {
        '*'
    } else if at_least(norm, top) {
        '|'
    } else {
        ' '
    }
}

/// The plot of a series in plain characters: a mark at the height of each column, and a stem
/// below it.
pub open spec fn ascii_plot<S: Scalar>(values: Seq<S>) -> Seq<Seq<(char, usize)>> {
    let lo = lowest(values, values.len());
    let span = span_between(lo, highest(values, values.len()));
    let n = columns(values.len());
    Seq::new(
        PANEL_H as nat,
        |r: int|
            Seq::new(
                PANEL_W as nat,
                |c: int|
                    if c < n {
                        (ascii_mark(bucket_max(values, n, c, values.len()), lo, span, r), 0usize)
                    } else {
                        (' ', 0usize)
                    },
            ),
    )
}

/// The largest value of each bucket.
fn bucket_maxima<S: Scalar>(values: &Vec<S>, n: usize) -> (r: Vec<S>)
    requires
        0 < n <= values@.len(),
        n <= PANEL_W,
        values@.len() * PANEL_W <= usize::MAX,
    ensures
        r@.len() == n,
        forall|c: int|
            0 <= c < n ==> #[trigger] r@[c] == bucket_max(values@, n as int, c, values@.len()),
{
    let len: usize = values.len();
    let mut cols = crate::dense::filled(n, S::constant(Constant::NegInfinity));
    let mut i: usize = 0;
    while i < len
        invariant
            i <= len,
            len == values@.len(),
            0 < n <= len,
            n <= PANEL_W,
            len * PANEL_W <= usize::MAX,
            cols@.len() == n,
            forall|c: int|
                0 <= c < n ==> #[trigger] cols@[c] == bucket_max(values@, n as int, c, i as nat),
        decreases len - i,
    {
        proof {
            assert(i * n <= len * PANEL_W) by (nonlinear_arith)
                requires
                    i <= len,
                    n <= PANEL_W,
            ;
            assert(0 <= i * n) by (nonlinear_arith);
        }
        let q: usize = i * n / len;
        let c: usize = if q < n - 1 {
            q
        } else {
            n - 1
        };
        let v = values[i];
        let ghost before = cols@;
        assert(c == bucket(i as int, n as int, len as int));
        if v.gt(cols[c]) {
            cols[c] = v;
        }
        i = i + 1;
        proof {
            assert forall|k: int| 0 <= k < n implies #[trigger] cols@[k] == bucket_max(
                values@,
                n as int,
                k,
                i as nat,
            ) by {
                assert(before[k] == bucket_max(values@, n as int, k, (i - 1) as nat));
            }
        }
    }
    cols
}

/// ASCII fallback plot, used when the terminal cannot render braille.
#[must_use]
pub fn ascii_rows<S: Scalar>(values: &Vec<S>) -> (r: Cells)
    requires
        values@.len() * PANEL_W <= usize::MAX,
    ensures
        cell_views(r@) == ascii_plot(values@),
{
    let len: usize = values.len();
    let n: usize = if len < PANEL_W {
        len
    } else {
        PANEL_W
    };
    let (lo, hi) = bounds(values.as_slice());
    let span = span_of(lo, hi);
    let cols = if n > 0 {
        bucket_maxima(values, n)
    } else {
        Vec::new()
    };
    let one_s = S::constant(Constant::One);
    let ghost want = ascii_plot(values@);
    let mut out: Cells = Vec::new();
    let mut r: usize = 0;
    while r < PANEL_H
        invariant
            r <= PANEL_H,
            len == values@.len(),
            n == columns(values@.len()),
            lo == lowest(values@, values@.len()),
            span == span_between(lo, highest(values@, values@.len())),
            cols@.len() == n,
            forall|c: int|
                0 <= c < n ==> #[trigger] cols@[c] == bucket_max(values@, n as int, c, len as nat),
            one_s == one::<S>(),
            want == ascii_plot(values@),
            out@.len() == r,
            forall|k: int| 0 <= k < r ==> (#[trigger] out@[k])@ == want[k],
        decreases PANEL_H - r,
    {
        let height = S::count(PANEL_H);
        let top = one_s.sub(S::count(r).div(height));
        let bot = one_s.sub(S::count(r + 1).div(height));
        let ceiling = top.add(S::constant(Constant::Epsilon));
        let mut row: Vec<(char, usize)> = Vec::new();
        let mut c: usize = 0;
        while c < PANEL_W
            invariant
                r < PANEL_H,
                c <= PANEL_W,
                n == columns(values@.len()),
                len == values@.len(),
                lo == lowest(values@, values@.len()),
                span == span_between(lo, highest(values@, values@.len())),
                cols@.len() == n,
                forall|k: int|
                    0 <= k < n ==> #[trigger] cols@[k] == bucket_max(
                        values@,
                        n as int,
                        k,
                        len as nat,
                    ),
                top == row_edge::<S>(r as int),
                bot == row_edge::<S>(r + 1),
                ceiling == S::add_spec(top, S::constant_spec(Constant::Epsilon)),
                want == ascii_plot(values@),
                row@.len() == c,
                forall|k: int| 0 <= k < c ==> #[trigger] row@[k] == want[r as int][k],
            decreases PANEL_W - c,
        {
            let mark: char = if c < n {
                let norm = cols[c].sub(lo).div(span);
                if is_at_least(norm, bot) && ceiling.gt(norm) {
                    '*'
                } else if is_at_least(norm, top) {
                    '|'
                } else {
                    ' '
                }
            } else {
                ' '
            };
            row.push((mark, 0));
            c = c + 1;
        }
        assert(row@ =~= want[r as int]);
        out.push(row);
        r = r + 1;
    }
    assert(cell_views(out@) =~= want);
    out
}

/// The last values of a series.
pub open spec fn recent<S>(values: Seq<S>) -> Seq<S> {
    if values.len() > SPARK_N {
        values.subrange(values.len() - SPARK_N, values.len() as int)
    } else {
        values
    }
}

/// The largest of the first `n` values, and at least zero.
pub open spec fn peak<S: Scalar>(values: Seq<S>, n: nat) -> S
    decreases n,
{
    if n == 0 {
        zero()
    } else {
        let before = peak(values, (n - 1) as nat);
        if S::gt_spec(values[n - 1], before) {
            values[n - 1]
        } else {
            before
        }
    }
}

/// The height of a value out of eight, under a ceiling.
pub open spec fn block_of<S: Scalar>(v: S, ceiling: S) -> int {
    if !S::gt_spec(ceiling, zero::<S>()) {
        0
    } else {
        match S::index_spec(S::mul_spec(S::div_spec(v, ceiling), S::count_spec(7))) {
            Some(i) => if i < 7 {
                i as int
            } else {
                7
            },
            None => 0,
        }
    }
}

/// The characters of a sparkline: scaled from zero, so that a flat series is a flat line.
pub open spec fn spark_text<S: Scalar>(values: Seq<S>, unicode: bool) -> Seq<char> {
    let tail = recent(values);
    let ceiling = S::mul_spec(
        peak(tail, tail.len()),
        S::constant_spec(Constant::SparkHeight),
    );
    if values.len() == 0 {
        repeated('-', 12)
    } else if unicode {
        Seq::new(tail.len(), |i: int| (0x2581 + block_of(tail[i], ceiling)) as char)
    } else {
        repeated('=', tail.len())
    }
}

impl Theme {
    /// A compact block-character sparkline scaled from zero, so a flat series
    /// renders as a flat line rather than noise amplified to full height.
    #[must_use]
    pub fn spark<S: Scalar>(&self, values: &Vec<S>, color: Rgb) -> (r: String)
        ensures
            r@ == self.in_color(
                spark_text(values@, self.unicode),
                if values@.len() == 0 {
                    DIM
                } else {
                    color
                },
            ),
    {
        let ghost tail = recent(values@);
        let mut out: Vec<char> = Vec::new();
        if values.len() == 0 {
            push_text(&mut out, "------------");
            proof {
                reveal_strlit("------------");
                assert(out@ =~= spark_text(values@, self.unicode));
            }
            return self.paint(to_text(&out).as_str(), DIM);
        }
        let start: usize = if values.len() > SPARK_N {
            values.len() - SPARK_N
        } else {
            0
        };
        assert(tail =~= values@.subrange(start as int, values@.len() as int));
        let mut hi = S::constant(Constant::Zero);
        let mut i: usize = start;
        while i < values.len()
            invariant
                start <= i <= values@.len(),
                tail == values@.subrange(start as int, values@.len() as int),
                hi == peak(tail, (i - start) as nat),
            decreases values@.len() - i,
        {
            let v = values[i];
            assert(tail[i - start] == v);
            if v.gt(hi) {
                hi = v;
            }
            i = i + 1;
        }
        let ceiling = hi.mul(S::constant(Constant::SparkHeight));
        let high = ceiling.gt(S::constant(Constant::Zero));
        let mut i: usize = start;
        while i < values.len()
            invariant
                start <= i <= values@.len(),
                values@.len() > 0,
                tail == values@.subrange(start as int, values@.len() as int),
                tail == recent(values@),
                ceiling == S::mul_spec(
                    peak(tail, tail.len()),
                    S::constant_spec(Constant::SparkHeight),
                ),
                high == S::gt_spec(ceiling, zero::<S>()),
                out@.len() == i - start,
                forall|k: int|
                    0 <= k < i - start ==> #[trigger] out@[k] == spark_text(
                        values@,
                        self.unicode,
                    )[k],
            decreases values@.len() - i,
        {
            assert(tail[i - start] == values@[i as int]);
            if self.unicode {
                let block: u32 = if !high {
                    0
                } else {
                    match values[i].div(ceiling).mul(S::count(7)).index() {
                        Some(k) => if k < 7 {
                            k as u32
                        } else {
                            7
                        },
                        None => 0,
                    }
                };
                out.push(char_from(0x2581 + block));
            } else {
                out.push('=');
            }
            i = i + 1;
        }
        assert(out@ =~= spark_text(values@, self.unicode));
        self.paint(to_text(&out).as_str(), color)
    }

    /// A coloured delta marker; `size` is how the size of the difference is written.
    pub open spec fn delta_text<S: Scalar>(
        self,
        d: S,
        size: Seq<char>,
        lower_is_better: bool,
    ) -> Seq<char> {
        let falls = S::gt_spec(zero::<S>(), d);
        let abs = if falls {
            S::sub_spec(zero::<S>(), d)
        } else {
            d
        };
        if S::gt_spec(S::constant_spec(Constant::ClipFloor), abs) {
            self.in_color("-"@, DIM)
        } else {
            self.in_color(
                glyph_text(
                    if falls {
                        Glyph::Down
                    } else {
                        Glyph::Up
                    },
                    self.unicode,
                ) + size,
                if falls == lower_is_better {
                    crate::tui::style::GOOD
                } else {
                    crate::tui::style::BAD
                },
            )
        }
    }

    /// A coloured delta marker. `lower_is_better` flips which direction is green; `size` is how
    /// the size of the difference is written.
    #[must_use]
    pub fn delta<S: Scalar>(&self, d: S, size: &str, lower_is_better: bool) -> (r: String)
        ensures
            r@ == self.delta_text(d, size@, lower_is_better),
    {
        let zero_s = S::constant(Constant::Zero);
        let falls = zero_s.gt(d);
        let abs = if falls {
            zero_s.sub(d)
        } else {
            d
        };
        if S::constant(Constant::ClipFloor).gt(abs) {
            return self.paint("-", DIM);
        }
        let arrow = if falls {
            self.glyph(Glyph::Down)
        } else {
            self.glyph(Glyph::Up)
        };
        let color = if falls == lower_is_better {
            crate::tui::style::GOOD
        } else {
            crate::tui::style::BAD
        };
        let mut out: Vec<char> = Vec::new();
        push_text(&mut out, arrow);
        push_text(&mut out, size);
        assert(out@ =~= arrow@ + size@);
        self.paint(to_text(&out).as_str(), color)
    }
}

/// The colour of a series.
pub open spec fn series_color(colors: Seq<Rgb>, layer: int) -> Rgb {
    if 0 <= layer < colors.len() {
        colors[layer]
    } else {
        TEXT
    }
}

/// The first `n` cells of a row, each in its series' colour.
pub open spec fn row_text(
    t: Theme,
    row: Seq<(char, usize)>,
    colors: Seq<Rgb>,
    n: nat,
) -> Seq<char>
    decreases n,
{
    if n == 0 {
        Seq::empty()
    } else {
        let (ch, layer) = row[n - 1];
        row_text(t, row, colors, (n - 1) as nat) + (if ch == ' ' {
            seq![' ']
        } else {
            t.in_color(seq![ch], series_color(colors, layer as int))
        })
    }
}

/// Paints each cell of a rasterised chart row in its series' colour.
#[must_use]
pub(crate) fn colorize_row(row: &Vec<(char, usize)>, colors: &[Rgb], t: &Theme) -> (r: String)
    ensures
        r@ == row_text(*t, row@, colors@, row@.len()),
{
    let mut out: Vec<char> = Vec::new();
    let mut i: usize = 0;
    while i < row.len()
        invariant
            i <= row@.len(),
            out@ == row_text(*t, row@, colors@, i as nat),
        decreases row@.len() - i,
    {
        let ghost before = out@;
        let (ch, layer) = row[i];
        if ch == ' ' {
            out.push(' ');
            assert(out@ =~= before + seq![' ']);
        } else {
            let color: Rgb = if layer < colors.len() {
                colors[layer]
            } else {
                TEXT
            };
            let mut single: Vec<char> = Vec::new();
            single.push(ch);
            assert(single@ =~= seq![ch]);
            let cell = t.paint(to_text(&single).as_str(), color);
            push_text(&mut out, cell.as_str());
        }
        i = i + 1;
    }
    to_text(&out)
}

} // verus!
