//! A braille-based plotting canvas.
//!
//! Each terminal cell holds a 2x4 grid of braille dots, so a chart of `w` by `h`
//! characters has `2w` by `4h` addressable pixels. That is what makes the curves
//! look smooth instead of blocky.
use vstd::prelude::*;
use crate::math::{lemma_index2, lemma_join2};
use crate::scalar::{one, zero, Constant, Scalar};
use crate::text::{char_from, to_text};

verus! {

/// Braille dot bit for each (x, y) offset inside a cell.
/// Layout per the Unicode braille patterns block:
///   (0,0)=0x01  (1,0)=0x08
///   (0,1)=0x02  (1,1)=0x10
///   (0,2)=0x04  (1,2)=0x20
///   (0,3)=0x40  (1,3)=0x80
pub open spec fn dot(x: int, y: int) -> u8 {
    if x == 0 {
        if y == 0 {
            0x01
        } else if y == 1 {
            0x02
        } else if y == 2 {
            0x04
        } else {
            0x40
        }
    } else {
        if y == 0 {
            0x08
        } else if y == 1 {
            0x10
        } else if y == 2 {
            0x20
        } else {
            0x80
        }
    }
}

fn dot_bit(x: usize, y: usize) -> (r: u8)
    requires
        x < 2,
        y < 4,
    ensures
        r == dot(x as int, y as int),
{
    if x == 0 {
        if y == 0 {
            0x01
        } else if y == 1 {
            0x02
        } else if y == 2 {
            0x04
        } else {
            0x40
        }
    } else {
        if y == 0 {
            0x08
        } else if y == 1 {
            0x10
        } else if y == 2 {
            0x20
        } else {
            0x80
        }
    }
}

/// One of the eight bits.
pub open spec fn single(d: u8) -> bool {
    d == 1 || d == 2 || d == 4 || d == 8 || d == 16 || d == 32 || d == 64 || d == 128
}

/// Setting one bit sets that bit and no other.
proof fn lemma_set_bit(c: u8, d: u8, e: u8)
    requires
        single(d),
        single(e),
    ensures
        ((c | d) & e != 0) == (c & e != 0 || d == e),
{
    assert(((c | d) & e != 0) == (c & e != 0 || d == e)) by (bit_vector)
        requires
            d == 1 || d == 2 || d == 4 || d == 8 || d == 16 || d == 32 || d == 64 || d == 128,
            e == 1 || e == 2 || e == 4 || e == 8 || e == 16 || e == 32 || e == 64 || e == 128,
    ;
}

/// A drawing surface addressed in braille sub-pixels.
#[derive(Debug)]
pub struct Braille {
    cols: usize,
    rows: usize,
    cells: Vec<u8>,
}

/// The step of a line from a pixel to the next.
pub ghost struct Pen {
    pub x: int,
    pub y: int,
    pub err: int,
}

/// The distance between two numbers.
pub open spec fn gap(a: int, b: int) -> int {
    if a < b {
        b - a
    } else {
        a - b
    }
}

/// The direction from one number to another.
pub open spec fn toward(a: int, b: int) -> int {
    if a < b {
        1
    } else {
        -1
    }
}

/// The pen of a straight line after `n` steps: in each step it moves by one in the directions in
/// which it lags behind the line.
pub open spec fn pen(x0: int, y0: int, x1: int, y1: int, n: nat) -> Pen
    decreases n,
{
    let dx = gap(x0, x1);
    let dy = -gap(y0, y1);
    if n == 0 {
        Pen { x: x0, y: y0, err: dx + dy }
    } else {
        let p = pen(x0, y0, x1, y1, (n - 1) as nat);
        let right = 2 * p.err >= dy;
        let down = 2 * p.err <= dx;
        Pen {
            x: if right {
                p.x + toward(x0, x1)
            } else {
                p.x
            },
            y: if down {
                p.y + toward(y0, y1)
            } else {
                p.y
            },
            err: p.err + (if right {
                dy
            } else {
                0
            }) + (if down {
                dx
            } else {
                0
            }),
        }
    }
}

/// The pen has not come to the end of the line before step `n`.
pub open spec fn under_way(x0: int, y0: int, x1: int, y1: int, n: nat) -> bool {
    forall|m: nat| #![trigger pen(x0, y0, x1, y1, m)]
        m < n ==> !(pen(x0, y0, x1, y1, m).x == x1 && pen(x0, y0, x1, y1, m).y == y1)
}

/// The straight line between two pixels goes through a pixel.
pub open spec fn on_line(x0: int, y0: int, x1: int, y1: int, x: int, y: int) -> bool {
    exists|n: nat| #[trigger]
        under_way(x0, y0, x1, y1, n) && pen(x0, y0, x1, y1, n).x == x && pen(
            x0,
            y0,
            x1,
            y1,
            n,
        ).y == y
}

/// The pen is between the ends of the line, and knows how far it lags behind.
pub open spec fn pen_ok(x0: int, y0: int, x1: int, y1: int, p: Pen) -> bool {
    let a = gap(x0, x1);
    let b = gap(y0, y1);
    let i = gap(x0, p.x);
    let j = gap(y0, p.y);
    &&& p.x == x0 + i * toward(x0, x1)
    &&& p.y == y0 + j * toward(y0, y1)
    &&& 0 <= i <= a
    &&& 0 <= j <= b
    &&& p.err == (j + 1) * a - (i + 1) * b
    &&& -2 * b <= p.err <= 2 * a
}

/// The first pen is in order.
proof fn lemma_pen_start(x0: int, y0: int, x1: int, y1: int)
    ensures
        pen_ok(x0, y0, x1, y1, pen(x0, y0, x1, y1, 0)),
{
}

/// How far the pen has to go.
pub open spec fn to_go(x0: int, y0: int, x1: int, y1: int, p: Pen) -> int {
    gap(x0, x1) - gap(x0, p.x) + gap(y0, y1) - gap(y0, p.y)
}

/// A step keeps the pen in order and takes it nearer to the end.
proof fn lemma_pen_step(x0: int, y0: int, x1: int, y1: int, n: nat)
    requires
        pen_ok(x0, y0, x1, y1, pen(x0, y0, x1, y1, n)),
        !(pen(x0, y0, x1, y1, n).x == x1 && pen(x0, y0, x1, y1, n).y == y1),
    ensures
        pen_ok(x0, y0, x1, y1, pen(x0, y0, x1, y1, n + 1)),
        to_go(x0, y0, x1, y1, pen(x0, y0, x1, y1, n + 1)) < to_go(
            x0,
            y0,
            x1,
            y1,
            pen(x0, y0, x1, y1, n),
        ),
{
    let p = pen(x0, y0, x1, y1, n);
    let q = pen(x0, y0, x1, y1, n + 1);
    let a = gap(x0, x1);
    let b = gap(y0, y1);
    let i = gap(x0, p.x);
    let j = gap(y0, p.y);
    let sx = toward(x0, x1);
    let sy = toward(y0, y1);
    assert(i * sx == i || i * sx == -i) by (nonlinear_arith)
        requires
            sx == 1 || sx == -1,
    ;
    assert(j * sy == j || j * sy == -j) by (nonlinear_arith)
        requires
            sy == 1 || sy == -1,
    ;
    assert(i < a || j < b) by {
        if i == a && j == b {
            assert(i * sx == x1 - x0) by (nonlinear_arith)
                requires
                    i == a,
                    sx == 1 && a == x1 - x0 || sx == -1 && a == x0 - x1,
            ;
            assert(j * sy == y1 - y0) by (nonlinear_arith)
                requires
                    j == b,
                    sy == 1 && b == y1 - y0 || sy == -1 && b == y0 - y1,
            ;
        }
    }
    let right = 2 * p.err >= -b;
    let down = 2 * p.err <= a;
    if i == a {
        assert((j + 1) * a - (a + 1) * b <= -b) by (nonlinear_arith)
            requires
                j + 1 <= b,
                a >= 0,
        ;
        assert(!right);
    }
    if j == b {
        assert((b + 1) * a - (i + 1) * b >= a) by (nonlinear_arith)
            requires
                i + 1 <= a,
                b >= 0,
        ;
        assert(!down);
    }
    let i2 = if right {
        i + 1
    } else {
        i
    };
    let j2 = if down {
        j + 1
    } else {
        j
    };
    assert((j + 2) * a - (i + 1) * b == (j + 1) * a - (i + 1) * b + a) by (nonlinear_arith);
    assert((j + 1) * a - (i + 2) * b == (j + 1) * a - (i + 1) * b - b) by (nonlinear_arith);
    assert((j + 2) * a - (i + 2) * b == (j + 1) * a - (i + 1) * b + a - b) by (nonlinear_arith);
    assert((i + 1) * sx == i * sx + sx) by (nonlinear_arith);
    assert((j + 1) * sy == j * sy + sy) by (nonlinear_arith);
    assert(q.x == x0 + i2 * sx);
    assert(q.y == y0 + j2 * sy);
    assert(i2 * sx == i2 || i2 * sx == -i2) by (nonlinear_arith)
        requires
            sx == 1 || sx == -1,
    ;
    assert(j2 * sy == j2 || j2 * sy == -j2) by (nonlinear_arith)
        requires
            sy == 1 || sy == -1,
    ;
    assert(gap(x0, q.x) == i2);
    assert(gap(y0, q.y) == j2);
}

/// The pen stays in order until it comes to the end.
proof fn lemma_pen_ok(x0: int, y0: int, x1: int, y1: int, n: nat)
    requires
        under_way(x0, y0, x1, y1, n),
    ensures
        pen_ok(x0, y0, x1, y1, pen(x0, y0, x1, y1, n)),
    decreases n,
{
    if n == 0 {
        lemma_pen_start(x0, y0, x1, y1);
    } else {
        let m = (n - 1) as nat;
        assert(under_way(x0, y0, x1, y1, m));
        lemma_pen_ok(x0, y0, x1, y1, m);
        lemma_pen_step(x0, y0, x1, y1, m);
    }
}

/// The pen comes to the end.
proof fn lemma_pen_arrives(x0: int, y0: int, x1: int, y1: int, n: nat)
    requires
        under_way(x0, y0, x1, y1, n),
    ensures
        on_line(x0, y0, x1, y1, x1, y1),
    decreases to_go(x0, y0, x1, y1, pen(x0, y0, x1, y1, n)),
{
    lemma_pen_ok(x0, y0, x1, y1, n);
    let p = pen(x0, y0, x1, y1, n);
    if !(p.x == x1 && p.y == y1) {
        lemma_pen_step(x0, y0, x1, y1, n);
        assert forall|m: nat| #![trigger pen(x0, y0, x1, y1, m)] m < n + 1 implies !(pen(
            x0,
            y0,
            x1,
            y1,
            m,
        ).x == x1 && pen(x0, y0, x1, y1, m).y == y1) by {
            if m == n {
            }
        }
        lemma_pen_ok(x0, y0, x1, y1, n + 1);
        lemma_pen_arrives(x0, y0, x1, y1, n + 1);
    }
}

/// The longer side of the rectangle between two pixels.
pub open spec fn longer_side(x0: int, y0: int, x1: int, y1: int) -> int {
    if gap(x0, x1) >= gap(y0, y1) {
        gap(x0, x1)
    } else {
        gap(y0, y1)
    }
}

/// Every step takes the pen on along the longer side.
proof fn lemma_pen_longer(x0: int, y0: int, x1: int, y1: int, n: nat)
    ensures
        ({
            let p = pen(x0, y0, x1, y1, n);
            let a = gap(x0, x1);
            let b = gap(y0, y1);
            &&& a >= b ==> 2 * p.err >= -b && gap(x0, p.x) == n && p.x == (if x0 < x1 {
                x0 + n
            } else {
                x0 - n
            })
            &&& b >= a ==> 2 * p.err <= a && gap(y0, p.y) == n && p.y == (if y0 < y1 {
                y0 + n
            } else {
                y0 - n
            })
        }),
    decreases n,
{
    if n > 0 {
        lemma_pen_longer(x0, y0, x1, y1, (n - 1) as nat);
    }
}

/// A straight line has one pixel more than its longer side is long, and from each to the next is
/// one step in each direction at most.
pub proof fn law_line_length(x0: int, y0: int, x1: int, y1: int, n: nat)
    ensures
        under_way(x0, y0, x1, y1, n) <==> n <= longer_side(x0, y0, x1, y1),
        gap(pen(x0, y0, x1, y1, n).x, pen(x0, y0, x1, y1, n + 1).x) <= 1,
        gap(pen(x0, y0, x1, y1, n).y, pen(x0, y0, x1, y1, n + 1).y) <= 1,
{
    lemma_pen_longer(x0, y0, x1, y1, n);
    let long = longer_side(x0, y0, x1, y1);
    if under_way(x0, y0, x1, y1, n) {
        lemma_pen_ok(x0, y0, x1, y1, n);
    }
    if n <= long {
        assert forall|m: nat| #![trigger pen(x0, y0, x1, y1, m)] m < n implies !(pen(
            x0,
            y0,
            x1,
            y1,
            m,
        ).x == x1 && pen(x0, y0, x1, y1, m).y == y1) by {
            lemma_pen_longer(x0, y0, x1, y1, m);
        }
    }
}

/// A line goes through both of its ends.
pub proof fn law_line_ends(x0: int, y0: int, x1: int, y1: int)
    ensures
        on_line(x0, y0, x1, y1, x0, y0),
        on_line(x0, y0, x1, y1, x1, y1),
{
    assert(under_way(x0, y0, x1, y1, 0));
    lemma_pen_arrives(x0, y0, x1, y1, 0);
}

/// A line stays between its ends.
pub proof fn law_line_between(x0: int, y0: int, x1: int, y1: int, x: int, y: int)
    requires
        on_line(x0, y0, x1, y1, x, y),
    ensures
        gap(x0, x) <= gap(x0, x1),
        gap(y0, y) <= gap(y0, y1),
        x0 <= x1 ==> x0 <= x <= x1,
        x1 <= x0 ==> x1 <= x <= x0,
        y0 <= y1 ==> y0 <= y <= y1,
        y1 <= y0 ==> y1 <= y <= y0,
{
    let n = choose|n: nat| #[trigger]
        under_way(x0, y0, x1, y1, n) && pen(x0, y0, x1, y1, n).x == x && pen(
            x0,
            y0,
            x1,
            y1,
            n,
        ).y == y;
    lemma_pen_ok(x0, y0, x1, y1, n);
    let i = gap(x0, x);
    let j = gap(y0, y);
    let sx = toward(x0, x1);
    let sy = toward(y0, y1);
    assert(i * sx == i && sx == 1 || i * sx == -i && sx == -1) by (nonlinear_arith)
        requires
            sx == 1 || sx == -1,
    ;
    assert(j * sy == j && sy == 1 || j * sy == -j && sy == -1) by (nonlinear_arith)
        requires
            sy == 1 || sy == -1,
    ;
}

/// A line of one pixel goes through no other.
pub proof fn law_line_point(x0: int, y0: int, x: int, y: int)
    ensures
        on_line(x0, y0, x0, y0, x, y) == (x == x0 && y == y0),
{
    law_line_ends(x0, y0, x0, y0);
    if on_line(x0, y0, x0, y0, x, y) {
        law_line_between(x0, y0, x0, y0, x, y);
    }
}

/// The character of a cell.
pub open spec fn braille_char(bits: u8) -> char {
    (0x2800 + bits) as char
}

impl Braille {
    /// The extents of the canvas in characters.
    pub closed spec fn size(self) -> (nat, nat) {
        (self.cols as nat, self.rows as nat)
    }

    /// The cell in a column and a row.
    pub closed spec fn cell(self, c: int, r: int) -> u8 {
        self.cells@[r * self.cols + c]
    }

    /// There is a cell for every character, and pixels can be counted.
    pub closed spec fn wf(self) -> bool {
        &&& self.cells@.len() == self.cols as nat * self.rows as nat
        &&& self.cols * 2 <= isize::MAX
        &&& self.rows * 4 <= isize::MAX
    }

    /// The pixel is part of the canvas.
    pub open spec fn inside(self, x: int, y: int) -> bool {
        0 <= x < 2 * self.size().0 && 0 <= y < 4 * self.size().1
    }

    /// The pixel is lit.
    pub open spec fn lit(self, x: int, y: int) -> bool {
        self.inside(x, y) && self.cell(x / 2, y / 4) & dot(x % 2, y % 4) != 0
    }

    /// Creates a canvas `cols` characters wide and `rows` characters tall.
    #[must_use]
    pub fn new(cols: usize, rows: usize) -> (r: Self)
        requires
            cols * rows <= usize::MAX,
            cols * 2 <= isize::MAX,
            rows * 4 <= isize::MAX,
        ensures
            r.wf(),
            r.size() == (cols as nat, rows as nat),
            forall|x: int, y: int| !#[trigger] r.lit(x, y),
    {
        let cells = crate::dense::filled(cols * rows, 0u8);
        let r = Braille { cols, rows, cells };
        proof {
            assert forall|x: int, y: int| !#[trigger] r.lit(x, y) by {
                if r.inside(x, y) {
                    r.lemma_cell(x / 2, y / 4);
                    let d = dot(x % 2, y % 4);
                    assert(0u8 & d == 0) by (bit_vector);
                }
            }
        }
        r
    }

    /// The place of a cell.
    proof fn lemma_cell(self, c: int, r: int)
        requires
            self.wf(),
            0 <= c < self.cols,
            0 <= r < self.rows,
        ensures
            0 <= r * self.cols + c < self.cells@.len(),
            r * self.cols <= self.cells@.len(),
    {
        lemma_index2(r, self.rows as int, c, self.cols as int);
        assert(self.rows * self.cols == self.cols * self.rows) by (nonlinear_arith);
        assert(0 <= r * self.cols) by (nonlinear_arith)
            requires
                0 <= r,
        ;
    }

    /// Pixel width of the canvas.
    #[must_use]
    pub fn width(&self) -> (r: usize)
        requires
            self.wf(),
        ensures
            r == 2 * self.size().0,
    {
        self.cols * 2
    }

    /// Pixel height of the canvas.
    #[must_use]
    pub fn height(&self) -> (r: usize)
        requires
            self.wf(),
        ensures
            r == 4 * self.size().1,
    {
        self.rows * 4
    }

    /// Lights the pixel at `(x, y)`, with `(0, 0)` at the top left.
    pub fn set(&mut self, x: usize, y: usize)
        requires
            old(self).wf(),
        ensures
            final(self).wf(),
            final(self).size() == old(self).size(),
            forall|u: int, v: int| #[trigger]
                final(self).lit(u, v) == (old(self).lit(u, v) || u == x && v == y && old(
                    self,
                ).inside(u, v)),
    {
        if x >= self.width() || y >= self.height() {
            return;
        }
        let ghost before = *self;
        let cx: usize = x / 2;
        let cy: usize = y / 4;
        proof {
            self.lemma_cell(cx as int, cy as int);
        }
        let len: usize = self.cells.len();
        let at: usize = cy * self.cols + cx;
        let bit = dot_bit(x % 2, y % 4);
        let old_cell: u8 = self.cells[at];
        self.cells[at] = old_cell | bit;
        proof {
            assert forall|u: int, v: int| #[trigger]
                self.lit(u, v) == (before.lit(u, v) || u == x && v == y && before.inside(u, v)) by {
                if before.inside(u, v) {
                    let (c, r) = (u / 2, v / 4);
                    before.lemma_cell(c, r);
                    let e = dot(u % 2, v % 4);
                    lemma_set_bit(old_cell, bit, e);
                    lemma_join2(r, c, self.cols as int);
                    lemma_join2(cy as int, cx as int, self.cols as int);
                    if r * self.cols + c == at {
                        assert(r == cy && c == cx);
                    }
                }
            }
        }
    }

    /// Draws a straight line between two pixels (Bresenham).
    pub fn line(&mut self, x0: isize, y0: isize, x1: isize, y1: isize)
        requires
            old(self).wf(),
            4 * gap(x0 as int, x1 as int) < isize::MAX,
            4 * gap(y0 as int, y1 as int) < isize::MAX,
        ensures
            final(self).wf(),
            final(self).size() == old(self).size(),
            forall|u: int, v: int| #[trigger]
                final(self).lit(u, v) == (old(self).lit(u, v) || old(self).inside(u, v) && on_line(
                    x0 as int,
                    y0 as int,
                    x1 as int,
                    y1 as int,
                    u,
                    v,
                )),
    {
        let ghost before = *self;
        let ghost (a0, b0, a1, b1) = (x0 as int, y0 as int, x1 as int, y1 as int);
        let dx: isize = if x0 < x1 {
            x1 - x0
        } else {
            x0 - x1
        };
        let dy: isize = if y0 < y1 {
            y0 - y1
        } else {
            y1 - y0
        };
        let sx: isize = if x0 < x1 {
            1
        } else {
            -1
        };
        let sy: isize = if y0 < y1 {
            1
        } else {
            -1
        };
        let mut x: isize = x0;
        let mut y: isize = y0;
        let mut err: isize = dx + dy;
        let ghost mut n: nat = 0;
        proof {
            lemma_pen_start(a0, b0, a1, b1);
        }
        loop
            invariant_except_break
                forall|u: int, v: int| #[trigger]
                    self.lit(u, v) == (before.lit(u, v) || before.inside(u, v) && visited(
                        a0,
                        b0,
                        a1,
                        b1,
                        n,
                        u,
                        v,
                    )),
            invariant
                self.wf(),
                before.wf(),
                self.size() == before.size(),
                a0 == x0 && b0 == y0 && a1 == x1 && b1 == y1,
                dx == gap(a0, a1),
                dy == -gap(b0, b1),
                sx == toward(a0, a1),
                sy == toward(b0, b1),
                4 * gap(a0, a1) < isize::MAX,
                4 * gap(b0, b1) < isize::MAX,
                pen(a0, b0, a1, b1, n) == (Pen { x: x as int, y: y as int, err: err as int }),
                pen_ok(a0, b0, a1, b1, pen(a0, b0, a1, b1, n)),
                under_way(a0, b0, a1, b1, n),
            ensures
                self.wf(),
                self.size() == before.size(),
                forall|u: int, v: int| #[trigger]
                    self.lit(u, v) == (before.lit(u, v) || before.inside(u, v) && on_line(
                        a0,
                        b0,
                        a1,
                        b1,
                        u,
                        v,
                    )),
            decreases to_go(a0, b0, a1, b1, Pen { x: x as int, y: y as int, err: err as int }),
        {
            let ghost here = *self;
            if x >= 0 && y >= 0 {
                self.set(x as usize, y as usize);
            }
            proof {
                assert forall|u: int, v: int| #[trigger]
                    self.lit(u, v) == (before.lit(u, v) || before.inside(u, v) && visited(
                        a0,
                        b0,
                        a1,
                        b1,
                        n + 1,
                        u,
                        v,
                    )) by {
                    assert(here.lit(u, v) == (before.lit(u, v) || before.inside(u, v) && visited(
                        a0,
                        b0,
                        a1,
                        b1,
                        n,
                        u,
                        v,
                    )));
                    lemma_visited_next(a0, b0, a1, b1, n, u, v);
                }
            }
            if x == x1 && y == y1 {
                proof {
                    assert forall|u: int, v: int| visited(a0, b0, a1, b1, n + 1, u, v) == on_line(
                        a0,
                        b0,
                        a1,
                        b1,
                        u,
                        v,
                    ) by {
                        lemma_visited_all(a0, b0, a1, b1, n, u, v);
                    }
                }
                break;
            }
            proof {
                lemma_pen_step(a0, b0, a1, b1, n);
                lemma_pen_range(a0, b0, a1, b1, pen(a0, b0, a1, b1, n + 1));
                assert forall|m: nat| #![trigger pen(a0, b0, a1, b1, m)] m < n + 1 implies !(pen(
                    a0,
                    b0,
                    a1,
                    b1,
                    m,
                ).x == a1 && pen(a0, b0, a1, b1, m).y == b1) by {
                    if m == n {
                    }
                }
            }
            let e2: isize = 2 * err;
            if e2 >= dy {
                err = err + dy;
                x = x + sx;
            }
            if e2 <= dx {
                err = err + dx;
                y = y + sy;
            }
            proof {
                n = n + 1;
            }
        }
    }

    /// Plots a series, scaling it to fill the canvas, with high values at the top. A single value
    /// is one pixel at half height.
    pub fn plot<S: Scalar>(&mut self, values: &[S])
        requires
            old(self).wf(),
            8 * old(self).size().0 < isize::MAX,
            16 * old(self).size().1 < isize::MAX,
        ensures
            final(self).wf(),
            final(self).size() == old(self).size(),
            forall|u: int, v: int| #[trigger]
                final(self).lit(u, v) == (old(self).lit(u, v) || old(self).inside(u, v) && plotted(
                    values@,
                    old(self).size(),
                    u,
                    v,
                )),
    {
        let ghost before = *self;
        let width: usize = self.width();
        let height: usize = self.height();
        if values.len() < 2 {
            if values.len() == 1 {
                self.set(0, height / 2);
            }
            return;
        }
        let (lo, hi) = bounds(values);
        let span = span_of(lo, hi);
        let px: usize = if width > 0 {
            width - 1
        } else {
            0
        };
        let py: usize = if height > 0 {
            height - 1
        } else {
            0
        };
        let one_s = S::constant(Constant::One);
        let last: usize = values.len() - 1;
        let mut prev: (usize, usize) = (0, 0);
        let mut i: usize = 0;
        while i < values.len()
            invariant
                i <= values@.len(),
                values@.len() >= 2,
                last == values@.len() - 1,
                before.wf(),
                self.wf(),
                self.size() == before.size(),
                8 * before.size().0 < isize::MAX,
                16 * before.size().1 < isize::MAX,
                px == last_pixel(2 * before.size().0),
                py == last_pixel(4 * before.size().1),
                one_s == one::<S>(),
                span == spread(values@),
                lo == lowest(values@, values@.len()),
                i > 0 ==> prev == plot_point(values@, before.size(), i - 1),
                forall|u: int, v: int| #[trigger]
                    self.lit(u, v) == (before.lit(u, v) || before.inside(u, v) && exists|k: int|
                        0 <= k < i - 1 && #[trigger] segment(values@, before.size(), k, u, v)),
            decreases values@.len() - i,
        {
            let ghost here = *self;
            let x = pixel(S::count(i).div(S::count(last)).mul(S::count(px)), px);
            let y = pixel(one_s.sub(values[i].sub(lo).div(span)).mul(S::count(py)), py);
            assert((x, y) == plot_point(values@, before.size(), i as int));
            if i > 0 {
                self.line(prev.0 as isize, prev.1 as isize, x as isize, y as isize);
                proof {
                    assert forall|u: int, v: int| #[trigger]
                        self.lit(u, v) == (before.lit(u, v) || before.inside(u, v) && exists|k: int|
                            0 <= k < i && #[trigger] segment(values@, before.size(), k, u, v)) by {
                        let old_one = exists|k: int|
                            0 <= k < i - 1 && #[trigger] segment(values@, before.size(), k, u, v);
                        assert(here.lit(u, v) == (before.lit(u, v) || before.inside(u, v)
                            && old_one));
                        if segment(values@, before.size(), i - 1, u, v) {
                        }
                    }
                }
            }
            prev = (x, y);
            i = i + 1;
        }
    }

    /// Renders the canvas to one string per row.
    #[must_use]
    pub fn rows(&self) -> (r: Vec<String>)
        requires
            self.wf(),
        ensures
            r@.len() == self.size().1,
            forall|i: int|
                0 <= i < r@.len() ==> (#[trigger] r@[i])@ == Seq::new(
                    self.size().0,
                    |c: int| braille_char(self.cell(c, i)),
                ),
    {
        let mut out: Vec<String> = Vec::new();
        let mut r: usize = 0;
        while r < self.rows
            invariant
                self.wf(),
                r <= self.rows,
                out@.len() == r,
                forall|i: int|
                    0 <= i < r ==> (#[trigger] out@[i])@ == Seq::new(
                        self.size().0,
                        |c: int| braille_char(self.cell(c, i)),
                    ),
            decreases self.rows - r,
        {
            let ghost want = Seq::new(self.size().0, |c: int| braille_char(self.cell(c, r as int)));
            let mut row: Vec<char> = Vec::new();
            let mut c: usize = 0;
            while c < self.cols
                invariant
                    self.wf(),
                    r < self.rows,
                    c <= self.cols,
                    want == Seq::new(
                        self.size().0,
                        |c: int| braille_char(self.cell(c, r as int)),
                    ),
                    row@.len() == c,
                    forall|k: int| 0 <= k < c ==> #[trigger] row@[k] == want[k],
                decreases self.cols - c,
            {
                proof {
                    self.lemma_cell(c as int, r as int);
                }
                let len: usize = self.cells.len();
                let bits: u8 = self.cells[r * self.cols + c];
                row.push(char_from(0x2800 + bits as u32));
                c = c + 1;
            }
            assert(row@ =~= want);
            out.push(to_text(&row));
            r = r + 1;
        }
        out
    }
}

/// The smallest of the first `n` values, or infinity.
pub open spec fn lowest<S: Scalar>(values: Seq<S>, n: nat) -> S
    decreases n,
{
    if n == 0 {
        S::constant_spec(Constant::Infinity)
    } else {
        let before = lowest(values, (n - 1) as nat);
        if S::gt_spec(before, values[n - 1]) {
            values[n - 1]
        } else {
            before
        }
    }
}

/// The largest of the first `n` values, or minus infinity.
pub open spec fn highest<S: Scalar>(values: Seq<S>, n: nat) -> S
    decreases n,
{
    if n == 0 {
        S::constant_spec(Constant::NegInfinity)
    } else {
        let before = highest(values, (n - 1) as nat);
        if S::gt_spec(values[n - 1], before) {
            values[n - 1]
        } else {
            before
        }
    }
}

/// The distance between two values, and 1 where there is next to none.
pub open spec fn span_between<S: Scalar>(lo: S, hi: S) -> S {
    let d = S::sub_spec(hi, lo);
    let size = if S::gt_spec(zero::<S>(), d) {
        S::sub_spec(zero::<S>(), d)
    } else {
        d
    };
    if S::gt_spec(S::constant_spec(Constant::Epsilon), size) {
        one::<S>()
    } else {
        d
    }
}

/// The range of the values.
pub open spec fn spread<S: Scalar>(values: Seq<S>) -> S {
    span_between(lowest(values, values.len()), highest(values, values.len()))
}

/// The last of `n` pixels.
pub open spec fn last_pixel(n: nat) -> int {
    if n > 0 {
        n - 1
    } else {
        0
    }
}

/// The pixel nearest to a number: 0 where it is not a positive number, and at most the last.
pub open spec fn pixel_at<S: Scalar>(x: S, last: int) -> usize {
    match S::index_spec(x) {
        Some(i) => if i <= last {
            i
        } else {
            last as usize
        },
        None => 0,
    }
}

/// Where value `i` of a series is plotted.
pub open spec fn plot_point<S: Scalar>(values: Seq<S>, size: (nat, nat), i: int) -> (usize, usize) {
    let px = last_pixel(2 * size.0);
    let py = last_pixel(4 * size.1);
    let across = S::div_spec(
        S::count_spec(i as usize),
        S::count_spec((values.len() - 1) as usize),
    );
    let up = S::div_spec(S::sub_spec(values[i], lowest(values, values.len())), spread(values));
    (
        pixel_at(S::mul_spec(across, S::count_spec(px as usize)), px),
        pixel_at(
            S::mul_spec(S::sub_spec(one::<S>(), up), S::count_spec(py as usize)),
            py,
        ),
    )
}

/// The line from value `k` to the next goes through a pixel.
pub open spec fn segment<S: Scalar>(
    values: Seq<S>,
    size: (nat, nat),
    k: int,
    u: int,
    v: int,
) -> bool {
    let p = plot_point(values, size, k);
    let q = plot_point(values, size, k + 1);
    on_line(p.0 as int, p.1 as int, q.0 as int, q.1 as int, u, v)
}

/// The plot of a series goes through a pixel.
pub open spec fn plotted<S: Scalar>(values: Seq<S>, size: (nat, nat), u: int, v: int) -> bool {
    if values.len() == 0 {
        false
    } else if values.len() == 1 {
        u == 0 && v == 2 * size.1
    } else {
        exists|k: int| 0 <= k < values.len() - 1 && #[trigger] segment(values, size, k, u, v)
    }
}

/// The smallest and the largest value.
pub(crate) fn bounds<S: Scalar>(values: &[S]) -> (r: (S, S))
    ensures
        r.0 == lowest(values@, values@.len()),
        r.1 == highest(values@, values@.len()),
{
    let mut lo = S::constant(Constant::Infinity);
    let mut hi = S::constant(Constant::NegInfinity);
    let mut i: usize = 0;
    while i < values.len()
        invariant
            i <= values@.len(),
            lo == lowest(values@, i as nat),
            hi == highest(values@, i as nat),
        decreases values@.len() - i,
    {
        let v = values[i];
        if lo.gt(v) {
            lo = v;
        }
        if v.gt(hi) {
            hi = v;
        }
        i = i + 1;
    }
    (lo, hi)
}

/// The distance between two values, and 1 where there is next to none.
pub(crate) fn span_of<S: Scalar>(lo: S, hi: S) -> (r: S)
    ensures
        r == span_between(lo, hi),
{
    let d = hi.sub(lo);
    let zero_s = S::constant(Constant::Zero);
    let size = if zero_s.gt(d) {
        zero_s.sub(d)
    } else {
        d
    };
    if S::constant(Constant::Epsilon).gt(size) {
        S::constant(Constant::One)
    } else {
        d
    }
}

/// The pixel nearest to a number.
fn pixel<S: Scalar>(x: S, last: usize) -> (r: usize)
    ensures
        r == pixel_at(x, last as int),
        r <= last,
{
    match x.index() {
        Some(i) => if i <= last {
            i
        } else {
            last
        },
        None => 0,
    }
}

/// The first `n` pixels of a line go through a pixel.
spec fn visited(x0: int, y0: int, x1: int, y1: int, n: nat, x: int, y: int) -> bool {
    exists|m: nat|
        m < n && (#[trigger] pen(x0, y0, x1, y1, m)).x == x && pen(x0, y0, x1, y1, m).y == y
}

proof fn lemma_visited_next(x0: int, y0: int, x1: int, y1: int, n: nat, x: int, y: int)
    ensures
        visited(x0, y0, x1, y1, n + 1, x, y) == (visited(x0, y0, x1, y1, n, x, y) || pen(
            x0,
            y0,
            x1,
            y1,
            n,
        ).x == x && pen(x0, y0, x1, y1, n).y == y),
{
    if visited(x0, y0, x1, y1, n, x, y) {
        let m = choose|m: nat|
            m < n && (#[trigger] pen(x0, y0, x1, y1, m)).x == x && pen(x0, y0, x1, y1, m).y == y;
        assert(pen(x0, y0, x1, y1, m).x == x);
    }
    if visited(x0, y0, x1, y1, n + 1, x, y) {
        let m = choose|m: nat|
            m < n + 1 && (#[trigger] pen(x0, y0, x1, y1, m)).x == x && pen(
                x0,
                y0,
                x1,
                y1,
                m,
            ).y == y;
        if m < n {
            assert(pen(x0, y0, x1, y1, m).x == x);
        }
    }
}

/// At the end of a line all of its pixels were visited.
proof fn lemma_visited_all(x0: int, y0: int, x1: int, y1: int, n: nat, x: int, y: int)
    requires
        under_way(x0, y0, x1, y1, n),
        pen(x0, y0, x1, y1, n).x == x1,
        pen(x0, y0, x1, y1, n).y == y1,
    ensures
        visited(x0, y0, x1, y1, n + 1, x, y) == on_line(x0, y0, x1, y1, x, y),
{
    if visited(x0, y0, x1, y1, n + 1, x, y) {
        let m = choose|m: nat|
            m < n + 1 && (#[trigger] pen(x0, y0, x1, y1, m)).x == x && pen(
                x0,
                y0,
                x1,
                y1,
                m,
            ).y == y;
        assert(under_way(x0, y0, x1, y1, m));
    }
    if on_line(x0, y0, x1, y1, x, y) {
        let m = choose|m: nat| #[trigger]
            under_way(x0, y0, x1, y1, m) && pen(x0, y0, x1, y1, m).x == x && pen(
                x0,
                y0,
                x1,
                y1,
                m,
            ).y == y;
        if m > n {
            assert(pen(x0, y0, x1, y1, n).x == x1);
        }
        assert(pen(x0, y0, x1, y1, m).x == x);
    }
}

/// The pen stays in the range of machine integers.
proof fn lemma_pen_range(x0: int, y0: int, x1: int, y1: int, p: Pen)
    requires
        pen_ok(x0, y0, x1, y1, p),
    ensures
        x0 <= p.x <= x1 || x1 <= p.x <= x0,
        y0 <= p.y <= y1 || y1 <= p.y <= y0,
{
    let i = gap(x0, p.x);
    let j = gap(y0, p.y);
    let sx = toward(x0, x1);
    let sy = toward(y0, y1);
    assert(i * sx == i && sx == 1 || i * sx == -i && sx == -1) by (nonlinear_arith)
        requires
            sx == 1 || sx == -1,
    ;
    assert(j * sy == j && sy == 1 || j * sy == -j && sy == -1) by (nonlinear_arith)
        requires
            sy == 1 || sy == -1,
    ;
}

} // verus!
