//! What the dashboard remembers of a run, and how its frames are put together.
use vstd::prelude::*;
use crate::scalar::{Constant, Scalar};
use crate::text::{decimal, push_number, push_text, to_text};
use crate::tui::chart::{
    ascii_plot, ascii_rows, braille_rows, cell_views, colorize_row, curves, merged, row_text, Cells,
    PANEL_W,
};
use crate::tui::canvas::Braille;
use crate::tui::style::{
    glyph_text, repeated, visible, visible_len, Glyph, Rgb, Theme, ACCENT, ACCENT2, DIM, TEXT,
};

verus! {

/// Total dashboard width: two panels (`PANEL_W` + 4 each) plus the 2-space gap.
pub const TOTAL_W: usize = 78;

/// Width of the progress bar, in characters.
pub const BAR_W: usize = 46;

/// One recorded epoch.
#[derive(Debug, Clone, Copy)]
pub struct Point<S> {
    pub train_loss: S,
    pub val_loss: Option<S>,
    pub val_acc: Option<S>,
    pub vram_mb: Option<usize>,
    pub ram_gb: S,
}

/// What the dashboard remembers of a run.
#[derive(Debug)]
pub struct History<S> {
    pub points: Vec<Point<S>>,
    /// The epoch of each point.
    pub epochs: Vec<usize>,
    /// The best validation accuracy.
    pub best_acc: S,
    /// The epoch of the best validation accuracy.
    pub best_epoch: usize,
}

/// The best validation accuracy of the first `n` points and its epoch: the first of those that
/// none before reaches.
pub open spec fn best_of<S: Scalar>(points: Seq<Point<S>>, epochs: Seq<usize>, n: nat) -> (S, usize)
    decreases n,
{
    if n == 0 {
        (S::constant_spec(Constant::NegInfinity), 0)
    } else {
        let before = best_of(points, epochs, (n - 1) as nat);
        match points[n - 1].val_acc {
            Some(acc) => if S::gt_spec(acc, before.0) {
                (acc, epochs[n - 1])
            } else {
                before
            },
            None => before,
        }
    }
}

/// The first points decide the best of them.
proof fn lemma_best_prefix<S: Scalar>(
    a: Seq<Point<S>>,
    b: Seq<Point<S>>,
    ea: Seq<usize>,
    eb: Seq<usize>,
    n: nat,
)
    requires
        n <= a.len(),
        n <= ea.len(),
        forall|i: int| 0 <= i < n ==> a[i] == #[trigger] b[i],
        forall|i: int| 0 <= i < n ==> ea[i] == #[trigger] eb[i],
    ensures
        best_of(a, ea, n) == best_of(b, eb, n),
    decreases n,
{
    if n > 0 {
        lemma_best_prefix(a, b, ea, eb, (n - 1) as nat);
        assert(a[n - 1] == b[n - 1]);
        assert(ea[n - 1] == eb[n - 1]);
    }
}

/// The most device memory that the first `n` points report.
pub open spec fn peak_vram_of<S>(points: Seq<Point<S>>, n: nat) -> Option<usize>
    decreases n,
{
    if n == 0 {
        None
    } else {
        let before = peak_vram_of(points, (n - 1) as nat);
        match (points[n - 1].vram_mb, before) {
            (Some(m), Some(p)) => if m > p {
                Some(m)
            } else {
                Some(p)
            },
            (Some(m), None) => Some(m),
            (None, _) => before,
        }
    }
}

/// The peak is reported, and nothing reported exceeds it.
pub proof fn law_peak_vram<S>(points: Seq<Point<S>>, n: nat)
    requires
        n <= points.len(),
    ensures
        peak_vram_of(points, n) matches Some(p) ==> {
            &&& exists|i: int| 0 <= i < n && (#[trigger] points[i]).vram_mb == Some(p)
            &&& forall|i: int|
                0 <= i < n ==> ((#[trigger] points[i]).vram_mb matches Some(m) ==> m <= p)
        },
        peak_vram_of(points, n) is None ==> forall|i: int|
            0 <= i < n ==> (#[trigger] points[i]).vram_mb is None,
    decreases n,
{
    if n > 0 {
        law_peak_vram(points, (n - 1) as nat);
        assert(points[n - 1] == points[n - 1]);
    }
}

impl<S: Scalar> History<S> {
    /// The best accuracy is that of the points.
    pub open spec fn wf(self) -> bool {
        &&& self.points@.len() == self.epochs@.len()
        &&& (self.best_acc, self.best_epoch) == best_of(
            self.points@,
            self.epochs@,
            self.points@.len(),
        )
    }

    /// Nothing recorded.
    #[must_use]
    pub fn new() -> (r: Self)
        ensures
            r.wf(),
            r.points@ == Seq::<Point<S>>::empty(),
    {
        History {
            points: Vec::new(),
            epochs: Vec::new(),
            best_acc: S::constant(Constant::NegInfinity),
            best_epoch: 0,
        }
    }

    /// Records an epoch.
    pub fn record(&mut self, epoch: usize, point: Point<S>)
        requires
            old(self).wf(),
        ensures
            final(self).wf(),
            final(self).points@ == old(self).points@.push(point),
            final(self).epochs@ == old(self).epochs@.push(epoch),
    {
        let ghost before = *self;
        let ghost n = self.points@.len();
        self.points.push(point);
        self.epochs.push(epoch);
        if let Some(acc) = point.val_acc {
            if acc.gt(self.best_acc) {
                self.best_acc = acc;
                self.best_epoch = epoch;
            }
        }
        proof {
            lemma_best_prefix(before.points@, self.points@, before.epochs@, self.epochs@, n);
            assert(self.points@[n as int] == point);
            assert(self.epochs@[n as int] == epoch);
        }
    }

    /// The most device memory that was reported.
    #[must_use]
    pub fn peak_vram(&self) -> (r: Option<usize>)
        ensures
            r == peak_vram_of(self.points@, self.points@.len()),
    {
        let mut peak: Option<usize> = None;
        let mut i: usize = 0;
        while i < self.points.len()
            invariant
                i <= self.points@.len(),
                peak == peak_vram_of(self.points@, i as nat),
            decreases self.points@.len() - i,
        {
            match (self.points[i].vram_mb, peak) {
                (Some(m), Some(p)) => {
                    if m > p {
                        peak = Some(m);
                    }
                },
                (Some(m), None) => {
                    peak = Some(m);
                },
                (None, _) => {},
            }
            i = i + 1;
        }
        peak
    }

    /// The training losses.
    #[must_use]
    pub fn train_losses(&self) -> (r: Vec<S>)
        ensures
            r@ == self.points@.map_values(|p: Point<S>| p.train_loss),
    {
        let mut out: Vec<S> = Vec::new();
        let mut i: usize = 0;
        while i < self.points.len()
            invariant
                i <= self.points@.len(),
                out@.len() == i,
                forall|k: int| 0 <= k < i ==> #[trigger] out@[k] == self.points@[k].train_loss,
            decreases self.points@.len() - i,
        {
            out.push(self.points[i].train_loss);
            i = i + 1;
        }
        assert(out@ =~= self.points@.map_values(|p: Point<S>| p.train_loss));
        out
    }

    /// The validation losses, where there are any.
    #[must_use]
    pub fn val_losses(&self) -> (r: Vec<S>)
        ensures
            r@ == present(
                self.points@.map_values(|p: Point<S>| p.val_loss),
                self.points@.len(),
            ),
    {
        let ghost vs = self.points@.map_values(|p: Point<S>| p.val_loss);
        let mut out: Vec<S> = Vec::new();
        let mut i: usize = 0;
        while i < self.points.len()
            invariant
                i <= self.points@.len(),
                vs == self.points@.map_values(|p: Point<S>| p.val_loss),
                out@ == present(vs, i as nat),
            decreases self.points@.len() - i,
        {
            assert(vs[i as int] == self.points@[i as int].val_loss);
            if let Some(v) = self.points[i].val_loss {
                out.push(v);
            }
            i = i + 1;
        }
        out
    }

    /// The validation accuracies, where there are any.
    #[must_use]
    pub fn val_accs(&self) -> (r: Vec<S>)
        ensures
            r@ == present(
                self.points@.map_values(|p: Point<S>| p.val_acc),
                self.points@.len(),
            ),
    {
        let ghost vs = self.points@.map_values(|p: Point<S>| p.val_acc);
        let mut out: Vec<S> = Vec::new();
        let mut i: usize = 0;
        while i < self.points.len()
            invariant
                i <= self.points@.len(),
                vs == self.points@.map_values(|p: Point<S>| p.val_acc),
                out@ == present(vs, i as nat),
            decreases self.points@.len() - i,
        {
            assert(vs[i as int] == self.points@[i as int].val_acc);
            if let Some(v) = self.points[i].val_acc {
                out.push(v);
            }
            i = i + 1;
        }
        out
    }

    /// How far the training loss moved in the last epoch; zero in the first.
    #[must_use]
    pub fn loss_change(&self) -> (r: S)
        ensures
            r == (if self.points@.len() >= 2 {
                S::sub_spec(
                    self.points@.last().train_loss,
                    self.points@[self.points@.len() - 2].train_loss,
                )
            } else {
                S::constant_spec(Constant::Zero)
            }),
    {
        let n: usize = self.points.len();
        if n >= 2 {
            self.points[n - 1].train_loss.sub(self.points[n - 2].train_loss)
        } else {
            S::constant(Constant::Zero)
        }
    }

    /// The device memory of the epochs that report it, in MiB.
    #[must_use]
    pub fn vrams(&self) -> (r: Vec<usize>)
        ensures
            r@ == present(
                self.points@.map_values(|p: Point<S>| p.vram_mb),
                self.points@.len(),
            ),
    {
        let ghost vs = self.points@.map_values(|p: Point<S>| p.vram_mb);
        let mut out: Vec<usize> = Vec::new();
        let mut i: usize = 0;
        while i < self.points.len()
            invariant
                i <= self.points@.len(),
                vs == self.points@.map_values(|p: Point<S>| p.vram_mb),
                out@ == present(vs, i as nat),
            decreases self.points@.len() - i,
        {
            assert(vs[i as int] == self.points@[i as int].vram_mb);
            if let Some(v) = self.points[i].vram_mb {
                out.push(v);
            }
            i = i + 1;
        }
        out
    }

    /// The host memory of the epochs.
    #[must_use]
    pub fn rams(&self) -> (r: Vec<S>)
        ensures
            r@ == self.points@.map_values(|p: Point<S>| p.ram_gb),
    {
        let mut out: Vec<S> = Vec::new();
        let mut i: usize = 0;
        while i < self.points.len()
            invariant
                i <= self.points@.len(),
                out@.len() == i,
                forall|k: int| 0 <= k < i ==> #[trigger] out@[k] == self.points@[k].ram_gb,
            decreases self.points@.len() - i,
        {
            out.push(self.points[i].ram_gb);
            i = i + 1;
        }
        assert(out@ =~= self.points@.map_values(|p: Point<S>| p.ram_gb));
        out
    }
}

/// Those of the first `n` values that are there.
pub open spec fn present<S>(vs: Seq<Option<S>>, n: nat) -> Seq<S>
    decreases n,
{
    if n == 0 {
        Seq::empty()
    } else {
        match vs[n - 1] {
            Some(v) => present(vs, (n - 1) as nat).push(v),
            None => present(vs, (n - 1) as nat),
        }
    }
}

/// Peak device memory in MiB, if there is any.
#[must_use]
pub fn peak_mb(bytes: usize) -> (r: Option<usize>)
    ensures
        bytes == 0 ==> r is None,
        bytes > 0 ==> r == Some((bytes / 1048576) as usize),
{
    if bytes == 0 {
        None
    } else {
        Some(bytes / 1048576)
    }
}

/// `n` times a text.
pub open spec fn times(s: Seq<char>, n: nat) -> Seq<char>
    decreases n,
{
    if n == 0 {
        Seq::empty()
    } else {
        times(s, (n - 1) as nat) + s
    }
}

/// Writes a text `n` times.
pub(crate) fn push_times(out: &mut Vec<char>, s: &str, n: usize)
    ensures
        final(out)@ == old(out)@ + times(s@, n as nat),
{
    let ghost before = out@;
    let mut i: usize = 0;
    assert(before + times(s@, 0) =~= before);
    while i < n
        invariant
            i <= n,
            out@ == before + times(s@, i as nat),
        decreases n - i,
    {
        push_text(out, s);
        i = i + 1;
        assert(out@ =~= before + times(s@, i as nat));
    }
}

/// The top border of a panel, with its title.
pub open spec fn panel_top(t: Theme, title: Seq<char>) -> Seq<char> {
    let u = t.unicode;
    let h = glyph_text(Glyph::Horizontal, u);
    let head = glyph_text(Glyph::TopLeft, u) + h + " "@ + title + " "@;
    let used = visible(head);
    head + times(
        h,
        if used < PANEL_W + 3 {
            (PANEL_W + 3 - used) as nat
        } else {
            0
        },
    ) + glyph_text(Glyph::TopRight, u)
}

/// The bottom border of a panel.
pub open spec fn panel_bottom(t: Theme) -> Seq<char> {
    let u = t.unicode;
    glyph_text(Glyph::BottomLeft, u) + times(glyph_text(Glyph::Horizontal, u), 36) + glyph_text(
        Glyph::BottomRight,
        u,
    )
}

/// One row of a panel.
pub open spec fn panel_row(t: Theme, row: Seq<(char, usize)>, colors: Seq<Rgb>) -> Seq<char> {
    let side = t.in_color(glyph_text(Glyph::Vertical, t.unicode), DIM);
    side + " "@ + row_text(t, row, colors, row.len()) + " "@ + side
}

/// A bordered panel around the rows of a chart.
pub open spec fn panel_text(
    t: Theme,
    title: Seq<char>,
    rows: Seq<Seq<(char, usize)>>,
    colors: Seq<Rgb>,
) -> Seq<Seq<char>> {
    seq![t.in_color(panel_top(t, title), DIM)] + rows.map_values(
        |r: Seq<(char, usize)>| panel_row(t, r, colors),
    ) + seq![t.in_color(panel_bottom(t), DIM)]
}

/// What lines hold.
pub open spec fn line_views(lines: Seq<String>) -> Seq<Seq<char>> {
    lines.map_values(|l: String| l@)
}

/// Puts a border and a title around the rows of a chart.
#[must_use]
pub(crate) fn frame_panel(t: &Theme, title: &str, rows: &Cells, colors: &[Rgb]) -> (r: Vec<String>)
    ensures
        line_views(r@) == panel_text(*t, title@, cell_views(rows@), colors@),
{
    let mut lines: Vec<String> = Vec::new();
    let mut head: Vec<char> = Vec::new();
    let h = t.glyph(Glyph::Horizontal);
    push_text(&mut head, t.glyph(Glyph::TopLeft));
    push_text(&mut head, h);
    push_text(&mut head, " ");
    push_text(&mut head, title);
    push_text(&mut head, " ");
    let used = visible_len(to_text(&head).as_str());
    let fill: usize = if used < PANEL_W + 3 {
        PANEL_W + 3 - used
    } else {
        0
    };
    push_times(&mut head, h, fill);
    push_text(&mut head, t.glyph(Glyph::TopRight));
    assert(head@ =~= panel_top(*t, title@));
    lines.push(t.paint(to_text(&head).as_str(), DIM));
    let side = t.paint(t.glyph(Glyph::Vertical), DIM);
    let ghost body = cell_views(rows@).map_values(
        |r: Seq<(char, usize)>| panel_row(*t, r, colors@),
    );
    let ghost first = t.in_color(panel_top(*t, title@), DIM);
    let mut i: usize = 0;
    assert(line_views(lines@) =~= seq![first] + body.take(0));
    while i < rows.len()
        invariant
            i <= rows@.len(),
            side@ == t.in_color(glyph_text(Glyph::Vertical, t.unicode), DIM),
            body == cell_views(rows@).map_values(
                |r: Seq<(char, usize)>| panel_row(*t, r, colors@),
            ),
            line_views(lines@) == seq![first] + body.take(i as int),
        decreases rows@.len() - i,
    {
        let ghost before = line_views(lines@);
        let mut line: Vec<char> = Vec::new();
        push_text(&mut line, side.as_str());
        push_text(&mut line, " ");
        let row = colorize_row(&rows[i], colors, t);
        push_text(&mut line, row.as_str());
        push_text(&mut line, " ");
        push_text(&mut line, side.as_str());
        proof {
            assert(cell_views(rows@)[i as int] == rows@[i as int]@);
            assert(line@ =~= panel_row(*t, rows@[i as int]@, colors@));
            assert(body[i as int] == line@);
        }
        lines.push(to_text(&line));
        i = i + 1;
        assert(line_views(lines@) =~= before.push(body[i - 1]));
        assert(body.take(i as int) =~= body.take(i - 1).push(body[i - 1]));
        assert(line_views(lines@) =~= seq![first] + body.take(i as int));
    }
    assert(body.take(body.len() as int) =~= body);
    let ghost before = line_views(lines@);
    let mut foot: Vec<char> = Vec::new();
    push_text(&mut foot, t.glyph(Glyph::BottomLeft));
    push_times(&mut foot, h, PANEL_W + 2);
    push_text(&mut foot, t.glyph(Glyph::BottomRight));
    assert(foot@ =~= panel_bottom(*t));
    lines.push(t.paint(to_text(&foot).as_str(), DIM));
    assert(line_views(lines@) =~= before.push(t.in_color(panel_bottom(*t), DIM)));
    assert(line_views(lines@) =~= panel_text(*t, title@, cell_views(rows@), colors@));
    lines
}

/// Renders one bordered chart panel with any number of overlaid series: as curves, or the first
/// series in plain characters where the terminal has no braille.
#[must_use]
pub fn panel<S: Scalar>(
    t: &Theme,
    title: &str,
    series: &Vec<Vec<S>>,
    colors: &[Rgb],
) -> (r: Vec<String>)
    requires
        series@.len() > 0 ==> series@[0]@.len() * PANEL_W <= usize::MAX,
    ensures
        !t.unicode ==> line_views(r@) == panel_text(
            *t,
            title@,
            ascii_plot(if series@.len() > 0 {
                series@[0]@
            } else {
                Seq::empty()
            }),
            colors@,
        ),
        t.unicode ==> exists|cs: Seq<Braille>| #[trigger]
            curves(cs, series@) && line_views(r@) == panel_text(*t, title@, merged(cs), colors@),
{
    let body = if t.unicode {
        braille_rows(series)
    } else if series.len() > 0 {
        ascii_rows(&series[0])
    } else {
        let none: Vec<S> = Vec::new();
        ascii_rows(&none)
    };
    frame_panel(t, title, &body, colors)
}

/// The lines of a frame: each wipes what is left of the line below it.
pub open spec fn frame_lines(lines: Seq<Seq<char>>, n: nat) -> Seq<char>
    decreases n,
{
    if n == 0 {
        Seq::empty()
    } else {
        frame_lines(lines, (n - 1) as nat) + lines[n - 1] + "\x1b[K\n"@
    }
}

/// A frame: back over the frame before it, so that what scrolled by survives, and the lines.
pub open spec fn frame_text(lines: Seq<Seq<char>>, drawn: usize) -> Seq<char> {
    (if drawn > 0 {
        "\x1b["@ + decimal(drawn as nat) + "A"@
    } else {
        Seq::empty()
    }) + frame_lines(lines, lines.len())
}

/// How many of the first `n` characters end a line.
pub open spec fn line_ends(s: Seq<char>, n: nat) -> nat
    decreases n,
{
    if n == 0 {
        0
    } else {
        line_ends(s, (n - 1) as nat) + (if s[n - 1] == '\n' {
            1nat
        } else {
            0nat
        })
    }
}

/// Puts a frame together: its text, and how many lines the next one has to go back.
#[must_use]
pub fn frame(lines: &Vec<String>, drawn: usize) -> (r: (String, usize))
    ensures
        r.0@ == frame_text(line_views(lines@), drawn),
        r.1 == line_ends(r.0@, r.0@.len()),
{
    let ghost vs = line_views(lines@);
    let mut out: Vec<char> = Vec::new();
    if drawn > 0 {
        push_text(&mut out, "\x1b[");
        push_number(&mut out, drawn as u64);
        push_text(&mut out, "A");
    }
    let ghost start = out@;
    let mut i: usize = 0;
    assert(start + frame_lines(vs, 0) =~= start);
    while i < lines.len()
        invariant
            i <= lines@.len(),
            vs == line_views(lines@),
            out@ == start + frame_lines(vs, i as nat),
        decreases lines@.len() - i,
    {
        assert(vs[i as int] == lines@[i as int]@);
        push_text(&mut out, lines[i].as_str());
        push_text(&mut out, "\x1b[K\n");
        i = i + 1;
        assert(out@ =~= start + frame_lines(vs, i as nat));
    }
    assert(out@ =~= frame_text(vs, drawn));
    let mut n: usize = 0;
    let mut i: usize = 0;
    while i < out.len()
        invariant
            i <= out@.len(),
            n <= i,
            n == line_ends(out@, i as nat),
        decreases out@.len() - i,
    {
        if out[i] == '\n' {
            n = n + 1;
        }
        i = i + 1;
    }
    (to_text(&out), n)
}

/// The first `n` marks of a progress bar.
pub open spec fn bar_text(t: Theme, filled: usize, colors: Seq<Rgb>, n: nat) -> Seq<char>
    decreases n,
{
    if n == 0 {
        Seq::empty()
    } else {
        bar_text(t, filled, colors, (n - 1) as nat) + (if n - 1 < filled {
            t.in_color(glyph_text(Glyph::BarFull, t.unicode), colors[n - 1])
        } else {
            t.in_color(glyph_text(Glyph::BarEmpty, t.unicode), DIM)
        })
    }
}

/// A progress bar with `filled` of its marks full, each in its own colour.
#[must_use]
pub fn progress_bar(t: &Theme, filled: usize, colors: &Vec<Rgb>) -> (r: String)
    requires
        colors@.len() == BAR_W,
    ensures
        r@ == bar_text(*t, filled, colors@, BAR_W as nat),
{
    let mut out: Vec<char> = Vec::new();
    let mut i: usize = 0;
    while i < BAR_W
        invariant
            i <= BAR_W,
            colors@.len() == BAR_W,
            out@ == bar_text(*t, filled, colors@, i as nat),
        decreases BAR_W - i,
    {
        let mark = if i < filled {
            t.paint(t.glyph(Glyph::BarFull), colors[i])
        } else {
            t.paint(t.glyph(Glyph::BarEmpty), DIM)
        };
        push_text(&mut out, mark.as_str());
        i = i + 1;
    }
    to_text(&out)
}

/// The left end of the title line.
pub open spec fn title_left(t: Theme, title: Seq<char>) -> Seq<char> {
    t.in_bold("VEARO"@, ACCENT) + " "@ + t.in_color(title, TEXT)
}

/// The right end of the title line.
pub open spec fn title_right(t: Theme, device: Seq<char>, epoch: usize, total: usize) -> Seq<char> {
    t.in_color(device, ACCENT2) + " "@ + t.in_bold(
        "epoch "@ + decimal(epoch as nat) + "/"@ + decimal(total as nat),
        TEXT,
    )
}

/// The title line: both ends, and as much room between them as is left, at least one space.
pub open spec fn title_text(
    t: Theme,
    title: Seq<char>,
    device: Seq<char>,
    epoch: usize,
    total: usize,
) -> Seq<char> {
    let left = title_left(t, title);
    let right = title_right(t, device, epoch, total);
    let used = visible(left) + visible(right);
    " "@ + left + times(
        " "@,
        if used + 1 < TOTAL_W {
            (TOTAL_W - used) as nat
        } else {
            1
        },
    ) + right
}

/// The title line of the dashboard.
#[must_use]
pub fn title_line(t: &Theme, title: &str, device: &str, epoch: usize, total: usize) -> (r: String)
    ensures
        r@ == title_text(*t, title@, device@, epoch, total),
{
    let mut left: Vec<char> = Vec::new();
    push_text(&mut left, t.bold("VEARO", ACCENT).as_str());
    push_text(&mut left, " ");
    push_text(&mut left, t.paint(title, TEXT).as_str());
    assert(left@ =~= title_left(*t, title@));
    let mut count: Vec<char> = Vec::new();
    push_text(&mut count, "epoch ");
    push_number(&mut count, epoch as u64);
    push_text(&mut count, "/");
    push_number(&mut count, total as u64);
    assert(count@ =~= "epoch "@ + decimal(epoch as nat) + "/"@ + decimal(total as nat));
    let mut right: Vec<char> = Vec::new();
    push_text(&mut right, t.paint(device, ACCENT2).as_str());
    push_text(&mut right, " ");
    push_text(&mut right, t.bold(to_text(&count).as_str(), TEXT).as_str());
    assert(right@ =~= title_right(*t, device@, epoch, total));
    let left = to_text(&left);
    let right = to_text(&right);
    let a = visible_len(left.as_str());
    let b = visible_len(right.as_str());
    let gap: usize = if a < TOTAL_W && b < TOTAL_W - a {
        TOTAL_W - a - b
    } else {
        1
    };
    let mut out: Vec<char> = Vec::new();
    push_text(&mut out, " ");
    push_text(&mut out, left.as_str());
    push_times(&mut out, " ", gap);
    push_text(&mut out, right.as_str());
    assert(out@ =~= title_text(*t, title@, device@, epoch, total));
    to_text(&out)
}

/// At least three columns wide.
pub open spec fn wide3(n: usize) -> Seq<char> {
    repeated(
        ' ',
        if n < 10 {
            2
        } else if n < 100 {
            1
        } else {
            0
        },
    ) + decimal(n as nat)
}

/// One greppable line per epoch; numbers with fractions come as text.
pub open spec fn plain_text(
    epoch: usize,
    total: usize,
    train_loss: Seq<char>,
    val_loss: Option<&str>,
    val_acc: Option<&str>,
) -> Seq<char> {
    "epoch "@ + wide3(epoch) + "/"@ + decimal(total as nat) + " | train "@ + train_loss + (
    match val_loss {
        Some(v) => " | val "@ + v@,
        None => Seq::empty(),
    }) + (match val_acc {
        Some(a) => " | acc "@ + a@ + "%"@,
        None => Seq::empty(),
    })
}

/// One greppable line per epoch, for output that is not a terminal.
#[must_use]
pub fn plain_line(
    epoch: usize,
    total: usize,
    train_loss: &str,
    val_loss: Option<&str>,
    val_acc: Option<&str>,
) -> (r: String)
    ensures
        r@ == plain_text(epoch, total, train_loss@, val_loss, val_acc),
{
    let mut out: Vec<char> = Vec::new();
    push_text(&mut out, "epoch ");
    let ghost base = out@;
    if epoch < 10 {
        out.push(' ');
    }
    if epoch < 100 {
        out.push(' ');
    }
    push_number(&mut out, epoch as u64);
    assert(out@ =~= base + wide3(epoch));
    push_text(&mut out, "/");
    push_number(&mut out, total as u64);
    push_text(&mut out, " | train ");
    push_text(&mut out, train_loss);
    if let Some(v) = val_loss {
        push_text(&mut out, " | val ");
        push_text(&mut out, v);
    }
    if let Some(a) = val_acc {
        push_text(&mut out, " | acc ");
        push_text(&mut out, a);
        push_text(&mut out, "%");
    }
    assert(out@ =~= plain_text(epoch, total, train_loss@, val_loss, val_acc));
    to_text(&out)
}

} // verus!
