//! The lines of the dashboard around its charts.
//!
//! Numbers with fractions come as text.
use vstd::prelude::*;
use crate::text::{decimal, push_number, push_text, to_text};
use crate::tui::chart::PANEL_W;
use crate::tui::monitor::{line_views, push_times, times, title_line, title_text, TOTAL_W};
use crate::tui::style::{glyph_text, pad, padded, Glyph, Theme, ACCENT, ACCENT2, DIM, GOOD, TEXT};

verus! {

/// What a run reports at the end of an epoch.
#[derive(Debug, Clone, Copy)]
pub struct Status<'a> {
    /// Name of the run.
    pub title: &'a str,
    /// Where it runs.
    pub device: &'a str,
    /// The epoch, from 1 on.
    pub epoch: usize,
    /// How many epochs the run has.
    pub total: usize,
    /// The progress bar.
    pub bar: &'a str,
    /// How much of the run is done, in percent.
    pub percent: &'a str,
    /// How long the rest takes.
    pub eta: &'a str,
    /// The training loss.
    pub train_loss: &'a str,
    /// How the training loss changed.
    pub change: &'a str,
    /// The validation loss.
    pub val_loss: Option<&'a str>,
    /// The validation accuracy, in percent.
    pub val_acc: Option<&'a str>,
    /// The best validation accuracy, in percent, and its epoch.
    pub best: Option<(&'a str, usize)>,
    /// Device memory over time.
    pub vram_spark: &'a str,
    /// Device memory in MiB.
    pub vram_mb: Option<usize>,
    /// Host memory over time.
    pub ram_spark: &'a str,
    /// Host memory in GB.
    pub ram_gb: &'a str,
    /// How long the run has taken.
    pub elapsed: &'a str,
    /// How many seconds the epoch took.
    pub epoch_secs: &'a str,
    /// A remark, or nothing.
    pub note: &'a str,
}

/// A line across the dashboard.
pub open spec fn rule_text(t: Theme) -> Seq<char> {
    " "@ + t.in_color(times(glyph_text(Glyph::Horizontal, t.unicode), TOTAL_W as nat), DIM)
}

/// A line across the dashboard.
#[must_use]
pub(crate) fn rule_line(t: &Theme) -> (r: String)
    ensures
        r@ == rule_text(*t),
{
    let mut rule: Vec<char> = Vec::new();
    push_times(&mut rule, t.glyph(Glyph::Horizontal), TOTAL_W);
    assert(rule@ =~= times(glyph_text(Glyph::Horizontal, t.unicode), TOTAL_W as nat));
    let mut out: Vec<char> = Vec::new();
    push_text(&mut out, " ");
    push_text(&mut out, t.paint(to_text(&rule).as_str(), DIM).as_str());
    assert(out@ =~= rule_text(*t));
    to_text(&out)
}

/// The progress bar, how much is done, and how long the rest takes.
pub open spec fn progress_text(t: Theme, s: Status<'_>) -> Seq<char> {
    " "@ + s.bar@ + " "@ + t.in_bold(s.percent@ + "%"@, TEXT) + "  "@ + t.in_color("eta"@, DIM)
        + " "@ + t.in_color(s.eta@, TEXT)
}

/// The progress bar, how much is done, and how long the rest takes.
#[must_use]
pub(crate) fn progress_line(t: &Theme, s: &Status<'_>) -> (r: String)
    ensures
        r@ == progress_text(*t, *s),
{
    let mut percent: Vec<char> = Vec::new();
    push_text(&mut percent, s.percent);
    push_text(&mut percent, "%");
    assert(percent@ =~= s.percent@ + "%"@);
    let mut out: Vec<char> = Vec::new();
    push_text(&mut out, " ");
    push_text(&mut out, s.bar);
    push_text(&mut out, " ");
    push_text(&mut out, t.bold(to_text(&percent).as_str(), TEXT).as_str());
    push_text(&mut out, "  ");
    push_text(&mut out, t.paint("eta", DIM).as_str());
    push_text(&mut out, " ");
    push_text(&mut out, t.paint(s.eta, TEXT).as_str());
    assert(out@ =~= progress_text(*t, *s));
    to_text(&out)
}

/// The losses.
pub open spec fn loss_text(t: Theme, s: Status<'_>) -> Seq<char> {
    "  "@ + t.in_color("train"@, DIM) + " "@ + t.in_bold(s.train_loss@, ACCENT) + " "@ + s.change@
        + "  "@ + t.in_color("val"@, DIM) + " "@ + (match s.val_loss {
        Some(v) => t.in_bold(v@, ACCENT2),
        None => t.in_color("-"@, DIM),
    })
}

/// Writes the losses.
fn push_loss(out: &mut Vec<char>, t: &Theme, s: &Status<'_>)
    ensures
        final(out)@ == old(out)@ + loss_text(*t, *s),
{
    let ghost before = out@;
    push_text(out, "  ");
    push_text(out, t.paint("train", DIM).as_str());
    push_text(out, " ");
    push_text(out, t.bold(s.train_loss, ACCENT).as_str());
    push_text(out, " ");
    push_text(out, s.change);
    push_text(out, "  ");
    push_text(out, t.paint("val", DIM).as_str());
    push_text(out, " ");
    match s.val_loss {
        Some(v) => push_text(out, t.bold(v, ACCENT2).as_str()),
        None => push_text(out, t.paint("-", DIM).as_str()),
    }
    assert(out@ =~= before + loss_text(*t, *s));
}

/// The accuracies.
pub open spec fn acc_text(t: Theme, s: Status<'_>) -> Seq<char> {
    "  "@ + t.in_color("now"@, DIM) + " "@ + (match s.val_acc {
        Some(a) => t.in_bold(a@ + "%"@, GOOD),
        None => t.in_color("-"@, DIM),
    }) + "   "@ + t.in_color("best"@, DIM) + " "@ + (match s.best {
        Some(b) => t.in_bold(b.0@ + "% (ep "@ + decimal(b.1 as nat) + ")"@, TEXT),
        None => t.in_color("-"@, DIM),
    })
}

/// Writes the accuracies.
fn push_acc(out: &mut Vec<char>, t: &Theme, s: &Status<'_>)
    ensures
        final(out)@ == old(out)@ + acc_text(*t, *s),
{
    let ghost before = out@;
    push_text(out, "  ");
    push_text(out, t.paint("now", DIM).as_str());
    push_text(out, " ");
    match s.val_acc {
        Some(a) => {
            let mut now: Vec<char> = Vec::new();
            push_text(&mut now, a);
            push_text(&mut now, "%");
            assert(now@ =~= a@ + "%"@);
            push_text(out, t.bold(to_text(&now).as_str(), GOOD).as_str());
        },
        None => push_text(out, t.paint("-", DIM).as_str()),
    }
    push_text(out, "   ");
    push_text(out, t.paint("best", DIM).as_str());
    push_text(out, " ");
    match s.best {
        Some(b) => {
            let mut best: Vec<char> = Vec::new();
            push_text(&mut best, b.0);
            push_text(&mut best, "% (ep ");
            push_number(&mut best, b.1 as u64);
            push_text(&mut best, ")");
            assert(best@ =~= b.0@ + "% (ep "@ + decimal(b.1 as nat) + ")"@);
            push_text(out, t.bold(to_text(&best).as_str(), TEXT).as_str());
        },
        None => push_text(out, t.paint("-", DIM).as_str()),
    }
    assert(out@ =~= before + acc_text(*t, *s));
}

/// The metrics under each chart.
pub open spec fn metrics_text(t: Theme, s: Status<'_>) -> Seq<char> {
    " "@ + padded(loss_text(t, s), (PANEL_W + 4) as nat) + acc_text(t, s)
}

/// The metrics under each chart.
#[must_use]
pub(crate) fn metrics_line(t: &Theme, s: &Status<'_>) -> (r: String)
    ensures
        r@ == metrics_text(*t, *s),
{
    let mut loss: Vec<char> = Vec::new();
    push_loss(&mut loss, t, s);
    assert(loss@ =~= loss_text(*t, *s));
    let mut out: Vec<char> = Vec::new();
    push_text(&mut out, " ");
    push_text(&mut out, pad(to_text(&loss).as_str(), PANEL_W + 4).as_str());
    push_acc(&mut out, t, s);
    assert(out@ =~= metrics_text(*t, *s));
    to_text(&out)
}

/// How much device memory is in use.
pub open spec fn vram_text(vram_mb: Option<usize>) -> Seq<char> {
    match vram_mb {
        Some(m) => decimal(m as nat) + " MiB"@,
        None => "-"@,
    }
}

/// How much device memory is in use.
#[must_use]
pub fn vram_label(vram_mb: Option<usize>) -> (r: String)
    ensures
        r@ == vram_text(vram_mb),
{
    let mut out: Vec<char> = Vec::new();
    match vram_mb {
        Some(m) => {
            push_number(&mut out, m as u64);
            push_text(&mut out, " MiB");
        },
        None => push_text(&mut out, "-"),
    }
    assert(out@ =~= vram_text(vram_mb));
    to_text(&out)
}

/// Memory on the device.
pub open spec fn device_text(t: Theme, s: Status<'_>) -> Seq<char> {
    "  "@ + t.in_color("vram"@, DIM) + " "@ + s.vram_spark@ + " "@ + t.in_bold(
        vram_text(s.vram_mb),
        TEXT,
    )
}

/// Memory on the device and on the host.
pub open spec fn memory_text(t: Theme, s: Status<'_>) -> Seq<char> {
    " "@ + padded(device_text(t, s), (PANEL_W + 4) as nat) + "  "@ + t.in_color("ram"@, DIM)
        + " "@ + s.ram_spark@ + " "@ + t.in_bold(s.ram_gb@ + " GB"@, TEXT)
}

/// Memory on the device and on the host.
#[must_use]
pub(crate) fn memory_line(t: &Theme, s: &Status<'_>) -> (r: String)
    ensures
        r@ == memory_text(*t, *s),
{
    let mut left: Vec<char> = Vec::new();
    push_text(&mut left, "  ");
    push_text(&mut left, t.paint("vram", DIM).as_str());
    push_text(&mut left, " ");
    push_text(&mut left, s.vram_spark);
    push_text(&mut left, " ");
    push_text(&mut left, t.bold(vram_label(s.vram_mb).as_str(), TEXT).as_str());
    assert(left@ =~= device_text(*t, *s));
    let mut ram: Vec<char> = Vec::new();
    push_text(&mut ram, s.ram_gb);
    push_text(&mut ram, " GB");
    assert(ram@ =~= s.ram_gb@ + " GB"@);
    let mut out: Vec<char> = Vec::new();
    push_text(&mut out, " ");
    push_text(&mut out, pad(to_text(&left).as_str(), PANEL_W + 4).as_str());
    push_text(&mut out, "  ");
    push_text(&mut out, t.paint("ram", DIM).as_str());
    push_text(&mut out, " ");
    push_text(&mut out, s.ram_spark);
    push_text(&mut out, " ");
    push_text(&mut out, t.bold(to_text(&ram).as_str(), TEXT).as_str());
    assert(out@ =~= memory_text(*t, *s));
    to_text(&out)
}

/// How long the run and the epoch took.
pub open spec fn timing_text(t: Theme, s: Status<'_>) -> Seq<char> {
    "  "@ + t.in_color("elapsed"@, DIM) + " "@ + t.in_color(s.elapsed@, TEXT) + "   "@ + t.in_color(
        "per epoch"@,
        DIM,
    ) + " "@ + t.in_color(s.epoch_secs@ + "s"@, TEXT)
}

/// How long the run and the epoch took.
#[must_use]
pub(crate) fn timing_line(t: &Theme, s: &Status<'_>) -> (r: String)
    ensures
        r@ == timing_text(*t, *s),
{
    let mut secs: Vec<char> = Vec::new();
    push_text(&mut secs, s.epoch_secs);
    push_text(&mut secs, "s");
    assert(secs@ =~= s.epoch_secs@ + "s"@);
    let mut out: Vec<char> = Vec::new();
    push_text(&mut out, "  ");
    push_text(&mut out, t.paint("elapsed", DIM).as_str());
    push_text(&mut out, " ");
    push_text(&mut out, t.paint(s.elapsed, TEXT).as_str());
    push_text(&mut out, "   ");
    push_text(&mut out, t.paint("per epoch", DIM).as_str());
    push_text(&mut out, " ");
    push_text(&mut out, t.paint(to_text(&secs).as_str(), TEXT).as_str());
    assert(out@ =~= timing_text(*t, *s));
    to_text(&out)
}

/// The first characters of a text.
pub open spec fn first_chars(s: Seq<char>, n: nat) -> Seq<char> {
    if s.len() <= n {
        s
    } else {
        s.take(n as int)
    }
}

/// The remark, cut to the width of the dashboard.
pub open spec fn note_line_text(t: Theme, note: Seq<char>) -> Seq<char> {
    if note.len() == 0 {
        Seq::empty()
    } else {
        "  "@ + t.in_color("*"@, GOOD) + " "@ + t.in_color(
            first_chars(note, (TOTAL_W - 6) as nat),
            GOOD,
        )
    }
}

/// The remark, cut to the width of the dashboard.
#[must_use]
pub fn note_line(t: &Theme, note: &str) -> (r: String)
    ensures
        r@ == note_line_text(*t, note@),
{
    let len: usize = note.unicode_len();
    let mut out: Vec<char> = Vec::new();
    if len > 0 {
        let mut cut: Vec<char> = Vec::new();
        let mut i: usize = 0;
        while i < len && i < TOTAL_W - 6
            invariant
                i <= len == note@.len(),
                i <= TOTAL_W - 6,
                cut@ == note@.take(i as int),
            decreases len - i,
        {
            cut.push(note.get_char(i));
            i = i + 1;
            assert(cut@ =~= note@.take(i as int));
        }
        assert(cut@ =~= first_chars(note@, (TOTAL_W - 6) as nat));
        push_text(&mut out, "  ");
        push_text(&mut out, t.paint("*", GOOD).as_str());
        push_text(&mut out, " ");
        push_text(&mut out, t.paint(to_text(&cut).as_str(), GOOD).as_str());
    }
    assert(out@ =~= note_line_text(*t, note@));
    to_text(&out)
}

/// Two charts side by side, as far as both have lines.
pub open spec fn beside(a: Seq<Seq<char>>, b: Seq<Seq<char>>) -> Seq<Seq<char>> {
    Seq::new(
        if a.len() < b.len() {
            a.len()
        } else {
            b.len()
        },
        |i: int| " "@ + a[i] + "  "@ + b[i],
    )
}

/// Puts two charts side by side.
#[must_use]
pub fn side_by_side(a: &Vec<String>, b: &Vec<String>) -> (r: Vec<String>)
    ensures
        line_views(r@) == beside(line_views(a@), line_views(b@)),
{
    let ghost want = beside(line_views(a@), line_views(b@));
    let mut lines: Vec<String> = Vec::new();
    let mut i: usize = 0;
    while i < a.len() && i < b.len()
        invariant
            i <= a@.len(),
            i <= b@.len(),
            want == beside(line_views(a@), line_views(b@)),
            lines@.len() == i,
            forall|k: int| 0 <= k < i ==> (#[trigger] lines@[k])@ == want[k],
        decreases a@.len() - i,
    {
        let mut out: Vec<char> = Vec::new();
        push_text(&mut out, " ");
        push_text(&mut out, a[i].as_str());
        push_text(&mut out, "  ");
        push_text(&mut out, b[i].as_str());
        assert(out@ =~= want[i as int]);
        lines.push(to_text(&out));
        i = i + 1;
    }
    assert(line_views(lines@) =~= want);
    lines
}

/// The whole dashboard: title, rule, progress, charts, metrics, memory, timing and remark.
pub open spec fn dashboard_text(
    t: Theme,
    s: Status<'_>,
    loss: Seq<Seq<char>>,
    acc: Seq<Seq<char>>,
) -> Seq<Seq<char>> {
    seq![
        title_text(t, s.title@, s.device@, s.epoch, s.total),
        rule_text(t),
        progress_text(t, s),
        Seq::empty(),
    ] + beside(loss, acc) + seq![
        metrics_text(t, s),
        Seq::empty(),
        memory_text(t, s),
        timing_text(t, s),
        note_line_text(t, s.note@),
    ]
}

/// Puts the dashboard together from its two charts and what the run reports.
#[must_use]
pub fn dashboard(t: &Theme, s: &Status<'_>, loss: &Vec<String>, acc: &Vec<String>) -> (r: Vec<
    String,
>)
    ensures
        line_views(r@) == dashboard_text(*t, *s, line_views(loss@), line_views(acc@)),
{
    let mut lines: Vec<String> = Vec::new();
    lines.push(title_line(t, s.title, s.device, s.epoch, s.total));
    lines.push(rule_line(t));
    lines.push(progress_line(t, s));
    lines.push(blank_line());
    let mut charts = side_by_side(loss, acc);
    let ghost (head, body) = (lines@, charts@);
    lines.append(&mut charts);
    let ghost upper = lines@;
    lines.push(metrics_line(t, s));
    lines.push(blank_line());
    lines.push(memory_line(t, s));
    lines.push(timing_line(t, s));
    lines.push(note_line(t, s.note));
    proof {
        assert(upper =~= head + body);
        assert(line_views(body) == beside(line_views(loss@), line_views(acc@)));
        let want = dashboard_text(*t, *s, line_views(loss@), line_views(acc@));
        let n = body.len() as int;
        assert(line_views(lines@).len() == want.len());
        assert forall|i: int| 0 <= i < want.len() implies line_views(lines@)[i] == #[trigger] want[i] by {
            if 4 <= i < 4 + n {
                assert(lines@[i] == body[i - 4]);
                assert(line_views(body)[i - 4] == body[i - 4]@);
            }
        }
        assert(line_views(lines@) =~= want);
    }
    lines
}

/// A line with nothing on it.
fn blank_line() -> (r: String)
    ensures
        r@ == Seq::<char>::empty(),
{
    let out: Vec<char> = Vec::new();
    to_text(&out)
}

/// One line of the closing box.
pub open spec fn box_line(t: Theme, inner: Seq<char>) -> Seq<char> {
    let side = t.in_color(glyph_text(Glyph::Vertical, t.unicode), ACCENT);
    side + " "@ + inner + " "@ + side
}

/// The top or the bottom of the closing box.
pub open spec fn box_edge(t: Theme, left: Glyph, right: Glyph) -> Seq<char> {
    t.in_color(
        glyph_text(left, t.unicode) + times(
            glyph_text(Glyph::Horizontal, t.unicode),
            TOTAL_W as nat,
        ) + glyph_text(right, t.unicode),
        ACCENT,
    )
}

/// The closing box: the title of the run, and what is to be said of it.
pub open spec fn summary_text(t: Theme, title: Seq<char>, body: Seq<Seq<char>>) -> Seq<Seq<char>> {
    let inner = (TOTAL_W - 2) as nat;
    seq![
        Seq::empty(),
        box_edge(t, Glyph::TopLeft, Glyph::TopRight),
        box_line(t, t.in_bold(padded(title + " complete"@, inner), GOOD)),
    ] + Seq::new(
        body.len(),
        |i: int| box_line(t, t.in_color(padded(body[i], inner), TEXT)),
    ) + seq![box_edge(t, Glyph::BottomLeft, Glyph::BottomRight)]
}

fn boxed(t: &Theme, inner: &str) -> (r: String)
    ensures
        r@ == box_line(*t, inner@),
{
    let side = t.paint(t.glyph(Glyph::Vertical), ACCENT);
    let mut out: Vec<char> = Vec::new();
    push_text(&mut out, side.as_str());
    push_text(&mut out, " ");
    push_text(&mut out, inner);
    push_text(&mut out, " ");
    push_text(&mut out, side.as_str());
    assert(out@ =~= box_line(*t, inner@));
    to_text(&out)
}

fn edge(t: &Theme, left: Glyph, right: Glyph) -> (r: String)
    ensures
        r@ == box_edge(*t, left, right),
{
    let mut out: Vec<char> = Vec::new();
    push_text(&mut out, t.glyph(left));
    push_times(&mut out, t.glyph(Glyph::Horizontal), TOTAL_W);
    push_text(&mut out, t.glyph(right));
    assert(out@ =~= glyph_text(left, t.unicode) + times(
        glyph_text(Glyph::Horizontal, t.unicode),
        TOTAL_W as nat,
    ) + glyph_text(right, t.unicode));
    t.paint(to_text(&out).as_str(), ACCENT)
}

/// Puts the closing box together.
#[must_use]
pub fn summary_box(t: &Theme, title: &str, body: &Vec<String>) -> (r: Vec<String>)
    ensures
        line_views(r@) == summary_text(*t, title@, line_views(body@)),
{
    let ghost want = summary_text(*t, title@, line_views(body@));
    let mut lines: Vec<String> = Vec::new();
    lines.push(blank_line());
    lines.push(edge(t, Glyph::TopLeft, Glyph::TopRight));
    let mut head: Vec<char> = Vec::new();
    push_text(&mut head, title);
    push_text(&mut head, " complete");
    assert(head@ =~= title@ + " complete"@);
    let wide = pad(to_text(&head).as_str(), TOTAL_W - 2);
    lines.push(boxed(t, t.bold(wide.as_str(), GOOD).as_str()));
    let mut i: usize = 0;
    while i < body.len()
        invariant
            i <= body@.len(),
            want == summary_text(*t, title@, line_views(body@)),
            lines@.len() == 3 + i,
            forall|k: int| 0 <= k < 3 + i ==> (#[trigger] lines@[k])@ == want[k],
        decreases body@.len() - i,
    {
        let wide = pad(body[i].as_str(), TOTAL_W - 2);
        let line = boxed(t, t.paint(wide.as_str(), TEXT).as_str());
        assert(line@ == want[3 + i as int]);
        lines.push(line);
        i = i + 1;
    }
    lines.push(edge(t, Glyph::BottomLeft, Glyph::BottomRight));
    assert(line_views(lines@) =~= want);
    lines
}

/// What a run reports when it is over.
#[derive(Debug, Clone, Copy)]
pub struct Summary<'a> {
    /// The epochs that were recorded.
    pub epochs: usize,
    /// How long the run took.
    pub took: &'a str,
    /// Seconds per epoch.
    pub epoch_secs: &'a str,
    /// The best validation accuracy, in percent.
    pub best: &'a str,
    /// Its epoch.
    pub best_epoch: usize,
    /// The most device memory, in MiB.
    pub peak_vram: Option<usize>,
    /// The most host memory, in GB.
    pub peak_ram: &'a str,
}

/// The best accuracy and its epoch.
pub open spec fn best_text(s: Summary<'_>) -> Seq<char> {
    "best val acc "@ + s.best@ + "% at epoch "@ + decimal(s.best_epoch as nat)
}

/// What the closing box says.
pub open spec fn body_text(s: Summary<'_>) -> Seq<Seq<char>> {
    seq![
        decimal(s.epochs as nat) + " epochs in "@ + s.took@ + "   ("@ + s.epoch_secs@ + "s/epoch)"@,
        best_text(s),
        "peak vram "@ + vram_text(s.peak_vram) + "   peak host ram "@ + s.peak_ram@ + " GB"@,
    ]
}

fn push_best(out: &mut Vec<char>, s: &Summary<'_>)
    ensures
        final(out)@ == old(out)@ + best_text(*s),
{
    let ghost before = out@;
    push_text(out, "best val acc ");
    push_text(out, s.best);
    push_text(out, "% at epoch ");
    push_number(out, s.best_epoch as u64);
    assert(out@ =~= before + best_text(*s));
}

/// The lines of the closing box.
#[must_use]
pub fn summary_body(s: &Summary<'_>) -> (r: Vec<String>)
    ensures
        line_views(r@) == body_text(*s),
{
    let ghost want = body_text(*s);
    let mut first: Vec<char> = Vec::new();
    push_number(&mut first, s.epochs as u64);
    push_text(&mut first, " epochs in ");
    push_text(&mut first, s.took);
    push_text(&mut first, "   (");
    push_text(&mut first, s.epoch_secs);
    push_text(&mut first, "s/epoch)");
    assert(first@ =~= want[0]);
    let mut second: Vec<char> = Vec::new();
    push_best(&mut second, s);
    assert(second@ =~= want[1]);
    let mut third: Vec<char> = Vec::new();
    push_text(&mut third, "peak vram ");
    push_text(&mut third, vram_label(s.peak_vram).as_str());
    push_text(&mut third, "   peak host ram ");
    push_text(&mut third, s.peak_ram);
    push_text(&mut third, " GB");
    assert(third@ =~= want[2]);
    let mut lines: Vec<String> = Vec::new();
    lines.push(to_text(&first));
    lines.push(to_text(&second));
    lines.push(to_text(&third));
    assert(line_views(lines@) =~= want);
    lines
}

/// The one line that closes a run whose output is not a terminal, behind an empty one.
pub open spec fn finished_text(title: Seq<char>, s: Summary<'_>) -> Seq<char> {
    "\n"@ + title + " finished: "@ + decimal(s.epochs as nat) + " epochs in "@ + s.took@ + " | "@
        + best_text(s)
}

/// The one line that closes a run whose output is not a terminal, behind an empty one.
#[must_use]
pub fn finished_line(title: &str, s: &Summary<'_>) -> (r: String)
    ensures
        r@ == finished_text(title@, *s),
{
    let mut out: Vec<char> = Vec::new();
    push_text(&mut out, "\n");
    push_text(&mut out, title);
    push_text(&mut out, " finished: ");
    push_number(&mut out, s.epochs as u64);
    push_text(&mut out, " epochs in ");
    push_text(&mut out, s.took);
    push_text(&mut out, " | ");
    push_best(&mut out, s);
    assert(out@ =~= finished_text(title@, *s));
    to_text(&out)
}

} // verus!
