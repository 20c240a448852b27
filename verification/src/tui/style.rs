//! Colours, glyphs and widths of the dashboard.
use vstd::prelude::*;
use crate::text::{decimal, is_digit, lemma_decimal, push_number, push_text, to_text};

verus! {

/// A colour: red, green and blue.
pub type Rgb = (u8, u8, u8);

/// Teal.
pub const ACCENT: Rgb = (94, 234, 212);

/// Violet.
pub const ACCENT2: Rgb = (167, 139, 250);

/// Green.
pub const GOOD: Rgb = (74, 222, 128);

/// Red.
pub const BAD: Rgb = (248, 113, 113);

/// Slate.
pub const DIM: Rgb = (100, 116, 139);

/// Near white.
pub const TEXT: Rgb = (226, 232, 240);

/// Which glyph set and colour support the terminal gets.
#[derive(Debug, Clone, Copy, PartialEq, Eq, Structural)]
pub struct Theme {
    pub unicode: bool,
    pub color: bool,
}

/// What the environment says about the terminal.
#[derive(Debug, Clone, Copy, PartialEq, Eq, Structural)]
pub struct Terminal {
    /// ASCII was asked for.
    pub forced_ascii: bool,
    /// The terminal understands no escapes.
    pub dumb: bool,
    /// The locale is UTF-8.
    pub utf8: bool,
    /// No colour was asked for.
    pub no_color: bool,
}

/// `red;green;blue`
pub open spec fn rgb_text(c: Rgb) -> Seq<char> {
    decimal(c.0 as nat) + ";"@ + decimal(c.1 as nat) + ";"@ + decimal(c.2 as nat)
}

/// `s` between a truecolor escape and a reset.
pub open spec fn painted(s: Seq<char>, open: Seq<char>, c: Rgb) -> Seq<char> {
    open + rgb_text(c) + "m"@ + s + "\x1b[0m"@
}

impl Theme {
    /// Picks what a terminal can show.
    #[must_use]
    pub fn detect(t: Terminal) -> (r: Self)
        ensures
            r.unicode == (!t.forced_ascii && !t.dumb && t.utf8),
            r.color == (!t.forced_ascii && !t.dumb && !t.no_color),
    {
        Theme {
            unicode: !t.forced_ascii && !t.dumb && t.utf8,
            color: !t.forced_ascii && !t.dumb && !t.no_color,
        }
    }

    /// `s` in a colour.
    pub open spec fn in_color(self, s: Seq<char>, c: Rgb) -> Seq<char> {
        if self.color {
            painted(s, "\x1b[38;2;"@, c)
        } else {
            s
        }
    }

    /// `s` in a colour, bold.
    pub open spec fn in_bold(self, s: Seq<char>, c: Rgb) -> Seq<char> {
        if self.color {
            painted(s, "\x1b[1;38;2;"@, c)
        } else {
            s
        }
    }

    /// Wraps `s` in a truecolor escape, or returns it unchanged without colour.
    #[must_use]
    pub fn paint(&self, s: &str, c: Rgb) -> (r: String)
        ensures
            r@ == self.in_color(s@, c),
    {
        let mut out: Vec<char> = Vec::new();
        if self.color {
            push_painted(&mut out, "\x1b[38;2;", s, c);
        } else {
            push_text(&mut out, s);
        }
        assert(out@ =~= self.in_color(s@, c));
        to_text(&out)
    }

    /// Like [`Theme::paint`], but bold.
    #[must_use]
    pub fn bold(&self, s: &str, c: Rgb) -> (r: String)
        ensures
            r@ == self.in_bold(s@, c),
    {
        let mut out: Vec<char> = Vec::new();
        if self.color {
            push_painted(&mut out, "\x1b[1;38;2;", s, c);
        } else {
            push_text(&mut out, s);
        }
        assert(out@ =~= self.in_bold(s@, c));
        to_text(&out)
    }
}

/// Writes `s` between a truecolor escape and a reset.
fn push_painted(out: &mut Vec<char>, open: &str, s: &str, c: Rgb)
    ensures
        final(out)@ == old(out)@ + painted(s@, open@, c),
{
    let ghost before = out@;
    push_text(out, open);
    push_number(out, c.0 as u64);
    push_text(out, ";");
    push_number(out, c.1 as u64);
    push_text(out, ";");
    push_number(out, c.2 as u64);
    push_text(out, "m");
    push_text(out, s);
    push_text(out, "\x1b[0m");
    assert(out@ =~= before + painted(s@, open@, c));
}

/// A part of a frame or a bar, with its stand-in for terminals without Unicode.
#[derive(Debug, Clone, Copy, PartialEq, Eq, Structural)]
pub enum Glyph {
    TopLeft,
    TopRight,
    BottomLeft,
    BottomRight,
    Horizontal,
    Vertical,
    BarFull,
    BarEmpty,
    Up,
    Down,
}

/// The text of a glyph.
pub open spec fn glyph_text(g: Glyph, unicode: bool) -> Seq<char> {
    if unicode {
        match g {
            Glyph::TopLeft => "\u{256d}"@,
            Glyph::TopRight => "\u{256e}"@,
            Glyph::BottomLeft => "\u{2570}"@,
            Glyph::BottomRight => "\u{256f}"@,
            Glyph::Horizontal => "\u{2500}"@,
            Glyph::Vertical => "\u{2502}"@,
            Glyph::BarFull => "\u{2588}"@,
            Glyph::BarEmpty => "\u{2591}"@,
            Glyph::Up => "\u{25b2}"@,
            Glyph::Down => "\u{25bc}"@,
        }
    } else {
        match g {
            Glyph::TopLeft | Glyph::TopRight | Glyph::BottomLeft | Glyph::BottomRight => "+"@,
            Glyph::Horizontal => "-"@,
            Glyph::Vertical => "|"@,
            Glyph::BarFull => "#"@,
            Glyph::BarEmpty => "."@,
            Glyph::Up => "^"@,
            Glyph::Down => "v"@,
        }
    }
}

impl Theme {
    /// Box-drawing and bar glyphs, with ASCII stand-ins.
    #[must_use]
    pub fn glyph(&self, g: Glyph) -> (r: &'static str)
        ensures
            r@ == glyph_text(g, self.unicode),
    {
        if self.unicode {
            match g {
                Glyph::TopLeft => "\u{256d}",
                Glyph::TopRight => "\u{256e}",
                Glyph::BottomLeft => "\u{2570}",
                Glyph::BottomRight => "\u{256f}",
                Glyph::Horizontal => "\u{2500}",
                Glyph::Vertical => "\u{2502}",
                Glyph::BarFull => "\u{2588}",
                Glyph::BarEmpty => "\u{2591}",
                Glyph::Up => "\u{25b2}",
                Glyph::Down => "\u{25bc}",
            }
        } else {
            match g {
                Glyph::TopLeft | Glyph::TopRight | Glyph::BottomLeft | Glyph::BottomRight => "+",
                Glyph::Horizontal => "-",
                Glyph::Vertical => "|",
                Glyph::BarFull => "#",
                Glyph::BarEmpty => ".",
                Glyph::Up => "^",
                Glyph::Down => "v",
            }
        }
    }
}

/// What a terminal shows of `s`: how many characters, and whether `s` ends inside an escape
/// sequence, when it starts inside one or not.
pub open spec fn scan(s: Seq<char>, escape: bool) -> (nat, bool)
    decreases s.len(),
{
    if s.len() == 0 {
        (0, escape)
    } else {
        let (n, inside) = scan(s.drop_last(), escape);
        let c = s.last();
        if inside {
            (n, c != 'm')
        } else if c == '\x1b' {
            (n, true)
        } else {
            (n + 1, false)
        }
    }
}

/// Length of `s` ignoring ANSI escape sequences.
pub open spec fn visible(s: Seq<char>) -> nat {
    scan(s, false).0
}

/// Length of `s` ignoring ANSI escape sequences.
#[must_use]
pub fn visible_len(s: &str) -> (r: usize)
    ensures
        r == visible(s@),
        r <= s@.len(),
{
    let len: usize = s.unicode_len();
    let mut n: usize = 0;
    let mut in_esc = false;
    let mut i: usize = 0;
    assert(s@.take(0) =~= Seq::<char>::empty());
    while i < len
        invariant
            i <= len,
            len == s@.len(),
            n <= i,
            scan(s@.take(i as int), false) == (n as nat, in_esc),
        decreases len - i,
    {
        let ch = s.get_char(i);
        i = i + 1;
        proof {
            assert(s@.take(i as int).drop_last() =~= s@.take(i - 1));
            assert(s@.take(i as int).last() == ch);
        }
        if in_esc {
            if ch == 'm' {
                in_esc = false;
            }
        } else if ch == '\x1b' {
            in_esc = true;
        } else {
            n = n + 1;
        }
    }
    assert(s@.take(len as int) =~= s@);
    n
}

/// `n` times a character.
pub open spec fn repeated(c: char, n: nat) -> Seq<char> {
    Seq::new(n, |i: int| c)
}

/// `s` and as many spaces as it lacks to a width.
pub open spec fn padded(s: Seq<char>, w: nat) -> Seq<char> {
    s + repeated(
        ' ',
        if visible(s) < w {
            (w - visible(s)) as nat
        } else {
            0
        },
    )
}

/// Right-pads a string, that may contain escape sequences, to `w` visible columns.
#[must_use]
pub fn pad(s: &str, w: usize) -> (r: String)
    ensures
        r@ == padded(s@, w as nat),
{
    let mut out: Vec<char> = Vec::new();
    push_text(&mut out, s);
    let n = visible_len(s);
    let mut i: usize = n;
    assert(out@ =~= s@ + repeated(' ', 0));
    while i < w
        invariant
            n <= i,
            n <= w ==> i <= w,
            n > w ==> i == n,
            out@ == s@ + repeated(' ', (i - n) as nat),
        decreases w - i,
    {
        out.push(' ');
        i = i + 1;
        assert(out@ =~= s@ + repeated(' ', (i - n) as nat));
    }
    assert(out@ =~= padded(s@, w as nat));
    to_text(&out)
}

/// Looking at two texts one after the other.
proof fn lemma_scan_add(s: Seq<char>, t: Seq<char>, escape: bool)
    ensures
        scan(s + t, escape) == (
            scan(s, escape).0 + scan(t, scan(s, escape).1).0,
            scan(t, scan(s, escape).1).1,
        ),
    decreases t.len(),
{
    if t.len() == 0 {
        assert(s + t =~= s);
    } else {
        lemma_scan_add(s, t.drop_last(), escape);
        assert((s + t).drop_last() =~= s + t.drop_last());
        assert((s + t).last() == t.last());
    }
}

/// A text without escapes is shown as it is.
proof fn lemma_scan_plain(s: Seq<char>)
    requires
        !s.contains('\x1b'),
    ensures
        scan(s, false) == (s.len(), false),
    decreases s.len(),
{
    if s.len() > 0 {
        let t = s.drop_last();
        assert forall|i: int| 0 <= i < t.len() implies t[i] != '\x1b' by {
            assert(s[i] == t[i]);
            assert(s.contains(s[i]));
        }
        lemma_scan_plain(t);
        assert(s.contains(s.last()));
    }
}

/// Inside an escape sequence nothing is shown.
proof fn lemma_scan_escape(s: Seq<char>)
    requires
        !s.contains('m'),
    ensures
        scan(s, true) == (0nat, true),
    decreases s.len(),
{
    if s.len() > 0 {
        let t = s.drop_last();
        assert forall|i: int| 0 <= i < t.len() implies t[i] != 'm' by {
            assert(s[i] == t[i]);
            assert(s.contains(s[i]));
        }
        lemma_scan_escape(t);
        assert(s.contains(s.last()));
    }
}

proof fn lemma_rgb_text(c: Rgb)
    ensures
        !rgb_text(c).contains('m'),
{
    lemma_decimal(c.0 as nat);
    lemma_decimal(c.1 as nat);
    lemma_decimal(c.2 as nat);
    reveal_strlit(";");
    let (a, b, d) = (decimal(c.0 as nat), decimal(c.1 as nat), decimal(c.2 as nat));
    let t = rgb_text(c);
    assert forall|i: int| 0 <= i < t.len() implies t[i] != 'm' by {
        let n = a.len();
        let m = b.len();
        if i < n {
            assert(is_digit(a[i]));
        } else if i == n {
        } else if i < n + 1 + m {
            assert(is_digit(b[i - n - 1]));
        } else if i == n + 1 + m {
        } else {
            assert(is_digit(d[i - n - m - 2]));
        }
    }
}

proof fn lemma_painted(s: Seq<char>, open: Seq<char>, c: Rgb)
    requires
        !s.contains('\x1b'),
        scan(open, false) == (0nat, true),
    ensures
        scan(painted(s, open, c), false) == (s.len(), false),
{
    let rgb = rgb_text(c);
    reveal_strlit("m");
    reveal_strlit("\x1b[0m");
    lemma_rgb_text(c);
    lemma_scan_escape(rgb);
    lemma_scan_add(open, rgb, false);
    lemma_scan_add(open + rgb, "m"@, false);
    assert("m"@.drop_last() =~= Seq::<char>::empty());
    assert(scan("m"@.drop_last(), true) == (0nat, true));
    assert("m"@.last() == 'm');
    assert(scan("m"@, true) == (0nat, false));
    lemma_scan_plain(s);
    lemma_scan_add(open + rgb + "m"@, s, false);
    let close = "\x1b[0m"@;
    reveal_with_fuel(scan, 6);
    assert(close.drop_last().drop_last().drop_last().drop_last() =~= Seq::<char>::empty());
    assert(scan(close, false) == (0nat, false));
    lemma_scan_add(open + rgb + "m"@ + s, close, false);
}

/// Colours do not change how wide a text is.
pub proof fn law_paint_width(t: Theme, s: Seq<char>, c: Rgb)
    requires
        !s.contains('\x1b'),
    ensures
        visible(t.in_color(s, c)) == s.len(),
        visible(t.in_bold(s, c)) == s.len(),
{
    lemma_scan_plain(s);
    if t.color {
        reveal_strlit("\x1b[38;2;");
        reveal_strlit("\x1b[1;38;2;");
        let a = "\x1b[38;2;"@;
        let b = "\x1b[1;38;2;"@;
        let (a0, a1) = (a.take(1), a.skip(1));
        let (b0, b1) = (b.take(1), b.skip(1));
        assert(a =~= a0 + a1);
        assert(b =~= b0 + b1);
        assert(a0.drop_last() =~= Seq::<char>::empty());
        assert(b0.drop_last() =~= Seq::<char>::empty());
        assert(scan(a0.drop_last(), false) == (0nat, false));
        assert(a0.last() == '\x1b');
        assert(b0.last() == '\x1b');
        assert(scan(a0, false) == (0nat, true));
        assert(scan(b0, false) == (0nat, true));
        assert(!a1.contains('m'));
        assert(!b1.contains('m'));
        lemma_scan_escape(a1);
        lemma_scan_escape(b1);
        lemma_scan_add(a0, a1, false);
        lemma_scan_add(b0, b1, false);
        lemma_painted(s, a, c);
        lemma_painted(s, b, c);
    }
}

/// A padded text is as wide as it was, or as the width it was padded to.
pub proof fn law_pad_width(s: Seq<char>, w: nat)
    requires
        !scan(s, false).1,
    ensures
        visible(padded(s, w)) == if visible(s) < w {
            w
        } else {
            visible(s)
        },
{
    let fill = repeated(
        ' ',
        if visible(s) < w {
            (w - visible(s)) as nat
        } else {
            0
        },
    );
    lemma_scan_plain(fill);
    lemma_scan_add(s, fill, false);
}

/// Two decimal digits.
pub open spec fn two_digits(n: nat) -> Seq<char> {
    if n < 10 {
        "0"@ + decimal(n)
    } else {
        decimal(n)
    }
}

/// `H:MM:SS` or `M:SS`
pub open spec fn duration_text(s: nat) -> Seq<char> {
    if s >= 3600 {
        decimal(s / 3600) + ":"@ + two_digits((s % 3600) / 60) + ":"@ + two_digits(s % 60)
    } else {
        decimal(s / 60) + ":"@ + two_digits(s % 60)
    }
}

fn push_two_digits(out: &mut Vec<char>, n: u64)
    ensures
        final(out)@ == old(out)@ + two_digits(n as nat),
{
    let ghost before = out@;
    if n < 10 {
        push_text(out, "0");
    }
    push_number(out, n);
    assert(out@ =~= before + two_digits(n as nat));
}

/// Formats whole seconds as `H:MM:SS` or `M:SS`.
#[must_use]
pub fn fmt_dur(s: u64) -> (r: String)
    ensures
        r@ == duration_text(s as nat),
{
    let mut out: Vec<char> = Vec::new();
    if s >= 3600 {
        push_number(&mut out, s / 3600);
        push_text(&mut out, ":");
        push_two_digits(&mut out, (s % 3600) / 60);
        push_text(&mut out, ":");
        push_two_digits(&mut out, s % 60);
    } else {
        push_number(&mut out, s / 60);
        push_text(&mut out, ":");
        push_two_digits(&mut out, s % 60);
    }
    assert(out@ =~= duration_text(s as nat));
    to_text(&out)
}

} // verus!
