//! Newline-delimited JSON records of training metrics.
//!
//! One JSON object per line: a `run` record when training starts, then an `epoch`
//! record per epoch. Readers tail the file as it grows.
//!
//! The encoder here is hand-written so the training crate keeps no runtime
//! serialisation dependency. Numbers with fractions come as text.
use vstd::prelude::*;
use crate::text::{decimal, push_number, push_text, to_text};

verus! {

/// A hexadecimal digit.
pub open spec fn hex_digit(d: nat) -> char {
    if d < 10 {
        ('0' as int + d) as char
    } else {
        ('a' as int + d - 10) as char
    }
}

/// How a character is written in a JSON string.
pub open spec fn escape(c: char) -> Seq<char> {
    if c == '"' {
        seq!['\\', '"']
    } else if c == '\\' {
        seq!['\\', '\\']
    } else if c == '\n' {
        seq!['\\', 'n']
    } else if c == '\r' {
        seq!['\\', 'r']
    } else if c == '\t' {
        seq!['\\', 't']
    } else if (c as int) < 0x20 {
        seq!['\\', 'u', '0', '0', hex_digit(c as nat / 16), hex_digit(c as nat % 16)]
    } else {
        seq![c]
    }
}

/// How characters are written in a JSON string.
pub open spec fn escape_all(s: Seq<char>) -> Seq<char>
    decreases s.len(),
{
    if s.len() == 0 {
        Seq::empty()
    } else {
        escape_all(s.drop_last()) + escape(s.last())
    }
}

/// A JSON string.
pub open spec fn json_string(s: Seq<char>) -> Seq<char> {
    seq!['"'] + escape_all(s) + seq!['"']
}

/// The character that a hexadecimal digit stands for.
pub open spec fn hex_value(c: char) -> Option<int> {
    if '0' <= c <= '9' {
        Some(c as int - '0' as int)
    } else if 'a' <= c <= 'f' {
        Some(c as int - 'a' as int + 10)
    } else {
        None
    }
}

/// The first character that a JSON string's text stands for, and how long it is written.
pub open spec fn unescape(t: Seq<char>) -> Option<(char, int)> {
    if t.len() == 0 || t[0] == '"' {
        None
    } else if t[0] != '\\' {
        Some((t[0], 1))
    } else if t.len() < 2 {
        None
    } else if t[1] == '"' || t[1] == '\\' {
        Some((t[1], 2))
    } else if t[1] == 'n' {
        Some(('\n', 2))
    } else if t[1] == 'r' {
        Some(('\r', 2))
    } else if t[1] == 't' {
        Some(('\t', 2))
    } else if t[1] == 'u' && t.len() >= 6 && t[2] == '0' && t[3] == '0' && hex_value(t[4]) is Some
        && hex_value(t[5]) is Some {
        Some(((hex_value(t[4])->0 * 16 + hex_value(t[5])->0) as char, 6))
    } else {
        None
    }
}

/// The text that the inside of a JSON string stands for: all of it up to the closing quote.
pub open spec fn read_string(t: Seq<char>) -> Option<Seq<char>>
    decreases t.len(),
{
    if t.len() == 1 && t[0] == '"' {
        Some(Seq::empty())
    } else {
        match unescape(t) {
            Some((c, n)) => if 0 < n <= t.len() {
                match read_string(t.subrange(n, t.len() as int)) {
                    Some(rest) => Some(seq![c] + rest),
                    None => None,
                }
            } else {
                None
            },
            None => None,
        }
    }
}

proof fn lemma_unescape(c: char, rest: Seq<char>)
    ensures
        unescape(escape(c) + rest) == Some((c, escape(c).len() as int)),
{
    let e = escape(c);
    let t = e + rest;
    assert(forall|i: int| 0 <= i < e.len() ==> t[i] == e[i]);
    if c != '"' && c != '\\' && c != '\n' && c != '\r' && c != '\t' && (c as int) < 0x20 {
        let h = c as nat / 16;
        let l = c as nat % 16;
        assert(e[4] == hex_digit(h) && e[5] == hex_digit(l));
        assert(hex_value(hex_digit(h)) == Some(h as int));
        assert(hex_value(hex_digit(l)) == Some(l as int));
    }
}

proof fn lemma_escape_front(s: Seq<char>)
    requires
        s.len() > 0,
    ensures
        escape_all(s) == escape(s[0]) + escape_all(s.subrange(1, s.len() as int)),
    decreases s.len(),
{
    let tail = s.subrange(1, s.len() as int);
    if s.len() == 1 {
        assert(s.drop_last() =~= Seq::<char>::empty());
        assert(tail =~= Seq::<char>::empty());
        assert(escape_all(s) =~= escape(s[0]) + escape_all(tail));
    } else {
        let head = s.drop_last();
        lemma_escape_front(head);
        assert(head.subrange(1, head.len() as int) =~= tail.drop_last());
        assert(escape_all(s) =~= escape(s[0]) + escape_all(tail));
    }
}

/// A JSON string stands for the text that it was made from.
pub proof fn law_json_string(s: Seq<char>)
    ensures
        json_string(s)[0] == '"',
        read_string(json_string(s).subrange(1, json_string(s).len() as int)) == Some(s),
    decreases s.len(),
{
    let inner = escape_all(s) + seq!['"'];
    assert(json_string(s).subrange(1, json_string(s).len() as int) =~= inner);
    lemma_read_back(s);
}

proof fn lemma_read_back(s: Seq<char>)
    ensures
        read_string(escape_all(s) + seq!['"']) == Some(s),
    decreases s.len(),
{
    let inner = escape_all(s) + seq!['"'];
    if s.len() == 0 {
        assert(inner =~= seq!['"']);
        assert(s =~= Seq::<char>::empty());
    } else {
        let tail = s.subrange(1, s.len() as int);
        lemma_escape_front(s);
        lemma_read_back(tail);
        let rest = escape_all(tail) + seq!['"'];
        assert(inner =~= escape(s[0]) + rest);
        lemma_unescape(s[0], rest);
        let n = escape(s[0]).len() as int;
        assert(inner.subrange(n, inner.len() as int) =~= rest);
        assert(seq![s[0]] + tail =~= s);
        assert(!(inner.len() == 1 && inner[0] == '"')) by {
            assert(rest.len() >= 1);
        }
    }
}

/// A hexadecimal digit.
fn hex_char(d: u32) -> (c: char)
    requires
        d < 16,
    ensures
        c == hex_digit(d as nat),
{
    match d {
        0 => '0',
        1 => '1',
        2 => '2',
        3 => '3',
        4 => '4',
        5 => '5',
        6 => '6',
        7 => '7',
        8 => '8',
        9 => '9',
        10 => 'a',
        11 => 'b',
        12 => 'c',
        13 => 'd',
        14 => 'e',
        _ => 'f',
    }
}

/// Writes a JSON string.
fn push_json(out: &mut Vec<char>, s: &str)
    ensures
        final(out)@ == old(out)@ + json_string(s@),
{
    let ghost before = out@;
    out.push('"');
    let ghost opened = out@;
    let n: usize = s.unicode_len();
    let mut i: usize = 0;
    assert(opened + escape_all(s@.take(0)) =~= opened);
    while i < n
        invariant
            i <= n,
            n == s@.len(),
            out@ == opened + escape_all(s@.take(i as int)),
        decreases n - i,
    {
        let ghost mid = out@;
        let c = s.get_char(i);
        if c == '"' {
            out.push('\\');
            out.push('"');
        } else if c == '\\' {
            out.push('\\');
            out.push('\\');
        } else if c == '\n' {
            out.push('\\');
            out.push('n');
        } else if c == '\r' {
            out.push('\\');
            out.push('r');
        } else if c == '\t' {
            out.push('\\');
            out.push('t');
        } else if (c as u32) < 0x20 {
            out.push('\\');
            out.push('u');
            out.push('0');
            out.push('0');
            out.push(hex_char(c as u32 / 16));
            out.push(hex_char(c as u32 % 16));
        } else {
            out.push(c);
        }
        i = i + 1;
        proof {
            assert(out@ =~= mid + escape(c));
            let t = s@.take(i as int);
            assert(t.drop_last() =~= s@.take(i - 1));
            assert(t.last() == c);
            assert(out@ =~= opened + escape_all(t));
        }
    }
    assert(s@.take(n as int) =~= s@);
    out.push('"');
    assert(out@ =~= before + json_string(s@));
}

/// Encodes a string as a JSON string literal, escaping what JSON requires.
#[must_use]
pub fn json_str(s: &str) -> (r: String)
    ensures
        r@ == json_string(s@),
{
    let mut out: Vec<char> = Vec::new();
    push_json(&mut out, s);
    assert(out@ =~= json_string(s@));
    to_text(&out)
}

/// A JSON number, or `null`.
pub open spec fn json_count(v: Option<usize>) -> Seq<char> {
    match v {
        Some(n) => decimal(n as nat),
        None => "null"@,
    }
}

/// The text of a number, or `null`.
pub open spec fn json_number(v: Option<&str>) -> Seq<char> {
    match v {
        Some(t) => t@,
        None => "null"@,
    }
}

/// Writes an optional count as a JSON number, or `null`.
fn push_count(out: &mut Vec<char>, v: Option<usize>)
    ensures
        final(out)@ == old(out)@ + json_count(v),
{
    match v {
        Some(n) => push_number(out, n as u64),
        None => push_text(out, "null"),
    }
}

/// Writes the text of a number, or `null`.
fn push_optional(out: &mut Vec<char>, v: Option<&str>)
    ensures
        final(out)@ == old(out)@ + json_number(v),
{
    match v {
        Some(t) => push_text(out, t),
        None => push_text(out, "null"),
    }
}

/// The record that opens a run.
pub open spec fn run_text(
    title: Seq<char>,
    device: Seq<char>,
    total_epochs: usize,
    started: u64,
) -> Seq<char> {
    "{\"type\":\"run\",\"title\":"@ + json_string(title) + ",\"device\":"@ + json_string(device)
        + ",\"total_epochs\":"@ + decimal(total_epochs as nat) + ",\"started\":"@ + decimal(
        started as nat,
    ) + "}"@
}

/// The record that opens a run.
#[must_use]
pub fn run_record(title: &str, device: &str, total_epochs: usize, started: u64) -> (r: String)
    ensures
        r@ == run_text(title@, device@, total_epochs, started),
{
    let mut out: Vec<char> = Vec::new();
    push_text(&mut out, "{\"type\":\"run\",\"title\":");
    push_json(&mut out, title);
    push_text(&mut out, ",\"device\":");
    push_json(&mut out, device);
    push_text(&mut out, ",\"total_epochs\":");
    push_number(&mut out, total_epochs as u64);
    push_text(&mut out, ",\"started\":");
    push_number(&mut out, started);
    push_text(&mut out, "}");
    assert(out@ =~= run_text(title@, device@, total_epochs, started));
    to_text(&out)
}

/// What an epoch's record holds. Numbers with fractions are text.
pub struct EpochRecord<'a> {
    pub epoch: usize,
    pub train_loss: &'a str,
    pub val_loss: Option<&'a str>,
    pub val_acc: Option<&'a str>,
    pub vram_mb: Option<usize>,
    pub ram_gb: &'a str,
    pub elapsed_s: &'a str,
    pub ts: u64,
}

/// The record of one epoch.
pub open spec fn epoch_text(e: EpochRecord<'_>) -> Seq<char> {
    "{\"type\":\"epoch\",\"epoch\":"@ + decimal(e.epoch as nat) + ",\"train_loss\":"@
        + e.train_loss@ + ",\"val_loss\":"@ + json_number(e.val_loss) + ",\"val_acc\":"@
        + json_number(e.val_acc) + ",\"vram_mb\":"@ + json_count(e.vram_mb) + ",\"ram_gb\":"@
        + e.ram_gb@ + ",\"elapsed_s\":"@ + e.elapsed_s@ + ",\"ts\":"@ + decimal(e.ts as nat) + "}"@
}

/// The record of one epoch.
#[must_use]
pub fn epoch_record(e: &EpochRecord<'_>) -> (r: String)
    ensures
        r@ == epoch_text(*e),
{
    let mut out: Vec<char> = Vec::new();
    push_text(&mut out, "{\"type\":\"epoch\",\"epoch\":");
    push_number(&mut out, e.epoch as u64);
    push_text(&mut out, ",\"train_loss\":");
    push_text(&mut out, e.train_loss);
    push_text(&mut out, ",\"val_loss\":");
    push_optional(&mut out, e.val_loss);
    push_text(&mut out, ",\"val_acc\":");
    push_optional(&mut out, e.val_acc);
    push_text(&mut out, ",\"vram_mb\":");
    push_count(&mut out, e.vram_mb);
    push_text(&mut out, ",\"ram_gb\":");
    push_text(&mut out, e.ram_gb);
    push_text(&mut out, ",\"elapsed_s\":");
    push_text(&mut out, e.elapsed_s);
    push_text(&mut out, ",\"ts\":");
    push_number(&mut out, e.ts);
    push_text(&mut out, "}");
    assert(out@ =~= epoch_text(*e));
    to_text(&out)
}

/// A free-text record.
pub open spec fn note_text(text: Seq<char>, ts: u64) -> Seq<char> {
    "{\"type\":\"note\",\"text\":"@ + json_string(text) + ",\"ts\":"@ + decimal(ts as nat) + "}"@
}

/// A free-text record, such as a new best checkpoint.
#[must_use]
pub fn note_record(text: &str, ts: u64) -> (r: String)
    ensures
        r@ == note_text(text@, ts),
{
    let mut out: Vec<char> = Vec::new();
    push_text(&mut out, "{\"type\":\"note\",\"text\":");
    push_json(&mut out, text);
    push_text(&mut out, ",\"ts\":");
    push_number(&mut out, ts);
    push_text(&mut out, "}");
    assert(out@ =~= note_text(text@, ts));
    to_text(&out)
}

/// The terminating record; a best accuracy that is no finite number is `null`.
pub open spec fn done_text(
    best_acc: Option<&str>,
    best_epoch: usize,
    elapsed_s: Seq<char>,
    ts: u64,
) -> Seq<char> {
    "{\"type\":\"done\",\"best_acc\":"@ + json_number(best_acc) + ",\"best_epoch\":"@ + decimal(
        best_epoch as nat,
    ) + ",\"elapsed_s\":"@ + elapsed_s + ",\"ts\":"@ + decimal(ts as nat) + "}"@
}

/// The terminating record, so a reader can tell a finished run from a crashed one.
#[must_use]
pub fn done_record(
    best_acc: Option<&str>,
    best_epoch: usize,
    elapsed_s: &str,
    ts: u64,
) -> (r: String)
    ensures
        r@ == done_text(best_acc, best_epoch, elapsed_s@, ts),
{
    let mut out: Vec<char> = Vec::new();
    push_text(&mut out, "{\"type\":\"done\",\"best_acc\":");
    push_optional(&mut out, best_acc);
    push_text(&mut out, ",\"best_epoch\":");
    push_number(&mut out, best_epoch as u64);
    push_text(&mut out, ",\"elapsed_s\":");
    push_text(&mut out, elapsed_s);
    push_text(&mut out, ",\"ts\":");
    push_number(&mut out, ts);
    push_text(&mut out, "}");
    assert(out@ =~= done_text(best_acc, best_epoch, elapsed_s@, ts));
    to_text(&out)
}

/// A text without a line break.
pub open spec fn one_line(s: Seq<char>) -> bool {
    forall|i: int| 0 <= i < s.len() ==> #[trigger] s[i] != '\n'
}

proof fn lemma_escape_char(c: char)
    ensures
        one_line(escape(c)),
{
    let e = escape(c);
    assert forall|i: int| 0 <= i < e.len() implies #[trigger] e[i] != '\n' by {
        if (c as int) < 0x20 {
            assert(hex_digit(c as nat / 16) != '\n');
            assert(hex_digit(c as nat % 16) != '\n');
        }
    }
}

proof fn lemma_escape_one_line(s: Seq<char>)
    ensures
        one_line(escape_all(s)),
    decreases s.len(),
{
    if s.len() > 0 {
        lemma_escape_one_line(s.drop_last());
        lemma_escape_char(s.last());
    }
}

proof fn lemma_decimal_one_line(n: nat)
    ensures
        one_line(decimal(n)),
    decreases n,
{
    if n >= 10 {
        lemma_decimal_one_line(n / 10);
    }
}

/// Every record is one line, whatever the title, the device's name or a note's text holds, as long
/// as the numbers' texts hold no line break.
pub proof fn law_records_one_line(
    title: Seq<char>,
    device: Seq<char>,
    note: Seq<char>,
    e: EpochRecord<'_>,
    best_acc: Option<&str>,
    elapsed_s: Seq<char>,
    count: usize,
    ts: u64,
)
    requires
        one_line(e.train_loss@),
        one_line(json_number(e.val_loss)),
        one_line(json_number(e.val_acc)),
        one_line(e.ram_gb@),
        one_line(e.elapsed_s@),
        one_line(json_number(best_acc)),
        one_line(elapsed_s),
    ensures
        one_line(run_text(title, device, count, ts)),
        one_line(epoch_text(e)),
        one_line(note_text(note, ts)),
        one_line(done_text(best_acc, count, elapsed_s, ts)),
{
    lemma_escape_one_line(title);
    lemma_escape_one_line(device);
    lemma_escape_one_line(note);
    lemma_decimal_one_line(count as nat);
    lemma_decimal_one_line(ts as nat);
    lemma_decimal_one_line(e.epoch as nat);
    lemma_decimal_one_line(e.ts as nat);
    if let Some(n) = e.vram_mb {
        lemma_decimal_one_line(n as nat);
    }
    reveal_strlit("null");
    assert(one_line(run_text(title, device, count, ts))) by {
        reveal_strlit("{\"type\":\"run\",\"title\":");
        reveal_strlit(",\"device\":");
        reveal_strlit(",\"total_epochs\":");
        reveal_strlit(",\"started\":");
        reveal_strlit("}");
    }
    assert(one_line(epoch_text(e))) by {
        reveal_strlit("{\"type\":\"epoch\",\"epoch\":");
        reveal_strlit(",\"train_loss\":");
        reveal_strlit(",\"val_loss\":");
        reveal_strlit(",\"val_acc\":");
        reveal_strlit(",\"vram_mb\":");
        reveal_strlit(",\"ram_gb\":");
        reveal_strlit(",\"elapsed_s\":");
        reveal_strlit(",\"ts\":");
        reveal_strlit("}");
    }
    assert(one_line(note_text(note, ts))) by {
        reveal_strlit("{\"type\":\"note\",\"text\":");
        reveal_strlit(",\"ts\":");
        reveal_strlit("}");
    }
    assert(one_line(done_text(best_acc, count, elapsed_s, ts))) by {
        reveal_strlit("{\"type\":\"done\",\"best_acc\":");
        reveal_strlit(",\"best_epoch\":");
        reveal_strlit(",\"elapsed_s\":");
        reveal_strlit(",\"ts\":");
        reveal_strlit("}");
    }
}

} // verus!
