//! Which way the marks of a chart point, and which of them are seen.
use vstd::prelude::*;
use crate::fixed::Fixed;
use crate::tui::canvas::{braille_char, Braille};
use crate::tui::chart::{ascii_mark, comparable, recent, row_edge, topmost, SPARK_N};
use crate::tui::style::{glyph_text, Glyph, Theme, BAD, GOOD};

verus! {

/// A change is marked by the way it goes, and is good where that is the way wished for.
pub proof fn law_delta(t: Theme, d: Fixed, size: Seq<char>, lower_is_better: bool)
    requires
        d.raw != 0,
    ensures
        d.raw < 0 ==> t.delta_text(d, size, lower_is_better) == t.in_color(
            glyph_text(Glyph::Down, t.unicode) + size,
            if lower_is_better {
                GOOD
            } else {
                BAD
            },
        ),
        d.raw > 0 ==> t.delta_text(d, size, lower_is_better) == t.in_color(
            glyph_text(Glyph::Up, t.unicode) + size,
            if lower_is_better {
                BAD
            } else {
                GOOD
            },
        ),
{
}

/// A sparkline ends where the series does: counted from the end, its values are those of the
/// series, as many as fit.
pub proof fn law_recent<S>(values: Seq<S>, i: int)
    requires
        0 <= i < recent(values).len(),
    ensures
        recent(values)[recent(values).len() - 1 - i] == values[values.len() - 1 - i],
        recent(values).len() <= SPARK_N,
        recent(values).len() < values.len() ==> recent(values).len() == SPARK_N,
        recent(values).len() <= values.len(),
{
}

/// A cell shows the first layer that is not blank there; where every layer is blank, nothing.
pub proof fn law_topmost(cs: Seq<Braille>, r: int, c: int, k: nat, layer: int)
    requires
        k <= layer < cs.len(),
        cs.len() <= usize::MAX,
        braille_char(cs[layer].cell(c, r)) != '\u{2800}',
        forall|j: int|
            k <= j < layer ==> braille_char((#[trigger] cs[j]).cell(c, r)) == '\u{2800}',
    ensures
        topmost(cs, r, c, k) == (braille_char(cs[layer].cell(c, r)), layer as usize),
    decreases layer - k,
{
    if k < layer {
        assert(braille_char(cs[k as int].cell(c, r)) == '\u{2800}');
        law_topmost(cs, r, c, k + 1, layer);
    }
}

/// The edges of the rows lie at equal distances.
proof fn lemma_edge(r: int)
    requires
        0 <= r <= 6,
    ensures
        6 * row_edge::<Fixed>(r).raw >= (6 - r) * 65536,
        6 * row_edge::<Fixed>(r).raw < (6 - r) * 65536 + 6,
{
    let n = Fixed::whole(r);
    assert(n.raw == r * 65536);
    let d = Fixed::whole(6);
    assert(d.raw == 393216);
    let q = n.over(d);
    assert(q.raw == r * 65536 * 65536 / 393216);
}

/// In a plain plot the mark of a value is in the row of its height, its stem in the rows below, and
/// nothing above: the rows cut the span into equal parts, from the top.
pub proof fn law_plain_mark(v: Fixed, lo: Fixed, span: Fixed, r: int)
    requires
        0 <= r < 6,
    ensures
        ({
            let height = v.minus(lo).over(span).raw;
            let mark = ascii_mark(v, lo, span, r);
            &&& mark == '*' ==> (5 - r) * 65536 <= 6 * height < (6 - r) * 65536 + 6
            &&& mark == '|' ==> 6 * height > (6 - r) * 65536
            &&& mark == ' ' ==> 6 * height < (5 - r) * 65536 + 6
            &&& mark == '*' || mark == '|' || mark == ' '
        }),
{
    lemma_edge(r);
    lemma_edge(r + 1);
    let norm = v.minus(lo).over(span);
    let (top, bot) = (row_edge::<Fixed>(r), row_edge::<Fixed>(r + 1));
    assert(comparable(norm) && comparable(top) && comparable(bot));
}

} // verus!
