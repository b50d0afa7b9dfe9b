use crate::canvas::Canvas;
use crate::color::{
    derive_background, spec_derive_background, spec_fg_color_of, BgColor, FgColor, Rgb, Style,
};
use crate::glyph::{glyph_bit, glyph_wide, glyph_width, put_char_in_image};
use crate::highlight::Span;
use vstd::prelude::*;
use vstd::string::StringSliceAdditionalSpecFns;

verus! {

/// The pixel width of one narrow glyph cell; wide glyphs take two cells.
pub const CHAR_WIDTH: u32 = 8;

/// Collects the characters of the string into a vector.
pub(crate) fn chars_of(s: &str) -> (out: Vec<char>)
    ensures
        out@ == s@,
{
    let n: usize = s.unicode_len();
    let mut out: Vec<char> = Vec::new();
    let mut i: usize = 0;
    while i < n
        invariant
            i <= n,
            n == s@.len(),
            out@ == s@.take(i as int),
        decreases n - i,
    {
        let c: char = s.get_char(i);
        out.push(c);
        proof {
            assert(out@ =~= s@.take(i + 1));
        }
        i = i + 1;
    }
    proof {
        assert(s@.take(n as int) =~= s@);
    }
    out
}

/// The length of the first line of `s`, its terminator included: up to and
/// including the first newline, or all of `s` if it has none.
pub open spec fn line_span(s: Seq<char>) -> int
    decreases s.len(),
{
    if s.len() == 0 {
        0
    } else if s[0] == '\n' {
        1
    } else {
        1 + line_span(s.drop_first())
    }
}

/// The lines of `s`, split after each newline, terminators kept; a final
/// fragment without terminator is a line of its own.
pub open spec fn spec_lines(s: Seq<char>) -> Seq<Seq<char>>
    decreases s.len(),
{
    if s.len() == 0 {
        Seq::empty()
    } else {
        let k0 = line_span(s);
        let k = if k0 < 1 {
            1int
        } else if k0 > s.len() {
            s.len() as int
        } else {
            k0
        };
        seq![s.take(k)] + spec_lines(s.skip(k))
    }
}

/// The length in characters of the longest of the given lines.
pub open spec fn spec_longest(lines: Seq<Seq<char>>) -> int
    decreases lines.len(),
{
    if lines.len() == 0 {
        0
    } else {
        let rest = spec_longest(lines.drop_last());
        if lines.last().len() > rest {
            lines.last().len() as int
        } else {
            rest
        }
    }
}

/// The longest line length is never negative.
pub proof fn lemma_spec_longest_nonneg(lines: Seq<Seq<char>>)
    ensures
        spec_longest(lines) >= 0,
    decreases lines.len(),
{
    if lines.len() == 0 {
    } else {
        lemma_spec_longest_nonneg(lines.drop_last());
    }
}

pub proof fn lemma_line_span_at(s: Seq<char>, k: int)
    requires
        0 <= k <= s.len(),
        forall|j: int| 0 <= j < k ==> s[j] != '\n',
        k == s.len() || s[k] == '\n',
    ensures
        line_span(s) == (if k == s.len() {
            k
        } else {
            k + 1
        }),
    decreases k,
{
    if s.len() == 0 {
    } else if k == 0 {
    } else {
        assert(s[0] != '\n');
        assert(forall|j: int| 0 <= j < k - 1 ==> s.drop_first()[j] != '\n');
        lemma_line_span_at(s.drop_first(), k - 1);
    }
}

/// Splits the characters into line ranges, terminators kept: the ranges
/// tile `chars` from start to end and each holds one line of `spec_lines`.
#[verifier::rlimit(60)]
pub fn split_lines(chars: &Vec<char>) -> (out: Vec<(usize, usize)>)
    ensures
        out@.len() == spec_lines(chars@).len(),
        forall|i: int|
            0 <= i < out@.len() ==> (#[trigger] out@[i]).0 < out@[i].1 <= chars@.len(),
        forall|i: int|
            0 <= i < out@.len() ==> chars@.subrange(out@[i].0 as int, out@[i].1 as int)
                == spec_lines(chars@)[i],
        forall|i: int|
            0 <= i < out@.len() ==> (#[trigger] out@[i]).1 == (if i + 1 < out@.len() {
                out@[i + 1].0 as int
            } else {
                chars@.len() as int
            }),
        out@.len() >= 1 ==> out@[0].0 == 0,
        out@.len() == 0 <==> chars@.len() == 0,
{
    let n: usize = chars.len();
    let mut out: Vec<(usize, usize)> = Vec::new();
    let mut pos: usize = 0;
    proof {
        assert(chars@.skip(0) =~= chars@);
    }
    while pos < n
        invariant
            n == chars@.len(),
            pos <= n,
            spec_lines(chars@) =~= Seq::new(
                out@.len(),
                |i: int| chars@.subrange(out@[i].0 as int, out@[i].1 as int),
            ) + spec_lines(chars@.skip(pos as int)),
            forall|i: int|
                0 <= i < out@.len() ==> (#[trigger] out@[i]).0 < out@[i].1 <= pos,
            forall|i: int|
                0 <= i < out@.len() ==> (#[trigger] out@[i]).1 == (if i + 1 < out@.len() {
                    out@[i + 1].0 as int
                } else {
                    pos as int
                }),
            out@.len() >= 1 ==> out@[0].0 == 0,
            out@.len() == 0 ==> pos == 0,
        decreases n - pos,
    {
        let start: usize = pos;
        let mut i: usize = pos;
        while i < n && *(&chars[i]) != '\n'
            invariant
                n == chars@.len(),
                pos <= i <= n,
                forall|j: int| pos <= j < i ==> chars@[j] != '\n',
            decreases n - i,
        {
            i = i + 1;
        }
        let end: usize = if i < n {
            i + 1
        } else {
            n
        };
        proof {
            let rest = chars@.skip(pos as int);
            assert(forall|j: int| 0 <= j < i - pos ==> rest[j] != '\n');
            assert((i - pos) as int == rest.len() || rest[(i - pos) as int] == '\n');
            lemma_line_span_at(rest, i as int - pos as int);
            assert(line_span(rest) == end - pos);
            assert(rest.take((end - pos) as int) =~= chars@.subrange(pos as int, end as int));
            assert(rest.skip((end - pos) as int) =~= chars@.skip(end as int));
            assert(spec_lines(rest) == seq![chars@.subrange(pos as int, end as int)] + spec_lines(
                chars@.skip(end as int),
            ));
        }
        out.push((start, end));
        pos = end;
        proof {
            assert(spec_lines(chars@) =~= Seq::new(
                out@.len(),
                |i: int| chars@.subrange(out@[i].0 as int, out@[i].1 as int),
            ) + spec_lines(chars@.skip(pos as int)));
        }
    }
    proof {
        assert(chars@.skip(pos as int) =~= Seq::empty());
        assert forall|i: int| 0 <= i < out@.len() implies chars@.subrange(
            out@[i].0 as int,
            out@[i].1 as int,
        ) == spec_lines(chars@)[i] by {
            assert(spec_lines(chars@)[i] == Seq::new(
                out@.len(),
                |k: int| chars@.subrange(out@[k].0 as int, out@[k].1 as int),
            )[i]);
        }
    }
    out
}

/// Return the `(x, y)` offsets to apply to the given line, to wrap columns
/// of lines into the target image.
pub fn calc_offsets(line_num: u32, lines_per_column: u32, column_width: u32, line_height: u32) -> (
    out: (u32, u32))
    requires
        lines_per_column >= 1,
        (line_num as int / lines_per_column as int) * column_width as int <= u32::MAX,
        (line_num as int % lines_per_column as int) * line_height as int <= u32::MAX,
    ensures
        out.0 == (line_num as int / lines_per_column as int) * column_width as int,
        out.1 == (line_num as int % lines_per_column as int) * line_height as int,
{
    proof {
        assert((0 <= (line_num as int) % (lines_per_column as int)) && ((line_num as int) % (
        lines_per_column as int)) < (lines_per_column as int)) by (nonlinear_arith)
            requires
                lines_per_column >= 1,
                line_num >= 0,
        ;
        assert(0 <= line_num as int / lines_per_column as int) by (nonlinear_arith)
            requires
                lines_per_column >= 1,
                line_num >= 0,
        ;
    }
    ((line_num / lines_per_column) * column_width, (line_num % lines_per_column) * line_height)
}

/// What one character cell of a rendered line holds.
#[derive(Clone, Copy)]
pub enum Cell {
    /// A cell filled with the background color.
    Bg,
    /// The leftmost cell of one glyph, with the glyph's foreground color.
    Glyph { ch: char, fg: Rgb },
    /// The right half of a wide glyph; painted by the cell to its left.
    Tail,
}

/// The characters of one span, each paired with the span's style.
pub open spec fn span_styled(sp: Span) -> Seq<(char, Style)> {
    sp.text@.map_values(|c: char| (c, sp.style))
}

/// The characters of all spans in order, each with its span's style.
pub open spec fn styled_chars(spans: Seq<Span>) -> Seq<(char, Style)>
    decreases spans.len(),
{
    if spans.len() == 0 {
        Seq::empty()
    } else {
        span_styled(spans[0]) + styled_chars(spans.drop_first())
    }
}

/// How many background cells a tab at cell `cur` fills: up to the next
/// multiple of `tab`, clipped at the column width.
pub open spec fn tab_fill(cur: int, tab: int, cw: int) -> int {
    if tab - cur % tab <= cw - cur {
        tab - cur % tab
    } else {
        cw - cur
    }
}

/// The cells one character produces at cell `cur`: spaces and line
/// terminators yield one background cell, a tab fills to the next tab stop,
/// and any other character yields its glyph, two cells wide where the glyph
/// is wide.
pub open spec fn step_cells(c: char, st: Style, cur: int, cw: int, tab: int, fg: FgColor) -> Seq<
    Cell,
> {
    if c == ' ' || c == '\n' || c == '\r' {
        Seq::empty().push(Cell::Bg)
    } else if c == '\t' {
        Seq::new(tab_fill(cur, tab, cw) as nat, |i: int| Cell::Bg)
    } else if glyph_wide(c) {
        Seq::empty().push(Cell::Glyph { ch: c, fg: spec_fg_color_of(fg, st, c) }).push(Cell::Tail)
    } else {
        Seq::empty().push(Cell::Glyph { ch: c, fg: spec_fg_color_of(fg, st, c) })
    }
}

/// The cells the given styled characters produce from cell `cur` on, until
/// the characters run out or the column width is reached.
pub open spec fn cells_from(
    scs: Seq<(char, Style)>,
    cur: int,
    cw: int,
    tab: int,
    fg: FgColor,
) -> Seq<Cell>
    decreases scs.len(),
{
    if scs.len() == 0 || cur >= cw {
        Seq::empty()
    } else {
        let step = step_cells(scs[0].0, scs[0].1, cur, cw, tab, fg);
        step + cells_from(scs.drop_first(), cur + step.len(), cw, tab, fg)
    }
}

/// The full row of cells for one line: the cells of its spans, padded with
/// background cells up to the column width.
pub open spec fn line_cells(spans: Seq<Span>, cw: int, tab: int, fg: FgColor) -> Seq<Cell> {
    let body = cells_from(styled_chars(spans), 0, cw, tab, fg);
    if body.len() < cw {
        body + Seq::new((cw - body.len()) as nat, |i: int| Cell::Bg)
    } else {
        body
    }
}

/// One character's cells never pass the column width by more than the one
/// overhanging cell of a wide glyph.
pub proof fn lemma_step_cells_len(c: char, st: Style, cur: int, cw: int, tab: int, fg: FgColor)
    requires
        0 <= cur < cw,
        tab >= 1,
    ensures
        1 <= step_cells(c, st, cur, cw, tab, fg).len(),
        cur + step_cells(c, st, cur, cw, tab, fg).len() <= cw + 1,
        c == '\t' ==> cur + step_cells(c, st, cur, cw, tab, fg).len() <= cw,
{
    if c == ' ' || c == '\n' || c == '\r' {
    } else if c == '\t' {
        assert(1 <= tab - cur % tab && tab - cur % tab <= tab) by (nonlinear_arith)
            requires
                tab >= 1,
                cur >= 0,
        ;
    } else {
    }
}

/// A line's cells cover the column exactly, except that a wide glyph
/// starting in the last cell may add one overhanging cell.
pub proof fn lemma_cells_from_len(scs: Seq<(char, Style)>, cur: int, cw: int, tab: int, fg: FgColor)
    requires
        0 <= cur,
        tab >= 1,
    ensures
        cur >= cw ==> cells_from(scs, cur, cw, tab, fg).len() == 0,
        cur < cw ==> cur + cells_from(scs, cur, cw, tab, fg).len() <= cw + 1,
    decreases scs.len(),
{
    if scs.len() == 0 || cur >= cw {
    } else {
        let step = step_cells(scs[0].0, scs[0].1, cur, cw, tab, fg);
        lemma_step_cells_len(scs[0].0, scs[0].1, cur, cw, tab, fg);
        lemma_cells_from_len(scs.drop_first(), cur + step.len(), cw, tab, fg);
    }
}

proof fn lemma_styled_take(s: Seq<Span>, i: int)
    requires
        0 <= i < s.len(),
    ensures
        styled_chars(s.take(i + 1)) =~= styled_chars(s.take(i)) + span_styled(s[i]),
    decreases i,
{
    if i == 0 {
        assert(s.take(1).drop_first() =~= s.take(0));
        assert(s.take(0) =~= Seq::<Span>::empty());
        assert(s.take(1)[0] == s[0]);
    } else {
        lemma_styled_take(s.drop_first(), i - 1);
        assert(s.take(i + 1).drop_first() =~= s.drop_first().take(i));
        assert(s.take(i).drop_first() =~= s.drop_first().take(i - 1));
        assert(s.take(i + 1)[0] == s[0]);
        assert(s.take(i)[0] == s[0]);
        assert(s.drop_first()[i - 1] == s[i]);
        assert(styled_chars(s.take(i + 1)) == span_styled(s[0]) + styled_chars(
            s.drop_first().take(i),
        ));
    }
}

/// Unfolds one step of `cells_from` at position `j` of the character
/// sequence, with `pre` the cells planned so far.
proof fn lemma_cells_unfold_step(
    full: Seq<(char, Style)>,
    j: int,
    pre: Seq<Cell>,
    cw: int,
    tab: int,
    fg: FgColor,
)
    requires
        0 <= j < full.len(),
        0 <= pre.len() < cw,
        tab >= 1,
        cells_from(full, 0, cw, tab, fg) == pre + cells_from(
            full.skip(j),
            pre.len() as int,
            cw,
            tab,
            fg,
        ),
    ensures
        cells_from(full, 0, cw, tab, fg) == (pre + step_cells(
            full[j].0,
            full[j].1,
            pre.len() as int,
            cw,
            tab,
            fg,
        )) + cells_from(
            full.skip(j + 1),
            pre.len() + step_cells(full[j].0, full[j].1, pre.len() as int, cw, tab, fg).len() as int,
            cw,
            tab,
            fg,
        ),
{
    let tail = full.skip(j);
    let step = step_cells(full[j].0, full[j].1, pre.len() as int, cw, tab, fg);
    assert(tail[0] == full[j]);
    assert(tail.drop_first() =~= full.skip(j + 1));
    assert(cells_from(tail, pre.len() as int, cw, tab, fg) == step + cells_from(
        full.skip(j + 1),
        pre.len() + step.len() as int,
        cw,
        tab,
        fg,
    ));
    assert(pre + (step + cells_from(full.skip(j + 1), pre.len() + step.len() as int, cw, tab, fg)) =~= (
    pre + step) + cells_from(full.skip(j + 1), pre.len() + step.len() as int, cw, tab, fg));
}

/// Appends the cells of one character to the row planned so far.
fn push_step(
    cells: &mut Vec<Cell>,
    c: char,
    st: Style,
    font: &mut unifont_bitmap::Unifont,
    column_width: u32,
    tab_spaces: u32,
    fg_color: FgColor,
)
    requires
        tab_spaces >= 1,
        old(cells)@.len() < column_width,
    ensures
        final(cells)@ == old(cells)@ + step_cells(
            c,
            st,
            old(cells)@.len() as int,
            column_width as int,
            tab_spaces as int,
            fg_color,
        ),
        final(cells)@.len() <= column_width + 1,
{
    let ghost pre = cells@;
    proof {
        lemma_step_cells_len(
            c,
            st,
            pre.len() as int,
            column_width as int,
            tab_spaces as int,
            fg_color,
        );
    }
    if c == ' ' || c == '\n' || c == '\r' {
        cells.push(Cell::Bg);
        proof {
            assert(cells@ =~= pre + Seq::empty().push(Cell::Bg));
        }
    } else if c == '\t' {
        let cur: u64 = cells.len() as u64;
        let r: u64 = cur % (tab_spaces as u64);
        let room: u64 = column_width as u64 - cur;
        let k: u64 = if tab_spaces as u64 - r <= room {
            tab_spaces as u64 - r
        } else {
            room
        };
        assert(k == tab_fill(pre.len() as int, tab_spaces as int, column_width as int));
        let mut filled: u64 = 0;
        while filled < k
            invariant
                filled <= k,
                pre.len() + k <= column_width,
                cells@ == pre + Seq::new(filled as nat, |i: int| Cell::Bg),
            decreases k - filled,
        {
            cells.push(Cell::Bg);
            proof {
                assert(cells@ =~= pre + Seq::new((filled + 1) as nat, |i: int| Cell::Bg));
            }
            filled = filled + 1;
        }
    } else {
        let g = crate::glyph::load_glyph(font, c);
        let fgc = crate::color::fg_color_of(fg_color, st, c);
        if g.wide {
            cells.push(Cell::Glyph { ch: c, fg: fgc });
            cells.push(Cell::Tail);
            proof {
                assert(cells@ =~= pre + Seq::empty().push(Cell::Glyph { ch: c, fg: fgc }).push(
                    Cell::Tail,
                ));
            }
        } else {
            cells.push(Cell::Glyph { ch: c, fg: fgc });
            proof {
                assert(cells@ =~= pre + Seq::empty().push(Cell::Glyph { ch: c, fg: fgc }));
            }
        }
    }
}

/// Plans the cells of one line from its highlight spans, against the
/// column width, the tab width and the foreground color policy.
pub fn plan_cells(
    spans: &Vec<Span>,
    font: &mut unifont_bitmap::Unifont,
    column_width: u32,
    tab_spaces: u32,
    fg_color: FgColor,
) -> (cells: Vec<Cell>)
    requires
        tab_spaces >= 1,
    ensures
        cells@ == line_cells(spans@, column_width as int, tab_spaces as int, fg_color),
        column_width <= cells@.len() <= column_width + 1,
{
    let cw = column_width;
    let tab = tab_spaces;
    // flatten the spans into one sequence of styled characters
    let mut scs: Vec<(char, Style)> = Vec::new();
    let mut si: usize = 0;
    proof {
        assert(spans@.take(0) =~= Seq::<Span>::empty());
    }
    while si < spans.len()
        invariant
            si <= spans@.len(),
            scs@ == styled_chars(spans@.take(si as int)),
        decreases spans@.len() - si,
    {
        let t: &str = spans[si].text.as_str();
        let tlen: usize = t.unicode_len();
        let mut ci: usize = 0;
        proof {
            assert(span_styled(spans@[si as int]).take(0) =~= Seq::<(char, Style)>::empty());
            assert(scs@ =~= styled_chars(spans@.take(si as int)) + span_styled(
                spans@[si as int],
            ).take(0));
        }
        while ci < tlen
            invariant
                si < spans@.len(),
                ci <= tlen,
                tlen == spans@[si as int].text@.len(),
                t@ == spans@[si as int].text@,
                scs@ == styled_chars(spans@.take(si as int)) + span_styled(
                    spans@[si as int],
                ).take(ci as int),
            decreases tlen - ci,
        {
            let c: char = t.get_char(ci);
            scs.push((c, spans[si].style));
            proof {
                let sp = spans@[si as int];
                assert(span_styled(sp).take(ci + 1) =~= span_styled(sp).take(ci as int).push(
                    span_styled(sp)[ci as int],
                ));
                assert(span_styled(sp)[ci as int] == (sp.text@[ci as int], sp.style));
            }
            ci = ci + 1;
        }
        proof {
            let sp = spans@[si as int];
            assert(span_styled(sp).take(tlen as int) =~= span_styled(sp));
            lemma_styled_take(spans@, si as int);
        }
        si = si + 1;
    }
    proof {
        assert(spans@.take(spans@.len() as int) =~= spans@);
    }
    let ghost full = styled_chars(spans@);
    // walk the styled characters, producing cells until the column is full
    let mut cells: Vec<Cell> = Vec::new();
    let mut j: usize = 0;
    proof {
        assert(full.skip(0) =~= full);
    }
    loop
        invariant
            tab >= 1,
            j <= scs@.len(),
            scs@ == full,
            cells@.len() <= cw + 1,
            cells_from(full, 0, cw as int, tab as int, fg_color) == cells@ + cells_from(
                full.skip(j as int),
                cells@.len() as int,
                cw as int,
                tab as int,
                fg_color,
            ),
        ensures
            cells@ == cells_from(full, 0, cw as int, tab as int, fg_color),
            cells@.len() <= cw + 1,
        decreases scs@.len() - j,
    {
        if j >= scs.len() {
            proof {
                assert(full.skip(j as int) =~= Seq::<(char, Style)>::empty());
            }
            break ;
        }
        if cells.len() >= cw as usize {
            break ;
        }
        let ghost pre = cells@;
        let (c, st): (char, Style) = scs[j];
        proof {
            lemma_cells_unfold_step(full, j as int, pre, cw as int, tab as int, fg_color);
        }
        push_step(&mut cells, c, st, font, cw, tab, fg_color);
        j = j + 1;
    }
    // pad the rest of the column with background cells
    let ghost body = cells@;
    while cells.len() < cw as usize
        invariant
            body.len() <= cells@.len(),
            cells@.len() <= cw || cells@.len() == body.len(),
            cells@ == body + Seq::new((cells@.len() - body.len()) as nat, |i: int| Cell::Bg),
        decreases cw as int - cells@.len(),
    {
        cells.push(Cell::Bg);
        proof {
            assert(cells@ =~= body + Seq::new((cells@.len() - body.len()) as nat, |i: int| Cell::Bg));
        }
    }
    proof {
        if body.len() < cw {
            assert(cells@.len() == cw);
        } else {
            assert(cells@ =~= body);
        }
        lemma_cells_from_len(full, 0, cw as int, tab as int, fg_color);
    }
    cells
}


/// The color one cell paints at `(px, py)` when drawn with its left edge at
/// `x0`, over the pixel's previous color.
pub open spec fn apply_cell(c: Cell, x0: int, y0: int, px: int, py: int, bg: Rgb, prev: Rgb) -> Rgb {
    match c {
        Cell::Bg => if x0 <= px < x0 + 8 && y0 <= py < y0 + 16 {
            bg
        } else {
            prev
        },
        Cell::Glyph { ch, fg } => if x0 <= px < x0 + glyph_width(ch) && y0 <= py < y0 + 16 {
            if glyph_bit(ch, px - x0, py - y0) {
                fg
            } else {
                bg
            }
        } else {
            prev
        },
        Cell::Tail => prev,
    }
}

/// The color the pixel `(px, py)` has after a row of cells is painted from
/// `(x0, y0)` on, cell by cell from the left, over its previous color.
pub open spec fn cells_pixel(
    cells: Seq<Cell>,
    x0: int,
    y0: int,
    px: int,
    py: int,
    bg: Rgb,
    prev: Rgb,
) -> Rgb
    decreases cells.len(),
{
    if cells.len() == 0 {
        prev
    } else {
        cells_pixel(
            cells.drop_first(),
            x0 + 8,
            y0,
            px,
            py,
            bg,
            apply_cell(cells[0], x0, y0, px, py, bg, prev),
        )
    }
}

proof fn lemma_cells_pixel_snoc(
    s: Seq<Cell>,
    c: Cell,
    x0: int,
    y0: int,
    px: int,
    py: int,
    bg: Rgb,
    prev: Rgb,
)
    ensures
        cells_pixel(s.push(c), x0, y0, px, py, bg, prev) == apply_cell(
            c,
            x0 + 8 * s.len(),
            y0,
            px,
            py,
            bg,
            cells_pixel(s, x0, y0, px, py, bg, prev),
        ),
    decreases s.len(),
{
    if s.len() == 0 {
        assert(s.push(c)[0] == c);
        assert(s.push(c).drop_first() =~= Seq::<Cell>::empty());
        assert(cells_pixel(
            Seq::<Cell>::empty(),
            x0 + 8,
            y0,
            px,
            py,
            bg,
            apply_cell(c, x0, y0, px, py, bg, prev),
        ) == apply_cell(c, x0, y0, px, py, bg, prev));
        assert(cells_pixel(s, x0, y0, px, py, bg, prev) == prev);
    } else {
        assert(s.push(c)[0] == s[0]);
        assert(s.push(c).drop_first() =~= s.drop_first().push(c));
        lemma_cells_pixel_snoc(
            s.drop_first(),
            c,
            x0 + 8,
            y0,
            px,
            py,
            bg,
            apply_cell(s[0], x0, y0, px, py, bg, prev),
        );
    }
}

/// Paints one planned row of cells onto the canvas, its left edge at
/// `(x0, y0)`: background cells as filled rectangles, glyph cells through
/// their bitmaps, tail cells not at all (their glyph painted them already).
pub fn paint_cells(
    img: &mut Canvas,
    cells: &Vec<Cell>,
    x0: u64,
    y0: u64,
    bg: Rgb,
    font: &mut unifont_bitmap::Unifont,
)
    requires
        old(img).wf(),
        x0 + 8 * cells@.len() <= u64::MAX,
    ensures
        final(img).wf(),
        final(img).spec_width() == old(img).spec_width(),
        final(img).spec_height() == old(img).spec_height(),
        forall|px: int, py: int|
            final(img).in_bounds(px, py) ==> final(img).spec_pixel(px, py) == cells_pixel(
                cells@,
                x0 as int,
                y0 as int,
                px,
                py,
                bg,
                old(img).spec_pixel(px, py),
            ),
{
    let mut j: usize = 0;
    proof {
        assert(cells@.take(0) =~= Seq::<Cell>::empty());
    }
    while j < cells.len()
        invariant
            img.wf(),
            img.spec_width() == old(img).spec_width(),
            img.spec_height() == old(img).spec_height(),
            j <= cells@.len(),
            x0 + 8 * cells@.len() <= u64::MAX,
            forall|px: int, py: int|
                img.in_bounds(px, py) ==> img.spec_pixel(px, py) == cells_pixel(
                    cells@.take(j as int),
                    x0 as int,
                    y0 as int,
                    px,
                    py,
                    bg,
                    old(img).spec_pixel(px, py),
                ),
        decreases cells@.len() - j,
    {
        let ghost before = *img;
        let xj: u64 = x0 + 8 * (j as u64);
        let cell: Cell = cells[j];
        match cell {
            Cell::Bg => {
                img.fill_rect(xj, y0, 8, 16, bg);
            },
            Cell::Glyph { ch, fg } => {
                let mut cursor: u64 = 0;
                put_char_in_image(ch, font, xj, y0, img, &bg, &fg, &mut cursor);
            },
            Cell::Tail => {},
        }
        proof {
            assert(cells@.take(j + 1) =~= cells@.take(j as int).push(cells@[j as int]));
            assert forall|px: int, py: int|
                img.in_bounds(px, py) implies img.spec_pixel(px, py) == cells_pixel(
                cells@.take(j + 1),
                x0 as int,
                y0 as int,
                px,
                py,
                bg,
                old(img).spec_pixel(px, py),
            ) by {
                lemma_cells_pixel_snoc(
                    cells@.take(j as int),
                    cells@[j as int],
                    x0 as int,
                    y0 as int,
                    px,
                    py,
                    bg,
                    old(img).spec_pixel(px, py),
                );
                assert(before.spec_pixel(px, py) == cells_pixel(
                    cells@.take(j as int),
                    x0 as int,
                    y0 as int,
                    px,
                    py,
                    bg,
                    old(img).spec_pixel(px, py),
                ));
                assert(img.spec_pixel(px, py) == apply_cell(
                    cells@[j as int],
                    xj as int,
                    y0 as int,
                    px,
                    py,
                    bg,
                    before.spec_pixel(px, py),
                ));
            }
        }
        j = j + 1;
    }
    proof {
        assert(cells@.take(cells@.len() as int) =~= cells@);
    }
}

/// No pixel outside the rectangle of the cells is touched by painting
/// them.
proof fn lemma_cells_pixel_frame(
    cells: Seq<Cell>,
    x0: int,
    y0: int,
    px: int,
    py: int,
    bg: Rgb,
    prev: Rgb,
)
    requires
        px < x0 || px >= x0 + 8 * cells.len() + 8 || py < y0 || py >= y0 + 16,
    ensures
        cells_pixel(cells, x0, y0, px, py, bg, prev) == prev,
    decreases cells.len(),
{
    if cells.len() == 0 {
    } else {
        assert(apply_cell(cells[0], x0, y0, px, py, bg, prev) == prev);
        lemma_cells_pixel_frame(cells.drop_first(), x0 + 8, y0, px, py, bg, prev);
    }
}

/// The result of processing one chunk of content.
pub struct Outcome {
    /// The longest line encountered, in code points, before truncation.
    pub longest_line_in_chars: usize,
    /// The last used background color.
    pub background: Option<Rgb>,
}

/// Everything one chunk needs to place and color its lines.
#[derive(Clone, Copy)]
pub struct Context {
    pub column_width: u32,
    pub line_height: u32,
    pub total_line_count: u32,
    pub line_num: u32,
    pub lines_per_column: u32,
    pub fg_color: FgColor,
    pub bg_color: BgColor,
    pub highlight_truncated_lines: bool,
    pub file_index: usize,
    pub color_modulation: u32,
    pub tab_spaces: u32,
}

/// The rectangle of pixels the line numbered `l` may touch: its column's
/// horizontal strip, one wide-glyph overhang included, and 16 pixel rows
/// down from its vertical offset.
pub open spec fn in_line_band(ctx: Context, l: int, px: int, py: int) -> bool {
    let actual = l % (ctx.total_line_count as int);
    let x0 = (actual / (ctx.lines_per_column as int)) * (ctx.column_width as int) * 8;
    let y0 = (actual % (ctx.lines_per_column as int)) * (ctx.line_height as int);
    &&& x0 <= px < x0 + 8 * (ctx.column_width as int) + 16
    &&& y0 <= py < y0 + 16
}

impl Context {
    /// Positive geometry, and products that fit the machine's integers.
    pub open spec fn wf(&self) -> bool {
        &&& self.column_width >= 1
        &&& self.line_height >= 1
        &&& self.tab_spaces >= 1
        &&& self.total_line_count >= 1
        &&& self.lines_per_column >= 1
        &&& (self.total_line_count as int + 1) * (self.column_width as int + 1) * 8 <= u64::MAX
    }
}

/// The byte length over which a line is not highlighted at all.
pub const LONG_LINE_BYTES: usize = 16384;

/// The spans that color one line: past the byte threshold, a single span in
/// the fallback style over the truncated text; otherwise whatever the
/// highlighter returns for the chosen text variant.
pub fn spans_for_line(
    line: &str,
    truncated: &str,
    highlight_truncated: bool,
    background: Option<Rgb>,
    highlighter: &mut syntect::easy::HighlightLines,
    ss: &syntect::parsing::SyntaxSet,
) -> (out: Result<Vec<Span>, String>)
    ensures
        match out {
            Ok(spans) => {
                &&& vstd::utf8::encode_utf8(line@).len() > LONG_LINE_BYTES ==> {
                    &&& spans@.len() == 1
                    &&& spans@[0].style == crate::color::spec_default_bg_color(background)
                    &&& spans@[0].text@ == truncated@
                }
                &&& vstd::utf8::encode_utf8(line@).len() <= LONG_LINE_BYTES
                    ==> crate::highlight::spans_chars(spans@) == (if highlight_truncated {
                    truncated@
                } else {
                    line@
                })
            },
            Err(_) => vstd::utf8::encode_utf8(line@).len() <= LONG_LINE_BYTES,
        },
{
    let line_bytes: &[u8] = line.as_bytes();
    let nbytes: usize = line_bytes.len();
    proof {
        assert(line_bytes@ == line.spec_bytes());
        assert(nbytes == vstd::utf8::encode_utf8(line@).len());
    }
    if nbytes > LONG_LINE_BYTES {
        let style = crate::color::default_bg_color(background);
        let mut spans: Vec<Span> = Vec::new();
        let text = String::from_str(truncated);
        spans.push(Span { style, text });
        proof {
            assert(spans@.len() == 1);
            assert(spans@[0].style == style);
            assert(spans@[0].text@ == truncated@);
        }
        Ok(spans)
    } else {
        let chosen: &str = if highlight_truncated {
            truncated
        } else {
            line
        };
        crate::highlight::highlight_line(highlighter, chosen, ss)
    }
}


/// The color the pixel `(px, py)` has after one line's cells are painted at
/// the offsets that line number `l` determines, over its previous color.
pub open spec fn row_paint_pixel(
    ctx: Context,
    l: int,
    cells: Seq<Cell>,
    bg: Rgb,
    px: int,
    py: int,
    prev: Rgb,
) -> Rgb {
    let actual = l % (ctx.total_line_count as int);
    let x0 = (actual / (ctx.lines_per_column as int)) * ((ctx.column_width as int) * 8);
    let y0 = (actual % (ctx.lines_per_column as int)) * (ctx.line_height as int);
    cells_pixel(cells, x0, y0, px, py, bg, prev)
}

/// The color the pixel `(px, py)` has after the rows of `plan` are painted
/// in order, the first at line number `start`, over its previous color.
pub open spec fn rows_pixel(
    ctx: Context,
    start: int,
    plan: Seq<(Seq<Cell>, Rgb)>,
    px: int,
    py: int,
    prev: Rgb,
) -> Rgb
    decreases plan.len(),
{
    if plan.len() == 0 {
        prev
    } else {
        rows_pixel(
            ctx,
            start + 1,
            plan.drop_first(),
            px,
            py,
            row_paint_pixel(ctx, start, plan[0].0, plan[0].1, px, py, prev),
        )
    }
}

/// `post` is `pre` with the rows of `plan` painted in order from line
/// number `ctx.line_num` on: one row of cells and one background color per
/// line, each placed by its line number alone.
pub open spec fn painted_by_plan(
    post: Canvas,
    pre: Canvas,
    ctx: Context,
    plan: Seq<(Seq<Cell>, Rgb)>,
) -> bool {
    forall|px: int, py: int|
        post.in_bounds(px, py) ==> post.spec_pixel(px, py) == rows_pixel(
            ctx,
            ctx.line_num as int,
            plan,
            px,
            py,
            pre.spec_pixel(px, py),
        )
}

proof fn lemma_rows_pixel_snoc(
    ctx: Context,
    start: int,
    plan: Seq<(Seq<Cell>, Rgb)>,
    entry: (Seq<Cell>, Rgb),
    px: int,
    py: int,
    prev: Rgb,
)
    ensures
        rows_pixel(ctx, start, plan.push(entry), px, py, prev) == row_paint_pixel(
            ctx,
            start + plan.len(),
            entry.0,
            entry.1,
            px,
            py,
            rows_pixel(ctx, start, plan, px, py, prev),
        ),
    decreases plan.len(),
{
    if plan.len() == 0 {
        assert(plan.push(entry)[0] == entry);
        assert(plan.push(entry).drop_first() =~= Seq::<(Seq<Cell>, Rgb)>::empty());
        assert(rows_pixel(
            ctx,
            start + 1,
            plan.push(entry).drop_first(),
            px,
            py,
            row_paint_pixel(ctx, start, entry.0, entry.1, px, py, prev),
        ) == row_paint_pixel(ctx, start, entry.0, entry.1, px, py, prev));
        assert(rows_pixel(ctx, start, plan, px, py, prev) == prev);
    } else {
        assert(plan.push(entry)[0] == plan[0]);
        assert(plan.push(entry).drop_first() =~= plan.drop_first().push(entry));
        lemma_rows_pixel_snoc(
            ctx,
            start + 1,
            plan.drop_first(),
            entry,
            px,
            py,
            row_paint_pixel(ctx, start, plan[0].0, plan[0].1, px, py, prev),
        );
    }
}


/// Renders one chunk of content, line by line, onto the canvas: each line
/// is truncated to the column width for display, highlighted (or given the
/// fallback style when it is too long), planned into cells and painted at
/// the offsets its line number determines. Returns the length of the
/// longest line seen, in code points before truncation, and the background
/// color the chunk derived from its first span.
#[verifier::loop_isolation(false)]
pub fn process(
    content: &str,
    img: &mut Canvas,
    highlighter: &mut syntect::easy::HighlightLines,
    ss: &syntect::parsing::SyntaxSet,
    ctx: Context,
) -> (out: Result<Outcome, String>)
    requires
        old(img).wf(),
        ctx.wf(),
        ctx.line_num as int + spec_lines(content@).len() <= u64::MAX,
    ensures
        final(img).wf(),
        final(img).spec_width() == old(img).spec_width(),
        final(img).spec_height() == old(img).spec_height(),
        match out {
            Ok(o) => {
                &&& o.longest_line_in_chars == spec_longest(spec_lines(content@))
                &&& (o.background is Some <==> spec_lines(content@).len() > 0)
                &&& (o.background is Some ==> exists|st: Style|
                    o.background == Some(
                        #[trigger] spec_derive_background(
                            ctx.bg_color,
                            st,
                            ctx.file_index as int,
                            ctx.color_modulation as int,
                        ),
                    ))
                &&& exists|plan: Seq<(Seq<Cell>, Rgb)>|
                    {
                        &&& plan.len() == spec_lines(content@).len()
                        &&& forall|i: int|
                            0 <= i < plan.len() ==> ctx.column_width <= (#[trigger] plan[i]).0.len()
                                <= ctx.column_width + 1
                        &&& forall|i: int|
                            0 <= i < plan.len() ==> o.background == Some((#[trigger] plan[i]).1)
                        &&& #[trigger] painted_by_plan(*final(img), *old(img), ctx, plan)
                    }
            },
            Err(_) => exists|i: int|
                0 <= i < spec_lines(content@).len() && vstd::utf8::encode_utf8(
                    #[trigger] spec_lines(content@)[i],
                ).len() <= LONG_LINE_BYTES,
        },
        forall|px: int, py: int|
            final(img).in_bounds(px, py) && (forall|l: int|
                ctx.line_num <= l < ctx.line_num + spec_lines(content@).len() ==> !in_line_band(
                    ctx,
                    l,
                    px,
                    py,
                )) ==> final(img).spec_pixel(px, py) == old(img).spec_pixel(px, py),
{
    let mut font = crate::glyph::open_font();
    let chars = chars_of(content);
    let ranges = split_lines(&chars);
    let nlines: usize = ranges.len();
    let mut longest: usize = 0;
    let mut background: Option<Rgb> = None;
    let mut line_num: u64 = ctx.line_num as u64;
    let mut li: usize = 0;
    let ghost mut plan: Seq<(Seq<Cell>, Rgb)> = Seq::empty();
    proof {
        assert(spec_lines(content@).take(0) =~= Seq::<Seq<char>>::empty());
    }
    while li < nlines
        invariant
            img.wf(),
            img.spec_width() == old(img).spec_width(),
            img.spec_height() == old(img).spec_height(),
            li <= nlines,
            line_num == ctx.line_num as int + li,
            longest == spec_longest(spec_lines(content@).take(li as int)),
            background is Some <==> li > 0,
            background is Some ==> exists|st: Style|
                background == Some(
                    #[trigger] spec_derive_background(
                        ctx.bg_color,
                        st,
                        ctx.file_index as int,
                        ctx.color_modulation as int,
                    ),
                ),
            plan.len() == li,
            forall|i: int|
                0 <= i < plan.len() ==> ctx.column_width <= (#[trigger] plan[i]).0.len()
                    <= ctx.column_width + 1,
            forall|i: int| 0 <= i < plan.len() ==> background == Some((#[trigger] plan[i]).1),
            forall|px: int, py: int|
                img.in_bounds(px, py) ==> img.spec_pixel(px, py) == rows_pixel(
                    ctx,
                    ctx.line_num as int,
                    plan,
                    px,
                    py,
                    old(img).spec_pixel(px, py),
                ),
            forall|px: int, py: int|
                img.in_bounds(px, py) && (forall|l: int|
                    ctx.line_num <= l < line_num ==> !in_line_band(ctx, l, px, py)) ==> img.spec_pixel(
                    px,
                    py,
                ) == old(img).spec_pixel(px, py),
        decreases nlines - li,
    {
        let (s, e): (usize, usize) = ranges[li];
        proof {
            assert(content@.subrange(s as int, e as int) == spec_lines(content@)[li as int]);
        }
        let line: &str = content.substring_char(s, e);
        let nchars: usize = e - s;
        // the untruncated length counts toward the longest line
        if nchars > longest {
            longest = nchars;
        }
        proof {
            let sl = spec_lines(content@);
            assert(sl.take(li + 1).drop_last() =~= sl.take(li as int));
            assert(sl.take(li + 1).last() == sl[li as int]);
            assert(sl[li as int].len() == e - s);
        }
        // truncate to the column width for display
        let limit: usize = if (ctx.column_width as usize) < nchars {
            ctx.column_width as usize
        } else {
            nchars
        };
        let truncated: &str = content.substring_char(s, s + limit);
        let spans = match spans_for_line(
            line,
            truncated,
            ctx.highlight_truncated_lines,
            background,
            highlighter,
            ss,
        ) {
            Ok(spans) => spans,
            Err(e) => {
                proof {
                    assert(vstd::utf8::encode_utf8(spec_lines(content@)[li as int]).len()
                        <= LONG_LINE_BYTES);
                }
                return Err(e);
            },
        };
        proof {
            // the spans cannot be empty: their characters tile a text of at
            // least one character
            if spans@.len() == 0 {
                assert(crate::highlight::spans_chars(spans@) =~= Seq::<char>::empty());
                assert(false);
            }
        }
        // derive the file's background color once, from the first span
        if background.is_none() && spans.len() > 0 {
            background = Some(
                derive_background(
                    ctx.bg_color,
                    spans[0].style,
                    ctx.file_index,
                    ctx.color_modulation,
                ),
            );
        }
        let bg: Rgb = match background {
            Some(b) => b,
            None => crate::color::black(),
        };
        let cells = plan_cells(&spans, &mut font, ctx.column_width, ctx.tab_spaces, ctx.fg_color);
        // place the line in its column
        let total64: u64 = ctx.total_line_count as u64;
        let lpc64: u64 = ctx.lines_per_column as u64;
        let actual: u64 = line_num % total64;
        let col: u64 = actual / lpc64;
        let row: u64 = actual % lpc64;
        proof {
            assert(actual < total64);
            assert(col <= actual && row < lpc64) by (nonlinear_arith)
                requires
                    lpc64 >= 1,
                    actual >= 0,
                    col == actual as int / lpc64 as int,
                    row == actual as int % lpc64 as int,
            ;
            assert(col as int * (ctx.column_width as int) * 8 + 8 * (ctx.column_width as int + 1)
                <= u64::MAX) by (nonlinear_arith)
                requires
                    0 <= col < ctx.total_line_count as int,
                    ctx.column_width >= 1,
                    (ctx.total_line_count as int + 1) * (ctx.column_width as int + 1) * 8
                        <= u64::MAX,
            ;
            assert(row as int * (ctx.line_height as int) <= u64::MAX) by (nonlinear_arith)
                requires
                    0 <= row <= 0xffff_ffffu64,
                    0 <= ctx.line_height <= 0xffff_ffffu64,
            ;
        }
        let x0: u64 = col * (ctx.column_width as u64) * 8;
        let y0: u64 = row * (ctx.line_height as u64);
        let ghost before_paint = *img;
        paint_cells(img, &cells, x0, y0, bg, &mut font);
        proof {
            assert forall|px: int, py: int|
                img.in_bounds(px, py) && (forall|l: int|
                    ctx.line_num <= l < line_num + 1 ==> !in_line_band(ctx, l, px, py)) implies img.spec_pixel(
                px,
                py,
            ) == old(img).spec_pixel(px, py) by {
                assert(!in_line_band(ctx, line_num as int, px, py));
                assert(cells@.len() <= ctx.column_width + 1);
                assert(8 * cells@.len() + 8 <= 8 * (ctx.column_width as int) + 16);
                lemma_cells_pixel_frame(
                    cells@,
                    x0 as int,
                    y0 as int,
                    px,
                    py,
                    bg,
                    before_paint.spec_pixel(px, py),
                );
                assert(before_paint.spec_pixel(px, py) == old(img).spec_pixel(px, py));
            }
            // extend the paint plan by this line's row
            assert(x0 as int == ((line_num as int % ctx.total_line_count as int)
                / (ctx.lines_per_column as int)) * ((ctx.column_width as int) * 8)) by (
            nonlinear_arith)
                requires
                    x0 == col as int * (ctx.column_width as int) * 8,
                    col == (line_num as int % ctx.total_line_count as int) / (
                    ctx.lines_per_column as int),
            ;
            assert(y0 as int == ((line_num as int % ctx.total_line_count as int)
                % (ctx.lines_per_column as int)) * (ctx.line_height as int));
            let ghost prior = plan;
            plan = plan.push((cells@, bg));
            assert forall|px: int, py: int|
                img.in_bounds(px, py) implies img.spec_pixel(px, py) == rows_pixel(
                ctx,
                ctx.line_num as int,
                plan,
                px,
                py,
                old(img).spec_pixel(px, py),
            ) by {
                lemma_rows_pixel_snoc(
                    ctx,
                    ctx.line_num as int,
                    prior,
                    (cells@, bg),
                    px,
                    py,
                    old(img).spec_pixel(px, py),
                );
                assert(before_paint.spec_pixel(px, py) == rows_pixel(
                    ctx,
                    ctx.line_num as int,
                    prior,
                    px,
                    py,
                    old(img).spec_pixel(px, py),
                ));
                assert(img.spec_pixel(px, py) == cells_pixel(
                    cells@,
                    x0 as int,
                    y0 as int,
                    px,
                    py,
                    bg,
                    before_paint.spec_pixel(px, py),
                ));
                assert(row_paint_pixel(
                    ctx,
                    line_num as int,
                    cells@,
                    bg,
                    px,
                    py,
                    before_paint.spec_pixel(px, py),
                ) == img.spec_pixel(px, py));
            }
        }
        line_num = line_num + 1;
        li = li + 1;
    }
    proof {
        assert(spec_lines(content@).take(nlines as int) =~= spec_lines(content@));
        assert(painted_by_plan(*img, *old(img), ctx, plan));
    }
    Ok(Outcome { longest_line_in_chars: longest, background })
}


/// A tab at cell `cur` fills background cells exactly up to the next
/// multiple of the tab width: where the column has room, it plans
/// `tab - cur % tab` background cells and the cursor lands on a tab stop.
pub proof fn lemma_tab_advances_to_tab_stop(st: Style, cur: int, cw: int, tab: int, fg: FgColor)
    requires
        0 <= cur < cw,
        tab >= 1,
        tab - cur % tab <= cw - cur,
    ensures
        step_cells('\t', st, cur, cw, tab, fg).len() == tab - cur % tab,
        (cur + step_cells('\t', st, cur, cw, tab, fg).len()) % tab == 0,
        forall|i: int|
            0 <= i < step_cells('\t', st, cur, cw, tab, fg).len() ==> step_cells(
                '\t',
                st,
                cur,
                cw,
                tab,
                fg,
            )[i] == Cell::Bg,
{
    assert(0 <= cur % tab < tab) by (nonlinear_arith)
        requires
            tab >= 1,
            cur >= 0,
    ;
    assert((cur + (tab - cur % tab)) % tab == 0) by (nonlinear_arith)
        requires
            tab >= 1,
            cur >= 0,
    ;
}

} // verus!
