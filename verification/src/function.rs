use crate::canvas::Canvas;
use crate::canvas::lemma_canvas_dims;
use crate::chunk::{chars_of, lemma_line_span_at, process, spec_lines, spec_longest, Context, Outcome};
use crate::color::{BgColor, FgColor, Rgb};
use crate::highlight::{
    find_syntax_by_extension, find_syntax_by_first_line, find_syntax_plain_text, find_theme,
    has_plain_text, known_extension, known_first_line, new_highlighter, syntax_name, theme_key_seq,
    theme_names,
};
use crate::layout::{
    candidate, determine_dimensions, dist_le, layout_inputs_bounded, spec_required_columns, Layout,
};
use vstd::prelude::*;

verus! {

/// Observed between files: when it reports cancellation, no further file is
/// rendered and the call returns the cancellation error.
pub trait CancelFlag {
    fn is_cancelled(&self) -> bool;
}

/// A flag that never cancels.
pub struct NeverCancel;

impl CancelFlag for NeverCancel {
    fn is_cancelled(&self) -> bool {
        false
    }
}

/// Why a render call gave no canvas.
#[derive(Debug)]
pub enum RenderError {
    /// Not a single line was left to render after filtering.
    NoLines,
    /// A requested theme name is unknown; the available names are listed.
    UnknownTheme { requested: String, available: Vec<String> },
    /// The syntax highlighting engine failed on a line.
    Highlight(String),
    /// Cancellation was requested and observed between files.
    Cancelled,
}

/// The characters of `s` after its last occurrence of `sep`; all of `s`
/// when it has none.
pub open spec fn after_last(s: Seq<char>, sep: char) -> Seq<char>
    decreases s.len(),
{
    if s.len() == 0 {
        s
    } else if s.last() == sep {
        Seq::empty()
    } else {
        after_last(s.drop_last(), sep).push(s.last())
    }
}

/// Whether `s` holds `c` anywhere.
pub open spec fn has_char(s: Seq<char>, c: char) -> bool {
    exists|j: int| 0 <= j < s.len() && s[j] == c
}

/// The extension of a file name: what follows its last dot, or nothing
/// when it has no dot.
pub open spec fn spec_extension(name: Seq<char>) -> Seq<char> {
    if has_char(name, '.') {
        after_last(name, '.')
    } else {
        Seq::empty()
    }
}

/// The first line of the content, its terminator included.
pub open spec fn spec_first_line(s: Seq<char>) -> Seq<char> {
    if s.len() == 0 {
        Seq::empty()
    } else {
        spec_lines(s)[0]
    }
}

/// Whether the syntax set recognizes this file: by its file name, by its
/// extension, or failing those by its first line.
pub open spec fn spec_has_syntax(
    ss: &syntect::parsing::SyntaxSet,
    path: Seq<char>,
    content: Seq<char>,
) -> bool {
    ||| known_extension(ss, after_last(path, '/'))
    ||| known_extension(ss, spec_extension(after_last(path, '/')))
    ||| known_first_line(ss, spec_first_line(content))
}

proof fn lemma_after_last_at(s: Seq<char>, sep: char, k: int)
    requires
        0 <= k <= s.len(),
        forall|j: int| k <= j < s.len() ==> s[j] != sep,
        k == 0 || s[k - 1] == sep,
    ensures
        after_last(s, sep) =~= s.skip(k),
    decreases s.len(),
{
    if s.len() == 0 {
    } else if k == s.len() {
        assert(s.last() == sep);
    } else {
        assert(s.last() != sep);
        lemma_after_last_at(s.drop_last(), sep, k);
        assert(s.drop_last().skip(k).push(s.last()) =~= s.skip(k));
    }
}

/// Finds the syntax for a file the way the highlighting engine's file
/// lookup does, but from the path and content alone: first the full file
/// name as an extension token, then the extension proper, then the first
/// line of the content.
pub fn resolve_syntax<'a>(
    ss: &'a syntect::parsing::SyntaxSet,
    path: &str,
    content: &str,
) -> (out: Option<&'a syntect::parsing::SyntaxReference>)
    ensures
        out.is_some() == spec_has_syntax(ss, path@, content@),
{
    let pchars = chars_of(path);
    let plen: usize = pchars.len();
    // the file name follows the last path separator
    let mut k: usize = plen;
    while k > 0 && *(&pchars[k - 1]) != '/'
        invariant
            k <= plen,
            plen == path@.len(),
            pchars@ == path@,
            forall|j: int| k <= j < plen ==> path@[j] != '/',
        decreases k,
    {
        k = k - 1;
    }
    proof {
        lemma_after_last_at(path@, '/', k as int);
        assert(after_last(path@, '/') =~= path@.subrange(k as int, plen as int));
    }
    let fname: &str = path.substring_char(k, plen);
    proof {
        assert(fname@ == after_last(path@, '/'));
    }
    match find_syntax_by_extension(ss, fname) {
        Some(syntax) => {
            return Some(syntax);
        },
        None => {},
    }
    // the extension follows the last dot of the file name, if it has one
    let mut d: usize = plen;
    while d > k && *(&pchars[d - 1]) != '.'
        invariant
            k <= d <= plen,
            plen == path@.len(),
            pchars@ == path@,
            forall|j: int| d <= j < plen ==> path@[j] != '.',
        decreases d,
    {
        d = d - 1;
    }
    let ext: &str = if d > k {
        proof {
            assert(forall|j: int|
                (d - k) <= j < fname@.len() ==> fname@[j] == path@[j + k] && fname@[j] != '.');
            assert(fname@[d - k - 1] == '.');
            lemma_after_last_at(fname@, '.', d as int - k as int);
            assert(has_char(fname@, '.'));
            assert(spec_extension(fname@) =~= fname@.subrange(d - k, fname@.len() as int));
            assert(fname@.subrange(d - k, fname@.len() as int) =~= path@.subrange(
                d as int,
                plen as int,
            ));
        }
        path.substring_char(d, plen)
    } else {
        proof {
            assert(forall|j: int| 0 <= j < fname@.len() ==> fname@[j] == path@[j + k]);
            assert(!has_char(fname@, '.'));
            reveal_strlit("");
        }
        ""
    };
    proof {
        assert(ext@ =~= spec_extension(after_last(path@, '/')));
    }
    match find_syntax_by_extension(ss, ext) {
        Some(syntax) => {
            return Some(syntax);
        },
        None => {},
    }
    // fall back to the first line of the content
    let cchars = chars_of(content);
    let clen: usize = cchars.len();
    let mut i: usize = 0;
    while i < clen && *(&cchars[i]) != '\n'
        invariant
            i <= clen,
            clen == content@.len(),
            cchars@ == content@,
            forall|j: int| 0 <= j < i ==> content@[j] != '\n',
        decreases clen - i,
    {
        i = i + 1;
    }
    let end: usize = if i < clen {
        i + 1
    } else {
        clen
    };
    let fl: &str = content.substring_char(0, end);
    proof {
        if clen > 0 {
            lemma_line_span_at(content@, i as int);
            assert(crate::chunk::line_span(content@) == end as int);
            assert(spec_lines(content@)[0] == content@.take(end as int));
            assert(fl@ =~= content@.take(end as int));
        } else {
            assert(fl@ =~= Seq::<char>::empty());
        }
        assert(fl@ == spec_first_line(content@));
    }
    find_syntax_by_first_line(ss, fl)
}


/// How many worker threads a request resolves to: zero asks for one per
/// logical CPU, and any request is clamped to the machine's CPU count.
pub open spec fn spec_resolve_threads(requested: int, logical_cpus: int) -> int {
    if requested == 0 {
        logical_cpus
    } else if requested <= logical_cpus {
        requested
    } else {
        logical_cpus
    }
}

/// Resolves the requested worker count against the number of logical CPUs.
pub fn resolve_thread_count(requested: usize, logical_cpus: usize) -> (n: usize)
    requires
        logical_cpus >= 1,
    ensures
        n == spec_resolve_threads(requested as int, logical_cpus as int),
        1 <= n <= logical_cpus,
{
    let wanted: usize = if requested == 0 {
        logical_cpus
    } else {
        requested
    };
    if wanted > logical_cpus {
        logical_cpus
    } else {
        wanted
    }
}

/// Whether a file stays in the render: always, unless files without a
/// recognized syntax are ignored and this one has none.
pub open spec fn keep_file(
    ss: &syntect::parsing::SyntaxSet,
    f: (String, String),
    ignore: bool,
) -> bool {
    !ignore || spec_has_syntax(ss, f.0@, f.1@)
}

/// The files that stay, in their input order.
pub open spec fn spec_kept(
    ss: &syntect::parsing::SyntaxSet,
    files: Seq<(String, String)>,
    ignore: bool,
) -> Seq<(String, String)>
    decreases files.len(),
{
    if files.len() == 0 {
        Seq::empty()
    } else {
        (if keep_file(ss, files[0], ignore) {
            Seq::empty().push(files[0])
        } else {
            Seq::empty()
        }) + spec_kept(ss, files.drop_first(), ignore)
    }
}

/// The total line count of the given files.
pub open spec fn spec_total_lines(files: Seq<(String, String)>) -> int
    decreases files.len(),
{
    if files.len() == 0 {
        0
    } else {
        spec_lines(files[0].1@).len() + spec_total_lines(files.drop_first())
    }
}

/// The longest line over all the given files, in code points.
pub open spec fn spec_longest_over(files: Seq<(String, String)>) -> int
    decreases files.len(),
{
    if files.len() == 0 {
        0
    } else {
        let rest = spec_longest_over(files.drop_first());
        if spec_longest(spec_lines(files[0].1@)) > rest {
            spec_longest(spec_lines(files[0].1@))
        } else {
            rest
        }
    }
}

/// Every file that ignoring leaves in place has a recognized syntax: what
/// is dropped is exactly what has none.
pub proof fn lemma_kept_have_syntax(
    ss: &syntect::parsing::SyntaxSet,
    files: Seq<(String, String)>,
)
    ensures
        forall|i: int|
            0 <= i < spec_kept(ss, files, true).len() ==> spec_has_syntax(
                ss,
                (#[trigger] spec_kept(ss, files, true)[i]).0@,
                spec_kept(ss, files, true)[i].1@,
            ),
    decreases files.len(),
{
    if files.len() == 0 {
    } else {
        lemma_kept_have_syntax(ss, files.drop_first());
        let k = spec_kept(ss, files, true);
        let rest = spec_kept(ss, files.drop_first(), true);
        assert forall|i: int| 0 <= i < k.len() implies spec_has_syntax(
            ss,
            (#[trigger] k[i]).0@,
            k[i].1@,
        ) by {
            if keep_file(ss, files[0], true) {
                if i == 0 {
                    assert(k[0] == files[0]);
                } else {
                    assert(k[i] == rest[i - 1]);
                }
            } else {
                assert(k[i] == rest[i]);
            }
        }
    }
}

proof fn lemma_kept_take(
    ss: &syntect::parsing::SyntaxSet,
    files: Seq<(String, String)>,
    i: int,
    ignore: bool,
)
    requires
        0 <= i < files.len(),
    ensures
        spec_kept(ss, files.take(i + 1), ignore) =~= spec_kept(ss, files.take(i), ignore) + (
        if keep_file(ss, files[i], ignore) {
            Seq::empty().push(files[i])
        } else {
            Seq::<(String, String)>::empty()
        }),
    decreases i,
{
    if i == 0 {
        assert(files.take(1).drop_first() =~= files.take(0));
        assert(files.take(0) =~= Seq::<(String, String)>::empty());
        assert(files.take(1)[0] == files[0]);
    } else {
        lemma_kept_take(ss, files.drop_first(), i - 1, ignore);
        assert(files.take(i + 1).drop_first() =~= files.drop_first().take(i));
        assert(files.take(i).drop_first() =~= files.drop_first().take(i - 1));
        assert(files.take(i + 1)[0] == files[0]);
        assert(files.take(i)[0] == files[0]);
        assert(files.drop_first()[i - 1] == files[i]);
    }
}

proof fn lemma_total_nonneg(files: Seq<(String, String)>)
    ensures
        spec_total_lines(files) >= 0,
    decreases files.len(),
{
    if files.len() == 0 {
    } else {
        lemma_total_nonneg(files.drop_first());
    }
}

/// Counts the lines of one file's content, as the splitter produces them.
pub fn count_lines(content: &str) -> (n: usize)
    ensures
        n == spec_lines(content@).len(),
{
    let chars = chars_of(content);
    let ranges = crate::chunk::split_lines(&chars);
    ranges.len()
}


proof fn lemma_total_concat(a: Seq<(String, String)>, b: Seq<(String, String)>)
    ensures
        spec_total_lines(a + b) == spec_total_lines(a) + spec_total_lines(b),
    decreases a.len(),
{
    if a.len() == 0 {
        assert(a + b =~= b);
    } else {
        lemma_total_concat(a.drop_first(), b);
        assert((a + b).drop_first() =~= a.drop_first() + b);
        assert((a + b)[0] == a[0]);
    }
}

proof fn lemma_kept_split(
    ss: &syntect::parsing::SyntaxSet,
    files: Seq<(String, String)>,
    i: int,
    ignore: bool,
)
    requires
        0 <= i <= files.len(),
    ensures
        spec_kept(ss, files, ignore) =~= spec_kept(ss, files.take(i), ignore) + spec_kept(
            ss,
            files.skip(i),
            ignore,
        ),
    decreases i,
{
    if i == 0 {
        assert(files.take(0) =~= Seq::<(String, String)>::empty());
        assert(files.skip(0) =~= files);
    } else {
        lemma_kept_split(ss, files, i - 1, ignore);
        lemma_kept_take(ss, files, i - 1, ignore);
        assert(files.skip(i - 1).drop_first() =~= files.skip(i));
        assert(files.skip(i - 1)[0] == files[i - 1]);
    }
}

proof fn lemma_longest_snoc(a: Seq<(String, String)>, f: (String, String))
    ensures
        spec_longest_over(a.push(f)) == (if spec_longest(spec_lines(f.1@)) > spec_longest_over(a) {
            spec_longest(spec_lines(f.1@))
        } else {
            spec_longest_over(a)
        }),
    decreases a.len(),
{
    if a.len() == 0 {
        assert(a.push(f)[0] == f);
        assert(a.push(f).drop_first() =~= Seq::<(String, String)>::empty());
        assert(spec_longest_over(a) == 0);
        assert(spec_longest_over(a.push(f).drop_first()) == 0);
        assert(spec_longest_over(a.push(f)) == (if spec_longest(spec_lines(f.1@)) > 0 {
            spec_longest(spec_lines(f.1@))
        } else {
            0
        }));
    } else {
        lemma_longest_snoc(a.drop_first(), f);
        assert(a.push(f)[0] == a[0]);
        assert(a.push(f).drop_first() =~= a.drop_first().push(f));
        let x0 = spec_longest(spec_lines(a[0].1@));
        let lf = spec_longest(spec_lines(f.1@));
        let rest = spec_longest_over(a.drop_first());
        assert(spec_longest_over(a.push(f)) == (if x0 > spec_longest_over(
            a.drop_first().push(f),
        ) {
            x0
        } else {
            spec_longest_over(a.drop_first().push(f))
        }));
        assert(spec_longest_over(a) == (if x0 > rest {
            x0
        } else {
            rest
        }));
    }
}

proof fn lemma_longest_over_nonneg(a: Seq<(String, String)>)
    ensures
        spec_longest_over(a) >= 0,
    decreases a.len(),
{
    if a.len() == 0 {
    } else {
        lemma_longest_over_nonneg(a.drop_first());
        crate::chunk::lemma_spec_longest_nonneg(spec_lines(a[0].1@));
    }
}

/// Compares two strings by their characters.
fn str_eq(a: &str, b: &str) -> (r: bool)
    ensures
        r == (a@ == b@),
{
    let la: usize = a.unicode_len();
    let lb: usize = b.unicode_len();
    if la != lb {
        return false;
    }
    let mut i: usize = 0;
    while i < la
        invariant
            i <= la,
            la == a@.len(),
            la == b@.len(),
            forall|j: int| 0 <= j < i ==> a@[j] == b@[j],
        decreases la - i,
    {
        if a.get_char(i) != b.get_char(i) {
            return false;
        }
        i = i + 1;
    }
    proof {
        assert(a@ =~= b@);
    }
    true
}

/// The configuration the renderer consumes.
pub struct Options {
    /// The width of one column, in character cells.
    pub column_width: u32,
    /// The height of one line, in pixels.
    pub line_height: u32,
    /// The numerator of the target aspect ratio (width over height).
    pub target_aspect_num: u32,
    /// The denominator of the target aspect ratio.
    pub target_aspect_den: u32,
    /// The worker thread count; zero resolves to the CPU count.
    pub threads: usize,
    pub fg_color: FgColor,
    pub bg_color: BgColor,
    /// Whether the highlighter sees the truncated line or the full one.
    pub highlight_truncated_lines: bool,
    /// Theme names; the first is used, every name must be known.
    pub themes: Vec<String>,
    /// Consider only lines-per-column values that add a full column.
    pub force_full_columns: bool,
    /// Skip syntax detection and highlight everything as plain text.
    pub plain: bool,
    /// Drop files whose path and first line match no known syntax.
    pub ignore_files_without_syntax: bool,
    /// The percentage to which every other file's background is darkened.
    pub color_modulation: u32,
    /// The tab width, in cells.
    pub tab_spaces: u32,
}

/// A finished render: the canvas and the statistics gathered on the way.
pub struct Rendered {
    pub img: Canvas,
    /// The longest line over all rendered files, in code points.
    pub longest_line_in_chars: usize,
    /// How many files were dropped for want of a recognized syntax.
    pub num_ignored: usize,
}

/// Whether the requested themes resolve: every named theme must exist, and
/// with no name given the built-in default must.
pub open spec fn spec_themes_ok(ts: &syntect::highlighting::ThemeSet, themes: Seq<String>) -> bool {
    if themes.len() == 0 {
        theme_key_seq(ts).contains("Solarized (dark)"@)
    } else {
        forall|i: int| 0 <= i < themes.len() ==> theme_key_seq(ts).contains(themes[i]@)
    }
}

/// The rectangle of pixels belonging to the line slot numbered `s`, for
/// columns of `cw` cells holding `lpc` slots of `lh` pixel rows each.
pub open spec fn in_slot_rect(s: int, lpc: int, cw: int, lh: int, px: int, py: int) -> bool {
    let x0 = (s / lpc) * (cw * 8);
    let y0 = (s % lpc) * lh;
    &&& x0 <= px < x0 + cw * 8
    &&& y0 <= py < y0 + lh
}

/// Every line slot from `total` up to `lpc * rc` — the trailing space in a
/// partially filled final column — shows the single color `bgc`.
pub open spec fn trailing_slots_filled(
    img: Canvas,
    total: int,
    lpc: int,
    rc: int,
    cw: int,
    lh: int,
    bgc: Rgb,
) -> bool {
    forall|sl: int, px: int, py: int|
        total <= sl < lpc * rc && #[trigger] in_slot_rect(sl, lpc, cw, lh, px, py)
            && img.in_bounds(px, py) ==> img.spec_pixel(px, py) == bgc
}

/// The layout the planner promises: a candidate whose aspect ratio is at
/// least as close to the target as any other candidate's.
pub open spec fn is_best_layout(
    total: int,
    cw: int,
    lh: int,
    tn: int,
    td: int,
    force: bool,
    l: Layout,
) -> bool {
    &&& 1 <= l.lines_per_column <= total
    &&& l.required_columns == spec_required_columns(total, l.lines_per_column as int)
    &&& l.required_columns as int * l.lines_per_column as int >= total
    &&& candidate(total, force, l.lines_per_column as int)
    &&& forall|k: int|
        1 <= k <= total && candidate(total, force, k) ==> dist_le(
            total,
            cw,
            lh,
            tn,
            td,
            l.lines_per_column as int,
            k,
        )
}

/// The machine limits a render needs: the filtered line count and the
/// pixel geometry derived from it fit the integer types used.
pub open spec fn spec_render_bounded(
    ss: &syntect::parsing::SyntaxSet,
    files: Seq<(String, String)>,
    opts: Options,
) -> bool {
    let total = spec_total_lines(spec_kept(ss, files, opts.ignore_files_without_syntax));
    let cw = opts.column_width as int;
    let lh = opts.line_height as int;
    &&& total <= u32::MAX
    &&& layout_inputs_bounded(
        total,
        cw,
        lh,
        opts.target_aspect_num as int,
        opts.target_aspect_den as int,
    )
    &&& (total + 1) * (cw + 1) * 8 <= u32::MAX
    &&& (total + 1) * (lh + 1) <= u32::MAX
    &&& 3 * (((total + 1) * (cw + 1) * 8) * ((total + 1) * (lh + 1))) <= usize::MAX
}



/// Fills every line slot from `total` up to `lines_per_column *
/// required_columns` — the trailing space of a partially filled final
/// column — with the given background color, leaving everything else as
/// it stands.
#[verifier::loop_isolation(false)]
pub fn fill_trailing_slots(
    img: &mut Canvas,
    total: u64,
    lines_per_column: u32,
    required_columns: u32,
    column_width: u32,
    line_height: u32,
    bg: Rgb,
)
    requires
        old(img).wf(),
        lines_per_column >= 1,
        required_columns as int * (column_width as int) * 8 <= u64::MAX,
    ensures
        final(img).wf(),
        final(img).spec_width() == old(img).spec_width(),
        final(img).spec_height() == old(img).spec_height(),
        trailing_slots_filled(
            *final(img),
            total as int,
            lines_per_column as int,
            required_columns as int,
            column_width as int,
            line_height as int,
            bg,
        ),
        forall|px: int, py: int|
            final(img).in_bounds(px, py) && (forall|sl: int|
                total <= sl < lines_per_column as int * required_columns as int
                    ==> !in_slot_rect(
                    sl,
                    lines_per_column as int,
                    column_width as int,
                    line_height as int,
                    px,
                    py,
                )) ==> final(img).spec_pixel(px, py) == old(img).spec_pixel(px, py),
{
    let lpc64: u64 = lines_per_column as u64;
    let rc64: u64 = required_columns as u64;
    let cw64: u64 = column_width as u64;
    let lh64: u64 = line_height as u64;
    proof {
        assert(lpc64 as int * rc64 as int <= u64::MAX) by (nonlinear_arith)
            requires
                0 <= lpc64 <= 0xffff_ffffu64,
                0 <= rc64 <= 0xffff_ffffu64,
        ;
    }
    let slots: u64 = lpc64 * rc64;
    let mut line_num: u64 = total;
    while line_num < slots
        invariant
            img.wf(),
            img.spec_width() == old(img).spec_width(),
            img.spec_height() == old(img).spec_height(),
            slots == lpc64 * rc64,
            total <= line_num,
            line_num <= slots || line_num == total,
            forall|sl: int, px: int, py: int|
                total <= sl < line_num && #[trigger] in_slot_rect(
                    sl,
                    lpc64 as int,
                    column_width as int,
                    line_height as int,
                    px,
                    py,
                ) && img.in_bounds(px, py) ==> img.spec_pixel(px, py) == bg,
            forall|px: int, py: int|
                img.in_bounds(px, py) && (forall|sl: int|
                    total <= sl < line_num ==> !in_slot_rect(
                        sl,
                        lpc64 as int,
                        column_width as int,
                        line_height as int,
                        px,
                        py,
                    )) ==> img.spec_pixel(px, py) == old(img).spec_pixel(px, py),
        decreases slots - line_num,
    {
        let col: u64 = line_num / lpc64;
        let row: u64 = line_num % lpc64;
        proof {
            assert(col < rc64 && row < lpc64) by (nonlinear_arith)
                requires
                    lpc64 >= 1,
                    0 <= line_num < lpc64 * rc64,
                    col == line_num as int / lpc64 as int,
                    row == line_num as int % lpc64 as int,
            ;
            assert(col as int * (cw64 as int) * 8 <= u64::MAX) by (nonlinear_arith)
                requires
                    0 <= col < rc64,
                    cw64 == column_width as int,
                    rc64 as int * (column_width as int) * 8 <= u64::MAX,
                    column_width >= 0,
            ;
            assert(row as int * (lh64 as int) <= u64::MAX) by (nonlinear_arith)
                requires
                    0 <= row <= 0xffff_ffffu64,
                    0 <= lh64 <= 0xffff_ffffu64,
        ;
        }
        let x0: u64 = col * cw64 * 8;
        let y0: u64 = row * lh64;
        let ghost before_fill = img;
        img.fill_rect(x0, y0, cw64 * 8, lh64, bg);
        proof {
            assert forall|sl: int, px: int, py: int|
                total <= sl < line_num + 1 && #[trigger] in_slot_rect(
                    sl,
                    lpc64 as int,
                    column_width as int,
                    line_height as int,
                    px,
                    py,
                ) && img.in_bounds(px, py) implies img.spec_pixel(px, py) == bg by {
                if sl == line_num {
                    assert((sl / lpc64 as int) * ((column_width as int) * 8) == col as int
                        * cw64 as int * 8) by (nonlinear_arith)
                        requires
                            sl / lpc64 as int == col as int,
                            cw64 == column_width as int,
                    ;
                    assert((sl % lpc64 as int) * (line_height as int) == row as int
                        * lh64 as int) by (nonlinear_arith)
                        requires
                            sl % lpc64 as int == row as int,
                            lh64 == line_height as int,
                    ;
                    assert(x0 <= px < x0 + cw64 * 8 && y0 <= py < y0 + lh64);
                } else {
                    assert(before_fill.spec_pixel(px, py) == bg);
                }
            }
            assert forall|px: int, py: int|
                img.in_bounds(px, py) && (forall|sl: int|
                    total <= sl < line_num + 1 ==> !in_slot_rect(
                        sl,
                        lpc64 as int,
                        column_width as int,
                        line_height as int,
                        px,
                        py,
                    )) implies img.spec_pixel(px, py) == old(img).spec_pixel(px, py) by {
                assert(!in_slot_rect(
                    line_num as int,
                    lpc64 as int,
                    column_width as int,
                    line_height as int,
                    px,
                    py,
                ));
                assert((line_num as int / lpc64 as int) * ((column_width as int) * 8) == col as int
                    * cw64 as int * 8) by (nonlinear_arith)
                    requires
                        line_num as int / lpc64 as int == col as int,
                        cw64 == column_width as int,
                ;
                assert((line_num as int % lpc64 as int) * (line_height as int) == row as int
                    * lh64 as int) by (nonlinear_arith)
                    requires
                        line_num as int % lpc64 as int == row as int,
                        lh64 == line_height as int,
                ;
                assert(!(x0 <= px < x0 + cw64 * 8 && y0 <= py < y0 + lh64));
                assert(img.spec_pixel(px, py) == before_fill.spec_pixel(px, py));
            }
        }
        line_num = line_num + 1;
    }
    proof {
        let lpcrc = lines_per_column as int * required_columns as int;
        assert(slots == lpcrc);
        assert forall|px: int, py: int|
            img.in_bounds(px, py) && (forall|sl: int|
                total <= sl < lpcrc ==> !in_slot_rect(
                    sl,
                    lines_per_column as int,
                    column_width as int,
                    line_height as int,
                    px,
                    py,
                )) implies img.spec_pixel(px, py) == old(img).spec_pixel(px, py) by {
            assert(forall|sl: int|
                total <= sl < line_num ==> !in_slot_rect(
                    sl,
                    lpc64 as int,
                    column_width as int,
                    line_height as int,
                    px,
                    py,
                ));
        }
    }
}


/// The color the pixel `(px, py)` has after a sequence of chunks is
/// rendered in order, each one a context and the paint plan of its rows,
/// over the pixel's previous color.
pub open spec fn chunks_pixel(
    chunks: Seq<(Context, Seq<(Seq<crate::chunk::Cell>, Rgb)>)>,
    px: int,
    py: int,
    prev: Rgb,
) -> Rgb
    decreases chunks.len(),
{
    if chunks.len() == 0 {
        prev
    } else {
        chunks_pixel(
            chunks.drop_first(),
            px,
            py,
            crate::chunk::rows_pixel(
                chunks[0].0,
                chunks[0].0.line_num as int,
                chunks[0].1,
                px,
                py,
                prev,
            ),
        )
    }
}

proof fn lemma_chunks_pixel_snoc(
    chunks: Seq<(Context, Seq<(Seq<crate::chunk::Cell>, Rgb)>)>,
    entry: (Context, Seq<(Seq<crate::chunk::Cell>, Rgb)>),
    px: int,
    py: int,
    prev: Rgb,
)
    ensures
        chunks_pixel(chunks.push(entry), px, py, prev) == crate::chunk::rows_pixel(
            entry.0,
            entry.0.line_num as int,
            entry.1,
            px,
            py,
            chunks_pixel(chunks, px, py, prev),
        ),
    decreases chunks.len(),
{
    if chunks.len() == 0 {
        assert(chunks.push(entry)[0] == entry);
        assert(chunks.push(entry).drop_first() =~= Seq::<
            (Context, Seq<(Seq<crate::chunk::Cell>, Rgb)>),
        >::empty());
        assert(chunks_pixel(
            chunks.push(entry).drop_first(),
            px,
            py,
            crate::chunk::rows_pixel(entry.0, entry.0.line_num as int, entry.1, px, py, prev),
        ) == crate::chunk::rows_pixel(entry.0, entry.0.line_num as int, entry.1, px, py, prev));
        assert(chunks_pixel(chunks, px, py, prev) == prev);
    } else {
        assert(chunks.push(entry)[0] == chunks[0]);
        assert(chunks.push(entry).drop_first() =~= chunks.drop_first().push(entry));
        lemma_chunks_pixel_snoc(
            chunks.drop_first(),
            entry,
            px,
            py,
            crate::chunk::rows_pixel(
                chunks[0].0,
                chunks[0].0.line_num as int,
                chunks[0].1,
                px,
                py,
                prev,
            ),
        );
    }
}

/// Whether the pixel `(px, py)` lies in a trailing line slot, one at or
/// past line `total`.
pub open spec fn in_trailing_slots(
    total: int,
    lpc: int,
    rc: int,
    cw: int,
    lh: int,
    px: int,
    py: int,
) -> bool {
    exists|sl: int| total <= sl < lpc * rc && #[trigger] in_slot_rect(sl, lpc, cw, lh, px, py)
}

/// The canvas holds exactly what the chunks paint over black, with the
/// trailing slots filled by `bgc`: every pixel comes from a kept file's
/// rows or from the trailing fill, nothing else.
pub open spec fn canvas_is_composed(
    img: Canvas,
    chunks: Seq<(Context, Seq<(Seq<crate::chunk::Cell>, Rgb)>)>,
    total: int,
    lpc: int,
    rc: int,
    cw: int,
    lh: int,
    bgc: Rgb,
) -> bool {
    forall|px: int, py: int|
        img.in_bounds(px, py) ==> img.spec_pixel(px, py) == (if in_trailing_slots(
            total,
            lpc,
            rc,
            cw,
            lh,
            px,
            py,
        ) {
            bgc
        } else {
            chunks_pixel(chunks, px, py, crate::color::spec_black())
        })
}

/// Everything a successful render promises: the statistics are exact over
/// the kept files, and the canvas has the geometry of a best layout with
/// its trailing slots filled with one color.
pub open spec fn spec_render_ok(
    ss: &syntect::parsing::SyntaxSet,
    content: Seq<(String, String)>,
    opts: Options,
    ts: &syntect::highlighting::ThemeSet,
    r: Rendered,
) -> bool {
    let kept = spec_kept(ss, content, opts.ignore_files_without_syntax);
    let total = spec_total_lines(kept);
    &&& total > 0
    &&& spec_themes_ok(ts, opts.themes@)
    &&& r.img.wf()
    &&& r.num_ignored == content.len() - kept.len()
    &&& r.longest_line_in_chars == spec_longest_over(kept)
    &&& exists|l: Layout|
        {
            &&& #[trigger] is_best_layout(
                total,
                opts.column_width as int,
                opts.line_height as int,
                opts.target_aspect_num as int,
                opts.target_aspect_den as int,
                opts.force_full_columns,
                l,
            )
            &&& r.img.spec_width() == l.required_columns as int * opts.column_width as int * 8
            &&& r.img.spec_height() == (if total < l.lines_per_column as int {
                total
            } else {
                l.lines_per_column as int
            }) * opts.line_height as int
            &&& exists|bgc: Rgb| #[trigger] trailing_slots_filled(
                r.img,
                total,
                l.lines_per_column as int,
                l.required_columns as int,
                opts.column_width as int,
                opts.line_height as int,
                bgc,
            )
            &&& exists|chunks: Seq<(Context, Seq<(Seq<crate::chunk::Cell>, Rgb)>)>, bgc: Rgb|
                {
                    &&& chunks.len() == kept.len()
                    &&& forall|i: int|
                        0 <= i < chunks.len() ==> {
                            let c = (#[trigger] chunks[i]).0;
                            &&& c.column_width == opts.column_width
                            &&& c.line_height == opts.line_height
                            &&& c.total_line_count == total
                            &&& c.lines_per_column == l.lines_per_column
                            &&& c.fg_color == opts.fg_color
                            &&& c.bg_color == opts.bg_color
                            &&& c.tab_spaces == opts.tab_spaces
                            &&& c.file_index == i
                            &&& c.line_num == spec_total_lines(kept.take(i))
                            &&& chunks[i].1.len() == spec_lines(kept[i].1@).len()
                        }
                    &&& #[trigger] canvas_is_composed(
                        r.img,
                        chunks,
                        total,
                        l.lines_per_column as int,
                        l.required_columns as int,
                        opts.column_width as int,
                        opts.line_height as int,
                        bgc,
                    )
                }
        }
}

/// Renders every kept file into one canvas, sequentially and in input
/// order: counts and filters the files, plans the layout closest to the
/// target aspect ratio, renders each file's lines at their cumulative
/// offsets, and fills any trailing cells with the last background color.
/// Fails if no line is left after filtering, if a requested theme is
/// unknown, if the highlighter fails, or if cancellation is observed
/// between files.
#[verifier::loop_isolation(false)]
#[verifier::rlimit(100)]
#[verifier::spinoff_prover]
pub fn render<C: CancelFlag>(
    content: Vec<(String, String)>,
    opts: &Options,
    should_interrupt: &C,
    ss: &syntect::parsing::SyntaxSet,
    ts: &syntect::highlighting::ThemeSet,
) -> (out: Result<Rendered, RenderError>)
    requires
        opts.column_width >= 1,
        opts.line_height >= 1,
        opts.target_aspect_den >= 1,
        opts.tab_spaces >= 1,
        has_plain_text(ss),
        spec_render_bounded(ss, content@, *opts),
    ensures
        ({
            let kept = spec_kept(ss, content@, opts.ignore_files_without_syntax);
            let total = spec_total_lines(kept);
            match out {
                Ok(r) => spec_render_ok(ss, content@, *opts, ts, r),
                Err(RenderError::NoLines) => total == 0,
                Err(RenderError::UnknownTheme { requested, available }) => {
                    &&& total > 0
                    &&& !spec_themes_ok(ts, opts.themes@)
                    &&& !theme_key_seq(ts).contains(requested@)
                    &&& (opts.themes@.len() == 0 ==> requested@ == "Solarized (dark)"@)
                    &&& (opts.themes@.len() > 0 ==> exists|i: int|
                        0 <= i < opts.themes@.len() && requested@ == (#[trigger] opts.themes@[i])@)
                    &&& available@.len() == theme_key_seq(ts).len()
                    &&& forall|i: int|
                        0 <= i < available@.len() ==> (#[trigger] available@[i])@ == theme_key_seq(
                            ts,
                        )[i]
                },
                Err(RenderError::Highlight(_)) => exists|f: int, i: int|
                    0 <= f < kept.len() && 0 <= i < spec_lines(kept[f].1@).len()
                        && vstd::utf8::encode_utf8(
                        #[trigger] spec_lines((#[trigger] kept[f]).1@)[i],
                    ).len() <= crate::chunk::LONG_LINE_BYTES,
                Err(RenderError::Cancelled) => true,
            }
        }),
        ({
            let kept = spec_kept(ss, content@, opts.ignore_files_without_syntax);
            let total = spec_total_lines(kept);
            &&& (total == 0 ==> out matches Err(RenderError::NoLines))
            &&& (total > 0 && !spec_themes_ok(ts, opts.themes@) ==> out matches Err(
                RenderError::UnknownTheme { .. },
            ))
        }),
{
    let ignore = opts.ignore_files_without_syntax;
    let nfiles: usize = content.len();
    let ghost keptg = spec_kept(ss, content@, ignore);
    let ghost totalg = spec_total_lines(keptg);
    // first pass: which files stay, and how many lines they hold together
    let mut flags: Vec<bool> = Vec::new();
    let mut total_u: u64 = 0;
    let mut num_ignored: usize = 0;
    let mut i: usize = 0;
    proof {
        assert(content@.take(0) =~= Seq::<(String, String)>::empty());
        lemma_total_nonneg(keptg);
    }
    while i < nfiles
        invariant
            i <= nfiles,
            flags@.len() == i,
            forall|j: int| 0 <= j < i ==> flags@[j] == keep_file(ss, content@[j], ignore),
            total_u == spec_total_lines(spec_kept(ss, content@.take(i as int), ignore)),
            num_ignored == i - spec_kept(ss, content@.take(i as int), ignore).len(),
            spec_kept(ss, content@.take(i as int), ignore).len() <= i,
            total_u <= totalg,
        decreases nfiles - i,
    {
        let keep: bool = if !ignore {
            true
        } else {
            let file = &content[i];
            match resolve_syntax(ss, file.0.as_str(), file.1.as_str()) {
                Some(_) => true,
                None => false,
            }
        };
        let ghost pre_kept = spec_kept(ss, content@.take(i as int), ignore);
        proof {
            lemma_kept_take(ss, content@, i as int, ignore);
            lemma_kept_split(ss, content@, i as int + 1, ignore);
            lemma_total_concat(
                spec_kept(ss, content@.take(i as int + 1), ignore),
                spec_kept(ss, content@.skip(i as int + 1), ignore),
            );
            lemma_total_nonneg(spec_kept(ss, content@.skip(i as int + 1), ignore));
            if keep {
                let piece = Seq::<(String, String)>::empty().push(content@[i as int]);
                lemma_total_concat(pre_kept, piece);
                assert(piece.drop_first() =~= Seq::<(String, String)>::empty());
                assert(spec_total_lines(piece.drop_first()) == 0);
                assert(spec_total_lines(piece) == spec_lines(content@[i as int].1@).len());
            } else {
                assert(spec_kept(ss, content@.take(i as int + 1), ignore) =~= pre_kept);
            }
        }
        if keep {
            let file = &content[i];
            let lines_here: usize = count_lines(file.1.as_str());
            total_u = total_u + (lines_here as u64);
        } else {
            num_ignored = num_ignored + 1;
        }
        flags.push(keep);
        i = i + 1;
    }
    proof {
        assert(content@.take(nfiles as int) =~= content@);
    }
    if total_u == 0 {
        return Err(RenderError::NoLines);
    }
    let total: u32 = total_u as u32;
    // themes: every requested name must exist; the first is used
    let theme: &syntect::highlighting::Theme;
    if opts.themes.len() == 0 {
        match find_theme(ts, "Solarized (dark)") {
            Some(t) => {
                theme = t;
            },
            None => {
                let requested = String::from_str("Solarized (dark)");
                proof {
                    assert(requested@ == "Solarized (dark)"@);
                }
                return Err(RenderError::UnknownTheme { requested, available: theme_names(ts) });
            },
        }
    } else {
        let mut ti: usize = 1;
        match find_theme(ts, opts.themes[0].as_str()) {
            Some(t) => {
                theme = t;
            },
            None => {
                let requested = String::from_str(opts.themes[0].as_str());
                proof {
                    assert(requested@ == (opts.themes@[0])@);
                }
                return Err(RenderError::UnknownTheme { requested, available: theme_names(ts) });
            },
        }
        while ti < opts.themes.len()
            invariant
                1 <= ti <= opts.themes@.len(),
                forall|j: int| 0 <= j < ti ==> theme_key_seq(ts).contains(opts.themes@[j]@),
            decreases opts.themes@.len() - ti,
        {
            match find_theme(ts, opts.themes[ti].as_str()) {
                Some(_) => {},
                None => {
                    let requested = String::from_str(opts.themes[ti].as_str());
                    proof {
                        assert(requested@ == (opts.themes@[ti as int])@);
                    }
                    return Err(
                        RenderError::UnknownTheme { requested, available: theme_names(ts) },
                    );
                },
            }
            ti = ti + 1;
        }
    }
    // plan the layout and allocate the canvas
    let layout = crate::layout::determine_dimensions(
        opts.target_aspect_num,
        opts.target_aspect_den,
        opts.column_width,
        total,
        opts.line_height,
        opts.force_full_columns,
    );
    let cw64: u64 = opts.column_width as u64;
    let lh64: u64 = opts.line_height as u64;
    proof {
        assert(layout.required_columns as int * (opts.column_width as int) * 8 <= (totalg + 1) * (
        opts.column_width as int + 1) * 8 && (totalg + 1) * (opts.column_width as int + 1) * 8
            <= u32::MAX) by (nonlinear_arith)
            requires
                1 <= layout.required_columns <= totalg,
                opts.column_width >= 1,
                (totalg + 1) * (opts.column_width as int + 1) * 8 <= u32::MAX,
        ;
    }
    let shown_lines: u64 = if (total as u64) < (layout.lines_per_column as u64) {
        total as u64
    } else {
        layout.lines_per_column as u64
    };
    proof {
        assert(shown_lines as int * (opts.line_height as int) <= (totalg + 1) * (
        opts.line_height as int + 1) && (totalg + 1) * (opts.line_height as int + 1) <= u32::MAX)
            by (nonlinear_arith)
            requires
                0 <= shown_lines <= totalg,
                totalg >= 1,
                opts.line_height >= 1,
                (totalg + 1) * (opts.line_height as int + 1) <= u32::MAX,
        ;
    }
    let imgx: u64 = (layout.required_columns as u64) * cw64 * 8;
    let imgy: u64 = shown_lines * lh64;
    proof {
        assert(3 * (imgx as int * imgy as int) <= usize::MAX) by (nonlinear_arith)
            requires
                0 <= imgx as int <= (totalg + 1) * (opts.column_width as int + 1) * 8,
                0 <= imgy as int <= (totalg + 1) * (opts.line_height as int + 1),
                3 * (((totalg + 1) * (opts.column_width as int + 1) * 8) * ((totalg + 1) * (
                opts.line_height as int + 1))) <= usize::MAX,
        ;
    }
    let mut img = Canvas::new(imgx as u32, imgy as u32);
    // second pass: render the kept files in order
    let mut longest: usize = 0;
    let mut background: Option<Rgb> = None;
    let mut lines_so_far: u64 = 0;
    let mut kidx: usize = 0;
    let mut prev_syntax_name: String = String::from_str("Plain Text");
    let mut highlighter = new_highlighter(find_syntax_plain_text(ss), theme);
    let mut fi: usize = 0;
    let ghost mut chunks: Seq<(Context, Seq<(Seq<crate::chunk::Cell>, Rgb)>)> = Seq::empty();
    proof {
        assert(content@.take(0) =~= Seq::<(String, String)>::empty());
        lemma_longest_over_nonneg(keptg);
    }
    while fi < nfiles
        invariant
            fi <= nfiles,
            img.wf(),
            img.spec_width() == imgx,
            img.spec_height() == imgy,
            lines_so_far == spec_total_lines(spec_kept(ss, content@.take(fi as int), ignore)),
            lines_so_far <= totalg,
            kidx == spec_kept(ss, content@.take(fi as int), ignore).len(),
            longest == spec_longest_over(spec_kept(ss, content@.take(fi as int), ignore)),
            spec_kept(ss, content@.take(fi as int), ignore) =~= keptg.take(kidx as int),
            chunks.len() == kidx,
            forall|i: int|
                0 <= i < chunks.len() ==> {
                    let c = (#[trigger] chunks[i]).0;
                    &&& c.column_width == opts.column_width
                    &&& c.line_height == opts.line_height
                    &&& c.total_line_count == totalg
                    &&& c.lines_per_column == layout.lines_per_column
                    &&& c.fg_color == opts.fg_color
                    &&& c.bg_color == opts.bg_color
                    &&& c.tab_spaces == opts.tab_spaces
                    &&& c.file_index == i
                    &&& c.line_num == spec_total_lines(keptg.take(i))
                    &&& chunks[i].1.len() == spec_lines(keptg[i].1@).len()
                },
            forall|px: int, py: int|
                img.in_bounds(px, py) ==> img.spec_pixel(px, py) == chunks_pixel(
                    chunks,
                    px,
                    py,
                    crate::color::spec_black(),
                ),
        decreases nfiles - fi,
    {
        if should_interrupt.is_cancelled() {
            return Err(RenderError::Cancelled);
        }
        let keep: bool = flags[fi];
        let ghost pre_kept = spec_kept(ss, content@.take(fi as int), ignore);
        proof {
            lemma_kept_take(ss, content@, fi as int, ignore);
            lemma_kept_split(ss, content@, fi as int + 1, ignore);
            lemma_total_concat(
                spec_kept(ss, content@.take(fi as int + 1), ignore),
                spec_kept(ss, content@.skip(fi as int + 1), ignore),
            );
            lemma_total_nonneg(spec_kept(ss, content@.skip(fi as int + 1), ignore));
            if keep {
                let piece = Seq::<(String, String)>::empty().push(content@[fi as int]);
                lemma_total_concat(pre_kept, piece);
                assert(piece.drop_first() =~= Seq::<(String, String)>::empty());
                assert(spec_total_lines(piece.drop_first()) == 0);
                assert(spec_total_lines(piece) == spec_lines(content@[fi as int].1@).len());
                assert(pre_kept.push(content@[fi as int]) =~= pre_kept + piece);
                lemma_longest_snoc(pre_kept, content@[fi as int]);
            } else {
                assert(spec_kept(ss, content@.take(fi as int + 1), ignore) =~= pre_kept);
            }
        }
        if keep {
            let file = &content[fi];
            // keep the highlighter unless the resolved syntax changes
            if !opts.plain {
                let syntax = match resolve_syntax(ss, file.0.as_str(), file.1.as_str()) {
                    Some(s) => s,
                    None => find_syntax_plain_text(ss),
                };
                let name = syntax_name(syntax);
                if !str_eq(name.as_str(), prev_syntax_name.as_str()) {
                    highlighter = new_highlighter(syntax, theme);
                    prev_syntax_name = name;
                }
            }
            let lines_here: usize = count_lines(file.1.as_str());
            let ctx = Context {
                column_width: opts.column_width,
                line_height: opts.line_height,
                total_line_count: total,
                line_num: lines_so_far as u32,
                lines_per_column: layout.lines_per_column,
                fg_color: opts.fg_color,
                bg_color: opts.bg_color,
                highlight_truncated_lines: opts.highlight_truncated_lines,
                file_index: kidx,
                color_modulation: opts.color_modulation,
                tab_spaces: opts.tab_spaces,
            };
            proof {
                assert((ctx.total_line_count as int + 1) * (ctx.column_width as int + 1) * 8
                    <= u64::MAX);
            }
            let ghost before_proc = img;
            let out = match process(file.1.as_str(), &mut img, &mut highlighter, ss, ctx) {
                Ok(o) => o,
                Err(e) => {
                    proof {
                        let piece = Seq::<(String, String)>::empty().push(content@[fi as int]);
                        assert(spec_kept(ss, content@.take(fi as int + 1), ignore)[kidx as int]
                            == content@[fi as int]);
                        assert(keptg[kidx as int] == content@[fi as int]);
                        let i0 = choose|i: int|
                            0 <= i < spec_lines(content@[fi as int].1@).len()
                                && vstd::utf8::encode_utf8(
                                #[trigger] spec_lines(content@[fi as int].1@)[i],
                            ).len() <= crate::chunk::LONG_LINE_BYTES;
                        assert(0 <= i0 < spec_lines(keptg[kidx as int].1@).len()
                            && vstd::utf8::encode_utf8(
                            spec_lines((keptg[kidx as int]).1@)[i0],
                        ).len() <= crate::chunk::LONG_LINE_BYTES);
                    }
                    return Err(RenderError::Highlight(e));
                },
            };
            proof {
                // record this file's paint plan and extend the composition
                let plan_i = choose|p: Seq<(Seq<crate::chunk::Cell>, Rgb)>|
                    {
                        &&& p.len() == spec_lines(file.1@).len()
                        &&& forall|j: int|
                            0 <= j < p.len() ==> ctx.column_width <= (#[trigger] p[j]).0.len()
                                <= ctx.column_width + 1
                        &&& #[trigger] crate::chunk::painted_by_plan(img, before_proc, ctx, p)
                    };
                assert(keptg[kidx as int] == content@[fi as int]);
                assert(keptg.take(kidx as int) =~= pre_kept);
                let prior_chunks = chunks;
                chunks = chunks.push((ctx, plan_i));
                assert forall|px: int, py: int|
                    img.in_bounds(px, py) implies img.spec_pixel(px, py) == chunks_pixel(
                    chunks,
                    px,
                    py,
                    crate::color::spec_black(),
                ) by {
                    lemma_chunks_pixel_snoc(
                        prior_chunks,
                        (ctx, plan_i),
                        px,
                        py,
                        crate::color::spec_black(),
                    );
                    assert(before_proc.spec_pixel(px, py) == chunks_pixel(
                        prior_chunks,
                        px,
                        py,
                        crate::color::spec_black(),
                    ));
                    assert(img.spec_pixel(px, py) == crate::chunk::rows_pixel(
                        ctx,
                        ctx.line_num as int,
                        plan_i,
                        px,
                        py,
                        before_proc.spec_pixel(px, py),
                    ));
                }
                assert forall|i: int|
                    0 <= i < chunks.len() implies {
                    let c = (#[trigger] chunks[i]).0;
                    &&& c.column_width == opts.column_width
                    &&& c.line_height == opts.line_height
                    &&& c.total_line_count == totalg
                    &&& c.lines_per_column == layout.lines_per_column
                    &&& c.fg_color == opts.fg_color
                    &&& c.bg_color == opts.bg_color
                    &&& c.tab_spaces == opts.tab_spaces
                    &&& c.file_index == i
                    &&& c.line_num == spec_total_lines(keptg.take(i))
                    &&& chunks[i].1.len() == spec_lines(keptg[i].1@).len()
                } by {
                    if i < chunks.len() - 1 {
                        assert(chunks[i] == prior_chunks[i]);
                    } else {
                        assert(chunks[i] == (ctx, plan_i));
                        assert(keptg[i].1@ == content@[fi as int].1@);
                    }
                }
            }
            if out.longest_line_in_chars > longest {
                longest = out.longest_line_in_chars;
            }
            background = out.background;
            lines_so_far = lines_so_far + (lines_here as u64);
            kidx = kidx + 1;
        }
        fi = fi + 1;
    }
    proof {
        assert(content@.take(nfiles as int) =~= content@);
    }
    // fill any cells beyond the last rendered line with the background
    let bg: Rgb = match background {
        Some(b) => b,
        None => crate::color::black(),
    };
    proof {
        assert(layout.required_columns as int * (opts.column_width as int) * 8 <= u64::MAX);
    }
    fill_trailing_slots(
        &mut img,
        lines_so_far,
        layout.lines_per_column,
        layout.required_columns,
        opts.column_width,
        opts.line_height,
        bg,
    );
    proof {
        assert(lines_so_far == totalg);
        assert forall|px: int, py: int|
            img.in_bounds(px, py) implies img.spec_pixel(px, py) == (if in_trailing_slots(
            totalg,
            layout.lines_per_column as int,
            layout.required_columns as int,
            opts.column_width as int,
            opts.line_height as int,
            px,
            py,
        ) {
            bg
        } else {
            chunks_pixel(chunks, px, py, crate::color::spec_black())
        }) by {
            if in_trailing_slots(
                totalg,
                layout.lines_per_column as int,
                layout.required_columns as int,
                opts.column_width as int,
                opts.line_height as int,
                px,
                py,
            ) {
                let sl = choose|sl: int|
                    totalg <= sl < layout.lines_per_column as int * layout.required_columns as int
                        && #[trigger] in_slot_rect(
                        sl,
                        layout.lines_per_column as int,
                        opts.column_width as int,
                        opts.line_height as int,
                        px,
                        py,
                    );
                assert(in_slot_rect(
                    sl,
                    layout.lines_per_column as int,
                    opts.column_width as int,
                    opts.line_height as int,
                    px,
                    py,
                ));
            }
        }
        assert(canvas_is_composed(
            img,
            chunks,
            totalg,
            layout.lines_per_column as int,
            layout.required_columns as int,
            opts.column_width as int,
            opts.line_height as int,
            bg,
        ));
        assert(keptg.take(keptg.len() as int) =~= keptg);
        assert(trailing_slots_filled(
            img,
            totalg,
            layout.lines_per_column as int,
            layout.required_columns as int,
            opts.column_width as int,
            opts.line_height as int,
            bg,
        ));
        assert(is_best_layout(
            totalg,
            opts.column_width as int,
            opts.line_height as int,
            opts.target_aspect_num as int,
            opts.target_aspect_den as int,
            opts.force_full_columns,
            layout,
        ));
    }
    let result = Rendered { img, longest_line_in_chars: longest, num_ignored };
    proof {
        assert(trailing_slots_filled(
            result.img,
            totalg,
            layout.lines_per_column as int,
            layout.required_columns as int,
            opts.column_width as int,
            opts.line_height as int,
            bg,
        ));
        assert(spec_render_ok(ss, content@, *opts, ts, result));
    }
    Ok(result)
}


/// Which line's strip the pixel `(px, py)` belongs to, for columns
/// `cwpx` pixels wide holding `lpc` strips of `lh` rows each.
pub open spec fn strip_line(px: int, py: int, lpc: int, cwpx: int, lh: int) -> int {
    (px / cwpx) * lpc + py / lh
}

/// The canvas `post` is `pre` with the strips of lines `lsf` up to
/// `lsf + cnt` replaced by the rows of the private buffer `sub`, each
/// placed by its line number alone.
pub open spec fn is_merge_of(
    post: Canvas,
    pre: Canvas,
    sub: Canvas,
    lsf: int,
    cnt: int,
    lpc: int,
    cwpx: int,
    lh: int,
) -> bool {
    &&& post.spec_width() == pre.spec_width()
    &&& post.spec_height() == pre.spec_height()
    &&& forall|px: int, py: int|
        post.in_bounds(px, py) ==> post.spec_pixel(px, py) == (if lsf <= strip_line(
            px,
            py,
            lpc,
            cwpx,
            lh,
        ) < lsf + cnt {
            sub.spec_pixel(
                px % cwpx,
                (strip_line(px, py, lpc, cwpx, lh) - lsf) * lh + py % lh,
            )
        } else {
            pre.spec_pixel(px, py)
        })
}

/// Copies a file's private buffer into the shared canvas, strip by strip:
/// line `lines_so_far + i` of the render lands at the offsets that line
/// number determines, so the result does not depend on the order in which
/// files are merged.
#[verifier::loop_isolation(false)]
#[verifier::rlimit(100)]
pub fn merge_file_image(
    img: &mut Canvas,
    sub: &Canvas,
    lines_so_far: u32,
    line_count: u32,
    lines_per_column: u32,
    column_width: u32,
    line_height: u32,
)
    requires
        old(img).wf(),
        sub.wf(),
        lines_per_column >= 1,
        column_width >= 1,
        column_width as int * 8 <= u32::MAX,
        line_height >= 1,
        lines_so_far as int + line_count as int <= u32::MAX,
        sub.spec_width() >= column_width as int * 8,
        sub.spec_height() >= line_count as int * line_height as int,
        old(img).spec_height() <= lines_per_column as int * line_height as int,
    ensures
        final(img).wf(),
        is_merge_of(
            *final(img),
            *old(img),
            *sub,
            lines_so_far as int,
            line_count as int,
            lines_per_column as int,
            column_width as int * 8,
            line_height as int,
        ),
{
    let cwpx: u32 = column_width * 8;
    let mut line: u32 = 0;
    proof {
        assert(line_count as int * line_height as int <= u32::MAX as int * u32::MAX as int) by (
        nonlinear_arith)
            requires
                0 <= line_count <= u32::MAX,
                0 <= line_height <= u32::MAX,
        ;
    }
    while line < line_count
        invariant
            img.wf(),
            img.spec_width() == old(img).spec_width(),
            img.spec_height() == old(img).spec_height(),
            line <= line_count,
            forall|px: int, py: int|
                img.in_bounds(px, py) ==> img.spec_pixel(px, py) == (if lines_so_far
                    <= strip_line(px, py, lines_per_column as int, cwpx as int, line_height as int)
                    < lines_so_far + line {
                    sub.spec_pixel(
                        px % (cwpx as int),
                        (strip_line(
                            px,
                            py,
                            lines_per_column as int,
                            cwpx as int,
                            line_height as int,
                        ) - lines_so_far) * line_height + py % (line_height as int),
                    )
                } else {
                    old(img).spec_pixel(px, py)
                }),
        decreases line_count - line,
    {
        let lnum: u32 = lines_so_far + line;
        let col: u32 = lnum / lines_per_column;
        let row: u32 = lnum % lines_per_column;
        let ghost before = *img;
        proof {
            assert(col as int * cwpx as int <= u32::MAX as int * u32::MAX as int && row as int
                * line_height as int <= u32::MAX as int * u32::MAX as int) by (nonlinear_arith)
                requires
                    0 <= col <= u32::MAX,
                    0 <= cwpx <= u32::MAX,
                    0 <= row <= u32::MAX,
                    0 <= line_height <= u32::MAX,
            ;
        }
        let x0: u64 = (col as u64) * (cwpx as u64);
        let y0: u64 = (row as u64) * (line_height as u64);
        proof {
            lemma_canvas_dims(*sub);
            assert(line as int * line_height as int + line_height as int <= line_count as int
                * line_height as int) by (nonlinear_arith)
                requires
                    0 <= line < line_count,
                    line_height >= 1,
            ;
        }
        let src_y: u32 = (((line as u64) * (line_height as u64)) as u32);
        img.copy_rect(sub, x0, y0, 0, src_y, cwpx, line_height);
        proof {
            let lpc = lines_per_column as int;
            let lh = line_height as int;
            let cw = cwpx as int;
            assert(col == lnum as int / lpc && row == lnum as int % lpc);
            assert forall|px: int, py: int|
                img.in_bounds(px, py) implies img.spec_pixel(px, py) == (if lines_so_far
                <= strip_line(px, py, lpc, cw, lh) < lines_so_far + (line + 1) {
                sub.spec_pixel(
                    px % cw,
                    (strip_line(px, py, lpc, cw, lh) - lines_so_far) * lh + py % lh,
                )
            } else {
                old(img).spec_pixel(px, py)
            }) by {
                lemma_canvas_dims(*img);
                if x0 <= px < x0 + cw && y0 <= py < y0 + lh {
                    // this strip was just written; its pixel came from `sub`
                    assert(px / cw == col && px % cw == px - x0) by (nonlinear_arith)
                        requires
                            cw >= 1,
                            col as int * cw == x0,
                            x0 <= px < x0 + cw,
                    ;
                    assert(py / lh == row && py % lh == py - y0) by (nonlinear_arith)
                        requires
                            lh >= 1,
                            row as int * lh == y0,
                            y0 <= py < y0 + lh,
                    ;
                    assert(strip_line(px, py, lpc, cw, lh) == lnum) by (nonlinear_arith)
                        requires
                            px / cw == col,
                            py / lh == row,
                            col == lnum as int / lpc,
                            row == lnum as int % lpc,
                            lpc >= 1,
                            lnum >= 0,
                    ;
                    assert(img.spec_pixel(px, py) == sub.spec_pixel(px - x0, src_y + (py - y0)));
                    assert(src_y == line * lh);
                    assert((strip_line(px, py, lpc, cw, lh) - lines_so_far) * lh + py % lh == line
                        * lh + (py - y0));
                } else {
                    // outside the strip nothing changed, and no other pixel
                    // maps to this line number
                    assert(img.spec_pixel(px, py) == before.spec_pixel(px, py));
                    if strip_line(px, py, lpc, cw, lh) == lnum {
                        assert(0 <= py / lh < lpc) by (nonlinear_arith)
                            requires
                                lh >= 1,
                                lpc >= 1,
                                0 <= py,
                                py < lpc * lh,
                        ;
                        assert(px / cw == lnum as int / lpc && py / lh == lnum as int % lpc) by (
                        nonlinear_arith)
                            requires
                                (px / cw) * lpc + py / lh == lnum,
                                0 <= py / lh < lpc,
                                0 <= px / cw,
                                lpc >= 1,
                        ;
                        assert(x0 <= px < x0 + cw) by (nonlinear_arith)
                            requires
                                cw >= 1,
                                px / cw == col,
                                col as int * cw == x0,
                                0 <= px,
                        ;
                        assert(y0 <= py < y0 + lh) by (nonlinear_arith)
                            requires
                                lh >= 1,
                                py / lh == row,
                                row as int * lh == y0,
                                0 <= py,
                        ;
                        assert(false);
                    }
                }
            }
        }
        line = line + 1;
    }
}

/// Merging two files' buffers into the canvas lands each file's pixels in
/// the strips its own line numbers determine, so merging them in either
/// order yields byte-identical canvases.
pub proof fn lemma_merge_order_independent(
    base: Canvas,
    a1: Canvas,
    a2: Canvas,
    b1: Canvas,
    b2: Canvas,
    sub_a: Canvas,
    sub_b: Canvas,
    lsf_a: int,
    cnt_a: int,
    lsf_b: int,
    cnt_b: int,
    lpc: int,
    cwpx: int,
    lh: int,
)
    requires
        base.wf(),
        a1.wf() && a2.wf() && b1.wf() && b2.wf(),
        lsf_a + cnt_a <= lsf_b || lsf_b + cnt_b <= lsf_a,
        is_merge_of(a1, base, sub_a, lsf_a, cnt_a, lpc, cwpx, lh),
        is_merge_of(a2, a1, sub_b, lsf_b, cnt_b, lpc, cwpx, lh),
        is_merge_of(b1, base, sub_b, lsf_b, cnt_b, lpc, cwpx, lh),
        is_merge_of(b2, b1, sub_a, lsf_a, cnt_a, lpc, cwpx, lh),
    ensures
        a2.pixels() == b2.pixels(),
{
    assert forall|px: int, py: int| a2.in_bounds(px, py) implies a2.spec_pixel(px, py)
        == b2.spec_pixel(px, py) by {
        let l = strip_line(px, py, lpc, cwpx, lh);
        assert(a1.in_bounds(px, py) && b1.in_bounds(px, py) && b2.in_bounds(px, py) && base.in_bounds(px, py));
        if lsf_a <= l < lsf_a + cnt_a {
            assert(a2.spec_pixel(px, py) == a1.spec_pixel(px, py));
        } else if lsf_b <= l < lsf_b + cnt_b {
            assert(b2.spec_pixel(px, py) == b1.spec_pixel(px, py));
        } else {
            assert(a2.spec_pixel(px, py) == base.spec_pixel(px, py));
            assert(b2.spec_pixel(px, py) == base.spec_pixel(px, py));
        }
    }
    crate::canvas::lemma_canvas_pixels_eq(a2, b2);
}

/// Renders one file into a private buffer of exactly one column's width
/// and the file's own height, for a worker that owns no part of the
/// shared canvas.
pub fn render_file_image(
    content: &str,
    highlighter: &mut syntect::easy::HighlightLines,
    ss: &syntect::parsing::SyntaxSet,
    ctx: Context,
) -> (out: Result<(Canvas, Outcome), String>)
    requires
        ctx.wf(),
        ctx.line_num == 0,
        spec_lines(content@).len() <= ctx.lines_per_column,
        spec_lines(content@).len() * (ctx.line_height as int) <= u32::MAX,
        (ctx.column_width as int) * 8 <= u32::MAX,
        3 * (((ctx.column_width as int) * 8) * (spec_lines(content@).len() * (
        ctx.line_height as int))) <= usize::MAX,
    ensures
        match out {
            Ok((img, o)) => {
                &&& img.wf()
                &&& img.spec_width() == (ctx.column_width as int) * 8
                &&& img.spec_height() == spec_lines(content@).len() * (ctx.line_height as int)
                &&& o.longest_line_in_chars == spec_longest(spec_lines(content@))
                &&& (o.background is Some <==> spec_lines(content@).len() > 0)
                &&& forall|px: int, py: int|
                    img.in_bounds(px, py) && (forall|l: int|
                        0 <= l < spec_lines(content@).len() ==> !crate::chunk::in_line_band(
                            ctx,
                            l,
                            px,
                            py,
                        )) ==> img.spec_pixel(px, py) == crate::color::spec_black()
            },
            Err(_) => exists|i: int|
                0 <= i < spec_lines(content@).len() && vstd::utf8::encode_utf8(
                    #[trigger] spec_lines(content@)[i],
                ).len() <= crate::chunk::LONG_LINE_BYTES,
        },
{
    let line_count: usize = count_lines(content);
    proof {
        assert(line_count as int * (ctx.line_height as int) >= 0) by (nonlinear_arith)
            requires
                line_count >= 0,
                ctx.line_height >= 0,
        ;
    }
    let height: u32 = ((line_count as u64) * (ctx.line_height as u64)) as u32;
    let width: u32 = ctx.column_width * 8;
    let mut img = Canvas::new(width, height);
    match process(content, &mut img, highlighter, ss, ctx) {
        Ok(o) => Ok((img, o)),
        Err(e) => Err(e),
    }
}

} // verus!
