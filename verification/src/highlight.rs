use crate::color::{Rgb, Style};
use vstd::prelude::*;

verus! {

#[verifier::external_type_specification]
#[verifier::external_body]
pub struct ExSyntaxSet(syntect::parsing::SyntaxSet);

#[verifier::external_type_specification]
#[verifier::external_body]
pub struct ExSyntaxReference(syntect::parsing::SyntaxReference);

#[verifier::external_type_specification]
#[verifier::external_body]
pub struct ExThemeSet(syntect::highlighting::ThemeSet);

#[verifier::external_type_specification]
#[verifier::external_body]
pub struct ExTheme(syntect::highlighting::Theme);

#[verifier::external_type_specification]
#[verifier::external_body]
pub struct ExHighlightLines<'a>(syntect::easy::HighlightLines<'a>);

/// One run of consecutive characters of a line sharing one visual style.
pub struct Span {
    pub style: Style,
    pub text: String,
}

/// The characters of a span sequence, concatenated in order.
pub open spec fn spans_chars(spans: Seq<Span>) -> Seq<char>
    decreases spans.len(),
{
    if spans.len() == 0 {
        Seq::empty()
    } else {
        spans[0].text@ + spans_chars(spans.drop_first())
    }
}

/// Whether the syntax set maps this file-name token or extension to a syntax.
pub uninterp spec fn known_extension(ss: &syntect::parsing::SyntaxSet, token: Seq<char>) -> bool;

/// Whether the syntax set recognizes a file by this first line.
pub uninterp spec fn known_first_line(ss: &syntect::parsing::SyntaxSet, line: Seq<char>) -> bool;

/// Whether the syntax set holds the built-in plain-text syntax.
pub uninterp spec fn has_plain_text(ss: &syntect::parsing::SyntaxSet) -> bool;

/// The theme names a theme set holds, in its iteration order.
pub uninterp spec fn theme_key_seq(ts: &syntect::highlighting::ThemeSet) -> Seq<Seq<char>>;

/// Relies on `SyntaxSet::load_defaults_newlines`: loads the bundled syntax
/// definitions, which include the "Plain Text" syntax.
#[verifier::external_body]
pub(crate) fn load_syntaxes() -> (ss: syntect::parsing::SyntaxSet)
    ensures
        has_plain_text(&ss),
{
    syntect::parsing::SyntaxSet::load_defaults_newlines()
}

/// Relies on `ThemeSet::load_defaults`: loads the bundled themes.
#[verifier::external_body]
pub(crate) fn load_themes() -> (ts: syntect::highlighting::ThemeSet) {
    syntect::highlighting::ThemeSet::load_defaults()
}

/// Relies on `SyntaxSet::find_syntax_by_extension`: a pure lookup of the
/// given file-name token or extension in the set's extension table.
#[verifier::external_body]
pub(crate) fn find_syntax_by_extension<'a>(
    ss: &'a syntect::parsing::SyntaxSet,
    token: &str,
) -> (out: Option<&'a syntect::parsing::SyntaxReference>)
    ensures
        out.is_some() == known_extension(ss, token@),
{
    ss.find_syntax_by_extension(token)
}

/// Relies on `SyntaxSet::find_syntax_by_first_line`: a pure match of the
/// given line against the set's first-line patterns.
#[verifier::external_body]
pub(crate) fn find_syntax_by_first_line<'a>(
    ss: &'a syntect::parsing::SyntaxSet,
    line: &str,
) -> (out: Option<&'a syntect::parsing::SyntaxReference>)
    ensures
        out.is_some() == known_first_line(ss, line@),
{
    ss.find_syntax_by_first_line(line)
}

/// Relies on `SyntaxSet::find_syntax_plain_text`: returns the "Plain Text"
/// syntax, which the bundled defaults always hold.
#[verifier::external_body]
pub(crate) fn find_syntax_plain_text<'a>(ss: &'a syntect::parsing::SyntaxSet) -> (out:
    &'a syntect::parsing::SyntaxReference)
    requires
        has_plain_text(ss),
{
    ss.find_syntax_plain_text()
}

/// Relies on the public `name` field of `SyntaxReference`: a stable
/// identifier used only to decide whether a cached highlighter can be kept.
#[verifier::external_body]
pub(crate) fn syntax_name(syntax: &syntect::parsing::SyntaxReference) -> (out: String) {
    syntax.name.clone()
}

/// Relies on the public `themes` map of `ThemeSet`: its keys are the
/// available theme names, in order.
#[verifier::external_body]
pub(crate) fn theme_names(ts: &syntect::highlighting::ThemeSet) -> (out: Vec<String>)
    ensures
        out@.len() == theme_key_seq(ts).len(),
        forall|i: int| 0 <= i < out@.len() ==> out@[i]@ == theme_key_seq(ts)[i],
{
    ts.themes.keys().cloned().collect()
}

/// Relies on the public `themes` map of `ThemeSet`: lookup succeeds exactly
/// for the keys of the map.
#[verifier::external_body]
pub(crate) fn find_theme<'a>(ts: &'a syntect::highlighting::ThemeSet, name: &str) -> (out: Option<
    &'a syntect::highlighting::Theme,
>)
    ensures
        out.is_some() == theme_key_seq(ts).contains(name@),
{
    ts.themes.get(name)
}

/// Relies on `HighlightLines::new`: builds a fresh highlighter for one
/// syntax and theme, with no parse state yet.
#[verifier::external_body]
pub(crate) fn new_highlighter<'a>(
    syntax: &syntect::parsing::SyntaxReference,
    theme: &'a syntect::highlighting::Theme,
) -> (out: syntect::easy::HighlightLines<'a>) {
    syntect::easy::HighlightLines::new(syntax, theme)
}

/// Relies on `HighlightLines::highlight_line`: on success it yields styled
/// regions whose concatenation is the given line; parsing can fail, and the
/// result also depends on the parse state the highlighter carries over from
/// earlier lines, so nothing more is promised.
#[verifier::external_body]
pub(crate) fn highlight_line(
    highlighter: &mut syntect::easy::HighlightLines,
    line: &str,
    ss: &syntect::parsing::SyntaxSet,
) -> (out: Result<Vec<Span>, String>)
    ensures
        match out {
            Ok(spans) => spans_chars(spans@) == line@,
            Err(_) => true,
        },
{
    match highlighter.highlight_line(line, ss) {
        Ok(regions) => Ok(
            regions.into_iter().map(
                |(st, txt): (syntect::highlighting::Style, &str)|
                    Span {
                        style: Style {
                            fg: Rgb { r: st.foreground.r, g: st.foreground.g, b: st.foreground.b },
                            bg: Rgb { r: st.background.r, g: st.background.g, b: st.background.b },
                        },
                        text: txt.to_string(),
                    },
            ).collect(),
        ),
        Err(e) => Err(e.to_string()),
    }
}

} // verus!
