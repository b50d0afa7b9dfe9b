use codevis::{
    determine_dimensions, render, resolve_thread_count, BgColor, Canvas, FgColor, NeverCancel,
    Options, RenderError, Rgb,
};
use syntect::highlighting::ThemeSet;
use syntect::parsing::SyntaxSet;

fn opts() -> Options {
    Options {
        column_width: 10,
        line_height: 2,
        target_aspect_num: 16,
        target_aspect_den: 9,
        threads: 1,
        fg_color: FgColor::Style,
        bg_color: BgColor::Style,
        highlight_truncated_lines: false,
        themes: Vec::new(),
        force_full_columns: false,
        plain: true,
        ignore_files_without_syntax: false,
        color_modulation: 50,
        tab_spaces: 4,
    }
}

fn assets() -> (SyntaxSet, ThemeSet) {
    (SyntaxSet::load_defaults_newlines(), ThemeSet::load_defaults())
}

fn file(path: &str, content: &str) -> (String, String) {
    (path.to_string(), content.to_string())
}

#[test]
fn canvas_byte_length_is_width_height_3() {
    let (ss, ts) = assets();
    let r = render(
        vec![file("a.txt", "hello\nworld\n")],
        &opts(),
        &NeverCancel,
        &ss,
        &ts,
    )
    .unwrap();
    let w = r.img.width() as usize;
    let h = r.img.height() as usize;
    assert_eq!(r.img.byte_length(), w * h * 3);
    assert_eq!(r.img.bytes().len(), w * h * 3);
}

#[test]
fn layout_is_closest_to_target_among_all_divisions() {
    // brute force over all lines-per-column values and compare
    let total = 35u32;
    let cw = 100u32;
    let lh = 2u32;
    let l = determine_dimensions(16, 9, cw, total, lh, false);
    let target = 16.0f64 / 9.0f64;
    let dist = |lpc: u32| -> f64 {
        let rc = (total + lpc - 1) / lpc;
        let ratio = (rc as f64 * cw as f64) / (lpc as f64 * lh as f64);
        (ratio - target).abs()
    };
    let chosen = dist(l.lines_per_column);
    for lpc in 1..=total {
        assert!(
            chosen <= dist(lpc) + 1e-12,
            "lpc {} beats chosen {}",
            lpc,
            l.lines_per_column
        );
    }
    assert_eq!(
        l.required_columns,
        (total + l.lines_per_column - 1) / l.lines_per_column
    );
}

#[test]
fn layout_scenario_35_lines_16_by_9() {
    let l = determine_dimensions(16, 9, 100, 35, 2, false);
    assert_eq!((l.lines_per_column, l.required_columns), (35, 1));
}

#[test]
fn merge_order_matches_sequential_render() {
    let (ss, ts) = assets();
    let files = vec![
        file("a.txt", "alpha\nbeta\ngamma\n"),
        file("b.txt", "one two three\nfour\n"),
        file("c.txt", "tail\n"),
    ];
    let o = opts();
    let sequential = render(files.clone(), &o, &NeverCancel, &ss, &ts).unwrap();

    // the parallel path: private buffers, merged in reverse arrival order
    let total: u32 = files
        .iter()
        .map(|(_, c)| codevis::function::count_lines(c) as u32)
        .sum();
    let layout = determine_dimensions(16, 9, o.column_width, total, o.line_height, false);
    let imgx = layout.required_columns * o.column_width * 8;
    let imgy = total.min(layout.lines_per_column) * o.line_height;
    let mut img = Canvas::new(imgx, imgy);
    let theme = ts.themes.get("Solarized (dark)").unwrap();
    let mut results = Vec::new();
    let mut lines_so_far = 0u32;
    for (i, (_path, content)) in files.iter().enumerate() {
        let lc = codevis::function::count_lines(content) as u32;
        let mut h = syntect::easy::HighlightLines::new(ss.find_syntax_plain_text(), theme);
        let ctx = codevis::Context {
            column_width: o.column_width,
            line_height: o.line_height,
            total_line_count: total,
            line_num: 0,
            lines_per_column: total,
            fg_color: o.fg_color,
            bg_color: o.bg_color,
            highlight_truncated_lines: o.highlight_truncated_lines,
            file_index: i,
            color_modulation: o.color_modulation,
            tab_spaces: o.tab_spaces,
        };
        let (sub, out) = codevis::render_file_image(content, &mut h, &ss, ctx).unwrap();
        results.push((sub, out, lc, lines_so_far));
        lines_so_far += lc;
    }
    let mut last_bg = None;
    for (_, out, _, _) in results.iter() {
        last_bg = out.background;
    }
    // merge in reverse order: placement depends only on the line offsets
    for (sub, _out, lc, lsf) in results.iter().rev() {
        codevis::merge_file_image(
            &mut img,
            sub,
            *lsf,
            *lc,
            layout.lines_per_column,
            o.column_width,
            o.line_height,
        );
    }
    // fill the trailing cells like the sequential pass does
    let bg = last_bg.unwrap_or(Rgb { r: 0, g: 0, b: 0 });
    codevis::fill_trailing_slots(
        &mut img,
        total as u64,
        layout.lines_per_column,
        layout.required_columns,
        o.column_width,
        o.line_height,
        bg,
    );
    assert_eq!(img.bytes(), sequential.img.bytes());
}

#[test]
fn rendering_twice_is_byte_identical() {
    let (ss, ts) = assets();
    let files = vec![
        file("a.rs", "fn main() {\n    println!(\"hi\");\n}\n"),
        file("b.txt", "plain text here\n"),
    ];
    let mut o = opts();
    o.plain = false;
    let one = render(files.clone(), &o, &NeverCancel, &ss, &ts).unwrap();
    let two = render(files, &o, &NeverCancel, &ss, &ts).unwrap();
    assert_eq!(one.img.bytes(), two.img.bytes());
    assert_eq!(one.longest_line_in_chars, two.longest_line_in_chars);
}

#[test]
fn line_one_over_column_width_truncates_but_counts_full() {
    let (ss, ts) = assets();
    let o = opts(); // column_width 10
    let eleven = "abcdefghijk"; // 11 code points, no terminator
    let ten = "abcdefghij";
    let long = render(vec![file("a.txt", eleven)], &o, &NeverCancel, &ss, &ts).unwrap();
    let short = render(vec![file("a.txt", ten)], &o, &NeverCancel, &ss, &ts).unwrap();
    assert_eq!(long.longest_line_in_chars, 11);
    assert_eq!(short.longest_line_in_chars, 10);
    // the displayed pixels are the truncated line's
    assert_eq!(long.img.bytes(), short.img.bytes());
}

#[test]
fn tab_fills_to_next_tab_stop() {
    let (ss, ts) = assets();
    let o = opts(); // tab_spaces 4
    // a tab in cell 1 advances to cell 4, like three background cells
    let tabbed = render(vec![file("a.txt", "a\tb\n")], &o, &NeverCancel, &ss, &ts).unwrap();
    let spaced = render(vec![file("a.txt", "a   b\n")], &o, &NeverCancel, &ss, &ts).unwrap();
    assert_eq!(tabbed.img.bytes(), spaced.img.bytes());
}

#[test]
fn oversized_line_gets_one_fallback_span() {
    let (ss, ts) = assets();
    let theme = ts.themes.get("Solarized (dark)").unwrap();
    let mut h = syntect::easy::HighlightLines::new(ss.find_syntax_plain_text(), theme);
    let long: String = "x".repeat(17000);
    let truncated = &long[..10];
    let spans =
        codevis::chunk::spans_for_line(&long, truncated, false, None, &mut h, &ss).unwrap();
    assert_eq!(spans.len(), 1);
    assert_eq!(spans[0].style.fg, Rgb { r: 200, g: 200, b: 200 });
    assert_eq!(spans[0].style.bg, Rgb { r: 0, g: 0, b: 0 });
    assert_eq!(spans[0].text, truncated);
}

#[test]
fn short_line_spans_concatenate_to_the_line() {
    let (ss, ts) = assets();
    let theme = ts.themes.get("Solarized (dark)").unwrap();
    let syntax = ss.find_syntax_by_extension("rs").unwrap();
    let mut h = syntect::easy::HighlightLines::new(syntax, theme);
    let line = "fn main() { let x = 1; }\n";
    let spans = codevis::chunk::spans_for_line(line, &line[..10], false, None, &mut h, &ss).unwrap();
    let joined: String = spans.iter().map(|s| s.text.as_str()).collect();
    assert_eq!(joined, line);
    assert!(spans.len() > 1);
}

#[test]
fn thread_count_zero_resolves_to_cpu_count() {
    assert_eq!(resolve_thread_count(0, 8), 8);
}

#[test]
fn thread_count_clamps_to_cpu_count() {
    assert_eq!(resolve_thread_count(999, 8), 8);
    assert_eq!(resolve_thread_count(1, 8), 1);
    assert_eq!(resolve_thread_count(0, 1), 1);
}

#[test]
fn files_without_syntax_are_ignored_and_counted() {
    let (ss, ts) = assets();
    let mut o = opts();
    o.ignore_files_without_syntax = true;
    o.plain = false;
    let files = vec![
        file("mystery.zzz", "zzzz\nzzzz\n"),
        file("puzzle.qqq", "qqqq\n"),
        file("known.rs", "fn main() {}\n"),
    ];
    let r = render(files, &o, &NeverCancel, &ss, &ts).unwrap();
    assert_eq!(r.num_ignored, 2);
    // only the one-line file remains: a single line slot tall
    assert_eq!(r.img.height(), o.line_height);
}

#[test]
fn all_files_ignored_is_an_error() {
    let (ss, ts) = assets();
    let mut o = opts();
    o.ignore_files_without_syntax = true;
    let files = vec![file("mystery.zzz", "zzzz\n")];
    match render(files, &o, &NeverCancel, &ss, &ts) {
        Err(RenderError::NoLines) => {}
        _ => panic!("expected the no-lines error"),
    }
}

#[test]
fn empty_input_is_an_error() {
    let (ss, ts) = assets();
    match render(Vec::new(), &opts(), &NeverCancel, &ss, &ts) {
        Err(RenderError::NoLines) => {}
        _ => panic!("expected the no-lines error"),
    }
}

#[test]
fn unknown_theme_is_an_error_listing_names() {
    let (ss, ts) = assets();
    let mut o = opts();
    o.themes = vec!["NoSuchThemeAnywhere".to_string()];
    match render(vec![file("a.txt", "x\n")], &o, &NeverCancel, &ss, &ts) {
        Err(RenderError::UnknownTheme { requested, available }) => {
            assert_eq!(requested, "NoSuchThemeAnywhere");
            assert!(available.iter().any(|n| n == "Solarized (dark)"));
        }
        _ => panic!("expected the unknown-theme error"),
    }
}

struct AlwaysCancel;

impl codevis::CancelFlag for AlwaysCancel {
    fn is_cancelled(&self) -> bool {
        true
    }
}

#[test]
fn cancellation_is_reported() {
    let (ss, ts) = assets();
    match render(vec![file("a.txt", "x\n")], &opts(), &AlwaysCancel, &ss, &ts) {
        Err(RenderError::Cancelled) => {}
        _ => panic!("expected the cancellation error"),
    }
}

#[test]
fn calc_offsets_wraps_lines_into_columns() {
    assert_eq!(codevis::calc_offsets(0, 5, 80, 2), (0, 0));
    assert_eq!(codevis::calc_offsets(4, 5, 80, 2), (0, 8));
    assert_eq!(codevis::calc_offsets(5, 5, 80, 2), (80, 0));
    assert_eq!(codevis::calc_offsets(12, 5, 80, 2), (160, 4));
}

#[test]
fn brightness_modulation_mixes_code_point_and_style() {
    let style = codevis::Style {
        fg: Rgb { r: 100, g: 200, b: 255 },
        bg: Rgb { r: 0, g: 0, b: 0 },
    };
    let c = codevis::color::fg_color_of(FgColor::StyleAsciiBrightness, style, 'a');
    // channel = min(255, byte * base * 6144 / 655350), byte = 0x61
    let expect = |base: u64| -> u8 {
        let v = 0x61u64 * base * 6144 / 655350;
        if v > 255 { 255 } else { v as u8 }
    };
    assert_eq!(c.r, expect(100));
    assert_eq!(c.g, expect(200));
    assert_eq!(c.b, expect(255));
    let plain = codevis::color::fg_color_of(FgColor::Style, style, 'a');
    assert_eq!(plain, style.fg);
}

#[test]
fn different_glyphs_paint_different_pixels() {
    let (ss, ts) = assets();
    // a full 16-pixel line height keeps the whole glyph cell visible
    let mut o = opts();
    o.line_height = 16;
    let a = render(vec![file("a.txt", "a")], &o, &NeverCancel, &ss, &ts).unwrap();
    let b = render(vec![file("a.txt", "b")], &o, &NeverCancel, &ss, &ts).unwrap();
    assert_eq!(a.img.bytes().len(), b.img.bytes().len());
    assert_ne!(a.img.bytes(), b.img.bytes());
}

#[test]
fn canvas_writes_clip_silently() {
    let mut c = Canvas::new(4, 4);
    let red = Rgb { r: 255, g: 0, b: 0 };
    c.put_pixel(2, 3, red);
    c.put_pixel(100, 100, red); // out of bounds: skipped, no panic
    assert_eq!(c.get_pixel(2, 3), red);
    assert_eq!(c.get_pixel(0, 0), Rgb { r: 0, g: 0, b: 0 });
    assert_eq!(c.byte_length(), 4 * 4 * 3);
}

#[test]
fn force_full_columns_only_settles_on_column_changes() {
    // with force on, the planner may only pick values at which the column
    // count actually changes; the result still divides all lines
    let l = determine_dimensions(16, 9, 100, 35, 2, true);
    assert!(l.lines_per_column >= 1 && l.lines_per_column <= 35);
    assert_eq!(
        l.required_columns,
        (35 + l.lines_per_column - 1) / l.lines_per_column
    );
    assert!(l.required_columns as u64 * l.lines_per_column as u64 >= 35);
}

#[test]
fn longest_line_spans_all_files() {
    let (ss, ts) = assets();
    let files = vec![file("a.txt", "ab\n"), file("b.txt", "abcd\na\n")];
    let r = render(files, &opts(), &NeverCancel, &ss, &ts).unwrap();
    // "abcd\n" holds 5 code points, terminator included
    assert_eq!(r.longest_line_in_chars, 5);
}

#[test]
fn empty_file_contributes_no_lines() {
    let (ss, ts) = assets();
    let files = vec![file("empty.txt", ""), file("a.txt", "one\ntwo\n")];
    let r = render(files, &opts(), &NeverCancel, &ss, &ts).unwrap();
    // only the two real lines produce rows
    assert_eq!(r.img.height(), 2 * opts().line_height);
}

#[test]
fn wide_glyphs_render_and_differ_from_narrow() {
    let (ss, ts) = assets();
    let mut o = opts();
    o.line_height = 16;
    let wide = render(vec![file("w.txt", "井")], &o, &NeverCancel, &ss, &ts).unwrap();
    let narrow = render(vec![file("w.txt", "a")], &o, &NeverCancel, &ss, &ts).unwrap();
    assert_eq!(wide.img.bytes().len(), narrow.img.bytes().len());
    assert_ne!(wide.img.bytes(), narrow.img.bytes());
}

#[test]
fn tab_at_a_tab_stop_advances_a_full_stop() {
    let (ss, ts) = assets();
    let o = opts(); // tab_spaces 4
    // at cell 4 a tab advances to cell 8: four background cells
    let tabbed = render(vec![file("a.txt", "abcd\te\n")], &o, &NeverCancel, &ss, &ts).unwrap();
    let spaced = render(vec![file("a.txt", "abcd    e\n")], &o, &NeverCancel, &ss, &ts).unwrap();
    assert_eq!(tabbed.img.bytes(), spaced.img.bytes());
}
