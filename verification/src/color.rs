use vstd::prelude::*;

verus! {

/// One pixel: a red, green and blue channel, 8 bits each.
#[derive(Clone, Copy, PartialEq, Eq, Structural, Debug)]
pub struct Rgb {
    pub r: u8,
    pub g: u8,
    pub b: u8,
}

/// The visual style of one highlight span: a foreground and a background color.
#[derive(Clone, Copy, PartialEq, Eq, Structural, Debug)]
pub struct Style {
    pub fg: Rgb,
    pub bg: Rgb,
}

/// How the foreground color of a glyph is chosen.
#[derive(Clone, Copy, PartialEq, Eq, Structural, Debug)]
pub enum FgColor {
    /// Use the span's style color directly.
    Style,
    /// Combine the low byte of the code point with the style color,
    /// which adds texture while preserving hue.
    StyleAsciiBrightness,
}

/// How the background color of a file is derived from its first span.
#[derive(Clone, Copy, PartialEq, Eq, Structural, Debug)]
pub enum BgColor {
    /// Use the span's background color directly.
    Style,
    /// Darken the background of every other file, by the configured
    /// modulation in percent, so that files remain distinguishable.
    StyleCheckerboardDarken,
}

pub open spec fn spec_black() -> Rgb {
    Rgb { r: 0, g: 0, b: 0 }
}

pub fn black() -> (c: Rgb)
    ensures
        c == spec_black(),
{
    Rgb { r: 0, g: 0, b: 0 }
}

/// One channel of the brightness-modulated foreground color: the low byte of
/// the code point scaled by the channel, with a fixed multiplicative boost of
/// 2.4/256, clamped to the 8-bit range.
pub open spec fn spec_boost_channel(code_byte: int, base: int) -> int {
    let v = code_byte * base * 6144 / 655350;
    if v > 255 {
        255
    } else {
        v
    }
}

/// The foreground color used for a glyph of `c` under the given policy.
pub open spec fn spec_fg_color_of(policy: FgColor, style: Style, c: char) -> Rgb {
    match policy {
        FgColor::Style => style.fg,
        FgColor::StyleAsciiBrightness => {
            let byte = (c as u32) & 0xff;
            Rgb {
                r: spec_boost_channel(byte as int, style.fg.r as int) as u8,
                g: spec_boost_channel(byte as int, style.fg.g as int) as u8,
                b: spec_boost_channel(byte as int, style.fg.b as int) as u8,
            }
        },
    }
}

fn boost_channel(code_byte: u32, base: u8) -> (v: u8)
    requires
        code_byte <= 255,
    ensures
        v as int == spec_boost_channel(code_byte as int, base as int),
{
    let a: u64 = code_byte as u64;
    let b: u64 = base as u64;
    assert(a * b <= 65025) by (nonlinear_arith)
        requires
            a <= 255,
            b <= 255,
    ;
    let wide: u64 = a * b * 6144 / 655350;
    if wide > 255 {
        255u8
    } else {
        wide as u8
    }
}

/// The foreground color for one glyph, per the configured policy.
pub fn fg_color_of(policy: FgColor, style: Style, c: char) -> (out: Rgb)
    ensures
        out == spec_fg_color_of(policy, style, c),
{
    match policy {
        FgColor::Style => style.fg,
        FgColor::StyleAsciiBrightness => {
            let cu: u32 = c as u32;
            let byte: u32 = cu & 0xff;
            assert(cu & 0xff <= 255) by (bit_vector);
            Rgb {
                r: boost_channel(byte, style.fg.r),
                g: boost_channel(byte, style.fg.g),
                b: boost_channel(byte, style.fg.b),
            }
        },
    }
}

/// One channel darkened to `modulation` percent, clamped to the 8-bit range.
pub open spec fn spec_darken_channel(base: int, modulation: int) -> int {
    let v = base * modulation / 100;
    if v > 255 {
        255
    } else {
        v
    }
}

fn darken_channel(base: u8, modulation: u32) -> (v: u8)
    ensures
        v as int == spec_darken_channel(base as int, modulation as int),
{
    let a: u64 = base as u64;
    let b: u64 = modulation as u64;
    assert(a * b <= 255 * 0xffff_ffffu64) by (nonlinear_arith)
        requires
            a <= 255,
            b <= 0xffff_ffffu64,
    ;
    let wide: u64 = a * b / 100;
    if wide > 255 {
        255u8
    } else {
        wide as u8
    }
}

/// The background color a file derives, once, from the style of its first
/// span: either that style's background as it stands, or, on every other
/// file, the same background darkened to `modulation` percent.
pub open spec fn spec_derive_background(
    policy: BgColor,
    style: Style,
    file_index: int,
    modulation: int,
) -> Rgb {
    match policy {
        BgColor::Style => style.bg,
        BgColor::StyleCheckerboardDarken => {
            if file_index % 2 == 1 {
                Rgb {
                    r: spec_darken_channel(style.bg.r as int, modulation) as u8,
                    g: spec_darken_channel(style.bg.g as int, modulation) as u8,
                    b: spec_darken_channel(style.bg.b as int, modulation) as u8,
                }
            } else {
                style.bg
            }
        },
    }
}

/// Derives the per-file background color from the first span's style.
pub fn derive_background(policy: BgColor, style: Style, file_index: usize, modulation: u32) -> (out:
    Rgb)
    ensures
        out == spec_derive_background(policy, style, file_index as int, modulation as int),
{
    match policy {
        BgColor::Style => style.bg,
        BgColor::StyleCheckerboardDarken => {
            if file_index % 2 == 1 {
                Rgb {
                    r: darken_channel(style.bg.r, modulation),
                    g: darken_channel(style.bg.g, modulation),
                    b: darken_channel(style.bg.b, modulation),
                }
            } else {
                style.bg
            }
        },
    }
}

/// The fixed style substituted for a line too long to highlight: a gray
/// foreground over the background derived so far, or black if none was.
pub open spec fn spec_default_bg_color(background: Option<Rgb>) -> Style {
    Style {
        fg: Rgb { r: 200, g: 200, b: 200 },
        bg: match background {
            Some(c) => c,
            None => spec_black(),
        },
    }
}

/// The fallback style for oversized lines.
pub fn default_bg_color(background: Option<Rgb>) -> (out: Style)
    ensures
        out == spec_default_bg_color(background),
{
    Style {
        fg: Rgb { r: 200, g: 200, b: 200 },
        bg: match background {
            Some(c) => c,
            None => black(),
        },
    }
}

} // verus!
