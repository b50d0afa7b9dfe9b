use crate::canvas::Canvas;
use crate::color::Rgb;
use vstd::prelude::*;

verus! {

#[verifier::external_type_specification]
#[verifier::external_body]
pub struct ExUnifont(unifont_bitmap::Unifont);

/// Whether the glyph for `c` is wide: 16 pixel columns rather than 8.
pub uninterp spec fn glyph_wide(c: char) -> bool;

/// The row bytes of the glyph for `c`: 16 rows, one byte per row for a
/// narrow glyph and two per row for a wide one; the highest-order bit of a
/// byte is its leftmost pixel.
pub uninterp spec fn glyph_rows(c: char) -> Seq<u8>;

/// A fixed 16-row bitmap for one code point, 8 or 16 columns wide.
pub struct GlyphBitmap {
    pub wide: bool,
    pub rows: Vec<u8>,
}

/// The width in pixels of the glyph cell for `c`.
pub open spec fn glyph_width(c: char) -> int {
    if glyph_wide(c) {
        16
    } else {
        8
    }
}

/// Whether the glyph for `c` has its pixel at column `gx`, row `gy` set.
pub open spec fn glyph_bit(c: char, gx: int, gy: int) -> bool
    recommends
        0 <= gx < glyph_width(c),
        0 <= gy < 16,
{
    if glyph_wide(c) {
        glyph_rows(c)[2 * gy + gx / 8] & (1u8 << ((7 - gx % 8) as u8)) != 0
    } else {
        glyph_rows(c)[gy] & (1u8 << ((7 - gx % 8) as u8)) != 0
    }
}

/// Relies on `unifont_bitmap::Unifont::open`: decompresses nothing up
/// front and only prepares the page cache of the embedded font data.
#[verifier::external_body]
pub(crate) fn open_font() -> (font: unifont_bitmap::Unifont) {
    unifont_bitmap::Unifont::open()
}

/// Relies on `unifont_bitmap::Unifont::load_bitmap`: the returned bitmap
/// is a function of the code point alone (the font data is embedded in
/// the executable), it holds 16 bitmap rows, one byte per row when narrow
/// and two when wide, and `is_wide` says which; a code point without a
/// glyph yields the replacement-character bitmap, never an error.
#[verifier::external_body]
pub(crate) fn load_glyph(font: &mut unifont_bitmap::Unifont, c: char) -> (g: GlyphBitmap)
    ensures
        g.wide == glyph_wide(c),
        g.rows@ == glyph_rows(c),
        g.rows@.len() == (if glyph_wide(c) {
            32int
        } else {
            16int
        }),
{
    let b = font.load_bitmap(c as u32);
    GlyphBitmap { wide: b.is_wide(), rows: b.get_bytes().to_vec() }
}

/// Draws the glyph for `chr` with its top-left corner at `(img_x, img_y)`:
/// set bits get the text color, clear bits the background color, and
/// pixels falling outside the canvas are silently skipped. Advances the
/// cell cursor by two cells for a wide glyph, else by one.
pub fn put_char_in_image(
    chr: char,
    unifont: &mut unifont_bitmap::Unifont,
    img_x: u64,
    img_y: u64,
    img: &mut Canvas,
    background_color: &Rgb,
    text_color: &Rgb,
    cur_line_x: &mut u64,
)
    requires
        old(img).wf(),
        *old(cur_line_x) <= u64::MAX - 2,
    ensures
        final(img).wf(),
        final(img).spec_width() == old(img).spec_width(),
        final(img).spec_height() == old(img).spec_height(),
        *final(cur_line_x) == *old(cur_line_x) + (if glyph_wide(chr) {
            2int
        } else {
            1int
        }),
        forall|px: int, py: int|
            final(img).in_bounds(px, py) ==> final(img).spec_pixel(px, py) == (if img_x <= px
                < img_x + glyph_width(chr) && img_y <= py < img_y + 16 {
                if glyph_bit(chr, px - img_x, py - img_y) {
                    *text_color
                } else {
                    *background_color
                }
            } else {
                old(img).spec_pixel(px, py)
            }),
{
    let g = load_glyph(unifont, chr);
    let gw: u64 = if g.wide {
        16
    } else {
        8
    };
    let mut gy: u64 = 0;
    while gy < 16
        invariant
            img.wf(),
            img.spec_width() == old(img).spec_width(),
            img.spec_height() == old(img).spec_height(),
            gy <= 16,
            gw == glyph_width(chr),
            g.wide == glyph_wide(chr),
            g.rows@ == glyph_rows(chr),
            g.rows@.len() == (if glyph_wide(chr) {
                32int
            } else {
                16int
            }),
            forall|px: int, py: int|
                img.in_bounds(px, py) ==> img.spec_pixel(px, py) == (if img_x <= px < img_x
                    + glyph_width(chr) && img_y <= py < img_y + gy {
                    if glyph_bit(chr, px - img_x, py - img_y) {
                        *text_color
                    } else {
                        *background_color
                    }
                } else {
                    old(img).spec_pixel(px, py)
                }),
        decreases 16 - gy,
    {
        let ghost row_start = *img;
        let mut gx: u64 = 0;
        while gx < gw
            invariant
                img.wf(),
                img.spec_width() == row_start.spec_width(),
                img.spec_height() == row_start.spec_height(),
                gx <= gw,
                gy < 16,
                gw == glyph_width(chr),
                g.wide == glyph_wide(chr),
                g.rows@ == glyph_rows(chr),
                g.rows@.len() == (if glyph_wide(chr) {
                    32int
                } else {
                    16int
                }),
                forall|px: int, py: int|
                    img.in_bounds(px, py) ==> img.spec_pixel(px, py) == (if img_x <= px < img_x
                        + gx && py == img_y + gy {
                        if glyph_bit(chr, px - img_x, py - img_y) {
                            *text_color
                        } else {
                            *background_color
                        }
                    } else {
                        row_start.spec_pixel(px, py)
                    }),
            decreases gw - gx,
        {
            let byte_idx: usize = if g.wide {
                2 * (gy as usize) + (gx as usize) / 8
            } else {
                gy as usize
            };
            let bit_pos: u8 = 7 - ((gx % 8) as u8);
            let on: bool = g.rows[byte_idx] & (1u8 << bit_pos) != 0;
            assert(on == glyph_bit(chr, gx as int, gy as int));
            let color = if on {
                *text_color
            } else {
                *background_color
            };
            let ghost before = *img;
            if img_x <= u64::MAX - gx && img_y <= u64::MAX - gy {
                img.put_pixel(img_x + gx, img_y + gy, color);
            }
            proof {
                assert forall|px: int, py: int|
                    img.in_bounds(px, py) implies img.spec_pixel(px, py) == (if img_x <= px
                    < img_x + (gx + 1) && py == img_y + gy {
                    if glyph_bit(chr, px - img_x, py - img_y) {
                        *text_color
                    } else {
                        *background_color
                    }
                } else {
                    row_start.spec_pixel(px, py)
                }) by {
                    crate::canvas::lemma_canvas_dims(*img);
                    assert(before.spec_pixel(px, py) == (if img_x <= px < img_x + gx && py == img_y
                        + gy {
                        if glyph_bit(chr, px - img_x, py - img_y) {
                            *text_color
                        } else {
                            *background_color
                        }
                    } else {
                        row_start.spec_pixel(px, py)
                    }));
                    if img_x <= u64::MAX - gx && img_y <= u64::MAX - gy {
                        if px == img_x + gx && py == img_y + gy {
                            assert(img.spec_pixel(px, py) == color);
                            assert(px - img_x == gx as int && py - img_y == gy as int);
                            assert(color == (if glyph_bit(chr, px - img_x, py - img_y) {
                                *text_color
                            } else {
                                *background_color
                            }));
                        } else {
                            assert(img.spec_pixel(px, py) == before.spec_pixel(px, py));
                        }
                    } else {
                        assert(img.spec_pixel(px, py) == before.spec_pixel(px, py));
                        assert(!(img_x <= px < img_x + (gx + 1) && py == img_y + gy) || (img_x <= px
                            < img_x + gx && py == img_y + gy));
                    }
                }
            }
            gx = gx + 1;
        }
        gy = gy + 1;
    }
    if g.wide {
        *cur_line_x = *cur_line_x + 2;
    } else {
        *cur_line_x = *cur_line_x + 1;
    }
}

} // verus!
