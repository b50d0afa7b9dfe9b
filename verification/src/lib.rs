//! Renders a collection of UTF-8 text files into one RGB raster image:
//! every source line becomes a row of pixel glyphs, tiled into columns
//! whose count and height are chosen to come closest to a requested
//! aspect ratio.

pub mod canvas;
pub mod chunk;
pub mod color;
pub mod function;
pub mod glyph;
pub mod highlight;
pub mod layout;

pub use canvas::Canvas;
pub use chunk::{calc_offsets, process, Context, Outcome};
pub use color::{BgColor, FgColor, Rgb, Style};
pub use function::{
    fill_trailing_slots, merge_file_image, render, render_file_image, resolve_thread_count,
    CancelFlag, NeverCancel, Options, RenderError, Rendered,
};
pub use highlight::Span;
pub use layout::{determine_dimensions, Layout};
