//! Verified core logic of the piet rendering back-ends: text offset
//! arithmetic between UTF-8 and UTF-16, line breaking and line ranges, hit
//! testing, font attribute resolution, pixel format conversion, color
//! formats, and sparse strip rendering.

pub mod color;
pub mod dwrite_text;
pub mod font_spans;
pub mod graphemes;
pub mod hit_test;
pub mod line_ranges;
pub mod lines;
pub mod pixels;
pub mod platform;
pub mod strip;
pub mod svg_id;
pub mod text_units;
