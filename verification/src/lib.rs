//! A bidirectional codec between monochrome glyph bitmaps and generated
//! "row renderer" routines in a retro graphics binary.
//!
//! Each pixel row of a glyph is represented as a tiny routine that stores
//! pixel values at fixed framebuffer offsets; glyphs reference the routines
//! through per-glyph address tables. [`rows`] holds the canonical pattern
//! table, glyph packing and the extra-row table; [`emit`] the bit-pair store
//! table; [`render`] the assembly-text emission and the module assembler;
//! [`machine`] the machine-word encoding of routines; [`decode`] the
//! instruction decoder, offset-table reader and extraction back to pixels.

pub mod decode;
pub mod emit;
pub mod machine;
pub mod render;
pub mod rows;
pub mod text;
