//! Renders arbitrary Unicode text, emoji included, into a stream of pixels without relying on
//! fonts installed on the host.
//!
//! The library splits text into plain runs and single emoji ([`Segments`]), and lays the rasters
//! that a shaping engine and a vector renderer produce for them out on one baseline and one
//! horizontal cursor ([`compose`]). Measurements that are costly to repeat are kept in
//! write-once caches ([`MetricsCache`], [`TreeCache`]).

pub mod cache;
pub mod context;
pub mod draw;
pub mod segments;

pub use cache::{MetricsCache, TreeCache};
pub use context::{
    font_load_order, DrawSettings, DrawingContextBuilder, FontCollection, FontOrder,
    DEFAULT_FONT_SIZE_BITS, DEFAULT_LINE_HEIGHT_BITS,
};
pub use draw::{
    compose, glyph_color, pixel_iter, pixel_width, GlyphRaster, Pixel, RasterPixel, RunRaster,
    SegmentRaster,
};
pub use segments::{EmojiSegment, Segment, Segments, TextSegment};
