//! QuickTime movie parsing and frame lookup for scroll-scrubbed HAP video,
//! with the arithmetic of the WebP frame-sequence converter.

pub mod bytes;
pub mod convert;
pub mod hapframe;
pub mod movie;
pub mod reader;
pub mod tables;
pub mod text;
pub mod webgl;
pub mod rounding;
