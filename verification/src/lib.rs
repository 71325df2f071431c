//! A miniature browser rendering engine: HTML and CSS parsers, a style
//! resolver, a block/inline layout engine, and a painter that flattens the
//! box tree into a display list and a pixel canvas.
//!
//! Lengths are carried as integer counts of thousandths of a CSS pixel, so
//! that fractional pixel values survive parsing and the layout arithmetic
//! stays exact.

pub mod chars;
pub mod css;
pub mod dom;
pub mod errors;
pub mod html;
pub mod layout;
pub mod painting;
pub mod px;
pub mod style;
