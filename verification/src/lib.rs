//! Logo text substitution and canvas resizing for vector-graphics documents.
//!
//! Two words replace the two words of a logo, and the canvas follows: the
//! words are measured with the metrics of the font, kerning and glyph
//! overhang included, they are put into the first two text slots of the
//! document, and the document's width and view box are recomputed so that
//! the new text sits between the margins of the artwork.
//!
//! Every pixel quantity is a whole number of millionths of a pixel
//! ([`number::UNITS_PER_PIXEL`]), so that arithmetic on quantities is exact.
//!
//! - [`metrics`]: glyph metrics and the rendered width of a line of text.
//! - [`document`]: the document tree and its view.
//! - [`substitute`]: what overwriting the first two text slots makes of a
//!   document.
//! - [`walk`]: the walks over the document, each with a stack of its own.
//! - [`resize`]: the geometry of the canvas and its recomputation.
//! - [`pipeline`]: a whole run, from the bytes read to the bytes to write.
//! - [`xml`]: reading and writing documents.
//! - [`laws`]: what holds of substitution and resizing together.
//! - [`number`], [`text`]: decimal notation, whitespace and tokens.
//! - [`widths`], [`palette`]: the settings of the rendering and palette tools.
//! - [`error`]: the failures.

pub mod document;
pub mod error;
pub mod laws;
pub mod metrics;
pub mod number;
pub mod palette;
pub mod pipeline;
pub mod resize;
pub mod substitute;
pub mod text;
pub mod walk;
pub mod widths;
pub mod xml;
