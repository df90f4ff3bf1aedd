//! Inline-markdown span highlighting.
//!
//! The crate scans a text snapshot, given as a sequence of grapheme
//! clusters, for inline markdown delimiters (`*`, `**`, `_`, `__`, `~~`,
//! `` ` ``) and backslash escapes, and returns format spans: half-open
//! ranges of grapheme indices paired with a style tag.  The text itself is
//! never modified; a host editor applies the spans to its display surface.

pub mod lemmas;
pub mod markdown;
pub mod parser;
pub mod span;
pub mod style;

pub use markdown::Renderer;
pub use span::FormatSpan;
pub use span::GraphemeRange;
pub use style::Tag;
