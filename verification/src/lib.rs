//! A template engine for a small tag-based markup language.
//!
//! Raw text is parsed into a tree of text and tag nodes; a corpus of such
//! trees, related by a single-inheritance "child extends parent" convention,
//! is flattened so that every template becomes standalone.

pub mod content;
pub mod cursor;
pub mod dir;
pub mod error;
pub mod laws;
pub mod model;
pub mod mold;
pub mod templates;

pub use cursor::Cursor;
pub use error::ParseError;
