//! The recoverable outcomes of parsing.

use vstd::prelude::*;

verus! {

/// Why a buffer failed to parse as a content tree.
#[derive(Debug, Clone, Copy, PartialEq, Eq, Structural)]
pub enum ParseError {
    /// A closing boundary stands at the top level with no opening counterpart.
    NoOpeningTag,
    /// An opening tag's body was started but no further boundary follows.
    NoClosingTag,
    /// A closing boundary was found but its name does not match the open tag.
    InvalidClosingTag,
    /// A delimiter occurrence has no partner anywhere in the remaining input,
    /// or a closing-then-opening pair stands where a tag boundary was
    /// expected: the lexical structure is beyond repair.
    MalformedDelimiter,
}

} // verus!
