//! Source locations: a position (byte offset, line, column) and a span
//! between two positions, bound to a code-source identity. Every token and
//! therefore every diagnostic carries one.

use vstd::prelude::*;

verus! {

/// A position in one source text. `byte` is the byte offset, `line` the
/// one-based line number, `position` the column.
#[derive(Debug, Clone, Copy, PartialEq, Eq, Structural)]
pub struct SourceCodePositition {
    pub byte: u32,
    pub line: u32,
    pub position: u32,
}

/// A half-open range in one source text, with the identity of the source
/// it was minted from.
#[derive(Debug, Clone, Copy, PartialEq, Eq, Structural)]
pub struct Span {
    pub start: SourceCodePositition,
    pub end: SourceCodePositition,
    pub code_source_id: usize,
}

impl Span {
    /// A synthetic span for nodes with no source position.
    pub fn none() -> (r: Span)
        ensures
            r.start.byte == 0 && r.start.line == 1 && r.start.position == 0,
            r.end == r.start,
            r.code_source_id == 0,
    {
        Span {
            start: SourceCodePositition { byte: 0, line: 1, position: 0 },
            end: SourceCodePositition { byte: 0, line: 1, position: 0 },
            code_source_id: 0,
        }
    }
}

} // verus!
