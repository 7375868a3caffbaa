//! Source positions: a (line, column, byte-offset) triple captured at the
//! start of each scanned lexeme. Used only for diagnostics, never for
//! ordering logic.

use vstd::prelude::*;

verus! {

/// A snapshot of the scanner's position at the start of a lexeme.
/// Lines and columns are 1-based; `index` is the 0-based byte offset.
#[derive(Debug, Clone, Copy, PartialEq, Eq, Structural)]
pub struct SourceInfo {
    pub line: i64,
    pub column: i64,
    pub index: usize,
}

impl SourceInfo {
    pub fn new(line: i64, column: i64, index: usize) -> (r: Self)
        ensures
            r.line == line,
            r.column == column,
            r.index == index,
    {
        Self { line, column, index }
    }
}

/// The mathematical model of a position: the same triple over unbounded
/// integers.
pub ghost struct SpecPos {
    pub line: int,
    pub column: int,
    pub index: int,
}

impl View for SourceInfo {
    type V = SpecPos;

    open spec fn view(&self) -> SpecPos {
        SpecPos { line: self.line as int, column: self.column as int, index: self.index as int }
    }
}

/// The position attached to synthetic tokens that the validator creates
/// (inserted type placeholders, rewritten heads): all fields zero, so a
/// diagnostic printer can recognise that no source text backs the token.
pub open spec fn synthetic_source_info() -> SourceInfo {
    SourceInfo { line: 0, column: 0, index: 0 }
}

impl Default for SourceInfo {
    fn default() -> (r: Self)
        ensures
            r == synthetic_source_info(),
    {
        Self { line: 0, column: 0, index: 0 }
    }
}

} // verus!
