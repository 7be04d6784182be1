//! The cursor position type and the outcome flag shared by all edit
//! operations.

use vstd::prelude::*;

verus! {

/// Outcome of applying an operation: `Dirty` means the buffer changed and
/// must be persisted, `Noop` means nothing changed.
#[derive(Clone, Copy, Debug, PartialEq, Eq, Structural)]
pub enum EditResult {
    Noop,
    Dirty,
}

/// A cursor address: `line` is a zero-based line index, `column` counts
/// Unicode scalar values (characters), not bytes, within that line.
#[derive(Clone, Copy, Debug, PartialEq, Eq, Structural)]
pub struct Pos {
    pub line: usize,
    pub column: usize,
}

impl Pos {
    /// The same position with the line replaced.
    pub fn with_line(self, line: usize) -> (r: Self)
        ensures
            r.line == line,
            r.column == self.column,
    {
        Self { line, column: self.column }
    }

    /// The same position with the column replaced.
    pub fn with_column(self, column: usize) -> (r: Self)
        ensures
            r.line == self.line,
            r.column == column,
    {
        Self { line: self.line, column }
    }

    /// Builds a position from a `(line, column)` pair.
    pub fn from_pair(line: usize, column: usize) -> (r: Self)
        ensures
            r.line == line,
            r.column == column,
    {
        Self { line, column }
    }
}

} // verus!
