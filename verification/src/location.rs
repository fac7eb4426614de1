//! Positions in a source text.
use vstd::prelude::*;

verus! {

/// A position: a line, counted from one, and a column, counted from zero.
#[derive(Clone, Copy, PartialEq, Eq, Debug, Hash, Structural)]
pub struct LineColumn {
    pub line: usize,
    pub column: usize,
}

/// A position as the key of a map.
#[derive(Clone, Copy, PartialEq, Eq, Debug, Hash, Structural)]
pub struct HashLineColumn(pub LineColumn);

/// From where to where something stands in a source text.
#[derive(Clone, Copy, PartialEq, Eq, Debug, Structural)]
pub struct Extent {
    pub start: LineColumn,
    pub end: LineColumn,
}

/// `a` comes before `b`: on an earlier line, or earlier on the same line.
pub open spec fn precedes(a: LineColumn, b: LineColumn) -> bool {
    a.line < b.line || (a.line == b.line && a.column < b.column)
}

impl LineColumn {
    /// Whether this position comes before `other`.
    pub fn before(&self, other: &LineColumn) -> (r: bool)
        ensures
            r == precedes(*self, *other),
    {
        self.line < other.line || (self.line == other.line && self.column < other.column)
    }
}

} // verus!
