use vstd::prelude::*;

verus! {

/// A line and a column in source text.
#[derive(Clone, Copy, Debug, PartialEq, Eq, Structural)]
pub struct LineColumn {
    pub line: usize,
    pub column: usize,
}

/// The start and end of a span of source text.
#[derive(Clone, Copy, Debug, PartialEq, Eq, Structural)]
pub struct Position {
    pub start: LineColumn,
    pub end: LineColumn,
}

/// A span of source text: a byte offset, a length and, where known, its position.
#[derive(Clone, Copy, Debug, PartialEq, Eq, Structural)]
pub struct Region {
    pub offset: usize,
    pub len: usize,
    pub position: Option<Position>,
}

impl Default for LineColumn {
    fn default() -> (r: LineColumn)
        ensures
            r.line == 0 && r.column == 0,
    {
        LineColumn { line: 0, column: 0 }
    }
}

impl Default for Position {
    fn default() -> (r: Position)
        ensures
            r.start == (LineColumn { line: 0, column: 0 }),
            r.end == (LineColumn { line: 0, column: 0 }),
    {
        Position { start: LineColumn::default(), end: LineColumn::default() }
    }
}

impl Default for Region {
    fn default() -> (r: Region)
        ensures
            r.offset == 0 && r.len == 0 && r.position.is_none(),
    {
        Region { offset: 0, len: 0, position: None }
    }
}

} // verus!
