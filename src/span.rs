use vstd::prelude::*;

verus! {

/// One character position in the source, both coordinates starting from 1.
#[derive(Clone, Copy, Debug, PartialEq, Eq, Structural)]
pub struct Location {
    /// The column in the source, starting from 1
    pub col: usize,
    /// The row in the source, starting from 1
    pub row: usize,
}

/// An inclusive range of source characters: `end` names the last character, never one past it.
#[derive(Clone, Copy, Debug, PartialEq, Eq, Structural)]
pub struct Span {
    pub start: Location,
    pub end: Location,
}

/// Where the scanner stands in the source: the byte offset and the matching row and column.
#[derive(Clone, Copy, Debug, PartialEq, Eq, Structural)]
pub struct Position {
    /// The current index into the source, starting from 0
    pub idx: usize,
    /// The column that has been scanned up to, starting from 1
    pub col: usize,
    /// The row that has been scanned up to, starting from 1
    pub row: usize,
}

/// Strict document order on locations: by row, then by column.
pub open spec fn loc_lt(a: Location, b: Location) -> bool {
    a.row < b.row || (a.row == b.row && a.col < b.col)
}

/// Document order on locations, equality included.
pub open spec fn loc_le(a: Location, b: Location) -> bool {
    loc_lt(a, b) || a == b
}

impl Span {
    /// Create a new [Span] that just covers the last character of the one provided.
    pub fn to_last_char(&self) -> (r: Span)
        ensures
            r.start == self.end,
            r.end == self.end,
    {
        Span {
            start: Location { col: self.end.col, row: self.end.row },
            end: Location { col: self.end.col, row: self.end.row },
        }
    }

    /// Build a span from its start column and row and its end column and row.
    pub fn new(ax: usize, ay: usize, bx: usize, by: usize) -> (r: Span)
        ensures
            r.start == (Location { col: ax, row: ay }),
            r.end == (Location { col: bx, row: by }),
    {
        Span { start: Location { col: ax, row: ay }, end: Location { col: bx, row: by } }
    }

    /// The four coordinates in the order [Span::new] takes them.
    pub fn split(&self) -> (r: (usize, usize, usize, usize))
        ensures
            r == (self.start.col, self.start.row, self.end.col, self.end.row),
    {
        (self.start.col, self.start.row, self.end.col, self.end.row)
    }
}

impl Position {
    pub open spec fn span_spec(&self) -> Location {
        Location { col: self.col, row: self.row }
    }

    /// The location of the character the scanner is about to read.
    pub fn span(&self) -> (r: Location)
        ensures
            r == (Location { col: self.col, row: self.row }),
    {
        Location { row: self.row, col: self.col }
    }
}

} // verus!
