//! What the library asks of a position and of a span.
//!
//! The rewriter is written against these two traits, so that it takes spans
//! of any type that can say where it starts and where it ends.
use std::fmt::Debug;
use vstd::prelude::*;

verus! {

/// A place in a text: a 1-based line and a 0-based column, which counts
/// characters. Places are ordered by line first, then by column.
pub ghost struct Position {
    pub line: nat,
    pub column: nat,
}

impl Position {
    /// The place where every text starts.
    pub open spec fn origin() -> Position {
        Position { line: 1, column: 0 }
    }

    /// `self` comes before `other`, or is `other`.
    pub open spec fn le(self, other: Position) -> bool {
        self.line < other.line || (self.line == other.line && self.column <= other.column)
    }

    /// `self` comes before `other`.
    pub open spec fn lt(self, other: Position) -> bool {
        self.line < other.line || (self.line == other.line && self.column < other.column)
    }

    /// The later of the two places.
    pub open spec fn max(self, other: Position) -> Position {
        if self.le(other) {
            other
        } else {
            self
        }
    }
}

/// A line and a column, which can be read and set.
pub trait LineColumn: Copy + Debug + Ord {
    /// The place that the value names.
    spec fn position(&self) -> Position;

    /// The 1-based line.
    fn line(&self) -> (line: usize)
        ensures
            line == self.position().line,
    ;

    /// The line, to set it. The column stays as it is.
    fn line_mut(&mut self) -> (line: &mut usize)
        ensures
            *line == old(self).position().line,
            final(self).position() == (Position {
                line: *final(line) as nat,
                column: old(self).position().column,
            }),
    ;

    /// The 0-based column, in characters.
    fn column(&self) -> (column: usize)
        ensures
            column == self.position().column,
    ;

    /// The column, to set it. The line stays as it is.
    fn column_mut(&mut self) -> (column: &mut usize)
        ensures
            *column == old(self).position().column,
            final(self).position() == (Position {
                line: old(self).position().line,
                column: *final(column) as nat,
            }),
    ;
}

/// A part of a text, given by the places where it starts and ends.
pub trait Span: Clone + Debug {
    /// The type in which the span gives its two ends.
    type LineColumn: self::LineColumn;

    /// The place where the span starts.
    spec fn start_position(&self) -> Position;

    /// The place where the span ends.
    spec fn end_position(&self) -> Position;

    /// The value of `Self::LineColumn` for a line and a column.
    fn line_column(line: usize, column: usize) -> (line_column: Self::LineColumn)
        ensures
            line_column.position() == (Position { line: line as nat, column: column as nat }),
    ;

    /// Where the span starts.
    fn start(&self) -> (start: Self::LineColumn)
        ensures
            start.position() == self.start_position(),
    ;

    /// Where the span ends.
    fn end(&self) -> (end: Self::LineColumn)
        ensures
            end.position() == self.end_position(),
    ;
}

/// Whether `a` comes before `b`, or is `b`.
pub fn below<L: LineColumn>(a: L, b: L) -> (below: bool)
    ensures
        below == a.position().le(b.position()),
{
    a.line() < b.line() || (a.line() == b.line() && a.column() <= b.column())
}

} // verus!
