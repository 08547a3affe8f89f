//! The library's own line and column, and its own span.
use crate::interface;
use crate::interface::LineColumn as _;
use crate::interface::Position;
use crate::interface::Span as _;
use std::cmp::Ordering;
use vstd::prelude::*;

verus! {

/// A line and a column of a text.
#[derive(Clone, Copy, Debug, PartialEq, Eq, Structural, Ord)]
pub struct LineColumn {
    /// 1-based line
    pub line: usize,
    /// 0-based column
    pub column: usize,
}

impl Default for LineColumn {
    fn default() -> (line_column: Self)
        ensures
            line_column.position() == Position::origin(),
    {
        Self { line: 1, column: 0 }
    }
}

impl PartialOrd for LineColumn {
    fn partial_cmp(&self, other: &Self) -> (ordering: Option<Ordering>) {
        if self.line < other.line {
            Some(Ordering::Less)
        } else if self.line > other.line {
            Some(Ordering::Greater)
        } else if self.column < other.column {
            Some(Ordering::Less)
        } else if self.column > other.column {
            Some(Ordering::Greater)
        } else {
            Some(Ordering::Equal)
        }
    }
}

impl vstd::std_specs::cmp::PartialOrdSpecImpl for LineColumn {
    open spec fn obeys_partial_cmp_spec() -> bool {
        true
    }

    /// By line first, then by column.
    open spec fn partial_cmp_spec(&self, other: &Self) -> Option<Ordering> {
        if self.position().lt(other.position()) {
            Some(Ordering::Less)
        } else if other.position().lt(self.position()) {
            Some(Ordering::Greater)
        } else {
            Some(Ordering::Equal)
        }
    }
}

impl interface::LineColumn for LineColumn {
    open spec fn position(&self) -> Position {
        Position { line: self.line as nat, column: self.column as nat }
    }

    fn line(&self) -> usize {
        self.line
    }

    fn line_mut(&mut self) -> &mut usize {
        &mut self.line
    }

    fn column(&self) -> usize {
        self.column
    }

    fn column_mut(&mut self) -> &mut usize {
        &mut self.column
    }
}

/// A part of a text, from `start` up to `end`.
#[derive(Clone, Copy, Debug)]
pub struct Span {
    start: LineColumn,
    end: LineColumn,
}

impl Default for Span {
    fn default() -> (span: Self)
        ensures
            span.start_position() == Position::origin(),
            span.end_position() == Position::origin(),
    {
        Self { start: LineColumn { line: 1, column: 0 }, end: LineColumn { line: 1, column: 0 } }
    }
}

impl Span {
    /// The span from `start` up to `end`.
    pub fn new(start: LineColumn, end: LineColumn) -> (span: Self)
        ensures
            span.start_position() == start.position(),
            span.end_position() == end.position(),
    {
        Self { start, end }
    }
}

impl interface::Span for Span {
    type LineColumn = LineColumn;

    closed spec fn start_position(&self) -> Position {
        self.start.position()
    }

    closed spec fn end_position(&self) -> Position {
        self.end.position()
    }

    fn line_column(line: usize, column: usize) -> LineColumn {
        LineColumn { line, column }
    }

    fn start(&self) -> LineColumn {
        self.start
    }

    fn end(&self) -> LineColumn {
        self.end
    }
}

} // verus!
