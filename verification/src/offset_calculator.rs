//! From a line and column to a byte offset.
use crate::interface::{LineColumn, Position, Span};
use crate::text::{
    ascii_before, lemma_ascii_before_earlier, lemma_char_index_increases, offset_of,
};
use crate::utf8::is_boundary;
use vstd::prelude::*;

pub mod impls;

use impls::CachingOffsetCalculator;

verus! {

/// A calculator of byte offsets over one text.
pub trait Interface<S: Span> {
    /// The calculator's invariant.
    spec fn wf(&self) -> bool;

    /// The text that the offsets point into.
    spec fn text(&self) -> Seq<char>;

    /// How far the calculator has read.
    spec fn position(&self) -> Position;

    /// Whether the calculator answers for positions that it has read past.
    spec fn retains_history(&self) -> bool;

    /// Returns the byte offset for `line_column`
    ///
    /// The second component (the `bool`) indicates whether all characters up to the offset are
    /// ASCII.
    fn offset_from_line_column(&mut self, line_column: S::LineColumn) -> (found: (usize, bool))
        requires
            old(self).wf(),
            line_column.position().line >= 1,
            old(self).retains_history() || old(self).position().le(line_column.position()),
        ensures
            final(self).wf(),
            final(self).text() == old(self).text(),
            final(self).retains_history() == old(self).retains_history(),
            final(self).position().le(old(self).position().max(line_column.position())),
            found.0 == offset_of(old(self).text(), line_column.position()),
            found.1 == ascii_before(old(self).text(), line_column.position()),
            is_boundary(old(self).text(), found.0 as int),
    ;
}

/// The calculator that the library uses: it reads the text once and keeps
/// its place.
#[derive(Debug)]
pub struct OffsetCalculator<'original, S: Span = crate::span::Span> {
    caching: CachingOffsetCalculator<'original, S>,
}

impl<'original, S: Span> OffsetCalculator<'original, S> {
    /// A calculator over `original` that keeps a line history.
    #[must_use]
    pub fn new(original: &'original str) -> (calculator: Self)
        ensures
            calculator.wf(),
            calculator.text() == original@,
            calculator.position() == Position::origin(),
            calculator.retains_history(),
    {
        Self::new_private(original, true)
    }

    /// A calculator over `original`, with a line history or without.
    pub(crate) fn new_private(original: &'original str, with_line_history: bool) -> (calculator:
        Self)
        ensures
            calculator.wf(),
            calculator.text() == original@,
            calculator.position() == Position::origin(),
            calculator.retains_history() == with_line_history,
    {
        let caching = if with_line_history {
            CachingOffsetCalculator::new(original)
        } else {
            CachingOffsetCalculator::without_line_history(original)
        };

        Self { caching }
    }

    /// Whether the calculator answers for `line_column`: the line is at least
    /// 1, and the calculator has not read past the position or keeps a line
    /// history.
    pub fn answers(&self, line_column: S::LineColumn) -> (answers: bool)
        ensures
            answers == (line_column.position().line >= 1 && (self.retains_history()
                || self.position().le(line_column.position()))),
    {
        self.caching.answers(line_column)
    }

    /// The byte offsets of the two ends of `span`.
    pub fn offsets_from_span(&mut self, span: &S) -> (offsets: (usize, usize))
        requires
            old(self).wf(),
            span.start_position().line >= 1,
            span.start_position().le(span.end_position()),
            old(self).retains_history() || old(self).position().le(span.start_position()),
        ensures
            final(self).wf(),
            final(self).text() == old(self).text(),
            final(self).retains_history() == old(self).retains_history(),
            final(self).position() == old(self).position().max(span.end_position()),
            offsets.0 == offset_of(old(self).text(), span.start_position()),
            offsets.1 == offset_of(old(self).text(), span.end_position()),
            offsets.0 <= offsets.1,
            is_boundary(old(self).text(), offsets.0 as int),
            is_boundary(old(self).text(), offsets.1 as int),
            ascii_before(old(self).text(), span.end_position()) ==> ascii_before(
                old(self).text(),
                span.start_position(),
            ),
    {
        let (start, start_ascii) = self.offset_from_line_column(span.start());
        let (end, end_ascii) = self.offset_from_line_column(span.end());

        proof {
            lemma_char_index_increases(self.text(), span.start_position(), span.end_position());
            lemma_ascii_before_earlier(
                self.text(),
                span.start_position(),
                span.end_position(),
            );
        }
        assert(!end_ascii || start_ascii);

        (start, end)
    }
}

impl<S: Span> Interface<S> for OffsetCalculator<'_, S> {
    closed spec fn wf(&self) -> bool {
        self.caching.wf()
    }

    closed spec fn text(&self) -> Seq<char> {
        self.caching.text()
    }

    closed spec fn position(&self) -> Position {
        self.caching.position()
    }

    closed spec fn retains_history(&self) -> bool {
        self.caching.retains_history()
    }

    fn offset_from_line_column(&mut self, line_column: S::LineColumn) -> (found: (usize, bool))
        ensures
            final(self).position() == old(self).position().max(line_column.position()),
    {
        self.caching.offset_from_line_column(line_column)
    }
}

} // verus!
