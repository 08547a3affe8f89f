//! Rewriting a text by spans of lines and columns.
use crate::interface::{below, LineColumn, Position, Span};
use crate::offset_based_rewriter::{Interface as _, OffsetBasedRewriter};
use crate::offset_calculator::{Interface as _, OffsetCalculator};
use crate::splice::{in_order, lemma_edits_in_order, with_edits, Edit, Session};
use crate::text::{
    char_index, lemma_char_index_bounds, lemma_char_index_increases, lemma_line_begin,
};
use crate::utf8::lemma_index_at_offset;
use vstd::pervasive::runtime_assert;
use vstd::prelude::*;

verus! {

/// Replaces spans of a text, from left to right, and gives the rewritten
/// text in the end.
#[derive(Debug)]
pub struct Rewriter<'original, S: Span = crate::span::Span> {
    line_column: S::LineColumn,
    offset_calculator: OffsetCalculator<'original, S>,
    offset_based_rewriter: OffsetBasedRewriter<'original>,
}

impl<'original, S: Span> Rewriter<'original, S> {
    /// The session that the rewriter is in: the text, what is written of it,
    /// and how many of its characters are used up.
    pub closed spec fn session(&self) -> Session {
        self.offset_based_rewriter.session()
    }

    /// The end of the span that was replaced last, or the start of the text.
    pub closed spec fn position(&self) -> Position {
        self.line_column.position()
    }

    /// How far the rewriter's calculator has read.
    pub closed spec fn calculator_position(&self) -> Position {
        self.offset_calculator.position()
    }

    /// Whether the rewriter's calculator keeps a line history.
    pub closed spec fn retains_history(&self) -> bool {
        self.offset_calculator.retains_history()
    }

    /// The rewriter's invariant: its parts are over one text, and what is
    /// used up of the text is what precedes `position`.
    pub closed spec fn wf(&self) -> bool {
        &&& self.offset_calculator.wf()
        &&& self.offset_based_rewriter.wf()
        &&& self.offset_calculator.text() == self.session().original
        &&& self.position().line >= 1
        &&& self.session().consumed == char_index(self.session().original, self.position())
    }

    /// Whether `span` can be replaced next: it starts at or after the end of
    /// the span before, it ends at or after its start, and the calculator
    /// answers for its start.
    pub open spec fn accepts(&self, span: &S) -> bool {
        &&& span.start_position().line >= 1
        &&& self.position().le(span.start_position())
        &&& span.start_position().le(span.end_position())
        &&& self.retains_history() || self.calculator_position().le(span.start_position())
    }

    /// A rewriter of `original` with a calculator of its own, which keeps no
    /// line history.
    #[must_use]
    pub fn new(original: &'original str) -> (rewriter: Self)
        ensures
            rewriter.wf(),
            rewriter.session() == Session::new(original@),
            rewriter.position() == Position::origin(),
            rewriter.calculator_position() == Position::origin(),
            !rewriter.retains_history(),
    {
        let offset_calculator = OffsetCalculator::new_private(original, false);
        Self::with_offset_calculator(original, offset_calculator)
    }

    /// A rewriter of `original` that uses a calculator which may have read
    /// some of that text before.
    pub fn with_offset_calculator(
        original: &'original str,
        offset_calculator: OffsetCalculator<'original, S>,
    ) -> (rewriter: Self)
        requires
            offset_calculator.wf(),
            offset_calculator.text() == original@,
        ensures
            rewriter.wf(),
            rewriter.session() == Session::new(original@),
            rewriter.position() == Position::origin(),
            rewriter.calculator_position() == offset_calculator.position(),
            rewriter.retains_history() == offset_calculator.retains_history(),
    {
        proof {
            lemma_line_begin(original@, 1);
        }
        Self {
            line_column: S::line_column(1, 0),
            offset_calculator,
            offset_based_rewriter: OffsetBasedRewriter::new(original),
        }
    }

    /// The whole rewritten text.
    pub fn contents(self) -> (contents: String)
        requires
            self.wf(),
        ensures
            contents@ == self.session().contents(),
    {
        self.offset_based_rewriter.contents()
    }

    /// The whole rewritten text, and the calculator for another rewriter of
    /// the same text.
    pub fn into_parts(self) -> (parts: (String, OffsetCalculator<'original, S>))
        requires
            self.wf(),
        ensures
            parts.0@ == self.session().contents(),
            parts.1.wf(),
            parts.1.text() == self.session().original,
            parts.1.position() == self.calculator_position(),
            parts.1.retains_history() == self.retains_history(),
    {
        (self.offset_based_rewriter.contents(), self.offset_calculator)
    }

    /// Whether `span` can be replaced next.
    pub fn can_rewrite(&self, span: &S) -> (ok: bool)
        ensures
            ok == self.accepts(span),
    {
        let start = span.start();
        let end = span.end();
        below(self.line_column, start) && below(start, end) && self.offset_calculator.answers(
            start,
        )
    }

    /// Replaces `span` by `replacement` and returns the text that the span
    /// held.
    pub fn rewrite(&mut self, span: &S, replacement: &str) -> (replaced: String)
        requires
            old(self).wf(),
            old(self).accepts(span),
        ensures
            final(self).wf(),
            final(self).session() == old(self).session().rewrite(
                char_index(old(self).session().original, span.start_position()),
                char_index(old(self).session().original, span.end_position()),
                replacement@,
            ),
            replaced@ == old(self).session().replaced(
                char_index(old(self).session().original, span.start_position()),
                char_index(old(self).session().original, span.end_position()),
            ),
            old(self).session().accepts(
                char_index(old(self).session().original, span.start_position()),
                char_index(old(self).session().original, span.end_position()),
            ),
            final(self).position() == span.end_position(),
            final(self).calculator_position() == old(self).calculator_position().max(
                span.end_position(),
            ),
            final(self).retains_history() == old(self).retains_history(),
    {
        runtime_assert(below(self.line_column, span.start()));

        let ghost text = self.session().original;
        proof {
            lemma_char_index_bounds(text, self.position());
            lemma_char_index_bounds(text, span.start_position());
            lemma_char_index_bounds(text, span.end_position());
            lemma_char_index_increases(text, self.position(), span.start_position());
            lemma_char_index_increases(
                text,
                span.start_position(),
                span.end_position(),
            );
            lemma_index_at_offset(text, char_index(text, self.position()));
            lemma_index_at_offset(text, char_index(text, span.start_position()));
            lemma_index_at_offset(text, char_index(text, span.end_position()));
        }
        let (start, end) = self.offset_calculator.offsets_from_span(span);

        let replaced = self.offset_based_rewriter.rewrite(start, end, replacement);

        self.line_column = span.end();

        replaced
    }
}

/// A replacement by positions: what lies between `start` and `end` gives way
/// to `replacement`.
pub ghost struct SpanEdit {
    pub start: Position,
    pub end: Position,
    pub replacement: Seq<char>,
}

/// Each edit is a span, and each starts at or after the end of the one
/// before.
pub open spec fn spans_in_order(edits: Seq<SpanEdit>) -> bool {
    &&& forall|k: int|
        0 <= k < edits.len() ==> (#[trigger] edits[k]).start.line >= 1 && edits[k].start.le(
            edits[k].end,
        )
    &&& forall|k: int, l: int|
        0 <= k < l < edits.len() ==> (#[trigger] edits[k]).end.le((#[trigger] edits[l]).start)
}

/// The edits as ranges of characters of `text`.
pub open spec fn resolved(text: Seq<char>, edits: Seq<SpanEdit>) -> Seq<Edit> {
    Seq::new(
        edits.len(),
        |k: int|
            Edit {
                start: char_index(text, edits[k].start),
                end: char_index(text, edits[k].end),
                replacement: edits[k].replacement,
            },
    )
}

/// Spans in order are ranges of characters in order, so that replacing them
/// one after the other, whatever their number, gives the text with each
/// replacement made at its own place.
pub proof fn lemma_spans_in_order(text: Seq<char>, edits: Seq<SpanEdit>)
    requires
        spans_in_order(edits),
    ensures
        in_order(resolved(text, edits), 0, text.len() as int),
        Session::new(text).apply(resolved(text, edits)).contents() == with_edits(
            text,
            resolved(text, edits),
        ),
{
    let ranges = resolved(text, edits);
    assert forall|k: int| 0 <= k < ranges.len() implies 0 <= (#[trigger] ranges[k]).start
        <= ranges[k].end <= text.len() by {
        lemma_char_index_bounds(text, edits[k].start);
        lemma_char_index_bounds(text, edits[k].end);
        lemma_char_index_increases(text, edits[k].start, edits[k].end);
    }
    assert forall|k: int, l: int| 0 <= k < l < ranges.len() implies (#[trigger] ranges[k]).end <= (
    #[trigger] ranges[l]).start by {
        assert(edits[k].start.le(edits[k].end));
        lemma_char_index_increases(text, edits[k].end, edits[l].start);
    }
    lemma_edits_in_order(text, ranges);
}

} // verus!
