use super::Interface;
use crate::interface::{LineColumn, Position, Span};
use crate::text::{
    ascii_before, char_index, lemma_char_index_bounds, lemma_char_index_increases,
    lemma_later_column, lemma_line_begin, lemma_line_len, lemma_line_len_is,
    lemma_line_start_at_end, lemma_line_start_bounds, lemma_next_line, line_len, line_start,
    offset_of,
};
use crate::utf8::{
    byte_offset, char_width, index_at, is_ascii_char, is_boundary, lemma_ascii_split,
    lemma_byte_offset_ends, lemma_byte_offset_increases, lemma_bytes_between, lemma_char_at,
    lemma_index_at, lemma_index_at_offset, substring,
};
use std::marker::PhantomData;
use vstd::pervasive::unreached;
use vstd::prelude::*;
use vstd::utf8::*;

verus! {

/// The smaller of a count and a length.
pub open spec fn at_most(n: int, len: int) -> int {
    if n <= len {
        n
    } else {
        len
    }
}

/// Takes up to `n` characters of `text` from the byte offset `start`, and
/// none from behind the end of the line that `start` lies in. Returns the
/// number of bytes that they take, and whether all of them are ASCII.
pub fn advance_chars(text: &str, start: usize, n: usize) -> (taken: (usize, bool))
    requires
        is_boundary(text@, start as int),
    ensures
        ({
            let from = index_at(text@, start as int);
            let count = at_most(n as int, line_len(text@.skip(from)));
            &&& 0 <= from <= from + count <= text@.len()
            &&& start + taken.0 == byte_offset(text@, from + count)
            &&& taken.1 == is_ascii_chars(text@.subrange(from, from + count))
        }),
        start + taken.0 <= encode_utf8(text@).len() <= usize::MAX,
        is_boundary(text@, start + taken.0),
{
    let bytes = text.as_bytes();
    let ghost from = index_at(text@, start as int);
    let ghost mut index = from;
    let mut offset = start;
    let mut ascii = true;
    let mut count: usize = 0;
    let len = bytes.len();
    proof {
        lemma_index_at(text@, start as int);
        lemma_byte_offset_ends(text@);
    }
    while count < n && offset < len && bytes[offset] != 0x0a
        invariant
            bytes@ == encode_utf8(text@),
            len == bytes@.len(),
            0 <= from <= index <= text@.len(),
            index == from + count,
            count <= n,
            start == byte_offset(text@, from),
            offset == byte_offset(text@, index),
            offset <= bytes@.len(),
            bytes@.len() == byte_offset(text@, text@.len() as int),
            forall|k: int| from <= k < index ==> text@[k] != '\n',
            ascii == is_ascii_chars(text@.subrange(from, index)),
        decreases bytes@.len() - offset,
    {
        proof {
            if index == text@.len() {
                assert(false);
            }
            lemma_char_at(text@, index);
            let one = seq![text@[index]];
            assert(text@.subrange(from, index + 1) =~= text@.subrange(from, index) + one);
            is_ascii_chars_concat(
                text@.subrange(from, index + 1),
                text@.subrange(from, index),
                one,
            );
            assert(is_ascii_chars(one) <==> is_ascii_char(text@[index])) by {
                assert(one[0] == text@[index]);
            }
        }
        let first = bytes[offset];
        if first >= 0x80 {
            ascii = false;
        }
        offset = offset + char_width(first);
        count = count + 1;
        proof {
            index = index + 1;
        }
    }
    proof {
        let rest = text@.skip(from);
        assert forall|k: int| 0 <= k < index - from implies rest[k] != '\n' by {
            assert(rest[k] == text@[from + k]);
        }
        lemma_line_len(rest);
        if count < n {
            if offset < bytes@.len() {
                lemma_byte_offset_increases(text@, index, text@.len() as int);
                lemma_char_at(text@, index);
                assert(rest[index - from] == text@[index]);
            } else {
                if index < text@.len() {
                    lemma_byte_offset_increases(text@, index, text@.len() as int);
                }
            }
            lemma_line_len_is(rest, index - from);
        } else {
            if line_len(rest) < index - from {
                assert(rest[line_len(rest)] == '\n');
            }
        }
        lemma_byte_offset_increases(text@, from, index);
        lemma_index_at_offset(text@, index);
    }
    (offset - start, ascii)
}

/// What the history holds of the line with the 0-based number `line`: the
/// byte offset at which it starts, whether all before it is ASCII, and its
/// text without the line break.
pub open spec fn recorded(text: Seq<char>, line: nat, entry: (usize, bool, &str)) -> bool {
    let start = line_start(text, line);
    &&& entry.0 == byte_offset(text, start)
    &&& entry.1 == is_ascii_chars(text.take(start))
    &&& entry.2@ == text.subrange(start, start + line_len(text.skip(start)))
}

/// Reads the text once, from its start onwards, and remembers how far it has
/// read. With a line history it also answers for positions that it has read
/// past.
#[derive(Debug)]
pub struct CachingOffsetCalculator<'original, S: Span> {
    line_history: Option<Vec<(usize, bool, &'original str)>>,
    original: &'original str,
    line_column: S::LineColumn,
    offset: usize,
    ascii: bool,
}

impl<'original, S: Span> CachingOffsetCalculator<'original, S> {
    /// A calculator at the start of `original` that keeps a line history.
    pub fn new(original: &'original str) -> (calculator: Self)
        ensures
            calculator.wf(),
            calculator.text() == original@,
            calculator.position() == Position::origin(),
            calculator.retains_history(),
    {
        let mut caching_offset_calculator = Self::without_line_history(original);
        caching_offset_calculator.line_history = Some(Vec::new());
        caching_offset_calculator
    }

    /// A calculator at the start of `original` that keeps no line history: it
    /// answers only for positions that it has not read past.
    pub fn without_line_history(original: &'original str) -> (calculator: Self)
        ensures
            calculator.wf(),
            calculator.text() == original@,
            calculator.position() == Position::origin(),
            !calculator.retains_history(),
    {
        proof {
            lemma_line_begin(original@, 1);
            lemma_byte_offset_ends(original@);
            assert(original@.take(0) =~= Seq::<char>::empty());
        }
        Self {
            line_history: None,
            original,
            line_column: S::line_column(1, 0),
            offset: 0,
            ascii: true,
        }
    }

    /// Whether the calculator answers for `line_column`: the line is at least
    /// 1, and the calculator has not read past the position or keeps a line
    /// history.
    pub fn answers(&self, line_column: S::LineColumn) -> (answers: bool)
        ensures
            answers == (line_column.position().line >= 1 && (self.retains_history()
                || self.position().le(line_column.position()))),
    {
        let line = line_column.line();
        let column = line_column.column();
        let current = self.line_column.line();
        line >= 1 && (self.line_history.is_some() || current < line || (current == line
            && self.line_column.column() <= column))
    }

    /// Whether the history holds at least one line, if there is a history.
    closed spec fn entered(&self) -> bool {
        match self.line_history {
            Some(history) => history@.len() > 0,
            None => true,
        }
    }

    /// Fetches the line that starts at the offset that the calculator is at,
    /// and appends it to the history.
    fn next_line(&mut self, Ghost(line): Ghost<nat>) -> (fetched: &'original str)
        requires
            old(self).offset == byte_offset(
                old(self).original@,
                line_start(old(self).original@, line),
            ),
            old(self).ascii == is_ascii_chars(
                old(self).original@.take(line_start(old(self).original@, line)),
            ),
            match old(self).line_history {
                Some(history) => history@.len() == line,
                None => true,
            },
        ensures
            final(self).original == old(self).original,
            final(self).line_column == old(self).line_column,
            final(self).offset == old(self).offset,
            final(self).ascii == old(self).ascii,
            match (old(self).line_history, final(self).line_history) {
                (Some(before), Some(after)) => {
                    &&& after@ == before@.push((old(self).offset, old(self).ascii, fetched))
                    &&& recorded(old(self).original@, line, after@[line as int])
                },
                (None, None) => true,
                _ => false,
            },
    {
        let original = self.original;
        let offset = self.offset;
        let ascii = self.ascii;
        let ghost text = original@;
        let ghost start = line_start(text, line);
        proof {
            lemma_line_start_bounds(text, line);
            lemma_index_at_offset(text, start);
            lemma_line_len(text.skip(start));
            lemma_byte_offset_increases(text, 0, text.len() as int);
            lemma_byte_offset_ends(text);
            lemma_index_at_offset(text, start + line_len(text.skip(start)));
            lemma_bytes_between(text, start, start + line_len(text.skip(start)));
        }
        let (width, _) = advance_chars(original, offset, usize::MAX);
        let fetched = substring(original, offset, offset + width);
        match &mut self.line_history {
            Some(history) => {
                history.push((offset, ascii, fetched));
            },
            None => {},
        }
        fetched
    }

    /// Makes sure that the history, if there is one, holds the first line.
    fn enter_text(&mut self)
        requires
            old(self).wf(),
        ensures
            final(self).wf(),
            final(self).entered(),
            final(self).original == old(self).original,
            final(self).line_column == old(self).line_column,
            final(self).offset == old(self).offset,
            final(self).ascii == old(self).ascii,
            final(self).retains_history() == old(self).retains_history(),
    {
        let fresh = match &self.line_history {
            Some(history) => history.len() == 0,
            None => false,
        };
        if fresh {
            proof {
                lemma_line_begin(self.original@, 1);
            }
            let _ = self.next_line(Ghost(0));
        }
    }

    /// Reads on to the start of `line`, if the calculator is in an earlier
    /// line.
    fn advance_to_line(&mut self, line: usize)
        requires
            old(self).wf(),
            old(self).entered(),
        ensures
            final(self).wf(),
            final(self).entered(),
            final(self).text() == old(self).text(),
            final(self).retains_history() == old(self).retains_history(),
            final(self).position() == if line <= old(self).position().line {
                old(self).position()
            } else {
                Position { line: line as nat, column: 0 }
            },
    {
        let len = self.original.as_bytes().len();
        let ghost text = self.original@;
        while self.line_column.line() < line
            invariant
                self.wf(),
                self.entered(),
                self.original == old(self).original,
                text == self.original@,
                len == encode_utf8(text).len(),
                self.retains_history() == old(self).retains_history(),
                self.position().line <= line || self.position() == old(self).position(),
                line <= old(self).position().line ==> self.position() == old(self).position(),
                self.position() == old(self).position() || self.position().column == 0,
            decreases line - self.position().line,
        {
            let ghost here = self.position();
            let ghost from = char_index(text, here);
            let ghost end = from + line_len(text.skip(from));
            proof {
                lemma_char_index_bounds(text, here);
                lemma_index_at_offset(text, from);
                lemma_next_line(text, here);
                lemma_byte_offset_ends(text);
                lemma_byte_offset_increases(text, 0, end);
                lemma_byte_offset_increases(text, end, text.len() as int);
                lemma_ascii_split(text, from, end);
                lemma_line_begin(text, here.line + 1);
                lemma_line_begin(text, line as nat);
            }
            let (width, ascii) = advance_chars(self.original, self.offset, usize::MAX);
            self.offset = self.offset + width;
            self.ascii = self.ascii && ascii;
            if self.offset < len {
                proof {
                    lemma_char_at(text, end);
                    lemma_ascii_split(text, end, end + 1);
                    assert(is_ascii_chars(text.subrange(end, end + 1))) by {
                        assert(text.subrange(end, end + 1)[0] == '\n');
                    }
                    match &self.line_history {
                        Some(history) => {
                            if history@.len() < here.line {
                                lemma_line_start_at_end(
                                    text,
                                    history@.len(),
                                    (here.line - 1) as nat,
                                );
                            }
                        },
                        None => {},
                    }
                }
                self.offset = self.offset + 1;
                let next = self.line_column.line() + 1;
                *self.line_column.line_mut() = next;
                *self.line_column.column_mut() = 0;
                if self.line_history.is_some() {
                    let _ = self.next_line(Ghost(here.line));
                }
            } else {
                proof {
                    lemma_line_start_at_end(text, here.line, (line - 1) as nat);
                    lemma_line_len(text.skip(text.len() as int));
                }
                *self.line_column.line_mut() = line;
                *self.line_column.column_mut() = 0;
            }
        }
    }

    /// The offset of a position that the calculator has read past, from the
    /// history.
    fn offset_from_history(&self, line: usize, column: usize) -> (found: (usize, bool))
        requires
            self.wf(),
            self.retains_history(),
            line >= 1,
            (Position { line: line as nat, column: column as nat }).lt(self.position()),
        ensures
            found.0 == offset_of(self.text(), Position { line: line as nat, column: column as nat }),
            found.1 == ascii_before(
                self.text(),
                Position { line: line as nat, column: column as nat },
            ),
    {
        let ghost text = self.original@;
        let ghost query = Position { line: line as nat, column: column as nat };
        let ghost start = line_start(text, (line - 1) as nat);
        proof {
            lemma_char_index_bounds(text, query);
            lemma_char_index_bounds(text, self.position());
            lemma_char_index_increases(text, query, self.position());
            lemma_line_start_bounds(text, (line - 1) as nat);
            lemma_line_len(text.skip(start));
        }
        match &self.line_history {
            Some(history) => {
                if line - 1 < history.len() {
                    let (line_offset, line_ascii, fetched) = history[line - 1];
                    proof {
                        let len = line_len(text.skip(start));
                        assert(recorded(text, (line - 1) as nat, history@[line - 1]));
                        assert forall|k: int| 0 <= k < len implies fetched@[k] != '\n' by {
                            assert(fetched@[k] == text.skip(start)[k]);
                        }
                        lemma_line_len_is(fetched@, len);
                        assert(fetched@.skip(0) =~= fetched@);
                        lemma_index_at_offset(fetched@, 0);
                        lemma_byte_offset_ends(fetched@);
                        let count = at_most(column as int, len);
                        lemma_bytes_between(fetched@, 0, count);
                        lemma_bytes_between(text, start, start + count);
                        assert(fetched@.subrange(0, count) =~= text.subrange(start, start + count));
                        assert(fetched@.take(count) =~= fetched@.subrange(0, count));
                        lemma_ascii_split(text, start, start + count);
                        lemma_byte_offset_increases(text, 0, start + count);
                        lemma_byte_offset_increases(text, start + count, text.len() as int);
                    }
                    let (column_offset, column_ascii) = advance_chars(fetched, 0, column);
                    (line_offset + column_offset, line_ascii && column_ascii)
                } else {
                    proof {
                        lemma_line_start_at_end(text, history@.len(), (line - 1) as nat);
                        lemma_line_start_at_end(
                            text,
                            history@.len(),
                            (self.position().line - 1) as nat,
                        );
                    }
                    (self.offset, self.ascii)
                }
            },
            None => unreached(),
        }
    }
}

impl<'original, S: Span> Interface<S> for CachingOffsetCalculator<'original, S> {
    closed spec fn wf(&self) -> bool {
        let text = self.original@;
        let position = self.line_column.position();
        &&& position.line >= 1
        &&& self.offset == offset_of(text, position)
        &&& self.ascii == ascii_before(text, position)
        &&& match self.line_history {
            Some(history) => {
                &&& history@.len() <= position.line
                &&& forall|k: int|
                    0 <= k < history@.len() ==> recorded(text, k as nat, #[trigger] history@[k])
                &&& history@.len() == 0 ==> position == Position::origin()
                &&& 0 < history@.len() < position.line ==> line_start(text, history@.len())
                    == text.len()
            },
            None => true,
        }
    }

    closed spec fn text(&self) -> Seq<char> {
        self.original@
    }

    closed spec fn position(&self) -> Position {
        self.line_column.position()
    }

    closed spec fn retains_history(&self) -> bool {
        self.line_history is Some
    }

    fn offset_from_line_column(&mut self, line_column: S::LineColumn) -> (found: (usize, bool))
        ensures
            final(self).position() == old(self).position().max(line_column.position()),
    {
        let line = line_column.line();
        let column = line_column.column();
        let ghost text = self.original@;
        proof {
            lemma_char_index_bounds(text, line_column.position());
        }
        if line < self.line_column.line() || (line == self.line_column.line()
            && column < self.line_column.column()) {
            if self.line_history.is_none() {
                return unreached();
            }
            return self.offset_from_history(line, column);
        }
        self.enter_text();
        self.advance_to_line(line);

        let n_columns = column - self.line_column.column();
        let ghost here = self.position();
        proof {
            lemma_char_index_bounds(text, here);
            lemma_index_at_offset(text, char_index(text, here));
            lemma_later_column(text, here, column as nat);
            lemma_ascii_split(
                text,
                char_index(text, here),
                char_index(text, line_column.position()),
            );
            lemma_byte_offset_increases(text, 0, char_index(text, line_column.position()));
            lemma_byte_offset_increases(
                text,
                char_index(text, line_column.position()),
                text.len() as int,
            );
            lemma_byte_offset_ends(text);
        }
        let (offset, ascii) = advance_chars(self.original, self.offset, n_columns);
        self.offset = self.offset + offset;
        self.ascii = self.ascii && ascii;

        *self.line_column.column_mut() = column;

        (self.offset, self.ascii)
    }
}

/// Computes every offset by reading the text from its start.
#[derive(Debug)]
pub struct StatelessOffsetCalculator<'original, S: Span> {
    original: &'original str,
    phantom: PhantomData<S>,
}

impl<'original, S: Span> StatelessOffsetCalculator<'original, S> {
    /// A calculator over `original`.
    pub fn new(original: &'original str) -> (calculator: Self)
        ensures
            calculator.wf(),
            calculator.text() == original@,
    {
        Self { original, phantom: PhantomData }
    }
}

impl<'original, S: Span> Interface<S> for StatelessOffsetCalculator<'original, S> {
    open spec fn wf(&self) -> bool {
        true
    }

    closed spec fn text(&self) -> Seq<char> {
        self.original@
    }

    open spec fn position(&self) -> Position {
        Position::origin()
    }

    open spec fn retains_history(&self) -> bool {
        true
    }

    fn offset_from_line_column(&mut self, line_column: S::LineColumn) -> (usize, bool) {
        let len = self.original.as_bytes().len();
        let line = line_column.line();
        let ghost text = self.original@;
        let mut current: usize = 1;
        let mut offset: usize = 0;
        let mut ascii = true;
        proof {
            lemma_byte_offset_ends(text);
            lemma_line_begin(text, 1);
            assert(text.take(0) =~= Seq::<char>::empty());
        }
        while current < line
            invariant
                text == self.original@,
                len == encode_utf8(text).len(),
                1 <= current <= line,
                offset == offset_of(text, Position { line: current as nat, column: 0 }),
                ascii == ascii_before(text, Position { line: current as nat, column: 0 }),
            decreases line - current,
        {
            let ghost here = Position { line: current as nat, column: 0 };
            proof {
                lemma_char_index_bounds(text, here);
                lemma_index_at_offset(text, char_index(text, here));
                lemma_next_line(text, here);
                lemma_byte_offset_ends(text);
            }
            let (width, line_ascii) = advance_chars(self.original, offset, usize::MAX);
            let ghost from = char_index(text, here);
            let ghost end = from + line_len(text.skip(from));
            proof {
                lemma_line_begin(text, current as nat);
                lemma_line_begin(text, (current + 1) as nat);
                lemma_line_begin(text, line as nat);
                lemma_byte_offset_increases(text, 0, end);
                lemma_byte_offset_increases(text, end, text.len() as int);
                lemma_ascii_split(text, from, end);
            }
            offset = offset + width;
            ascii = ascii && line_ascii;
            if offset < len {
                proof {
                    lemma_char_at(text, end);
                    lemma_ascii_split(text, end, end + 1);
                    assert(is_ascii_chars(text.subrange(end, end + 1))) by {
                        assert(text.subrange(end, end + 1)[0] == '\n');
                    }
                }
                offset = offset + 1;
                current = current + 1;
            } else {
                proof {
                    lemma_line_start_at_end(text, current as nat, (line - 1) as nat);
                    lemma_line_len(text.skip(text.len() as int));
                }
                current = line;
            }
        }
        proof {
            let here = Position { line: line as nat, column: 0 };
            lemma_char_index_bounds(text, here);
            lemma_index_at_offset(text, char_index(text, here));
            lemma_later_column(text, here, line_column.position().column);
            lemma_char_index_bounds(text, line_column.position());
            lemma_ascii_split(
                text,
                char_index(text, here),
                char_index(text, line_column.position()),
            );
        }
        let (width, prefix_ascii) = advance_chars(self.original, offset, line_column.column());
        (offset + width, ascii && prefix_ascii)
    }
}

} // verus!
