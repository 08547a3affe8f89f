//! Where a line and column fall in a text.
//!
//! A text is a sequence of characters in which `'\n'` ends a line. A position
//! names a line and a number of characters into it. It resolves to the number
//! of characters that precede it, and through the encoding to a byte offset.
//! A column past the end of its line resolves to the end of that line, and a
//! line past the last one to the end of the text.
use crate::interface::Position;
use crate::utf8::{
    byte_offset, is_ascii_char, lemma_byte_offset_ends, lemma_byte_offset_increases,
    lemma_byte_offset_step, lemma_bytes_between, lemma_char_at, lemma_offset_is_boundary,
};
use vstd::prelude::*;
use vstd::utf8::*;

verus! {

/// Number of characters of `text` before its first line break, or in all of
/// it if it has none.
pub open spec fn line_len(text: Seq<char>) -> int
    decreases text.len(),
{
    if text.len() == 0 || text[0] == '\n' {
        0
    } else {
        1 + line_len(text.drop_first())
    }
}

/// Number of characters of `text` before the line with the 0-based number
/// `line`; the length of the text if it has no such line.
pub open spec fn line_start(text: Seq<char>, line: nat) -> int
    decreases line,
{
    if line == 0 {
        0
    } else {
        let start = line_start(text, (line - 1) as nat);
        let end = start + line_len(text.skip(start));
        if end < text.len() {
            end + 1
        } else {
            text.len() as int
        }
    }
}

/// Number of characters of `text` that precede `position`.
pub open spec fn char_index(text: Seq<char>, position: Position) -> int {
    let start = line_start(text, (position.line - 1) as nat);
    let len = line_len(text.skip(start));
    if position.column <= len {
        start + position.column
    } else {
        start + len
    }
}

/// The byte offset of `position` in the encoding of `text`.
pub open spec fn offset_of(text: Seq<char>, position: Position) -> int {
    byte_offset(text, char_index(text, position))
}

/// Whether every character of `text` that precedes `position` is ASCII.
pub open spec fn ascii_before(text: Seq<char>, position: Position) -> bool {
    is_ascii_chars(text.take(char_index(text, position)))
}

/// `line_len` is the index of the first line break, or the length.
pub proof fn lemma_line_len(text: Seq<char>)
    ensures
        0 <= line_len(text) <= text.len(),
        forall|i: int| 0 <= i < line_len(text) ==> text[i] != '\n',
        line_len(text) < text.len() ==> text[line_len(text)] == '\n',
    decreases text.len(),
{
    if text.len() == 0 || text[0] == '\n' {
    } else {
        let rest = text.drop_first();
        lemma_line_len(rest);
        assert forall|i: int| 0 <= i < line_len(text) implies text[i] != '\n' by {
            if i > 0 {
                assert(text[i] == rest[i - 1]);
            }
        }
        if line_len(text) < text.len() {
            assert(text[line_len(text)] == rest[line_len(rest)]);
        }
    }
}

/// An index with no line break before it, and a line break or the end of the
/// text at it, is `line_len`.
pub proof fn lemma_line_len_is(text: Seq<char>, len: int)
    requires
        0 <= len <= text.len(),
        forall|i: int| 0 <= i < len ==> text[i] != '\n',
        len < text.len() ==> text[len] == '\n',
    ensures
        line_len(text) == len,
    decreases text.len(),
{
    if text.len() == 0 || text[0] == '\n' {
    } else {
        let rest = text.drop_first();
        assert forall|i: int| 0 <= i < len - 1 implies rest[i] != '\n' by {
            assert(rest[i] == text[i + 1]);
        }
        lemma_line_len_is(rest, len - 1);
    }
}

/// Within a line, the rest of the line is what is left of its length.
pub proof fn lemma_line_len_skip(text: Seq<char>, n: int)
    requires
        0 <= n <= line_len(text),
    ensures
        line_len(text.skip(n)) == line_len(text) - n,
{
    lemma_line_len(text);
    let rest = text.skip(n);
    let len = line_len(text) - n;
    assert forall|i: int| 0 <= i < len implies rest[i] != '\n' by {
        assert(rest[i] == text[i + n]);
    }
    lemma_line_len_is(rest, len);
}

/// A line starts inside the text or at its end.
pub proof fn lemma_line_start_bounds(text: Seq<char>, line: nat)
    ensures
        0 <= line_start(text, line) <= text.len(),
    decreases line,
{
    if line > 0 {
        lemma_line_start_bounds(text, (line - 1) as nat);
        lemma_line_len(text.skip(line_start(text, (line - 1) as nat)));
    }
}

/// The end of a line: no later than the start of the next.
pub proof fn lemma_line_end(text: Seq<char>, line: nat)
    ensures
        line_start(text, line) + line_len(text.skip(line_start(text, line))) <= line_start(
            text,
            line + 1,
        ),
        line_start(text, line + 1) <= text.len(),
{
    lemma_line_start_bounds(text, line);
    lemma_line_start_bounds(text, line + 1);
    lemma_line_len(text.skip(line_start(text, line)));
}

/// Later lines start later.
pub proof fn lemma_line_start_increases(text: Seq<char>, a: nat, b: nat)
    requires
        a <= b,
    ensures
        line_start(text, a) <= line_start(text, b),
    decreases b - a,
{
    if a < b {
        lemma_line_start_increases(text, a, (b - 1) as nat);
        lemma_line_end(text, (b - 1) as nat);
        lemma_line_len(text.skip(line_start(text, (b - 1) as nat)));
        lemma_line_start_bounds(text, (b - 1) as nat);
    }
}

/// Once a line starts at the end of the text, so does every later line.
pub proof fn lemma_line_start_at_end(text: Seq<char>, a: nat, b: nat)
    requires
        a <= b,
        line_start(text, a) == text.len(),
    ensures
        line_start(text, b) == text.len(),
{
    lemma_line_start_increases(text, a, b);
    lemma_line_start_bounds(text, b);
}

/// A position resolves to an index of the text, between the start of its line
/// and the start of the next.
pub proof fn lemma_char_index_bounds(text: Seq<char>, position: Position)
    requires
        position.line >= 1,
    ensures
        line_start(text, (position.line - 1) as nat) <= char_index(text, position) <= line_start(
            text,
            position.line,
        ),
        0 <= char_index(text, position) <= text.len(),
        0 <= offset_of(text, position) <= encode_utf8(text).len(),
        is_char_boundary(encode_utf8(text), offset_of(text, position)),
{
    let line = (position.line - 1) as nat;
    lemma_line_start_bounds(text, line);
    lemma_line_end(text, line);
    lemma_line_len(text.skip(line_start(text, line)));
    let index = char_index(text, position);
    lemma_bytes_between(text, index, text.len() as int);
    lemma_byte_offset_ends(text);
    lemma_offset_is_boundary(text, index);
}

/// A later position resolves to a later index and a later offset.
pub proof fn lemma_char_index_increases(text: Seq<char>, a: Position, b: Position)
    requires
        a.line >= 1,
        a.le(b),
    ensures
        char_index(text, a) <= char_index(text, b),
        offset_of(text, a) <= offset_of(text, b),
{
    lemma_char_index_bounds(text, a);
    lemma_char_index_bounds(text, b);
    if a.line < b.line {
        lemma_line_start_increases(text, a.line, (b.line - 1) as nat);
    }
    lemma_byte_offset_increases(text, char_index(text, a), char_index(text, b));
}

/// Column 0 of a line is where the line starts.
pub proof fn lemma_line_begin(text: Seq<char>, line: nat)
    requires
        line >= 1,
    ensures
        char_index(text, Position { line, column: 0 }) == line_start(text, (line - 1) as nat),
        char_index(text, Position::origin()) == 0,
{
    lemma_line_len(text.skip(line_start(text, (line - 1) as nat)));
    lemma_line_len(text.skip(0));
}

/// Moving to a later column of the same line takes as many characters as the
/// columns apart, or as the line has left.
pub proof fn lemma_later_column(text: Seq<char>, position: Position, column: nat)
    requires
        position.line >= 1,
        position.column <= column,
    ensures
        ({
            let from = char_index(text, position);
            let left = line_len(text.skip(from));
            let moved = Position { line: position.line, column };
            char_index(text, moved) == from + if column - position.column <= left {
                column - position.column
            } else {
                left
            }
        }),
{
    let start = line_start(text, (position.line - 1) as nat);
    let line = text.skip(start);
    lemma_line_start_bounds(text, (position.line - 1) as nat);
    lemma_line_len(line);
    let into = char_index(text, position) - start;
    lemma_line_len_skip(line, into);
    assert(line.skip(into) =~= text.skip(start + into));
}

/// Where the line after that of `position` starts: behind the line break that
/// ends the line, or at the end of the text if no line break ends it.
pub proof fn lemma_next_line(text: Seq<char>, position: Position)
    requires
        position.line >= 1,
    ensures
        ({
            let from = char_index(text, position);
            let end = from + line_len(text.skip(from));
            &&& 0 <= from <= end <= text.len()
            &&& end < text.len() ==> text[end] == '\n' && line_start(text, position.line) == end
                + 1
            &&& end == text.len() ==> line_start(text, position.line) == end
        }),
{
    let start = line_start(text, (position.line - 1) as nat);
    let line = text.skip(start);
    lemma_line_start_bounds(text, (position.line - 1) as nat);
    lemma_line_len(line);
    let into = char_index(text, position) - start;
    lemma_line_len_skip(line, into);
    assert(line.skip(into) =~= text.skip(start + into));
    if start + line_len(line) < text.len() {
        assert(line[line_len(line)] == text[start + line_len(line)]);
    }
}

/// If all that precedes a position is ASCII, so is all that precedes an
/// earlier one.
pub proof fn lemma_ascii_before_earlier(text: Seq<char>, start: Position, end: Position)
    requires
        start.line >= 1,
        start.le(end),
    ensures
        ascii_before(text, end) ==> ascii_before(text, start),
{
    lemma_char_index_increases(text, start, end);
    lemma_char_index_bounds(text, start);
    lemma_char_index_bounds(text, end);
    let i = char_index(text, start);
    let j = char_index(text, end);
    if ascii_before(text, end) {
        assert forall|k: int| 0 <= k < text.take(i).len() implies is_ascii_char(
            #[trigger] text.take(i)[k],
        ) by {
            assert(text.take(i)[k] == text.take(j)[k]);
        }
    }
}

/// One column further inside a line is one character further: the offset
/// grows by the width of the character that the column holds.
pub proof fn lemma_offset_next_column(text: Seq<char>, position: Position)
    requires
        position.line >= 1,
        position.column < line_len(text.skip(line_start(text, (position.line - 1) as nat))),
    ensures
        0 <= char_index(text, position) < text.len(),
        char_index(text, Position { line: position.line, column: position.column + 1 })
            == char_index(text, position) + 1,
        offset_of(text, Position { line: position.line, column: position.column + 1 })
            == offset_of(text, position) + encode_scalar(
            text[char_index(text, position)] as u32,
        ).len(),
{
    let start = line_start(text, (position.line - 1) as nat);
    lemma_line_start_bounds(text, (position.line - 1) as nat);
    lemma_line_len(text.skip(start));
    lemma_byte_offset_step(text, char_index(text, position));
}

/// One line further, behind a line break: the offset grows by the bytes of
/// the line and one for the line break.
pub proof fn lemma_offset_next_line(text: Seq<char>, line: nat)
    requires
        line >= 1,
        line_start(text, (line - 1) as nat) + line_len(
            text.skip(line_start(text, (line - 1) as nat)),
        ) < text.len(),
    ensures
        ({
            let start = line_start(text, (line - 1) as nat);
            let len = line_len(text.skip(start));
            &&& text[start + len] == '\n'
            &&& char_index(text, Position { line: line + 1, column: 0 }) == start + len + 1
            &&& offset_of(text, Position { line: line + 1, column: 0 }) == offset_of(
                text,
                Position { line, column: 0 },
            ) + encode_utf8(text.subrange(start, start + len)).len() + 1
        }),
{
    let here = Position { line, column: 0 };
    let start = line_start(text, (line - 1) as nat);
    let len = line_len(text.skip(start));
    lemma_line_begin(text, line);
    lemma_line_begin(text, line + 1);
    lemma_next_line(text, here);
    lemma_line_start_bounds(text, (line - 1) as nat);
    lemma_bytes_between(text, start, start + len);
    lemma_bytes_between(text, start + len, start + len + 1);
    lemma_char_at(text, start + len);
}

} // verus!
