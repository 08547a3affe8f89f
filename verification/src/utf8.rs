//! Byte offsets of characters in UTF-8 text.
//!
//! A text is a sequence of characters; its bytes are `encode_utf8` of that
//! sequence. The functions here relate the index of a character to the offset
//! of its first byte, which is what lets a scan over the bytes speak about
//! characters.
use vstd::prelude::*;
use vstd::utf8::*;

verus! {

/// Number of bytes that the first `index` characters of `text` take.
pub open spec fn byte_offset(text: Seq<char>, index: int) -> int {
    encode_utf8(text.take(index)).len() as int
}

/// The characters that the bytes `start..end` of `text` encode.
pub open spec fn byte_slice(text: Seq<char>, start: int, end: int) -> Seq<char> {
    decode_utf8(encode_utf8(text).subrange(start, end))
}

/// Number of characters that the first `offset` bytes of `text` encode.
pub open spec fn index_at(text: Seq<char>, offset: int) -> int {
    byte_slice(text, 0, offset).len() as int
}

/// Whether `offset` is the offset of a character of `text`, or of its end.
pub open spec fn is_boundary(text: Seq<char>, offset: int) -> bool {
    is_char_boundary(encode_utf8(text), offset)
}

/// Number of bytes of the character that starts with the byte `first`.
pub open spec fn width_of(first: u8) -> int {
    if first < 0x80 {
        1
    } else if first < 0xe0 {
        2
    } else if first < 0xf0 {
        3
    } else {
        4
    }
}

/// Whether `c` is an ASCII character.
pub open spec fn is_ascii_char(c: char) -> bool {
    '\0' <= c <= '\u{7f}'
}

/// Encoding distributes over concatenation.
pub proof fn lemma_encode_concat(a: Seq<char>, b: Seq<char>)
    ensures
        encode_utf8(a + b) == encode_utf8(a) + encode_utf8(b),
    decreases a.len(),
{
    if a.len() == 0 {
        assert(a + b =~= b);
        assert(encode_utf8(a) + encode_utf8(b) =~= encode_utf8(b));
    } else {
        lemma_encode_concat(a.drop_first(), b);
        assert((a + b).drop_first() =~= a.drop_first() + b);
        assert(encode_utf8(a + b) =~= encode_utf8(a) + encode_utf8(b));
    }
}

/// A character takes between one and four bytes.
pub proof fn lemma_scalar_len(c: char)
    ensures
        1 <= encode_scalar(c as u32).len() <= 4,
{
}

/// The offset of the next character is the offset of this one plus its width.
pub proof fn lemma_byte_offset_step(text: Seq<char>, index: int)
    requires
        0 <= index < text.len(),
    ensures
        byte_offset(text, index + 1) == byte_offset(text, index) + encode_scalar(
            text[index] as u32,
        ).len(),
{
    let one = seq![text[index]];
    assert(text.take(index + 1) =~= text.take(index) + one);
    lemma_encode_concat(text.take(index), one);
    assert(one.drop_first() =~= Seq::<char>::empty());
    assert(encode_utf8(one) =~= encode_scalar(text[index] as u32)) by {
        reveal_with_fuel(encode_utf8, 2);
    }
}

/// Offsets grow with the index, strictly.
pub proof fn lemma_byte_offset_increases(text: Seq<char>, i: int, j: int)
    requires
        0 <= i <= j <= text.len(),
    ensures
        byte_offset(text, i) + (j - i) <= byte_offset(text, j),
    decreases j - i,
{
    if i < j {
        lemma_byte_offset_increases(text, i, j - 1);
        lemma_byte_offset_step(text, j - 1);
        lemma_scalar_len(text[j - 1]);
    }
}

/// The offsets of the two ends of the text.
pub proof fn lemma_byte_offset_ends(text: Seq<char>)
    ensures
        byte_offset(text, 0) == 0,
        byte_offset(text, text.len() as int) == encode_utf8(text).len(),
{
    assert(text.take(0) =~= Seq::<char>::empty());
    assert(text.take(text.len() as int) =~= text);
}

/// The bytes between the offsets of two indices encode the characters between
/// the indices.
pub proof fn lemma_bytes_between(text: Seq<char>, i: int, j: int)
    requires
        0 <= i <= j <= text.len(),
    ensures
        0 <= byte_offset(text, i) <= byte_offset(text, j) <= encode_utf8(text).len(),
        encode_utf8(text).subrange(byte_offset(text, i), byte_offset(text, j)) == encode_utf8(
            text.subrange(i, j),
        ),
        byte_slice(text, byte_offset(text, i), byte_offset(text, j)) == text.subrange(i, j),
{
    let head = text.take(i);
    let mid = text.subrange(i, j);
    let tail = text.skip(j);
    assert(text.take(j) =~= head + mid);
    assert(text =~= text.take(j) + tail);
    lemma_encode_concat(head, mid);
    lemma_encode_concat(text.take(j), tail);
    assert(encode_utf8(text).subrange(byte_offset(text, i), byte_offset(text, j)) =~= encode_utf8(
        mid,
    ));
    encode_utf8_decode_utf8(mid);
}

/// The first character of a non-empty text and the first bytes of its encoding.
proof fn lemma_first_char(text: Seq<char>)
    requires
        text.len() > 0,
    ensures
        valid_first_scalar(encode_utf8(text)),
        decode_first_scalar(encode_utf8(text)) == text[0] as u32,
        length_of_first_scalar(encode_utf8(text)) == encode_scalar(text[0] as u32).len(),
        length_of_first_scalar(encode_utf8(text)) == byte_offset(text, 1),
        pop_first_scalar(encode_utf8(text)) == encode_utf8(text.drop_first()),
{
    encode_utf8_first_scalar(text);
    assert(pop_first_scalar(encode_utf8(text)) =~= encode_utf8(text.drop_first()));
    lemma_byte_offset_step(text, 0);
    lemma_byte_offset_ends(text);
}

/// The offset of every index is a character boundary of the encoding.
pub proof fn lemma_offset_is_boundary(text: Seq<char>, index: int)
    requires
        0 <= index <= text.len(),
    ensures
        is_char_boundary(encode_utf8(text), byte_offset(text, index)),
    decreases index,
{
    let bytes = encode_utf8(text);
    encode_utf8_valid_utf8(text);
    if index == 0 {
        lemma_byte_offset_ends(text);
    } else {
        let rest = text.drop_first();
        lemma_first_char(text);
        lemma_offset_is_boundary(rest, index - 1);
        assert(text.take(index) =~= text.take(1) + rest.take(index - 1));
        lemma_encode_concat(text.take(1), rest.take(index - 1));
        lemma_bytes_between(text, 0, index);
        lemma_byte_offset_increases(text, 0, index);
    }
}

/// Every character boundary of the encoding is the offset of an index, which is
/// returned.
pub proof fn lemma_boundary_index(text: Seq<char>, offset: int) -> (index: int)
    requires
        is_char_boundary(encode_utf8(text), offset),
    ensures
        0 <= index <= text.len(),
        byte_offset(text, index) == offset,
    decreases text.len(),
{
    encode_utf8_valid_utf8(text);
    if offset == 0 {
        lemma_byte_offset_ends(text);
        0
    } else {
        let bytes = encode_utf8(text);
        assert(text.len() > 0) by {
            if text.len() == 0 {
                assert(bytes.len() == 0);
            }
        }
        let rest = text.drop_first();
        lemma_first_char(text);
        let below = lemma_boundary_index(rest, offset - length_of_first_scalar(bytes));
        assert(text.take(below + 1) =~= text.take(1) + rest.take(below));
        lemma_encode_concat(text.take(1), rest.take(below));
        below + 1
    }
}

/// A character boundary is the offset of the number of characters before it.
pub proof fn lemma_index_at(text: Seq<char>, offset: int)
    requires
        is_boundary(text, offset),
    ensures
        0 <= index_at(text, offset) <= text.len(),
        byte_offset(text, index_at(text, offset)) == offset,
        0 <= offset <= encode_utf8(text).len(),
{
    let index = lemma_boundary_index(text, offset);
    lemma_bytes_between(text, 0, index);
    lemma_bytes_between(text, index, text.len() as int);
    lemma_byte_offset_ends(text);
    assert(text.subrange(0, index).len() == index);
}

/// The number of characters before the offset of an index is that index.
pub proof fn lemma_index_at_offset(text: Seq<char>, index: int)
    requires
        0 <= index <= text.len(),
    ensures
        index_at(text, byte_offset(text, index)) == index,
        is_boundary(text, byte_offset(text, index)),
{
    lemma_bytes_between(text, 0, index);
    lemma_byte_offset_ends(text);
    lemma_offset_is_boundary(text, index);
    assert(text.subrange(0, index).len() == index);
}

/// The bytes between two character boundaries encode the characters between
/// the indices of the boundaries.
pub proof fn lemma_byte_slice(text: Seq<char>, start: int, end: int)
    requires
        is_boundary(text, start),
        is_boundary(text, end),
        start <= end,
    ensures
        0 <= index_at(text, start) <= index_at(text, end) <= text.len(),
        byte_slice(text, start, end) == text.subrange(index_at(text, start), index_at(text, end)),
        encode_utf8(text).subrange(start, end) == encode_utf8(byte_slice(text, start, end)),
{
    lemma_index_at(text, start);
    lemma_index_at(text, end);
    let i = index_at(text, start);
    let j = index_at(text, end);
    if j < i {
        lemma_byte_offset_increases(text, j, i);
    }
    lemma_bytes_between(text, i, j);
}

/// What precedes an index is ASCII if and only if what precedes an earlier
/// index is, and what lies between the two.
pub proof fn lemma_ascii_split(text: Seq<char>, i: int, j: int)
    requires
        0 <= i <= j <= text.len(),
    ensures
        is_ascii_chars(text.take(j)) <==> is_ascii_chars(text.take(i)) && is_ascii_chars(
            text.subrange(i, j),
        ),
{
    assert(text.take(j) =~= text.take(i) + text.subrange(i, j));
    is_ascii_chars_concat(text.take(j), text.take(i), text.subrange(i, j));
}

/// Two texts that end alike take the same number of bytes over the same
/// number of characters of that common end.
pub proof fn lemma_common_tail(a: Seq<char>, from_a: int, b: Seq<char>, from_b: int, n: int)
    requires
        0 <= from_a <= a.len(),
        0 <= from_b <= b.len(),
        a.skip(from_a) == b.skip(from_b),
        0 <= n <= a.len() - from_a,
    ensures
        byte_offset(a, from_a + n) - byte_offset(a, from_a) == byte_offset(b, from_b + n)
            - byte_offset(b, from_b),
        a.subrange(from_a, from_a + n) == b.subrange(from_b, from_b + n),
        a.skip(from_a + n) == b.skip(from_b + n),
{
    assert(a.skip(from_a).len() == a.len() - from_a);
    assert(b.skip(from_b).len() == b.len() - from_b);
    lemma_bytes_between(a, from_a, from_a + n);
    lemma_bytes_between(b, from_b, from_b + n);
    assert(a.subrange(from_a, from_a + n) =~= a.skip(from_a).take(n));
    assert(b.subrange(from_b, from_b + n) =~= b.skip(from_b).take(n));
    assert(a.skip(from_a + n) =~= a.skip(from_a).skip(n));
    assert(b.skip(from_b + n) =~= b.skip(from_b).skip(n));
}

/// What the byte at the offset of a character says about that character: how
/// many bytes it takes, whether it is ASCII, and whether it is a line break.
pub proof fn lemma_char_at(text: Seq<char>, index: int)
    requires
        0 <= index < text.len(),
    ensures
        0 <= byte_offset(text, index) < encode_utf8(text).len(),
        byte_offset(text, index + 1) == byte_offset(text, index) + width_of(
            encode_utf8(text)[byte_offset(text, index)],
        ),
        byte_offset(text, index + 1) <= encode_utf8(text).len(),
        encode_utf8(text)[byte_offset(text, index)] < 0x80 <==> is_ascii_char(text[index]),
        encode_utf8(text)[byte_offset(text, index)] == 0x0a <==> text[index] == '\n',
{
    let bytes = encode_utf8(text);
    let offset = byte_offset(text, index);
    let rest = text.skip(index);
    lemma_byte_offset_ends(text);
    lemma_bytes_between(text, index, text.len() as int);
    lemma_bytes_between(text, index, index + 1);
    assert(text.subrange(index, text.len() as int) =~= rest);
    assert(bytes.subrange(offset, bytes.len() as int) == encode_utf8(rest));
    lemma_first_char(rest);
    lemma_byte_offset_step(text, index);
    let first = encode_utf8(rest)[0];
    assert(first == bytes[offset]);
    assert(rest[0] == text[index]);
    let code = decode_first_scalar(encode_utf8(rest));
    let c = text[index];
    char_is_scalar(c);
    char_u32_cast(c, code);
    if first <= 0x7f {
        assert((first & 0x7f) as u32 == first as u32) by (bit_vector)
            requires
                first <= 0x7f,
        ;
        assert(code == first as u32);
    } else {
        assert(code >= 0x80);
    }
}

/// Number of bytes of the character whose first byte is `first`.
pub fn char_width(first: u8) -> (width: usize)
    ensures
        width == width_of(first),
{
    if first < 0x80 {
        1
    } else if first < 0xe0 {
        2
    } else if first < 0xf0 {
        3
    } else {
        4
    }
}

/// The part of `text` between the byte offsets `start` and `end`.
pub fn substring<'a>(text: &'a str, start: usize, end: usize) -> (part: &'a str)
    requires
        start <= end,
        is_boundary(text@, start as int),
        is_boundary(text@, end as int),
    ensures
        part@ == byte_slice(text@, start as int, end as int),
{
    proof {
        lemma_byte_slice(text@, start as int, end as int);
        lemma_index_at(text@, start as int);
        lemma_index_at(text@, end as int);
    }
    let ghost i = index_at(text@, start as int);
    let ghost j = index_at(text@, end as int);
    let (head, _) = text.split_at(end);
    proof {
        lemma_bytes_between(text@, 0, j);
        lemma_byte_offset_ends(text@);
        encode_utf8_decode_utf8(head@);
        encode_utf8_decode_utf8(text@.take(j));
        assert(text@.subrange(0, j) =~= text@.take(j));
        assert(head@ == text@.take(j));
        assert(head@.take(i) =~= text@.take(i));
        lemma_offset_is_boundary(head@, i);
    }
    let (_, part) = head.split_at(start);
    proof {
        lemma_bytes_between(head@, i, j);
        lemma_byte_offset_ends(head@);
        encode_utf8_decode_utf8(part@);
        encode_utf8_decode_utf8(head@.subrange(i, j));
        assert(head@.subrange(i, j) =~= text@.subrange(i, j));
    }
    part
}

} // verus!
