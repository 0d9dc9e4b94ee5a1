//! Byte-level view of the input text: positions, blanks and slices.
//!
//! Positions are byte offsets into the UTF-8 encoding of the text. The text
//! itself is modelled as the sequence of its bytes.
use vstd::prelude::*;
use vstd::string::StringSliceAdditionalSpecFns;
use vstd::utf8::*;

verus! {

/// The byte `[`.
pub const OPEN_BRACKET: u8 = 0x5b;

/// The byte `]`.
pub const CLOSE_BRACKET: u8 = 0x5d;

/// The byte `{`.
pub const OPEN_BRACE: u8 = 0x7b;

/// The byte `}`.
pub const CLOSE_BRACE: u8 = 0x7d;

/// The byte `|`.
pub const PIPE: u8 = 0x7c;

/// The byte `=`.
pub const EQUALS: u8 = 0x3d;

/// The byte `:`.
pub const COLON: u8 = 0x3a;

/// The byte that ends a line.
pub const LINE_FEED: u8 = 0x0a;

/// The byte of a plain space.
pub const SPACE: u8 = 0x20;

/// The byte of a horizontal tab.
pub const TAB: u8 = 0x09;

/// The byte at `position`, or `None` past the end of the text.
pub open spec fn byte_at(text: Seq<u8>, position: int) -> Option<u8> {
    if 0 <= position < text.len() {
        Some(text[position])
    } else {
        None
    }
}

/// Whether `position` holds the byte `byte`.
pub open spec fn has_byte(text: Seq<u8>, position: int, byte: u8) -> bool {
    0 <= position < text.len() && text[position] == byte
}

/// A plain space or a horizontal tab.
pub open spec fn is_blank(byte: u8) -> bool {
    byte == SPACE || byte == TAB
}

/// The position after the run of blanks that starts at `position`.
pub open spec fn skip_blanks_forwards(text: Seq<u8>, position: int) -> int
    decreases text.len() - position,
{
    if 0 <= position < text.len() && is_blank(text[position]) {
        skip_blanks_forwards(text, position + 1)
    } else {
        position
    }
}

/// The position before the run of blanks that ends at `position`.
pub open spec fn skip_blanks_backwards(text: Seq<u8>, position: int) -> int
    decreases position,
{
    if 0 < position <= text.len() && is_blank(text[position - 1]) {
        skip_blanks_backwards(text, position - 1)
    } else {
        position
    }
}

/// `position` lies in the text and does not split a character.
pub open spec fn boundary(text: Seq<u8>, position: int) -> bool {
    0 <= position <= text.len() && is_char_boundary(text, position)
}

/// The characters encoded by the bytes in `[start, end)`.
pub open spec fn chars_between(text: Seq<u8>, start: int, end: int) -> Seq<char> {
    decode_utf8(text.subrange(start, end))
}

/// The code points with the Unicode property White_Space.
pub open spec fn is_white_space(c: char) -> bool {
    let v = c as u32;
    ||| 0x09 <= v <= 0x0d
    ||| v == 0x20
    ||| v == 0x85
    ||| v == 0xa0
    ||| v == 0x1680
    ||| 0x2000 <= v <= 0x200a
    ||| v == 0x2028
    ||| v == 0x2029
    ||| v == 0x202f
    ||| v == 0x205f
    ||| v == 0x3000
}

/// `chars` without its trailing run of white space.
pub open spec fn trim_white_space_end(chars: Seq<char>) -> Seq<char>
    decreases chars.len(),
{
    if chars.len() > 0 && is_white_space(chars.last()) {
        trim_white_space_end(chars.drop_last())
    } else {
        chars
    }
}

/// The number of bytes in the UTF-8 encoding of `c`.
pub open spec fn utf8_width(c: char) -> int {
    encode_scalar(c as u32).len() as int
}

/// The bytes of a string slice always form valid UTF-8.
pub proof fn lemma_str_valid(text: &str)
    ensures
        valid_utf8(text.spec_bytes()),
        text@ == decode_utf8(text.spec_bytes()),
{
    encode_utf8_valid_utf8(text@);
    encode_utf8_decode_utf8(text@);
}

/// An ASCII byte starts a character.
pub proof fn lemma_ascii_is_boundary(text: Seq<u8>, position: int)
    requires
        valid_utf8(text),
        0 <= position < text.len(),
        text[position] < 0x80,
    ensures
        boundary(text, position),
{
    is_char_boundary_iff_not_is_continuation_byte(text, position);
}

/// The end of the text is a boundary.
pub proof fn lemma_end_is_boundary(text: Seq<u8>)
    requires
        valid_utf8(text),
    ensures
        boundary(text, text.len() as int),
        boundary(text, 0),
{
    is_char_boundary_start_end_of_seq(text);
}

/// The position after an ASCII byte is a boundary.
pub proof fn lemma_after_ascii_is_boundary(text: Seq<u8>, position: int)
    requires
        valid_utf8(text),
        0 <= position < text.len(),
        text[position] < 0x80,
    ensures
        boundary(text, position + 1),
{
    lemma_ascii_is_boundary(text, position);
    if position + 1 == text.len() {
        is_char_boundary_start_end_of_seq(text);
    } else {
        let tail = text.subrange(position, text.len() as int);
        valid_utf8_split(text, position);
        assert(tail[0] == text[position]);
        assert(valid_first_scalar(tail));
        assert(length_of_first_scalar(tail) == 1);
        let rest = pop_first_scalar(tail);
        assert(rest =~= text.subrange(position + 1, text.len() as int));
        assert(valid_utf8(rest));
        assert(valid_first_scalar(rest));
        assert(rest[0] == text[position + 1]);
        is_char_boundary_iff_not_is_continuation_byte(text, position + 1);
    }
}

/// A boundary of the text is a boundary of each prefix that reaches it.
pub proof fn lemma_boundary_in_prefix(text: Seq<u8>, position: int, end: int)
    requires
        valid_utf8(text),
        boundary(text, position),
        boundary(text, end),
        position <= end,
    ensures
        valid_utf8(text.subrange(0, end)),
        boundary(text.subrange(0, end), position),
{
    let head = text.subrange(0, end);
    valid_utf8_split(text, end);
    if position < end {
        is_char_boundary_iff_not_is_continuation_byte(text, position);
        is_char_boundary_iff_not_is_continuation_byte(head, position);
    } else {
        is_char_boundary_start_end_of_seq(head);
    }
}

/// The bytes between two boundaries form valid UTF-8.
pub proof fn lemma_between_is_valid(text: Seq<u8>, start: int, end: int)
    requires
        valid_utf8(text),
        boundary(text, start),
        boundary(text, end),
        start <= end,
    ensures
        valid_utf8(text.subrange(start, end)),
{
    lemma_boundary_in_prefix(text, start, end);
    let head = text.subrange(0, end);
    valid_utf8_split(head, start);
    assert(head.subrange(start, head.len() as int) =~= text.subrange(start, end));
}

/// The encoding of a sequence of characters is the encodings of its parts,
/// one after the other.
pub proof fn lemma_encode_utf8_concat(first: Seq<char>, second: Seq<char>)
    ensures
        encode_utf8(first + second) == encode_utf8(first) + encode_utf8(second),
    decreases first.len(),
{
    if first.len() == 0 {
        assert(first + second =~= second);
        assert(encode_utf8(first) + encode_utf8(second) =~= encode_utf8(second));
    } else {
        lemma_encode_utf8_concat(first.drop_first(), second);
        assert((first + second).drop_first() =~= first.drop_first() + second);
        assert(encode_utf8(first + second) =~= encode_utf8(first) + encode_utf8(second));
    }
}

/// In the encoding of a sequence of characters, a character starts where
/// the encoding of those before it ends.
pub proof fn lemma_encoded_prefix_is_boundary(chars: Seq<char>, count: int)
    requires
        0 <= count <= chars.len(),
    ensures
        encode_utf8(chars) == encode_utf8(chars.subrange(0, count)) + encode_utf8(
            chars.subrange(count, chars.len() as int),
        ),
        boundary(encode_utf8(chars), encode_utf8(chars.subrange(0, count)).len() as int),
{
    let first = chars.subrange(0, count);
    let second = chars.subrange(count, chars.len() as int);
    assert(chars =~= first + second);
    lemma_encode_utf8_concat(first, second);
    encode_utf8_valid_utf8(chars);
    let bytes = encode_utf8(chars);
    let index = encode_utf8(first).len() as int;
    if second.len() == 0 {
        lemma_end_is_boundary(bytes);
    } else {
        encode_utf8_first_scalar(second);
        assert(bytes[index] == encode_utf8(second)[0]);
        is_char_boundary_iff_not_is_continuation_byte(bytes, index);
    }
}

/// A boundary of the text after `start`, as a boundary of the text.
pub proof fn lemma_boundary_of_suffix(text: Seq<u8>, start: int, index: int)
    requires
        valid_utf8(text),
        boundary(text, start),
        boundary(text.subrange(start, text.len() as int), index),
    ensures
        boundary(text, start + index),
{
    let tail = text.subrange(start, text.len() as int);
    lemma_end_is_boundary(text);
    lemma_between_is_valid(text, start, text.len() as int);
    if index < tail.len() {
        is_char_boundary_iff_not_is_continuation_byte(tail, index);
        is_char_boundary_iff_not_is_continuation_byte(text, start + index);
    }
}

/// Skipping blanks forwards stays in the text and ends on a boundary.
pub proof fn lemma_skip_blanks_forwards(text: Seq<u8>, position: int)
    requires
        valid_utf8(text),
        0 <= position <= text.len(),
    ensures
        position <= skip_blanks_forwards(text, position) <= text.len(),
        boundary(text, position) ==> boundary(text, skip_blanks_forwards(text, position)),
        forall|i: int|
            position <= i < skip_blanks_forwards(text, position) ==> is_blank(#[trigger] text[i]),
        match byte_at(text, skip_blanks_forwards(text, position)) {
            Some(byte) => !is_blank(byte),
            None => true,
        },
    decreases text.len() - position,
{
    if position < text.len() && is_blank(text[position]) {
        lemma_after_ascii_is_boundary(text, position);
        lemma_skip_blanks_forwards(text, position + 1);
    }
}

/// Skipping blanks backwards stays in the text and ends on a boundary.
pub proof fn lemma_skip_blanks_backwards(text: Seq<u8>, position: int)
    requires
        valid_utf8(text),
        0 <= position <= text.len(),
    ensures
        0 <= skip_blanks_backwards(text, position) <= position,
        boundary(text, position) ==> boundary(text, skip_blanks_backwards(text, position)),
        forall|i: int|
            skip_blanks_backwards(text, position) <= i < position ==> is_blank(#[trigger] text[i]),
        skip_blanks_backwards(text, position) > 0 ==> !is_blank(
            text[skip_blanks_backwards(text, position) - 1],
        ),
    decreases position,
{
    if 0 < position && is_blank(text[position - 1]) {
        lemma_ascii_is_boundary(text, position - 1);
        lemma_skip_blanks_backwards(text, position - 1);
    }
}

/// Skipping blanks backwards does not pass a byte that is no blank.
pub proof fn lemma_skip_blanks_backwards_stops(text: Seq<u8>, position: int, mark: int)
    requires
        0 < mark <= position <= text.len(),
        !is_blank(text[mark - 1]),
    ensures
        mark <= skip_blanks_backwards(text, position),
    decreases position,
{
    if mark < position && is_blank(text[position - 1]) {
        lemma_skip_blanks_backwards_stops(text, position - 1, mark);
    }
}

/// The number of bytes in `text`.
pub fn byte_length(text: &str) -> (length: usize)
    ensures
        length == text.spec_bytes().len(),
{
    text.as_bytes().len()
}

/// Reads the byte at `position`.
pub fn get_byte(text: &str, position: usize) -> (byte: Option<u8>)
    ensures
        byte == byte_at(text.spec_bytes(), position as int),
{
    let bytes = text.as_bytes();
    if position < bytes.len() {
        Some(bytes[position])
    } else {
        None
    }
}

/// The slice of `text` between two boundaries.
pub fn substring<'a>(text: &'a str, start: usize, end: usize) -> (slice: &'a str)
    requires
        start <= end,
        boundary(text.spec_bytes(), start as int),
        boundary(text.spec_bytes(), end as int),
    ensures
        slice.spec_bytes() == text.spec_bytes().subrange(start as int, end as int),
        slice@ == chars_between(text.spec_bytes(), start as int, end as int),
{
    proof {
        lemma_str_valid(text);
    }
    let (head, _) = text.split_at(end);
    proof {
        lemma_str_valid(head);
        lemma_boundary_in_prefix(text.spec_bytes(), start as int, end as int);
    }
    let (_, slice) = head.split_at(start);
    proof {
        lemma_str_valid(slice);
        assert(slice.spec_bytes() =~= text.spec_bytes().subrange(start as int, end as int));
    }
    slice
}

/// Removes trailing white space with `str::trim_end`: the result holds the
/// characters of `text` up to and including its last character that does
/// not have the Unicode property White_Space.
#[verifier::external_body]
pub(crate) fn trim_end<'a>(text: &'a str) -> (trimmed: &'a str)
    ensures
        trimmed@ == trim_white_space_end(text@),
{
    text.trim_end()
}

/// The number of bytes in the UTF-8 encoding of `c`.
pub fn len_utf8(c: char) -> (width: usize)
    ensures
        width == utf8_width(c),
{
    proof {
        char_is_scalar(c);
    }
    let scalar = c as u32;
    if scalar < 0x80 {
        1
    } else if scalar < 0x800 {
        2
    } else if scalar < 0x10000 {
        3
    } else {
        4
    }
}

} // verus!
