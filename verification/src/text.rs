//! Byte offsets into UTF-8 text, and the pieces of a text that they delimit.

use vstd::prelude::*;
use vstd::string::*;
use vstd::utf8::*;

verus! {

/// The byte offset at which the character of index `n` starts in the UTF-8
/// encoding of `s`: the length of the encoding of the `n` characters before it.
pub open spec fn byte_offset(s: Seq<char>, n: int) -> int
    recommends
        0 <= n <= s.len(),
{
    encode_utf8(s.subrange(0, n)).len() as int
}

/// Encoding a text with one more character appends that character's bytes.
pub proof fn lemma_encode_push(s: Seq<char>, c: char)
    ensures
        encode_utf8(s.push(c)) == encode_utf8(s) + encode_scalar(c as u32),
    decreases s.len(),
{
    if s.len() == 0 {
        assert(s.push(c).drop_first() =~= Seq::<char>::empty());
        assert(encode_utf8(s.push(c)) =~= encode_scalar(c as u32) + encode_utf8(
            Seq::<char>::empty(),
        ));
    } else {
        lemma_encode_push(s.drop_first(), c);
        assert(s.push(c).drop_first() =~= s.drop_first().push(c));
    }
}

/// The encoding of a character takes between one and four bytes.
pub proof fn lemma_scalar_width(c: char)
    ensures
        1 <= encode_scalar(c as u32).len() <= 4,
{
}

/// The offset after a character is the offset before it plus its width.
pub proof fn lemma_byte_offset_step(s: Seq<char>, n: int)
    requires
        0 <= n < s.len(),
    ensures
        byte_offset(s, n + 1) == byte_offset(s, n) + encode_scalar(s[n] as u32).len(),
{
    assert(s.subrange(0, n + 1) =~= s.subrange(0, n).push(s[n]));
    lemma_encode_push(s.subrange(0, n), s[n]);
}

/// Offsets start at zero, grow with the index by at least one byte per
/// character, and end at the length of the whole encoding.
pub proof fn lemma_byte_offset_bounds(s: Seq<char>, n: int)
    requires
        0 <= n <= s.len(),
    ensures
        byte_offset(s, 0) == 0,
        n <= byte_offset(s, n) <= byte_offset(s, s.len() as int),
        byte_offset(s, s.len() as int) == encode_utf8(s).len(),
    decreases s.len() - n,
{
    assert(s.subrange(0, s.len() as int) =~= s);
    lemma_byte_offset_nonneg(s, n);
    if n < s.len() {
        lemma_byte_offset_bounds(s, n + 1);
        lemma_byte_offset_step(s, n);
        lemma_scalar_width(s[n]);
    }
}

/// A character never starts before as many bytes as characters precede it.
pub proof fn lemma_byte_offset_nonneg(s: Seq<char>, n: int)
    requires
        0 <= n <= s.len(),
    ensures
        n <= byte_offset(s, n),
    decreases n,
{
    if n > 0 {
        lemma_byte_offset_nonneg(s, n - 1);
        lemma_byte_offset_step(s, n - 1);
        lemma_scalar_width(s[n - 1]);
    }
}

/// Offsets grow strictly with the index.
pub proof fn lemma_byte_offset_increasing(s: Seq<char>, i: int, j: int)
    requires
        0 <= i < j <= s.len(),
    ensures
        byte_offset(s, i) < byte_offset(s, j),
    decreases j - i,
{
    lemma_byte_offset_step(s, j - 1);
    lemma_scalar_width(s[j - 1]);
    if i < j - 1 {
        lemma_byte_offset_increasing(s, i, j - 1);
    }
}

/// The number of bytes that `c` takes in UTF-8.
pub fn utf8_width(c: char) -> (n: usize)
    ensures
        n == encode_scalar(c as u32).len(),
        1 <= n <= 4,
{
    let code: u32 = c as u32;
    if code < 0x80 {
        1
    } else if code < 0x800 {
        2
    } else if code < 0x10000 {
        3
    } else {
        4
    }
}

/// The bytes from `start` up to `end` are a piece of the UTF-8 text `bytes`
/// that begins and ends between two characters.
pub open spec fn is_span_of(bytes: Seq<u8>, start: int, end: int) -> bool {
    &&& 0 <= start <= end <= bytes.len()
    &&& is_char_boundary(bytes, start)
    &&& is_char_boundary(bytes, end)
}

/// A text is a piece of itself from either end, and so is each end alone.
pub proof fn lemma_text_bounds(text: &str)
    ensures
        valid_utf8(text.spec_bytes()),
        is_span_of(text.spec_bytes(), 0, 0),
        is_span_of(text.spec_bytes(), 0, text.spec_bytes().len() as int),
{
    encode_utf8_valid_utf8(text@);
    is_char_boundary_start_end_of_seq(text.spec_bytes());
}

/// A position between two characters of a text lies between two characters
/// of every piece of the text that ends after it.
pub proof fn lemma_boundary_in_prefix(bytes: Seq<u8>, start: int, end: int)
    requires
        valid_utf8(bytes),
        is_span_of(bytes, start, end),
    ensures
        valid_utf8(bytes.subrange(0, end)),
        is_char_boundary(bytes.subrange(0, end), start),
{
    let head = bytes.subrange(0, end);
    valid_utf8_split(bytes, end);
    if start == end {
        is_char_boundary_start_end_of_seq(head);
    } else {
        is_char_boundary_iff_not_is_continuation_byte(bytes, start);
        is_char_boundary_iff_not_is_continuation_byte(head, start);
    }
}

/// Whether the bytes of `text` from `start` up to `end` are a piece of it
/// that begins and ends between two characters.
pub fn is_span(text: &str, start: usize, end: usize) -> (ok: bool)
    ensures
        ok == is_span_of(text.spec_bytes(), start as int, end as int),
{
    start <= end && end <= text.as_bytes().len() && text.is_char_boundary(start)
        && text.is_char_boundary(end)
}

/// The piece of `text` from byte `start` up to byte `end`, where that is a
/// piece which begins and ends between two characters.
pub fn slice_of<'a>(text: &'a str, start: usize, end: usize) -> (piece: Option<&'a str>)
    ensures
        match piece {
            Some(p) => is_span_of(text.spec_bytes(), start as int, end as int) && p.spec_bytes()
                == text.spec_bytes().subrange(start as int, end as int),
            None => !is_span_of(text.spec_bytes(), start as int, end as int),
        },
{
    if !is_span(text, start, end) {
        return None;
    }
    proof {
        lemma_text_bounds(text);
        lemma_boundary_in_prefix(text.spec_bytes(), start as int, end as int);
    }
    let (head, _) = text.split_at(end);
    let (_, piece) = head.split_at(start);
    Some(piece)
}

} // verus!
