//! The scanner for balanced blocks between two delimiter characters.

use vstd::prelude::*;
use vstd::string::*;
use vstd::utf8::*;
use crate::depth::{
    blocks, closes_at, depth, has_stray_close, is_balanced, is_excursion, last_top_level,
    lemma_blocks_are_excursions, lemma_no_delimiters, round_trips,
};
use crate::error::BlockError;
use crate::text::{
    byte_offset, lemma_byte_offset_bounds, lemma_byte_offset_increasing, lemma_byte_offset_step,
    utf8_width,
};

verus! {

/// The blocks of `s` as pairs of byte offsets into its UTF-8 encoding.
pub open spec fn byte_spans(s: Seq<char>, open: char, close: char, n: int) -> Seq<(int, int)> {
    blocks(s, open, close, n).map_values(
        |b: (int, int)| (byte_offset(s, b.0), byte_offset(s, b.1)),
    )
}

/// What a scan of `s` for blocks between `open` and `close` gives.
///
/// A closing delimiter anywhere in the text that has no block to close makes
/// the scan fail with `EndCharError`, whatever else the text holds. A text
/// without such a delimiter that ends inside a block makes it fail with
/// `OddNumberError`. Any other text is balanced, and the scan gives its
/// top-level blocks in the order of the text, each as the byte offset of its
/// opening delimiter and the byte offset of its closing delimiter.
pub open spec fn seek_block_spec(s: Seq<char>, open: char, close: char) -> Result<
    Seq<(int, int)>,
    BlockError,
> {
    if has_stray_close(s, open, close) {
        Err(BlockError::EndCharError(open, close))
    } else if depth(s, open, close, s.len() as int) != 0 {
        Err(BlockError::OddNumberError(close, open))
    } else {
        Ok(byte_spans(s, open, close, s.len() as int))
    }
}

/// The spans of a result as pairs of mathematical integers.
pub open spec fn spans_view(v: Seq<(u64, u64)>) -> Seq<(int, int)> {
    v.map_values(|p: (u64, u64)| (p.0 as int, p.1 as int))
}

/// What `seek_block` returned, with its spans as pairs of mathematical
/// integers.
pub open spec fn outcome_view(out: Result<Vec<(u64, u64)>, BlockError>) -> Result<
    Seq<(int, int)>,
    BlockError,
> {
    match out {
        Ok(v) => Ok(spans_view(v@)),
        Err(e) => Err(e),
    }
}

/// The scan of a text in which neither delimiter occurs succeeds and finds
/// no block. The empty text is such a text.
pub proof fn lemma_seek_block_no_delimiters(s: Seq<char>, open: char, close: char)
    requires
        forall|i: int| 0 <= i < s.len() ==> s[i] != open && s[i] != close,
    ensures
        seek_block_spec(s, open, close) == Ok::<Seq<(int, int)>, BlockError>(Seq::empty()),
{
    assert forall|n: int| 0 <= n <= s.len() implies #[trigger] depth(s, open, close, n) == 0 by {
        lemma_no_delimiters(s, open, close, n);
    }
    lemma_no_delimiters(s, open, close, s.len() as int);
    assert(byte_spans(s, open, close, s.len() as int) =~= Seq::<(int, int)>::empty());
}

/// On a balanced text the scan succeeds, and its spans are the top-level
/// excursions of the depth, one span for each and no other: as many as the
/// depth comes back to zero, each from the byte offset of the delimiter that
/// opens the excursion to the byte offset of the one that closes it, in the
/// order of the text and without overlap.
pub proof fn lemma_seek_block_balanced(s: Seq<char>, open: char, close: char)
    requires
        is_balanced(s, open, close),
    ensures
        seek_block_spec(s, open, close) == Ok::<Seq<(int, int)>, BlockError>(
            byte_spans(s, open, close, s.len() as int),
        ),
        round_trips(s, open, close, s.len() as int).finite(),
        byte_spans(s, open, close, s.len() as int).len() == round_trips(
            s,
            open,
            close,
            s.len() as int,
        ).len(),
        forall|i: int|
            0 <= i < byte_spans(s, open, close, s.len() as int).len() ==> {
                let b = blocks(s, open, close, s.len() as int)[i];
                let span = #[trigger] byte_spans(s, open, close, s.len() as int)[i];
                &&& is_excursion(s, open, close, b.0, b.1)
                &&& span == (byte_offset(s, b.0), byte_offset(s, b.1))
                &&& 0 <= span.0 < span.1 < byte_offset(s, s.len() as int)
            },
        forall|i: int, j: int|
            0 <= i < j < byte_spans(s, open, close, s.len() as int).len() ==> (#[trigger] byte_spans(
                s,
                open,
                close,
                s.len() as int,
            )[i]).1 < (#[trigger] byte_spans(s, open, close, s.len() as int)[j]).0,
        forall|a: int, b: int| #[trigger]
            is_excursion(s, open, close, a, b) ==> byte_spans(
                s,
                open,
                close,
                s.len() as int,
            ).contains((byte_offset(s, a), byte_offset(s, b))),
{
    let n = s.len() as int;
    let bs = blocks(s, open, close, n);
    let spans = byte_spans(s, open, close, n);
    lemma_blocks_are_excursions(s, open, close, n);
    assert forall|i: int| 0 <= i < spans.len() implies {
        let b = bs[i];
        let span = #[trigger] spans[i];
        &&& is_excursion(s, open, close, b.0, b.1)
        &&& span == (byte_offset(s, b.0), byte_offset(s, b.1))
        &&& 0 <= span.0 < span.1 < byte_offset(s, n)
    } by {
        let b = bs[i];
        lemma_byte_offset_bounds(s, b.0);
        lemma_byte_offset_increasing(s, b.0, b.1);
        lemma_byte_offset_increasing(s, b.1, n);
    }
    assert forall|i: int, j: int| 0 <= i < j < spans.len() implies (#[trigger] spans[i]).1 < (
    #[trigger] spans[j]).0 by {
        lemma_byte_offset_increasing(s, bs[i].1, bs[j].0);
    }
    assert forall|a: int, b: int| #[trigger]
        is_excursion(s, open, close, a, b) implies spans.contains(
        (byte_offset(s, a), byte_offset(s, b)),
    ) by {
        let i = choose|i: int| 0 <= i < bs.len() && bs[i] == (a, b);
        assert(spans[i] == (byte_offset(s, a), byte_offset(s, b)));
    }
}

/// Finds the top-level blocks of `input_str` between `start` and `end`, in
/// one pass over the text.
///
/// Each block is reported once, in the order of the text, as the byte offset
/// of its opening delimiter and the byte offset of the delimiter that closes
/// it. Blocks nested in a block are part of it and are not reported. The
/// first closing delimiter without a block to close ends the scan with
/// `EndCharError(start, end)`; a text that ends inside a block gives
/// `OddNumberError(end, start)`; neither error comes with any span.
///
/// Where `start` and `end` are the same character, each occurrence opens a
/// block and none closes one.
pub fn seek_block(input_str: &String, start: char, end: char) -> (out: Result<
    Vec<(u64, u64)>,
    BlockError,
>)
    ensures
        outcome_view(out) == seek_block_spec(input_str@, start, end),
{
    let text = input_str.as_str();
    // No offset and no depth exceeds the length of the text in bytes.
    let total: usize = text.as_bytes().len();
    let ghost s = input_str@;
    let mut result: Vec<(u64, u64)> = Vec::new();
    let mut level: usize = 0;
    let mut start_index: usize = 0;
    let mut offset: usize = 0;
    proof {
        lemma_byte_offset_bounds(s, 0);
    }
    for c in it: text.chars()
        invariant
            s == input_str@,
            it.seq() == s,
            total == encode_utf8(s).len(),
            offset == byte_offset(s, it.index()),
            level == depth(s, start, end, it.index()),
            level <= it.index(),
            forall|k: int| 0 <= k <= it.index() ==> #[trigger] depth(s, start, end, k) >= 0,
            level > 0 ==> start_index == byte_offset(
                s,
                last_top_level(s, start, end, it.index()),
            ),
            spans_view(result@) == byte_spans(s, start, end, it.index()),
    {
        let ghost i = it.index();
        proof {
            lemma_byte_offset_step(s, i);
            lemma_byte_offset_bounds(s, i);
            lemma_byte_offset_bounds(s, i + 1);
        }
        if c == start {
            if level == 0 {
                start_index = offset;
            }
            level += 1;
        } else if c == end {
            if level == 0 {
                assert(depth(s, start, end, i + 1) < 0);
                return Err(BlockError::EndCharError(start, end));
            }
            level -= 1;
            if level == 0 {
                result.push((start_index as u64, offset as u64));
            }
        }
        proof {
            if closes_at(s, start, end, i) {
                assert(byte_spans(s, start, end, i + 1) =~= byte_spans(s, start, end, i).push(
                    (byte_offset(s, last_top_level(s, start, end, i)), byte_offset(s, i)),
                ));
            } else {
                assert(byte_spans(s, start, end, i + 1) =~= byte_spans(s, start, end, i));
            }
        }
        offset += utf8_width(c);
    }
    if level != 0 {
        return Err(BlockError::OddNumberError(end, start));
    }
    Ok(result)
}

} // verus!
