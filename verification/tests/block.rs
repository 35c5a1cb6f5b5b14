use block_seek::text::utf8_width;
use block_seek::{seek_block, BlockError};

fn scan(text: &str, open: char, close: char) -> Result<Vec<(u64, u64)>, BlockError> {
    seek_block(&text.to_string(), open, close)
}

#[test]
fn empty_text_has_no_blocks() {
    assert_eq!(scan("", '{', '}'), Ok(vec![]));
}

#[test]
fn text_without_delimiters_has_no_blocks() {
    assert_eq!(scan("no braces here", '{', '}'), Ok(vec![]));
}

#[test]
fn nested_block_is_part_of_the_outer_one() {
    assert_eq!(scan("{a{b}c}", '{', '}'), Ok(vec![(0, 6)]));
}

#[test]
fn stray_closing_delimiter_is_an_error() {
    assert_eq!(scan("}", '{', '}'), Err(BlockError::EndCharError('{', '}')));
}

#[test]
fn unterminated_block_is_an_error() {
    assert_eq!(scan("{{}", '{', '}'), Err(BlockError::OddNumberError('}', '{')));
}

#[test]
fn sibling_blocks_come_in_text_order() {
    assert_eq!(scan("{a}{b}", '{', '}'), Ok(vec![(0, 2), (3, 5)]));
}

#[test]
fn one_span_for_each_return_to_depth_zero() {
    assert_eq!(scan("x{}y{{}{}}z{}", '{', '}'), Ok(vec![(1, 2), (4, 9), (11, 12)]));
}

#[test]
fn smallest_block_spans_two_bytes() {
    assert_eq!(scan("()", '(', ')'), Ok(vec![(0, 1)]));
}

#[test]
fn offsets_count_bytes_not_characters() {
    // 'é' takes two bytes, '€' three and '😀' four.
    assert_eq!(scan("é{x}", '{', '}'), Ok(vec![(2, 4)]));
    assert_eq!(scan("{€}😀{é}", '{', '}'), Ok(vec![(0, 4), (9, 12)]));
}

#[test]
fn delimiters_may_be_wide_characters() {
    assert_eq!(scan("«a«b»»c«»", '«', '»'), Ok(vec![(0, 8), (11, 13)]));
}

#[test]
fn stray_close_after_a_block_discards_the_block() {
    assert_eq!(scan("{}}", '{', '}'), Err(BlockError::EndCharError('{', '}')));
    assert_eq!(scan("{}}{", '{', '}'), Err(BlockError::EndCharError('{', '}')));
}

#[test]
fn text_ending_inside_a_block_discards_earlier_blocks() {
    assert_eq!(scan("{}{", '{', '}'), Err(BlockError::OddNumberError('}', '{')));
}

#[test]
fn equal_delimiters_only_open() {
    assert_eq!(scan("|a|", '|', '|'), Err(BlockError::OddNumberError('|', '|')));
    assert_eq!(scan("abc", '|', '|'), Ok(vec![]));
}

#[test]
fn error_messages_name_the_delimiters() {
    assert_eq!(
        BlockError::EndCharError('{', '}').message(),
        "Malformed input. There are more `{` characters than `}` characters"
    );
    assert_eq!(
        BlockError::OddNumberError('}', '{').message(),
        "The input is malformed. Odd number of `}` and `{` pairs."
    );
}

#[test]
fn utf8_width_of_each_encoding_length() {
    assert_eq!(utf8_width('a'), 1);
    assert_eq!(utf8_width('\u{7f}'), 1);
    assert_eq!(utf8_width('\u{80}'), 2);
    assert_eq!(utf8_width('é'), 2);
    assert_eq!(utf8_width('\u{7ff}'), 2);
    assert_eq!(utf8_width('\u{800}'), 3);
    assert_eq!(utf8_width('€'), 3);
    assert_eq!(utf8_width('\u{ffff}'), 3);
    assert_eq!(utf8_width('\u{10000}'), 4);
    assert_eq!(utf8_width('😀'), 4);
    for c in ['a', 'é', '€', '😀', '\u{0}', '\u{10ffff}'] {
        assert_eq!(utf8_width(c), c.len_utf8());
    }
}
