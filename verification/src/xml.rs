//! Locating the XML elements of a given name in a text.

use vstd::prelude::*;
use vstd::slice::slice_subrange;
use vstd::string::*;
use vstd::utf8::*;
use crate::text::{is_span, is_span_of};
use crate::tokenizer::{
    xml_event, xml_position, xml_skip, Cursor, Token, XmlEvent, MAX_TEXT_LEN,
};

verus! {

/// Why the elements of a text could not be located.
#[derive(Debug)]
pub enum XmlError {
    /// The tokenizer met markup that it does not accept. Holds its error.
    TokenizerError(quick_xml::Error),
    /// What the tokenizer reports of an element does not describe it in the
    /// text: between the offsets that it gives there is no piece of the text
    /// that begins with `<` and the element's name and ends with `>`, or the
    /// element would begin before the one before it has ended; or more
    /// events came than the text has bytes.
    Inconsistent,
    /// The text is longer than `MAX_TEXT_LEN` bytes.
    TooLarge,
}

/// The kinds of `XmlError`.
pub enum Fault {
    /// See `XmlError::TokenizerError`.
    Tokenizer,
    /// See `XmlError::Inconsistent`.
    Inconsistent,
    /// See `XmlError::TooLarge`.
    TooLarge,
}

/// The kind of an error.
pub open spec fn fault_of(e: XmlError) -> Fault {
    match e {
        XmlError::TokenizerError(_) => Fault::Tokenizer,
        XmlError::Inconsistent => Fault::Inconsistent,
        XmlError::TooLarge => Fault::TooLarge,
    }
}

/// Spans as pairs of mathematical integers.
pub open spec fn span_ints(spans: Seq<(usize, usize)>) -> Seq<(int, int)> {
    spans.map_values(|s: (usize, usize)| (s.0 as int, s.1 as int))
}

/// What a locating function returned: its spans as pairs of mathematical
/// integers, or the kind of its error.
pub open spec fn located_view(out: Result<Vec<(usize, usize)>, XmlError>) -> Result<
    Seq<(int, int)>,
    Fault,
> {
    match out {
        Ok(spans) => Ok(span_ints(spans@)),
        Err(e) => Err(fault_of(e)),
    }
}

/// The byte `:`, which ends the prefix of a qualified name.
pub const COLON: u8 = 0x3a;

/// The byte `<`, which begins a tag.
pub const LT: u8 = 0x3c;

/// The byte `>`, which ends a tag.
pub const GT: u8 = 0x3e;

/// The bytes of markup around the name and the rest of a start tag: `<`
/// and `>`.
pub const START_MARKS: usize = 2;

/// The bytes of markup around the name and the rest of a self-closing tag:
/// `<` and `/>`.
pub const EMPTY_MARKS: usize = 3;

/// The local part of a qualified name: what follows its first colon, or the
/// whole name where it has none.
pub open spec fn local_part(name: Seq<u8>) -> Seq<u8> {
    match name.index_of_first(COLON) {
        Some(i) => name.subrange(i + 1, name.len() as int),
        None => name,
    }
}

/// A tag named `name` is one that is looked for under `tag`: the local
/// parts of the two names are the same.
pub open spec fn is_target(name: Seq<u8>, tag: Seq<u8>) -> bool {
    local_part(name) == local_part(tag)
}

/// The offset of the `<` of a tag, from the offset just after its `>`, the
/// length of its name, the length of what follows the name and the number
/// of bytes of markup around the two: all of these lie between the two
/// offsets. `None` where they do not fit before `after`.
pub open spec fn tag_start(after: int, name_len: int, attrs_len: int, marks: int) -> Option<int> {
    if name_len + attrs_len + marks <= after {
        Some(after - (name_len + attrs_len + marks))
    } else {
        None
    }
}

/// The bytes from `start` up to `end` have the shape of an element named
/// `name`: they are a piece of the text `bytes` that begins with `<` and the
/// name and ends with `>`.
pub open spec fn is_element_at(bytes: Seq<u8>, name: Seq<u8>, start: int, end: int) -> bool {
    &&& is_span_of(bytes, start, end)
    &&& start + 1 + name.len() < end
    &&& bytes[start] == LT
    &&& bytes.subrange(start + 1, start + 1 + name.len()) == name
    &&& bytes[end - 1] == GT
}

/// The span of an element named `name`, from what the tokenizer reports of
/// it: the offset `after_open` just after its first tag, the length of what
/// the tag holds after the name, the bytes of markup around the two, and the
/// offset `end` just after its end tag; for a self-closing element the first
/// tag is the only one and `end` is `after_open`. `None` where the tag does
/// not fit before `after_open`, where the element would begin before `floor`
/// or end inside its first tag, or where the bytes between its two ends have
/// not the shape of an element of that name.
pub open spec fn element_span_spec(
    bytes: Seq<u8>,
    floor: int,
    after_open: int,
    name: Seq<u8>,
    attrs_len: int,
    marks: int,
    end: int,
) -> Option<(int, int)> {
    match tag_start(after_open, name.len() as int, attrs_len, marks) {
        Some(start) => if floor <= start && after_open <= end && is_element_at(
            bytes,
            name,
            start,
            end,
        ) {
            Some((start, end))
        } else {
            None
        },
        None => None,
    }
}

/// What the scan gives from the state that it is in: the reader has read
/// `place` events of `text`, the last located element ends at `floor`,
/// `found` are the spans located so far, and `budget` more events may be
/// asked for.
///
/// The reader, which trims text events, is asked for its next event.
/// - Its error ends the scan with that error, and the end of the text ends
///   it with the spans found.
/// - At a start tag whose name is a target, the reader's position is taken,
///   the reader is asked to read to the end tag that closes an element of
///   the tag's name as written, and its position is taken again. The span of
///   the element is worked out from the two positions and held against the
///   text: see `element_span_spec`. The scan goes on behind the element, so
///   an element inside it is not seen.
/// - At a self-closing tag whose name is a target the same is done with the
///   one position after it, where `with_empty` is set.
/// - Any other event is passed over.
pub open spec fn located_from(
    text: Seq<u8>,
    tag: Seq<u8>,
    with_empty: bool,
    place: int,
    floor: int,
    found: Seq<(int, int)>,
    budget: nat,
) -> Result<Seq<(int, int)>, Fault>
    decreases budget,
{
    if budget == 0 {
        Err(Fault::Inconsistent)
    } else {
        match xml_event(text, true, place) {
            None => Err(Fault::Tokenizer),
            Some(Token::Eof) => Ok(found),
            Some(Token::Start { name, rest }) => if is_target(name, tag) {
                let after_open = xml_position(text, true, place + 1);
                let (closed, behind) = xml_skip(text, true, place + 1, name);
                let end = xml_position(text, true, behind);
                if !closed {
                    Err(Fault::Tokenizer)
                } else {
                    match element_span_spec(
                        text,
                        floor,
                        after_open,
                        name,
                        rest as int,
                        START_MARKS as int,
                        end,
                    ) {
                        Some(span) => located_from(
                            text,
                            tag,
                            with_empty,
                            behind,
                            end,
                            found.push(span),
                            (budget - 1) as nat,
                        ),
                        None => Err(Fault::Inconsistent),
                    }
                }
            } else {
                located_from(text, tag, with_empty, place + 1, floor, found, (budget - 1) as nat)
            },
            Some(Token::Empty { name, rest }) => if with_empty && is_target(name, tag) {
                let end = xml_position(text, true, place + 1);
                match element_span_spec(
                    text,
                    floor,
                    end,
                    name,
                    rest as int,
                    EMPTY_MARKS as int,
                    end,
                ) {
                    Some(span) => located_from(
                        text,
                        tag,
                        with_empty,
                        place + 1,
                        end,
                        found.push(span),
                        (budget - 1) as nat,
                    ),
                    None => Err(Fault::Inconsistent),
                }
            } else {
                located_from(text, tag, with_empty, place + 1, floor, found, (budget - 1) as nat)
            },
            Some(_) => located_from(
                text,
                tag,
                with_empty,
                place + 1,
                floor,
                found,
                (budget - 1) as nat,
            ),
        }
    }
}

/// The elements of `text` that are looked for under `tag`, in the order of
/// the text, each as the offset of its `<` and the offset just after its
/// last `>`; the self-closing ones are among them where `with_empty` is set.
///
/// A text of more than `MAX_TEXT_LEN` bytes is not scanned. Any other is
/// scanned from its start, with one event more to ask for than it has
/// bytes: see `located_from`.
pub open spec fn located(text: Seq<u8>, tag: Seq<u8>, with_empty: bool) -> Result<
    Seq<(int, int)>,
    Fault,
> {
    if text.len() > MAX_TEXT_LEN {
        Err(Fault::TooLarge)
    } else {
        located_from(text, tag, with_empty, 0, 0, Seq::empty(), text.len() + 1)
    }
}

/// The bytes that `span` delimits have the shape of an element whose name
/// is looked for under `tag`.
pub open spec fn is_target_element(bytes: Seq<u8>, tag: Seq<u8>, span: (int, int)) -> bool {
    exists|name: Seq<u8>|
        is_target(name, tag) && #[trigger] is_element_at(bytes, name, span.0, span.1)
}

/// Every span has the shape of an element that is looked for under `tag`,
/// and each begins where the one before it has ended, or later.
pub open spec fn spans_in_order(spans: Seq<(int, int)>, bytes: Seq<u8>, tag: Seq<u8>) -> bool {
    &&& forall|i: int|
        0 <= i < spans.len() ==> is_target_element(bytes, tag, #[trigger] spans[i])
    &&& forall|i: int, j: int|
        0 <= i < j < spans.len() ==> (#[trigger] spans[i]).1 <= (#[trigger] spans[j]).0
}

/// The event is a tag at which the scan locates an element.
pub open spec fn is_wanted(event: Option<Token>, tag: Seq<u8>, with_empty: bool) -> bool {
    match event {
        Some(Token::Start { name, rest }) => is_target(name, tag),
        Some(Token::Empty { name, rest }) => with_empty && is_target(name, tag),
        _ => false,
    }
}

/// A scan that goes on from spans in order, none of which ends behind
/// `floor`, ends with spans in order.
pub proof fn lemma_located_from_in_order(
    text: Seq<u8>,
    tag: Seq<u8>,
    with_empty: bool,
    place: int,
    floor: int,
    found: Seq<(int, int)>,
    budget: nat,
)
    requires
        spans_in_order(found, text, tag),
        forall|i: int| 0 <= i < found.len() ==> (#[trigger] found[i]).1 <= floor,
    ensures
        located_from(text, tag, with_empty, place, floor, found, budget) matches Ok(spans)
            ==> spans_in_order(spans, text, tag),
    decreases budget,
{
    if budget > 0 {
        let less = (budget - 1) as nat;
        match xml_event(text, true, place) {
            Some(Token::Start { name, rest }) => {
                if is_target(name, tag) {
                    let after_open = xml_position(text, true, place + 1);
                    let (closed, behind) = xml_skip(text, true, place + 1, name);
                    let end = xml_position(text, true, behind);
                    let span = element_span_spec(
                        text,
                        floor,
                        after_open,
                        name,
                        rest as int,
                        START_MARKS as int,
                        end,
                    );
                    if closed && span is Some {
                        let piece = span->0;
                        let grown = found.push(piece);
                        assert(is_element_at(text, name, piece.0, piece.1));
                        lemma_located_from_in_order(
                            text,
                            tag,
                            with_empty,
                            behind,
                            end,
                            grown,
                            less,
                        );
                    }
                } else {
                    lemma_located_from_in_order(
                        text,
                        tag,
                        with_empty,
                        place + 1,
                        floor,
                        found,
                        less,
                    );
                }
            },
            Some(Token::Empty { name, rest }) => {
                if with_empty && is_target(name, tag) {
                    let end = xml_position(text, true, place + 1);
                    let span = element_span_spec(
                        text,
                        floor,
                        end,
                        name,
                        rest as int,
                        EMPTY_MARKS as int,
                        end,
                    );
                    if span is Some {
                        let piece = span->0;
                        let grown = found.push(piece);
                        assert(is_element_at(text, name, piece.0, piece.1));
                        lemma_located_from_in_order(
                            text,
                            tag,
                            with_empty,
                            place + 1,
                            end,
                            grown,
                            less,
                        );
                    }
                } else {
                    lemma_located_from_in_order(
                        text,
                        tag,
                        with_empty,
                        place + 1,
                        floor,
                        found,
                        less,
                    );
                }
            },
            Some(Token::Eof) => {},
            None => {},
            Some(_) => {
                lemma_located_from_in_order(text, tag, with_empty, place + 1, floor, found, less);
            },
        }
    }
}

/// Whatever the tokenizer reports, the spans that are located have each the
/// shape of an element that is looked for: a piece of the text between two
/// characters that begins with `<` and a name whose local part is that of
/// `tag`, and ends with `>`. They come in the order of the text and none
/// begins before the one before it has ended, so no located element lies
/// inside another.
pub proof fn lemma_located_in_order(text: Seq<u8>, tag: Seq<u8>, with_empty: bool)
    ensures
        located(text, tag, with_empty) matches Ok(spans) ==> spans_in_order(spans, text, tag),
{
    lemma_located_from_in_order(
        text,
        tag,
        with_empty,
        0,
        0,
        Seq::empty(),
        text.len() + 1,
    );
}

/// A scan in which the reader reports no tag that is looked for adds no
/// span to those found.
pub proof fn lemma_located_from_absent(
    text: Seq<u8>,
    tag: Seq<u8>,
    with_empty: bool,
    place: int,
    floor: int,
    found: Seq<(int, int)>,
    budget: nat,
)
    requires
        forall|p: int| !is_wanted(#[trigger] xml_event(text, true, p), tag, with_empty),
    ensures
        located_from(text, tag, with_empty, place, floor, found, budget) matches Ok(spans)
            ==> spans == found,
    decreases budget,
{
    if budget > 0 {
        lemma_located_from_absent(
            text,
            tag,
            with_empty,
            place + 1,
            floor,
            found,
            (budget - 1) as nat,
        );
    }
}

/// Where the reader reports no tag that is looked for under `tag`, no
/// element is located: a scan that succeeds gives no span.
pub proof fn lemma_absent_tag_locates_nothing(text: Seq<u8>, tag: Seq<u8>, with_empty: bool)
    requires
        forall|p: int| !is_wanted(#[trigger] xml_event(text, true, p), tag, with_empty),
    ensures
        located(text, tag, with_empty) matches Ok(spans) ==> spans.len() == 0,
{
    lemma_located_from_absent(text, tag, with_empty, 0, 0, Seq::empty(), text.len() + 1);
}

/// Where the reader reports no self-closing tag that is looked for, a scan
/// that takes the self-closing elements goes as one that does not.
pub proof fn lemma_located_from_without_empty(
    text: Seq<u8>,
    tag: Seq<u8>,
    place: int,
    floor: int,
    found: Seq<(int, int)>,
    budget: nat,
)
    requires
        forall|p: int|
            (#[trigger] xml_event(text, true, p)) matches Some(Token::Empty { name, rest })
                ==> !is_target(name, tag),
    ensures
        located_from(text, tag, true, place, floor, found, budget) == located_from(
            text,
            tag,
            false,
            place,
            floor,
            found,
            budget,
        ),
    decreases budget,
{
    if budget > 0 {
        let less = (budget - 1) as nat;
        match xml_event(text, true, place) {
            Some(Token::Start { name, rest }) => {
                if is_target(name, tag) {
                    let after_open = xml_position(text, true, place + 1);
                    let (closed, behind) = xml_skip(text, true, place + 1, name);
                    let end = xml_position(text, true, behind);
                    let span = element_span_spec(
                        text,
                        floor,
                        after_open,
                        name,
                        rest as int,
                        START_MARKS as int,
                        end,
                    );
                    if closed && span is Some {
                        lemma_located_from_without_empty(
                            text,
                            tag,
                            behind,
                            end,
                            found.push(span->0),
                            less,
                        );
                    }
                } else {
                    lemma_located_from_without_empty(text, tag, place + 1, floor, found, less);
                }
            },
            Some(Token::Eof) => {},
            None => {},
            Some(_) => {
                lemma_located_from_without_empty(text, tag, place + 1, floor, found, less);
            },
        }
    }
}

/// The local part of the qualified name `name`.
pub fn local_name<'a>(name: &'a [u8]) -> (local: &'a [u8])
    ensures
        local@ == local_part(name@),
{
    let mut i: usize = 0;
    while i < name.len()
        invariant
            0 <= i <= name.len(),
            forall|j: int| 0 <= j < i ==> name@[j] != COLON,
        decreases name.len() - i,
    {
        if name[i] == COLON {
            proof {
                name@.index_of_first_ensures(COLON);
            }
            return slice_subrange(name, i + 1, name.len());
        }
        i += 1;
    }
    proof {
        name@.index_of_first_ensures(COLON);
    }
    name
}

/// Whether `a` and `b` hold the same bytes.
pub fn same_bytes(a: &[u8], b: &[u8]) -> (same: bool)
    ensures
        same == (a@ == b@),
{
    if a.len() != b.len() {
        return false;
    }
    let mut i: usize = 0;
    while i < a.len()
        invariant
            a.len() == b.len(),
            0 <= i <= a.len(),
            forall|j: int| 0 <= j < i ==> a@[j] == b@[j],
        decreases a.len() - i,
    {
        if a[i] != b[i] {
            return false;
        }
        i += 1;
    }
    assert(a@ =~= b@);
    true
}

/// The offset of the `<` of a tag: see `tag_start`.
pub fn element_start(after: usize, name_len: usize, attrs_len: usize, marks: usize) -> (start:
    Option<usize>)
    ensures
        match start {
            Some(p) => tag_start(after as int, name_len as int, attrs_len as int, marks as int)
                == Some(p as int),
            None => tag_start(after as int, name_len as int, attrs_len as int, marks as int)
                is None,
        },
{
    match name_len.checked_add(attrs_len) {
        Some(inner) => match inner.checked_add(marks) {
            Some(width) => after.checked_sub(width),
            None => None,
        },
        None => None,
    }
}

/// The span of an element, from what the tokenizer reports of it: see
/// `element_span_spec`.
pub fn element_span(
    text: &str,
    floor: usize,
    after_open: usize,
    name: &[u8],
    attrs_len: usize,
    marks: usize,
    end: usize,
) -> (span: Option<(usize, usize)>)
    ensures
        match span {
            Some(s) => element_span_spec(
                text.spec_bytes(),
                floor as int,
                after_open as int,
                name@,
                attrs_len as int,
                marks as int,
                end as int,
            ) == Some((s.0 as int, s.1 as int)),
            None => element_span_spec(
                text.spec_bytes(),
                floor as int,
                after_open as int,
                name@,
                attrs_len as int,
                marks as int,
                end as int,
            ) is None,
        },
{
    match element_start(after_open, name.len(), attrs_len, marks) {
        Some(start) => {
            if floor <= start && after_open <= end && is_span(text, start, end) && start < end
                && name.len() < end - start - 1 {
                let bytes = text.as_bytes();
                let written = slice_subrange(bytes, start + 1, start + 1 + name.len());
                if bytes[start] == LT && same_bytes(written, name) && bytes[end - 1] == GT {
                    Some((start, end))
                } else {
                    None
                }
            } else {
                None
            }
        },
        None => None,
    }
}

/// Locates the elements of `text` that are looked for under `tag`; the
/// self-closing ones with them where `with_empty` is set.
fn locate(text: &str, tag: &[u8], size_hint: Option<u32>, with_empty: bool) -> (out: Result<
    Vec<(usize, usize)>,
    XmlError,
>)
    ensures
        located_view(out) == located(text.spec_bytes(), tag@, with_empty),
{
    let total: usize = text.as_bytes().len();
    if total > MAX_TEXT_LEN {
        return Err(XmlError::TooLarge);
    }
    // Room for as many spans as the hint says, though never for more than
    // the text has bytes.
    let hint: usize = match size_hint {
        Some(n) => n as usize,
        None => 10,
    };
    let capacity: usize = if hint <= total {
        hint
    } else {
        total
    };
    let mut result: Vec<(usize, usize)> = Vec::with_capacity(capacity);
    let local = local_name(tag);
    let mut cursor = Cursor::from_str(text);
    cursor.trim_text(true);
    // Where the last located element ends: the next one begins there or later.
    let mut floor: usize = 0;
    // Every event takes at least one byte of the text, so a text of `total`
    // bytes has at most that many events before its end is reported.
    let mut budget: usize = total + 1;
    let ghost bytes = text.spec_bytes();
    assert(span_ints(result@) =~= Seq::<(int, int)>::empty());
    while budget > 0
        invariant
            bytes == text.spec_bytes(),
            cursor.text() == bytes,
            cursor.trims(),
            local@ == local_part(tag@),
            located(bytes, tag@, with_empty) == located_from(
                bytes,
                tag@,
                with_empty,
                cursor.place(),
                floor as int,
                span_ints(result@),
                budget as nat,
            ),
        decreases budget,
    {
        budget -= 1;
        match cursor.read_event() {
            Err(e) => {
                return Err(XmlError::TokenizerError(e));
            },
            Ok(XmlEvent::Eof) => {
                return Ok(result);
            },
            Ok(XmlEvent::Start { name, attrs_len }) => {
                if same_bytes(local_name(name.as_slice()), local) {
                    let after_open: usize = cursor.buffer_position();
                    match cursor.read_to_end(name.as_slice()) {
                        Err(e) => {
                            return Err(XmlError::TokenizerError(e));
                        },
                        Ok(()) => {},
                    }
                    let end: usize = cursor.buffer_position();
                    match element_span(
                        text,
                        floor,
                        after_open,
                        name.as_slice(),
                        attrs_len,
                        START_MARKS,
                        end,
                    ) {
                        Some(span) => {
                            proof {
                                assert(span_ints(result@.push(span)) =~= span_ints(result@).push(
                                    (span.0 as int, span.1 as int),
                                ));
                            }
                            result.push(span);
                            floor = end;
                        },
                        None => {
                            return Err(XmlError::Inconsistent);
                        },
                    }
                }
            },
            Ok(XmlEvent::Empty { name, attrs_len }) => {
                if with_empty && same_bytes(local_name(name.as_slice()), local) {
                    let end: usize = cursor.buffer_position();
                    match element_span(
                        text,
                        floor,
                        end,
                        name.as_slice(),
                        attrs_len,
                        EMPTY_MARKS,
                        end,
                    ) {
                        Some(span) => {
                            proof {
                                assert(span_ints(result@.push(span)) =~= span_ints(result@).push(
                                    (span.0 as int, span.1 as int),
                                ));
                            }
                            result.push(span);
                            floor = end;
                        },
                        None => {
                            return Err(XmlError::Inconsistent);
                        },
                    }
                }
            },
            Ok(_) => {},
        }
    }
    Err(XmlError::Inconsistent)
}

/// Locates the elements of `input_str` whose start tag is looked for under
/// `tag`, in the order of the text: the result is `located`, without the
/// self-closing elements.
///
/// `size_hint` sizes the result beforehand and bounds nothing.
pub fn seek_xml_spans(input_str: &String, tag: &[u8], size_hint: Option<u32>) -> (out: Result<
    Vec<(usize, usize)>,
    XmlError,
>)
    ensures
        located_view(out) == located(encode_utf8(input_str@), tag@, false),
{
    locate(input_str.as_str(), tag, size_hint, false)
}

/// Locates the elements of `input_str` that are looked for under `tag` as
/// `seek_xml_spans` does, and the self-closing elements with them, each of
/// these from its `<` up to the end of its `/>`: the result is `located`,
/// with the self-closing elements. It is meant for looking into a text, not
/// for decoding: a self-closing element has nothing to decode.
pub fn seek_xml_spans_raw(input_str: &String, tag: &[u8], size_hint: Option<u32>) -> (out: Result<
    Vec<(usize, usize)>,
    XmlError,
>)
    ensures
        located_view(out) == located(encode_utf8(input_str@), tag@, true),
{
    locate(input_str.as_str(), tag, size_hint, true)
}

} // verus!
