use block_seek::text::{is_span, slice_of};
use block_seek::xml::{
    element_span, element_start, local_name, same_bytes, EMPTY_MARKS, START_MARKS,
};
use block_seek::{
    decode_spans, seek_xml_blocks, seek_xml_spans, seek_xml_spans_raw, DecodePolicy,
    ExtractError, XmlError, MAX_TEXT_LEN,
};
use std::collections::BTreeMap;

type Card = BTreeMap<String, String>;

fn spans(doc: &str, tag: &[u8]) -> Result<Vec<(usize, usize)>, XmlError> {
    seek_xml_spans(&doc.to_string(), tag, None)
}

fn pieces<'a>(doc: &'a str, tag: &[u8]) -> Vec<&'a str> {
    spans(doc, tag).unwrap().into_iter().map(|(s, e)| &doc[s..e]).collect()
}

fn decode_card(piece: &str) -> Result<Card, quick_xml::DeError> {
    quick_xml::de::from_str::<Card>(piece)
}

fn card(name: &str, set: &str) -> Card {
    let mut c = Card::new();
    c.insert("name".to_string(), name.to_string());
    c.insert("set".to_string(), set.to_string());
    c
}

const DECK: &str = "\n<deck version=\"0.8\">\n\t<meta>\n\t\t<game>magic</game>\n\t</meta>\n\t<superzone name=\"Deck\">\n\t\t<card><name>Black Mana Battery</name><set>4e</set></card>\n\t\t<card><name>Fellwar Stone</name><set>4e</set></card>\n\t\t<card><name>Zuran Orb</name><set>ia</set></card>\n\t</superzone>\n\t<superzone name=\"Command\">\n\t</superzone>\n</deck>\n";

#[test]
fn sibling_elements_are_located_in_order() {
    let doc = "<deck><card><name>A</name></card>\n\t<card><name>B</name></card></deck>";
    assert_eq!(spans(doc, b"card").unwrap(), vec![(6, 33), (35, 62)]);
    assert_eq!(
        pieces(doc, b"card"),
        vec!["<card><name>A</name></card>", "<card><name>B</name></card>"]
    );
}

#[test]
fn sibling_cards_decode_in_document_order() {
    let doc = DECK.to_string();
    let cards = seek_xml_blocks(&doc, b"card", None, decode_card, DecodePolicy::Abort).unwrap();
    assert_eq!(
        cards,
        vec![
            card("Black Mana Battery", "4e"),
            card("Fellwar Stone", "4e"),
            card("Zuran Orb", "ia")
        ]
    );
}

type Fields = BTreeMap<String, BTreeMap<String, String>>;

fn decode_fields(piece: &str) -> Result<Fields, quick_xml::DeError> {
    quick_xml::de::from_str::<Fields>(piece)
}

fn field<'a>(fields: &'a Fields, name: &str, part: &str) -> &'a str {
    fields[name][part].as_str()
}

#[test]
fn cards_with_attributes_decode_each_from_its_own_element() {
    let doc = "<deck version=\"0.8\"><superzone name=\"Deck\"><card><name id=\"4ed/298\">Black Mana Battery</name><set>4e</set></card><card><name id=\"ice/350\">Zuran Orb</name><set>ia</set></card></superzone></deck>".to_string();
    for hint in [None, Some(0), Some(1), Some(2), Some(7)] {
        let r = seek_xml_blocks(&doc, b"card", hint, decode_fields, DecodePolicy::Abort).unwrap();
        assert_eq!(r.len(), 2);
        assert_eq!(field(&r[0], "name", "@id"), "4ed/298");
        assert_eq!(field(&r[0], "name", "$text"), "Black Mana Battery");
        assert_eq!(field(&r[0], "set", "$text"), "4e");
        assert_eq!(field(&r[1], "name", "@id"), "ice/350");
        assert_eq!(field(&r[1], "name", "$text"), "Zuran Orb");
        assert_eq!(field(&r[1], "set", "$text"), "ia");
    }
}

#[test]
fn self_closing_card_gives_no_entry() {
    let doc = "<deck><card/><card><name id=\"1\">A</name><set>x</set></card></deck>".to_string();
    let r = seek_xml_blocks(&doc, b"card", None, decode_fields, DecodePolicy::Abort).unwrap();
    assert_eq!(r.len(), 1);
    assert_eq!(field(&r[0], "name", "@id"), "1");
    assert_eq!(field(&r[0], "name", "$text"), "A");
    assert_eq!(field(&r[0], "set", "$text"), "x");
}

#[test]
fn nested_card_is_seen_only_inside_the_outer_one() {
    let doc = "<card><name id=\"1\">A</name><card><name id=\"2\">B</name><set>y</set></card><set>x</set></card>";
    assert_eq!(pieces(doc, b"card"), vec![doc]);
    assert_eq!(spans(doc, b"card").unwrap(), vec![(0, doc.len())]);
}

#[test]
fn text_without_the_tag_gives_an_empty_result() {
    let doc = "<deck><meta><game>magic</game></meta></deck>".to_string();
    let called = std::cell::Cell::new(0);
    let counting = |piece: &str| {
        called.set(called.get() + 1);
        decode_card(piece)
    };
    for policy in [DecodePolicy::Abort, DecodePolicy::Skip] {
        let r = seek_xml_blocks(&doc, b"card", None, &counting, policy).unwrap();
        assert!(r.is_empty());
    }
    assert_eq!(called.get(), 0);
}

#[test]
fn whole_document_is_one_element() {
    assert_eq!(spans(DECK, b"deck").unwrap(), vec![(1, DECK.len() - 1)]);
    assert_eq!(pieces(DECK, b"superzone").len(), 2);
    assert_eq!(
        pieces(DECK, b"superzone")[1],
        "<superzone name=\"Command\">\n\t</superzone>"
    );
}

#[test]
fn nested_element_of_the_same_name_is_part_of_the_outer_one() {
    let doc = "<r><card><card><name>in</name></card></card><card>x</card></r>";
    assert_eq!(
        pieces(doc, b"card"),
        vec!["<card><card><name>in</name></card></card>", "<card>x</card>"]
    );
}

#[test]
fn absent_tag_gives_no_elements() {
    assert_eq!(spans(DECK, b"sideboard").unwrap(), vec![]);
    let doc = DECK.to_string();
    let found = seek_xml_blocks(&doc, b"sideboard", None, decode_card, DecodePolicy::Abort);
    assert_eq!(found.unwrap(), Vec::<Card>::new());
    assert_eq!(spans("", b"card").unwrap(), vec![]);
    assert_eq!(spans("no markup at all", b"card").unwrap(), vec![]);
}

#[test]
fn decoded_value_survives_a_round_trip() {
    let doc = DECK.to_string();
    let first = seek_xml_blocks(&doc, b"card", None, decode_card, DecodePolicy::Abort).unwrap();
    let mut again = String::from("<deck>");
    for c in &first {
        again.push_str(&quick_xml::se::to_string_with_root("card", c).unwrap());
    }
    again.push_str("</deck>");
    let second = seek_xml_blocks(&again, b"card", None, decode_card, DecodePolicy::Abort);
    assert_eq!(second.unwrap(), first);
}

#[test]
fn short_texts_are_read_to_their_end() {
    for doc in ["", " ", "x", "<", ">", "<a/>", "<a/>x", "x<a/>", "<b>", "<b></b>", "<!---->", "<?p?>"] {
        assert_eq!(spans(doc, b"a").unwrap(), vec![], "{:?}", doc);
    }
    assert_eq!(spans("<a></a>", b"a").unwrap(), vec![(0, 7)]);
    assert_eq!(spans("\n <a></a>\n", b"a").unwrap(), vec![(2, 9)]);
    assert_eq!(spans("<a></a><a></a>", b"a").unwrap(), vec![(0, 7), (7, 14)]);
    assert_eq!(spans("x<a>y</a>z", b"a").unwrap(), vec![(1, 9)]);
    assert_eq!(spans("<></>", b"").unwrap(), vec![(0, 5)]);
}

#[test]
fn start_tag_with_attributes_belongs_to_the_span() {
    let doc = "<r>\n  <card id=\"4ed/298\" foil = 'no' >Black</card >tail</r>";
    assert_eq!(spans(doc, b"card").unwrap(), vec![(6, 51)]);
    assert_eq!(pieces(doc, b"card"), vec!["<card id=\"4ed/298\" foil = 'no' >Black</card >"]);
}

#[test]
fn self_closing_elements_are_not_located() {
    assert_eq!(pieces("<r><a/><a x=\"1\"/><a>t</a><a /></r>", b"a"), vec!["<a>t</a>"]);
    assert_eq!(spans("<a/>x", b"a").unwrap(), vec![]);
}

#[test]
fn raw_spans_hold_the_self_closing_elements_too() {
    let doc = "<r><a/><b/><a x=\"1\" /><a>t<a/></a>é<a\n/></r>";
    assert_eq!(
        seek_xml_spans_raw(&doc.to_string(), b"a", None).unwrap(),
        vec![(3, 7), (11, 22), (22, 34), (36, 41)]
    );
    let raw: Vec<&str> = seek_xml_spans_raw(&doc.to_string(), b"a", None)
        .unwrap()
        .into_iter()
        .map(|(s, e)| &doc[s..e])
        .collect();
    assert_eq!(raw, vec!["<a/>", "<a x=\"1\" />", "<a>t<a/></a>", "<a\n/>"]);
    assert_eq!(pieces(doc, b"a"), vec!["<a>t<a/></a>"]);
    assert_eq!(seek_xml_spans_raw(&doc.to_string(), b"c", Some(3)).unwrap(), vec![]);
    assert_eq!(seek_xml_spans_raw(&DECK.to_string(), b"card", None).unwrap(), spans(DECK, b"card").unwrap());
}

#[test]
fn raw_spans_fail_as_the_others_do() {
    assert!(matches!(
        seek_xml_spans_raw(&"<a/><a></b>".to_string(), b"a", None),
        Err(XmlError::TokenizerError(quick_xml::Error::EndEventMismatch { .. }))
    ));
    assert!(matches!(
        seek_xml_spans_raw(&"\u{feff}é<a/>".to_string(), b"a", None),
        Err(XmlError::Inconsistent)
    ));
    assert!(matches!(
        seek_xml_spans_raw(&"\u{feff}<a/>".to_string(), b"a", None),
        Err(XmlError::Inconsistent)
    ));
}

#[test]
fn offsets_count_bytes_in_text_with_wide_characters() {
    let doc = "<r>é€<a>😀</a>é<a>ü</a></r>";
    assert_eq!(spans(doc, b"a").unwrap(), vec![(8, 19), (21, 30)]);
    assert_eq!(pieces(doc, b"a"), vec!["<a>😀</a>", "<a>ü</a>"]);
}

#[test]
fn size_hint_does_not_bound_the_result() {
    let doc = "<r><a>1</a><a>2</a><a>3</a></r>".to_string();
    let all = vec![(3, 11), (11, 19), (19, 27)];
    assert_eq!(seek_xml_spans(&doc, b"a", None).unwrap(), all);
    assert_eq!(seek_xml_spans(&doc, b"a", Some(0)).unwrap(), all);
    assert_eq!(seek_xml_spans(&doc, b"a", Some(1)).unwrap(), all);
    assert_eq!(seek_xml_spans(&doc, b"a", Some(1000)).unwrap(), all);
}

#[test]
fn element_is_looked_for_by_its_local_name() {
    // A prefix on the element is no hindrance, and the end tag that is
    // looked for is the one that echoes the start tag as written.
    let doc = "<r><n:card>x</n:card><card>y</card><m:card>z<card/></m:card><cards/></r>";
    assert_eq!(
        pieces(doc, b"card"),
        vec!["<n:card>x</n:card>", "<card>y</card>", "<m:card>z<card/></m:card>"]
    );
    // A prefix on the tag that is asked for does not count.
    assert_eq!(pieces(doc, b"q:card"), pieces(doc, b"card"));
    assert_eq!(pieces("<r><card>x</card></r>", b"n:card"), vec!["<card>x</card>"]);
    assert_eq!(pieces(doc, b"n"), Vec::<&str>::new());
    let mismatched = spans("<r><card>x</n:card></r>", b"card");
    assert!(matches!(
        mismatched,
        Err(XmlError::TokenizerError(quick_xml::Error::EndEventMismatch { .. }))
    ));
}

#[test]
fn mismatched_end_tag_is_a_tokenizer_error() {
    match spans("<a></b>", b"a") {
        Err(XmlError::TokenizerError(quick_xml::Error::EndEventMismatch { expected, found })) => {
            assert_eq!(expected, "a");
            assert_eq!(found, "b");
        }
        other => panic!("{:?}", other),
    }
}

#[test]
fn element_without_end_tag_is_a_tokenizer_error() {
    assert!(matches!(
        spans("<r><card>x", b"card"),
        Err(XmlError::TokenizerError(quick_xml::Error::UnexpectedEof(_)))
    ));
    assert!(matches!(
        spans("<r><card", b"r"),
        Err(XmlError::TokenizerError(quick_xml::Error::UnexpectedEof(_)))
    ));
}

#[test]
fn offsets_that_do_not_delimit_the_element_are_inconsistent() {
    // The tokenizer drops a leading byte order mark without counting it, so
    // the offsets that it gives lie three bytes before the element.
    assert!(matches!(spans("\u{feff}é<a>x</a>", b"a"), Err(XmlError::Inconsistent)));
    assert!(matches!(spans("\u{feff}<a>x</a>", b"a"), Err(XmlError::Inconsistent)));
    assert!(matches!(spans("\u{feff}<r><a>x</a></r>", b"a"), Err(XmlError::Inconsistent)));
    assert!(matches!(
        seek_xml_spans_raw(&"\u{feff}<r><a/></r>".to_string(), b"a", None),
        Err(XmlError::Inconsistent)
    ));
    // Where no element is looked for, no offset is taken.
    assert_eq!(spans("\u{feff}<r><a>x</a></r>", b"b").unwrap(), vec![]);
}

#[test]
fn text_over_the_limit_is_too_large() {
    let doc = String::from_utf8(vec![0u8; MAX_TEXT_LEN + 1]).unwrap();
    assert!(matches!(seek_xml_spans(&doc, b"a", None), Err(XmlError::TooLarge)));
    let found = seek_xml_blocks(&doc, b"a", None, decode_card, DecodePolicy::Skip);
    assert!(matches!(found, Err(ExtractError::Locate(XmlError::TooLarge))));
}

#[test]
fn locating_error_comes_before_any_decoding() {
    let doc = "<r><card><name>A</name></card><x></y></r>".to_string();
    let found = seek_xml_blocks(&doc, b"card", None, decode_card, DecodePolicy::Skip);
    assert!(matches!(found, Err(ExtractError::Locate(XmlError::TokenizerError(_)))));
}

#[test]
fn failed_decoding_aborts_or_is_skipped() {
    // A name that holds an element does not fit a map of strings.
    let doc = "<r><card><name>A</name><set>4e</set></card><card><name><b>B</b></name><set>ia</set></card><card><name>C</name><set>ia</set></card></r>".to_string();
    let aborted = seek_xml_blocks(&doc, b"card", None, decode_card, DecodePolicy::Abort);
    assert!(matches!(aborted, Err(ExtractError::SchemaMismatch(_))));
    let kept = seek_xml_blocks(&doc, b"card", None, decode_card, DecodePolicy::Skip).unwrap();
    assert_eq!(kept, vec![card("A", "4e"), card("C", "ia")]);
}

#[test]
fn decode_spans_calls_the_decoder_on_each_piece() {
    let text = "ab<c>é</c>";
    let lengths = |piece: &str| -> Result<usize, String> {
        if piece.is_empty() {
            Err("empty".to_string())
        } else {
            Ok(piece.len())
        }
    };
    let given = vec![(0, 2), (2, 2), (2, 11), (5, 7)];
    let kept = decode_spans(text, &given, lengths, DecodePolicy::Skip).unwrap();
    assert_eq!(kept, vec![2, 9, 2]);
    match decode_spans(text, &given, lengths, DecodePolicy::Abort) {
        Err(ExtractError::SchemaMismatch(e)) => assert_eq!(e, "empty"),
        other => panic!("{:?}", other),
    }
    let copies = |piece: &str| -> Result<String, String> { Ok(piece.to_string()) };
    assert_eq!(
        decode_spans(text, &given, copies, DecodePolicy::Abort).unwrap(),
        vec!["ab", "", "<c>é</c>", "é"]
    );
    assert_eq!(
        decode_spans(text, &vec![], copies, DecodePolicy::Abort).unwrap(),
        Vec::<String>::new()
    );
}

#[test]
fn decode_spans_refuses_a_span_that_is_no_piece_of_the_text() {
    let text = "ab<c>é</c>";
    let copies = |piece: &str| -> Result<String, String> { Ok(piece.to_string()) };
    for bad in [(0, 12), (3, 2), (5, 6), (6, 7), (12, 12)] {
        let given = vec![(0, 2), bad, (2, 5)];
        for policy in [DecodePolicy::Abort, DecodePolicy::Skip] {
            let out = decode_spans(text, &given, copies, policy);
            assert!(matches!(out, Err(ExtractError::Locate(XmlError::Inconsistent))));
        }
    }
    // A failure before the bad span aborts first.
    let fails = |_piece: &str| -> Result<String, u8> { Err(7) };
    let given = vec![(0, 2), (5, 6)];
    assert!(matches!(
        decode_spans(text, &given, fails, DecodePolicy::Abort),
        Err(ExtractError::SchemaMismatch(7))
    ));
    assert!(matches!(
        decode_spans(text, &given, fails, DecodePolicy::Skip),
        Err(ExtractError::Locate(XmlError::Inconsistent))
    ));
}

#[test]
fn local_name_follows_the_first_colon() {
    assert_eq!(local_name(b"card"), b"card");
    assert_eq!(local_name(b"n:card"), b"card");
    assert_eq!(local_name(b"a:b:c"), b"b:c");
    assert_eq!(local_name(b":card"), b"card");
    assert_eq!(local_name(b"card:"), b"");
    assert_eq!(local_name(b""), b"");
    assert_eq!(local_name(b":"), b"");
    for name in [&b"card"[..], b"n:card", b"a:b:c", b":x", b"x:", b"", b"::"] {
        let theirs = quick_xml::name::QName(name).local_name();
        assert_eq!(local_name(name), theirs.as_ref());
    }
}

#[test]
fn same_bytes_compares_lengths_and_contents() {
    assert!(same_bytes(b"", b""));
    assert!(same_bytes(b"card", b"card"));
    assert!(!same_bytes(b"card", b"cards"));
    assert!(!same_bytes(b"cards", b"card"));
    assert!(!same_bytes(b"card", b"cart"));
    assert!(!same_bytes(b"", b"c"));
}

#[test]
fn element_start_subtracts_name_rest_and_brackets() {
    // "<card id='1'>" ends at 13: '<', 4 bytes of name, 7 more, '>'.
    assert_eq!(element_start(13, 4, 7, START_MARKS), Some(0));
    assert_eq!(element_start(113, 4, 7, START_MARKS), Some(100));
    assert_eq!(element_start(13, 4, 8, START_MARKS), None);
    assert_eq!(element_start(6, 4, 0, START_MARKS), Some(0));
    assert_eq!(element_start(2, 0, 0, START_MARKS), Some(0));
    assert_eq!(element_start(5, 4, 0, START_MARKS), None);
    assert_eq!(element_start(1, 0, 0, START_MARKS), None);
    assert_eq!(element_start(0, 0, 0, START_MARKS), None);
    // "<card id='1'/>" ends at 14: '<', 4 bytes of name, 7 more, "/>".
    assert_eq!(element_start(14, 4, 7, EMPTY_MARKS), Some(0));
    assert_eq!(element_start(114, 4, 7, EMPTY_MARKS), Some(100));
    assert_eq!(element_start(13, 4, 7, EMPTY_MARKS), None);
    assert_eq!(element_start(3, 0, 0, EMPTY_MARKS), Some(0));
    assert_eq!(element_start(2, 0, 0, EMPTY_MARKS), None);
    assert_eq!(START_MARKS, 2);
    assert_eq!(EMPTY_MARKS, 3);
}

#[test]
fn element_start_does_not_overflow() {
    assert_eq!(element_start(usize::MAX, usize::MAX, 1, 2), None);
    assert_eq!(element_start(usize::MAX, usize::MAX - 1, 0, 2), None);
    assert_eq!(element_start(usize::MAX, usize::MAX - 2, 0, 2), Some(0));
    assert_eq!(element_start(usize::MAX, 0, usize::MAX - 2, 2), Some(0));
    assert_eq!(element_start(usize::MAX, 1, 1, usize::MAX), None);
    assert_eq!(element_start(usize::MAX, 0, 0, usize::MAX), Some(0));
    assert_eq!(element_start(10, usize::MAX, usize::MAX, 2), None);
}

#[test]
fn element_span_needs_order_and_the_shape_of_an_element() {
    let text = "é<a>x</a>é";
    // "<a>" ends at 5, "</a>" at 10.
    assert_eq!(element_span(text, 0, 5, b"a", 0, 2, 10), Some((2, 10)));
    assert_eq!(element_span(text, 2, 5, b"a", 0, 2, 10), Some((2, 10)));
    assert_eq!(element_span(text, 2, 5, b"a", 0, 2, 5), Some((2, 5)));
    // It would begin before the floor.
    assert_eq!(element_span(text, 3, 5, b"a", 0, 2, 10), None);
    // It would end inside its own start tag.
    assert_eq!(element_span(text, 0, 5, b"a", 0, 2, 4), None);
    // The start tag does not fit.
    assert_eq!(element_span(text, 0, 5, b"abcd", 0, 2, 10), None);
    // The start falls inside 'é', or not on '<'.
    assert_eq!(element_span(text, 0, 5, b"a", 1, 2, 10), None);
    assert_eq!(element_span(text, 0, 5, b"a", 0, 3, 10), None);
    assert_eq!(element_span(text, 0, 6, b"a", 0, 2, 10), None);
    assert_eq!(element_span(text, 0, 7, b"a", 0, 2, 10), None);
    // The name is not the one that is written.
    assert_eq!(element_span(text, 0, 5, b"b", 0, 2, 10), None);
    assert_eq!(element_span(text, 0, 5, b"", 1, 2, 10), Some((2, 10)));
    assert_eq!(element_span(text, 0, 6, b"a>", 0, 2, 10), Some((2, 10)));
    assert_eq!(element_span(text, 0, 6, b"ax", 0, 2, 10), None);
    // The end does not follow a '>', falls inside the last 'é' or outside
    // the text.
    assert_eq!(element_span(text, 0, 5, b"a", 0, 2, 9), None);
    assert_eq!(element_span(text, 0, 5, b"a", 0, 2, 11), None);
    assert_eq!(element_span(text, 0, 5, b"a", 0, 2, 12), None);
    assert_eq!(element_span(text, 0, 5, b"a", 0, 2, 13), None);
    // A self-closing element ends with its only tag.
    let text = "é<a b/>";
    assert_eq!(element_span(text, 0, 8, b"a", 2, 3, 8), Some((2, 8)));
    assert_eq!(element_span(text, 2, 8, b"a", 2, 3, 8), Some((2, 8)));
    assert_eq!(element_span(text, 3, 8, b"a", 2, 3, 8), None);
    assert_eq!(element_span(text, 0, 8, b"a", 3, 3, 8), None);
    assert_eq!(element_span(text, 0, 8, b"a", 2, 3, 7), None);
    assert_eq!(element_span(text, 0, 8, b"b", 2, 3, 8), None);
    // The smallest element.
    assert_eq!(element_span("<>", 0, 2, b"", 0, 2, 2), Some((0, 2)));
    assert_eq!(element_span("<", 0, 1, b"", 0, 1, 1), None);
    assert_eq!(element_span("<a>", 0, 3, b"a", 0, 2, 3), Some((0, 3)));
    assert_eq!(element_span("", 0, 0, b"", 0, 0, 0), None);
}

#[test]
fn is_span_and_slice_of_agree_with_slicing() {
    let text = "aé€😀z";
    for start in 0..=text.len() + 1 {
        for end in 0..=text.len() + 1 {
            let expected = text.get(start..end);
            assert_eq!(slice_of(text, start, end), expected);
            assert_eq!(is_span(text, start, end), expected.is_some());
        }
    }
    assert_eq!(slice_of(text, 1, 6), Some("é€"));
    assert_eq!(slice_of("", 0, 0), Some(""));
}
