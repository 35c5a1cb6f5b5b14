//! The XML tokenizer that the extractor drives: the reader of `quick_xml`
//! over a text in memory, with the few calls that the extractor makes.
//!
//! The reader depends on nothing but the text it was made over, how it was
//! set and what it was asked before. So what it gives has a name here, over
//! the bytes of the text, the setting and the number of events read so far.
//! What the names are on a given text is the reader's word: nothing is
//! claimed of it, and the extractor holds every offset that it takes from
//! here against the text before it uses it.

use quick_xml::events::Event;
use quick_xml::name::QName;
use quick_xml::reader::Reader;
use vstd::prelude::*;
use vstd::string::*;

verus! {

/// The token reader of `quick_xml`. Nothing inside it is known here.
#[verifier::external_type_specification]
#[verifier::external_body]
#[verifier::reject_recursive_types(R)]
pub struct ExReader<R>(quick_xml::reader::Reader<R>);

/// The error of `quick_xml`'s reader. Nothing inside it is known here.
#[verifier::external_type_specification]
#[verifier::external_body]
pub struct ExError(quick_xml::Error);

/// What the extractor reads of one event of the reader.
pub enum Token {
    /// A start tag: its name as written, prefix included, and the number of
    /// bytes between the end of the name and the closing `>`.
    Start { name: Seq<u8>, rest: nat },
    /// A self-closing tag: its name as written, and the number of bytes
    /// between the end of the name and the closing `/>`.
    Empty { name: Seq<u8>, rest: nat },
    /// An end tag.
    End,
    /// The end of the text.
    Eof,
    /// Anything else: text, a comment, a declaration and the like.
    Other,
}

/// One event of the reader, as the extractor holds it.
pub enum XmlEvent {
    /// A start tag: see `Token::Start`.
    Start { name: Vec<u8>, attrs_len: usize },
    /// A self-closing tag: see `Token::Empty`.
    Empty { name: Vec<u8>, attrs_len: usize },
    /// An end tag.
    End,
    /// The end of the text.
    Eof,
    /// Anything else.
    Other,
}

impl View for XmlEvent {
    type V = Token;

    open spec fn view(&self) -> Token {
        match *self {
            XmlEvent::Start { name, attrs_len } => Token::Start {
                name: name@,
                rest: attrs_len as nat,
            },
            XmlEvent::Empty { name, attrs_len } => Token::Empty {
                name: name@,
                rest: attrs_len as nat,
            },
            XmlEvent::End => Token::End,
            XmlEvent::Eof => Token::Eof,
            XmlEvent::Other => Token::Other,
        }
    }
}

/// The event that a `quick_xml` reader made over `text` gives when it is
/// asked for its next event after `place` events, with the trimming of text
/// events set to `trim` before the first and every other setting as the
/// reader is made; `None` where it gives an error.
pub uninterp spec fn xml_event(text: Seq<u8>, trim: bool, place: int) -> Option<Token>;

/// The byte position that such a reader reports for its cursor after `place`
/// events.
pub uninterp spec fn xml_position(text: Seq<u8>, trim: bool, place: int) -> int;

/// What comes of asking such a reader, after `place` events, to read to the
/// end tag that closes the element named `end`: whether it gets there, and
/// the number of events that it has read by then.
pub uninterp spec fn xml_skip(text: Seq<u8>, trim: bool, place: int, end: Seq<u8>) -> (bool, int);

/// The longest text that is handed to the reader, in bytes.
pub const MAX_TEXT_LEN: usize = 0x7fff_ffff;

/// A reader over a text, with what decides its answers: the bytes of the
/// text, whether it trims text events, and the number of events that it has
/// read. The three are set by the functions of this file alone.
pub struct Cursor<'a> {
    reader: Reader<&'a [u8]>,
    text: Ghost<Seq<u8>>,
    trim: Ghost<bool>,
    place: Ghost<int>,
}

impl<'a> Cursor<'a> {
    /// The bytes of the text that the reader was made over.
    pub closed spec fn text(&self) -> Seq<u8> {
        self.text@
    }

    /// Whether the reader trims text events.
    pub closed spec fn trims(&self) -> bool {
        self.trim@
    }

    /// The number of events that the reader has read.
    pub closed spec fn place(&self) -> int {
        self.place@
    }

    /// `Reader::from_str`: a reader at the start of `text`, which has read
    /// no event and does not trim.
    ///
    /// The reader counts nested markup in signed 32-bit integers, which a
    /// text of more than `MAX_TEXT_LEN` bytes could overflow: such a text
    /// is kept from it.
    #[verifier::external_body]
    pub(crate) fn from_str(text: &'a str) -> (cursor: Cursor<'a>)
        requires
            text.spec_bytes().len() <= MAX_TEXT_LEN,
        ensures
            cursor.text() == text.spec_bytes(),
            cursor.trims() == false,
            cursor.place() == 0,
    {
        Cursor {
            reader: Reader::from_str(text),
            text: Ghost(text.spec_bytes()),
            trim: Ghost(false),
            place: Ghost(0),
        }
    }

    /// `Reader::trim_text`: sets whether the reader trims white space off
    /// the ends of text events, before it has read any.
    #[verifier::external_body]
    pub(crate) fn trim_text(&mut self, val: bool)
        requires
            old(self).place() == 0,
        ensures
            final(self).text() == old(self).text(),
            final(self).trims() == val,
            final(self).place() == 0,
    {
        self.reader.trim_text(val);
    }

    /// `Reader::read_event`, with `BytesStart::name` and
    /// `BytesStart::attributes_raw` for what is kept of a tag: the next
    /// event, or the reader's error. It is the event that `xml_event` names,
    /// and one more event has been read.
    #[verifier::external_body]
    pub(crate) fn read_event(&mut self) -> (event: Result<XmlEvent, quick_xml::Error>)
        ensures
            match event {
                Ok(e) => xml_event(old(self).text(), old(self).trims(), old(self).place())
                    == Some(e@),
                Err(_) => xml_event(old(self).text(), old(self).trims(), old(self).place())
                    is None,
            },
            final(self).text() == old(self).text(),
            final(self).trims() == old(self).trims(),
            final(self).place() == old(self).place() + 1,
    {
        match self.reader.read_event() {
            Ok(Event::Start(e)) => Ok(
                XmlEvent::Start { name: e.name().0.to_vec(), attrs_len: e.attributes_raw().len() },
            ),
            Ok(Event::Empty(e)) => Ok(
                XmlEvent::Empty { name: e.name().0.to_vec(), attrs_len: e.attributes_raw().len() },
            ),
            Ok(Event::End(_)) => Ok(XmlEvent::End),
            Ok(Event::Eof) => Ok(XmlEvent::Eof),
            Ok(_) => Ok(XmlEvent::Other),
            Err(e) => Err(e),
        }
    }

    /// `Reader::buffer_position`: the byte position that the reader reports
    /// for its cursor, which `xml_position` names.
    #[verifier::external_body]
    pub(crate) fn buffer_position(&self) -> (position: usize)
        ensures
            position == xml_position(self.text(), self.trims(), self.place()),
    {
        self.reader.buffer_position()
    }

    /// `Reader::read_to_end`: moves the reader past the end tag that closes
    /// the element named `end`, or gives the reader's error. Which of the
    /// two, and how many events the reader has read by then, `xml_skip`
    /// names.
    #[verifier::external_body]
    pub(crate) fn read_to_end(&mut self, end: &[u8]) -> (skipped: Result<(), quick_xml::Error>)
        ensures
            xml_skip(old(self).text(), old(self).trims(), old(self).place(), end@) == (
                skipped is Ok,
                final(self).place(),
            ),
            final(self).text() == old(self).text(),
            final(self).trims() == old(self).trims(),
    {
        match self.reader.read_to_end(QName(end)) {
            Ok(_) => Ok(()),
            Err(e) => Err(e),
        }
    }
}

} // verus!
