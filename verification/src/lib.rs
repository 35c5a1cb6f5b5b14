//! Locating delimiter-bounded regions of an in-memory text without parsing it
//! in full: balanced blocks between a pair of characters, and XML elements of
//! a given name, which a decoder of the caller's turns into values.

pub mod block;
pub mod decode;
pub mod depth;
pub mod error;
pub mod text;
pub mod tokenizer;
pub mod xml;

pub use block::seek_block;
pub use decode::{decode_spans, seek_xml_blocks, DecodePolicy, ExtractError};
pub use error::BlockError;
pub use tokenizer::MAX_TEXT_LEN;
pub use xml::{seek_xml_spans, seek_xml_spans_raw, XmlError};
