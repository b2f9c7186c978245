//! Decoder and encoder for Android's binary XML container format.
//!
//! A document is an `Xml` chunk holding a string pool, a resource map and a sequence of node
//! chunks. Parsing works on an in-memory byte source; writing appends to a byte vector and
//! recomputes every length and count that the written form stores.
use vstd::prelude::*;

pub mod chunk;
pub mod codec;
pub mod document;
pub mod nodes;
pub mod resource_value;
pub mod round_trip;
pub mod stringpool;

pub use crate::codec::{read_u16, read_u32, read_u8, write_u16, write_u32, write_u8, ByteReader};
pub use crate::document::BinaryXmlDocument;

use crate::document::{spec_document, DocumentView};

verus! {

/// What can go wrong while decoding a binary XML document.
#[derive(Debug, Clone, PartialEq, Eq)]
pub enum ParseError {
    InvalidFile,
    MissingStringPoolChunk,
    MissingResourceMapChunk,
    StringNotFound(u32),
    NamespaceNotFound(String),
    ResourceIdNotFound(u32),
    UnknownResourceString(u32),
    Utf8StringParseError,
    Utf16StringParseError,
    IoError,
}

/// Parses a binary XML document from the reader's position to the end of its input.
pub fn parse(input: &mut ByteReader) -> (r: Result<BinaryXmlDocument, ParseError>)
    ensures
        match r {
            Ok(d) => spec_document(old(input).data@, old(input).pos as int) == Ok::<DocumentView, ParseError>(d@),
            Err(e) => spec_document(old(input).data@, old(input).pos as int) == Err::<DocumentView, ParseError>(e),
        },
{
    BinaryXmlDocument::read_from_file(input)
}

} // verus!
