//! Chunk type tags and the 8-byte chunk header.
use vstd::prelude::*;

use crate::codec::{
    bytes16, bytes32, fits, le16, le32, lemma_le16_bytes16, lemma_le32_bytes32, read_u16,
    read_u32, write_u16, write_u32, ByteReader,
};
use crate::ParseError;

verus! {

/// The type tag of a chunk.
#[derive(Debug, Clone, Copy, PartialEq, Eq, Structural)]
pub enum ResourceType {
    NullType,
    StringPool,
    Table,
    Xml,
    XmlStartNameSpace,
    XmlEndNameSpace,
    XmlStartElement,
    XmlEndElement,
    XmlCdata,
    XmlLastChunk,
    XmlResourceMap,
    TablePackage,
    TableType,
    TableTypeSpec,
    TableLibrary,
}

/// The 16-bit tag that stands for `t` on disk.
pub open spec fn tag_of(t: ResourceType) -> u16 {
    match t {
        ResourceType::NullType => 0x0000,
        ResourceType::StringPool => 0x0001,
        ResourceType::Table => 0x0002,
        ResourceType::Xml => 0x0003,
        ResourceType::XmlStartNameSpace => 0x0100,
        ResourceType::XmlEndNameSpace => 0x0101,
        ResourceType::XmlStartElement => 0x0102,
        ResourceType::XmlEndElement => 0x0103,
        ResourceType::XmlCdata => 0x0104,
        ResourceType::XmlLastChunk => 0x017f,
        ResourceType::XmlResourceMap => 0x0180,
        ResourceType::TablePackage => 0x0200,
        ResourceType::TableType => 0x0201,
        ResourceType::TableTypeSpec => 0x0202,
        ResourceType::TableLibrary => 0x0203,
    }
}

/// The chunk type whose tag is `v`, if any.
pub open spec fn type_of_tag(v: u16) -> Option<ResourceType> {
    if exists|t: ResourceType| tag_of(t) == v {
        Some(choose|t: ResourceType| tag_of(t) == v)
    } else {
        None
    }
}

/// Distinct chunk types have distinct tags.
pub proof fn lemma_tag_of_injective(a: ResourceType, b: ResourceType)
    ensures
        tag_of(a) == tag_of(b) ==> a == b,
{
}

/// The type of a tag written for `t` is `t`.
pub proof fn lemma_type_of_tag_of(t: ResourceType)
    ensures
        type_of_tag(tag_of(t)) == Some(t),
{
    let c = choose|u: ResourceType| tag_of(u) == tag_of(t);
    lemma_tag_of_injective(c, t);
}

impl ResourceType {
    /// The chunk type with tag `v`, or `None` for a tag that names no chunk type.
    pub fn from_u16(v: u16) -> (r: Option<ResourceType>)
        ensures
            r == type_of_tag(v),
    {
        let r = match v {
            0x0000 => Some(ResourceType::NullType),
            0x0001 => Some(ResourceType::StringPool),
            0x0002 => Some(ResourceType::Table),
            0x0003 => Some(ResourceType::Xml),
            0x0100 => Some(ResourceType::XmlStartNameSpace),
            0x0101 => Some(ResourceType::XmlEndNameSpace),
            0x0102 => Some(ResourceType::XmlStartElement),
            0x0103 => Some(ResourceType::XmlEndElement),
            0x0104 => Some(ResourceType::XmlCdata),
            0x017f => Some(ResourceType::XmlLastChunk),
            0x0180 => Some(ResourceType::XmlResourceMap),
            0x0200 => Some(ResourceType::TablePackage),
            0x0201 => Some(ResourceType::TableType),
            0x0202 => Some(ResourceType::TableTypeSpec),
            0x0203 => Some(ResourceType::TableLibrary),
            _ => None,
        };
        proof {
            match r {
                Some(t) => lemma_type_of_tag_of(t),
                None => {
                    assert forall|t: ResourceType| tag_of(t) != v by {
                        match t {
                            _ => {},
                        }
                    }
                },
            }
        }
        r
    }

    /// True when this is a chunk type a document may hold; see `is_chunk_type`.
    pub fn is_chunk_type(self) -> (r: bool)
        ensures
            r == is_chunk_type(self),
    {
        match self {
            ResourceType::StringPool | ResourceType::Xml | ResourceType::XmlStartNameSpace
            | ResourceType::XmlEndNameSpace | ResourceType::XmlStartElement | ResourceType::XmlEndElement
            | ResourceType::XmlCdata | ResourceType::XmlResourceMap => true,
            _ => false,
        }
    }

    /// The on-disk tag of this chunk type.
    pub fn to_u16(self) -> (r: u16)
        ensures
            r == tag_of(self),
    {
        match self {
            ResourceType::NullType => 0x0000,
            ResourceType::StringPool => 0x0001,
            ResourceType::Table => 0x0002,
            ResourceType::Xml => 0x0003,
            ResourceType::XmlStartNameSpace => 0x0100,
            ResourceType::XmlEndNameSpace => 0x0101,
            ResourceType::XmlStartElement => 0x0102,
            ResourceType::XmlEndElement => 0x0103,
            ResourceType::XmlCdata => 0x0104,
            ResourceType::XmlLastChunk => 0x017f,
            ResourceType::XmlResourceMap => 0x0180,
            ResourceType::TablePackage => 0x0200,
            ResourceType::TableType => 0x0201,
            ResourceType::TableTypeSpec => 0x0202,
            ResourceType::TableLibrary => 0x0203,
        }
    }
}

/// The framing that starts every chunk: type tag, header length, total length.
#[derive(Debug, Clone, Copy, PartialEq, Eq, Structural)]
pub struct ChunkHeader {
    pub typ: ResourceType,
    pub header_size: u16,
    pub size: u32,
}

/// True when `t` is one of the chunk types a document may hold: the string pool, the `Xml`
/// container, the five node kinds and the resource map.
pub open spec fn is_chunk_type(t: ResourceType) -> bool {
    ||| t == ResourceType::StringPool
    ||| t == ResourceType::Xml
    ||| t == ResourceType::XmlStartNameSpace
    ||| t == ResourceType::XmlEndNameSpace
    ||| t == ResourceType::XmlStartElement
    ||| t == ResourceType::XmlEndElement
    ||| t == ResourceType::XmlCdata
    ||| t == ResourceType::XmlResourceMap
}

/// A header whose lengths are consistent: `size >= header_size >= 8`.
pub open spec fn header_sizes_valid(h: ChunkHeader) -> bool {
    8 <= h.header_size && h.header_size as u32 <= h.size
}

/// The chunk header stored at `s[p..p + 8]`: short input fails with `IoError`; a tag that
/// names no chunk type a document may hold, or inconsistent lengths, with `InvalidFile`.
pub open spec fn spec_header(s: Seq<u8>, p: int) -> Result<ChunkHeader, ParseError> {
    if !fits(s, p, 8) {
        Err(ParseError::IoError)
    } else {
        match type_of_tag(le16(s, p)) {
            None => Err(ParseError::InvalidFile),
            Some(typ) => if !is_chunk_type(typ) {
                Err(ParseError::InvalidFile)
            } else {
                let h = ChunkHeader { typ, header_size: le16(s, p + 2), size: le32(s, p + 4) };
                if header_sizes_valid(h) {
                    Ok(h)
                } else {
                    Err(ParseError::InvalidFile)
                }
            },
        }
    }
}

/// The eight bytes that encode `h`.
pub open spec fn header_bytes(h: ChunkHeader) -> Seq<u8> {
    bytes16(tag_of(h.typ)) + bytes16(h.header_size) + bytes32(h.size)
}

/// A valid header reads back from its encoding, whatever surrounds it.
pub proof fn lemma_header_round_trip(h: ChunkHeader, pre: Seq<u8>, post: Seq<u8>)
    requires
        header_sizes_valid(h),
        is_chunk_type(h.typ),
    ensures
        spec_header(pre + header_bytes(h) + post, pre.len() as int) == Ok::<ChunkHeader, ParseError>(h),
{
    let s = pre + header_bytes(h) + post;
    let k = pre.len() as int;
    assert(s == pre + bytes16(tag_of(h.typ)) + (bytes16(h.header_size) + bytes32(h.size) + post));
    lemma_le16_bytes16(tag_of(h.typ), pre, bytes16(h.header_size) + bytes32(h.size) + post);
    assert(s == (pre + bytes16(tag_of(h.typ))) + bytes16(h.header_size) + (bytes32(h.size) + post));
    lemma_le16_bytes16(h.header_size, pre + bytes16(tag_of(h.typ)), bytes32(h.size) + post);
    assert(s == (pre + bytes16(tag_of(h.typ)) + bytes16(h.header_size)) + bytes32(h.size) + post);
    lemma_le32_bytes32(h.size, pre + bytes16(tag_of(h.typ)) + bytes16(h.header_size), post);
    lemma_type_of_tag_of(h.typ);
}

/// Every accepted header has `size >= header_size >= 8` and one of the eight chunk types a
/// document may hold; a header with any other tag, or whose lengths break that order, is
/// rejected with `InvalidFile`.
pub proof fn lemma_accepted_header_sizes(s: Seq<u8>, p: int)
    ensures
        spec_header(s, p) matches Ok(h) ==> h.size >= h.header_size as u32 && h.header_size >= 8 && is_chunk_type(h.typ),
        fits(s, p, 8) && !(type_of_tag(le16(s, p)) matches Some(t) && is_chunk_type(t)) ==> spec_header(s, p) == Err::<
            ChunkHeader,
            ParseError,
        >(ParseError::InvalidFile),
        fits(s, p, 8) && type_of_tag(le16(s, p)) is Some && !(8 <= le16(s, p + 2) && le16(s, p + 2) as u32 <= le32(s, p + 4))
            ==> spec_header(s, p) == Err::<ChunkHeader, ParseError>(ParseError::InvalidFile),
{
}

/// Overwriting the size field of a written chunk header gives the header with that size.
pub proof fn lemma_patch_size(pre: Seq<u8>, h: ChunkHeader, rest: Seq<u8>, x: u32)
    ensures
        ({
            let s = pre + header_bytes(h) + rest;
            s.subrange(0, pre.len() as int + 4) + bytes32(x) + s.subrange(pre.len() as int + 8, s.len() as int)
                == pre + header_bytes(ChunkHeader { size: x, ..h }) + rest
        }),
{
    let s = pre + header_bytes(h) + rest;
    assert(s.subrange(0, pre.len() as int + 4) + bytes32(x) + s.subrange(pre.len() as int + 8, s.len() as int)
        =~= pre + header_bytes(ChunkHeader { size: x, ..h }) + rest);
}

impl ChunkHeader {
    /// Reads a chunk header; see `spec_header` for what is accepted.
    pub fn read_from_file(input: &mut ByteReader) -> (r: Result<ChunkHeader, ParseError>)
        ensures
            final(input).data@ == old(input).data@,
            r == spec_header(old(input).data@, old(input).pos as int),
            r is Ok ==> final(input).pos == old(input).pos + 8,
    {
        if !(input.pos < input.data.len() && input.data.len() - input.pos >= 8) {
            return Err(ParseError::IoError);
        }
        let t = read_u16(input)?;
        let header_size = read_u16(input)?;
        let size = read_u32(input)?;
        let typ = match ResourceType::from_u16(t) {
            Some(typ) => typ,
            None => return Err(ParseError::InvalidFile),
        };
        if !typ.is_chunk_type() {
            return Err(ParseError::InvalidFile);
        }
        if header_size < 8 || (header_size as u32) > size {
            return Err(ParseError::InvalidFile);
        }
        Ok(ChunkHeader { typ, header_size, size })
    }

    /// Writes the eight bytes of the header and returns their count.
    pub fn write_to_file(&self, output: &mut Vec<u8>) -> (n: usize)
        ensures
            final(output)@ == old(output)@ + header_bytes(*self),
            n == 8,
    {
        let t = self.typ.to_u16();
        write_u16(output, t);
        write_u16(output, self.header_size);
        write_u32(output, self.size);
        assert(final(output)@ =~= old(output)@ + header_bytes(*self));
        8
    }
}

} // verus!
