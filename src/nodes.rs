//! The XML node chunks: namespace bindings, elements, attributes and character data.
use vstd::prelude::*;

use crate::chunk::{header_bytes, header_sizes_valid, ChunkHeader, ResourceType};
use crate::codec::{bytes16, bytes32, fits, le16, le32, read_u16, read_u32, write_u16, write_u32, ByteReader};
use crate::resource_value::{resource_value_bytes, spec_resource_value, ResourceValue};
use crate::ParseError;

verus! {

/// The header shared by all node chunks: the chunk header, a source line and a comment index.
#[derive(Debug, Clone, Copy, PartialEq, Eq, Structural)]
pub struct XmlNodeHeader {
    pub chunk_header: ChunkHeader,
    pub line_no: u32,
    pub comment: u32,
}

/// The node header whose chunk header is `ch` and whose fields stand at `s[p..p + 8]`.
pub open spec fn node_header_at(s: Seq<u8>, p: int, ch: ChunkHeader) -> XmlNodeHeader {
    XmlNodeHeader { chunk_header: ch, line_no: le32(s, p), comment: le32(s, p + 4) }
}

/// The sixteen bytes that encode `h`.
pub open spec fn node_header_bytes(h: XmlNodeHeader) -> Seq<u8> {
    header_bytes(h.chunk_header) + bytes32(h.line_no) + bytes32(h.comment)
}

impl XmlNodeHeader {
    /// Reads the node fields that follow the chunk header `chunk_header`.
    pub fn read_from_file(input: &mut ByteReader, chunk_header: &ChunkHeader) -> (r: Result<XmlNodeHeader, ParseError>)
        ensures
            final(input).data@ == old(input).data@,
            fits(old(input).data@, old(input).pos as int, 8) ==> r == Ok::<XmlNodeHeader, ParseError>(
                node_header_at(old(input).data@, old(input).pos as int, *chunk_header),
            ) && final(input).pos == old(input).pos + 8,
            !fits(old(input).data@, old(input).pos as int, 8) ==> r == Err::<XmlNodeHeader, ParseError>(ParseError::IoError),
    {
        if !(input.pos < input.data.len() && input.data.len() - input.pos >= 8) {
            return Err(ParseError::IoError);
        }
        let line_no = read_u32(input)?;
        let comment = read_u32(input)?;
        Ok(XmlNodeHeader { chunk_header: *chunk_header, line_no, comment })
    }

    /// Writes the sixteen bytes of the header and returns their count.
    pub fn write_to_file(&self, output: &mut Vec<u8>) -> (n: usize)
        ensures
            final(output)@ == old(output)@ + node_header_bytes(*self),
            n == 16,
    {
        self.chunk_header.write_to_file(output);
        write_u32(output, self.line_no);
        write_u32(output, self.comment);
        assert(final(output)@ =~= old(output)@ + node_header_bytes(*self));
        16
    }
}

/// A namespace binding that opens: prefix and URI as string-pool indices.
#[derive(Debug, Clone, Copy, PartialEq, Eq, Structural)]
pub struct XmlStartNameSpace {
    pub header: XmlNodeHeader,
    pub prefix: u32,
    pub uri: u32,
}

/// A namespace binding that closes: prefix and URI as string-pool indices.
#[derive(Debug, Clone, Copy, PartialEq, Eq, Structural)]
pub struct XmlEndNameSpace {
    pub header: XmlNodeHeader,
    pub prefix: u32,
    pub uri: u32,
}

/// An element that closes: namespace and name as string-pool indices.
#[derive(Debug, Clone, Copy, PartialEq, Eq, Structural)]
pub struct XmlEndElement {
    pub header: XmlNodeHeader,
    pub ns: u32,
    pub name: u32,
}

/// Character data: the text as a string-pool index, and its typed value.
#[derive(Debug, Clone, Copy, PartialEq, Eq, Structural)]
pub struct XmlCdata {
    pub header: XmlNodeHeader,
    pub data: u32,
    pub typed_data: ResourceValue,
}

/// The record that frames the attribute array of an opening element.
#[derive(Debug, Clone, Copy, PartialEq, Eq, Structural)]
pub struct XmlAttrExt {
    pub ns: u32,
    pub name: u32,
    pub attribute_start: u16,
    pub attribute_size: u16,
    pub attribute_count: u16,
    pub id_index: u16,
    pub class_index: u16,
    pub style_index: u16,
}

/// One attribute: namespace, name, raw text (string-pool indices) and typed value.
#[derive(Debug, Clone, Copy, PartialEq, Eq, Structural)]
pub struct XmlAttribute {
    pub ns: u32,
    pub name: u32,
    pub raw_value: u32,
    pub typed_value: ResourceValue,
}

/// An element that opens, with its attributes in file order.
#[derive(Debug, Clone)]
pub struct XmlStartElement {
    pub header: XmlNodeHeader,
    pub attr_ext: XmlAttrExt,
    pub attributes: Vec<XmlAttribute>,
}

/// What an opening element holds.
pub struct XmlStartElementView {
    pub header: XmlNodeHeader,
    pub attr_ext: XmlAttrExt,
    pub attributes: Seq<XmlAttribute>,
}

impl View for XmlStartElement {
    type V = XmlStartElementView;

    open spec fn view(&self) -> XmlStartElementView {
        XmlStartElementView { header: self.header, attr_ext: self.attr_ext, attributes: self.attributes@ }
    }
}

/// One node chunk of a document.
#[derive(Debug, Clone)]
pub enum XmlElement {
    XmlStartNameSpace(XmlStartNameSpace),
    XmlEndNameSpace(XmlEndNameSpace),
    XmlStartElement(XmlStartElement),
    XmlEndElement(XmlEndElement),
    XmlCdata(XmlCdata),
}

/// What a node chunk holds.
pub enum XmlElementView {
    StartNameSpace(XmlStartNameSpace),
    EndNameSpace(XmlEndNameSpace),
    StartElement(XmlStartElementView),
    EndElement(XmlEndElement),
    Cdata(XmlCdata),
}

impl View for XmlElement {
    type V = XmlElementView;

    open spec fn view(&self) -> XmlElementView {
        match self {
            XmlElement::XmlStartNameSpace(n) => XmlElementView::StartNameSpace(*n),
            XmlElement::XmlEndNameSpace(n) => XmlElementView::EndNameSpace(*n),
            XmlElement::XmlStartElement(n) => XmlElementView::StartElement(n@),
            XmlElement::XmlEndElement(n) => XmlElementView::EndElement(*n),
            XmlElement::XmlCdata(n) => XmlElementView::Cdata(*n),
        }
    }
}

/// A namespace node whose fields stand at `s[p..p + 16]`, ending at `p + 16`.
pub open spec fn spec_start_namespace(s: Seq<u8>, p: int, ch: ChunkHeader) -> Result<(XmlStartNameSpace, int), ParseError> {
    if fits(s, p, 16) {
        Ok((XmlStartNameSpace { header: node_header_at(s, p, ch), prefix: le32(s, p + 8), uri: le32(s, p + 12) }, p + 16))
    } else {
        Err(ParseError::IoError)
    }
}

/// A namespace node whose fields stand at `s[p..p + 16]`, ending at `p + 16`.
pub open spec fn spec_end_namespace(s: Seq<u8>, p: int, ch: ChunkHeader) -> Result<(XmlEndNameSpace, int), ParseError> {
    if fits(s, p, 16) {
        Ok((XmlEndNameSpace { header: node_header_at(s, p, ch), prefix: le32(s, p + 8), uri: le32(s, p + 12) }, p + 16))
    } else {
        Err(ParseError::IoError)
    }
}

/// A closing element whose fields stand at `s[p..p + 16]`, ending at `p + 16`.
pub open spec fn spec_end_element(s: Seq<u8>, p: int, ch: ChunkHeader) -> Result<(XmlEndElement, int), ParseError> {
    if fits(s, p, 16) {
        Ok((XmlEndElement { header: node_header_at(s, p, ch), ns: le32(s, p + 8), name: le32(s, p + 12) }, p + 16))
    } else {
        Err(ParseError::IoError)
    }
}

/// Character data whose fields stand at `s[p..p + 20]`, ending at `p + 20`.
pub open spec fn spec_cdata(s: Seq<u8>, p: int, ch: ChunkHeader) -> Result<(XmlCdata, int), ParseError> {
    if !fits(s, p, 20) {
        Err(ParseError::IoError)
    } else {
        match spec_resource_value(s, p + 12) {
            Ok(v) => Ok((XmlCdata { header: node_header_at(s, p, ch), data: le32(s, p + 8), typed_data: v }, p + 20)),
            Err(e) => Err(e),
        }
    }
}

/// The attribute extension record stored at `s[p..p + 20]`.
pub open spec fn attr_ext_at(s: Seq<u8>, p: int) -> XmlAttrExt {
    XmlAttrExt {
        ns: le32(s, p),
        name: le32(s, p + 4),
        attribute_start: le16(s, p + 8),
        attribute_size: le16(s, p + 10),
        attribute_count: le16(s, p + 12),
        id_index: le16(s, p + 14),
        class_index: le16(s, p + 16),
        style_index: le16(s, p + 18),
    }
}

/// The attribute stored at `s[p..p + 20]`.
pub open spec fn spec_attribute(s: Seq<u8>, p: int) -> Result<XmlAttribute, ParseError> {
    if !fits(s, p, 20) {
        Err(ParseError::IoError)
    } else {
        match spec_resource_value(s, p + 12) {
            Ok(v) => Ok(XmlAttribute { ns: le32(s, p), name: le32(s, p + 4), raw_value: le32(s, p + 8), typed_value: v }),
            Err(e) => Err(e),
        }
    }
}

/// The first `n` attributes of an array that starts at `p`; the first one that fails decides.
pub open spec fn spec_attributes(s: Seq<u8>, p: int, n: nat) -> Result<Seq<XmlAttribute>, ParseError>
    decreases n,
{
    if n == 0 {
        Ok(Seq::empty())
    } else {
        match spec_attributes(s, p, (n - 1) as nat) {
            Ok(v) => match spec_attribute(s, p + 20 * (n - 1)) {
                Ok(a) => Ok(v.push(a)),
                Err(e) => Err(e),
            },
            Err(e) => Err(e),
        }
    }
}

/// Once an attribute fails, so does every longer prefix of the array, with that error.
proof fn lemma_attributes_err(s: Seq<u8>, p: int, i: nat, n: nat)
    requires
        i <= n,
        spec_attributes(s, p, i) is Err,
    ensures
        spec_attributes(s, p, n) == spec_attributes(s, p, i),
    decreases n,
{
    if i < n {
        lemma_attributes_err(s, p, i, (n - 1) as nat);
    }
}

/// An opening element whose fields start at `p`: the extension record, then its attributes.
pub open spec fn spec_start_element(s: Seq<u8>, p: int, ch: ChunkHeader) -> Result<(XmlStartElementView, int), ParseError> {
    if !fits(s, p, 28) {
        Err(ParseError::IoError)
    } else {
        let ext = attr_ext_at(s, p + 8);
        match spec_attributes(s, p + 28, ext.attribute_count as nat) {
            Ok(attributes) => Ok((
                XmlStartElementView { header: node_header_at(s, p, ch), attr_ext: ext, attributes },
                p + 28 + 20 * ext.attribute_count,
            )),
            Err(e) => Err(e),
        }
    }
}

/// The node that follows the chunk header `ch` at `p`, and where it ends.
pub open spec fn spec_node(s: Seq<u8>, p: int, ch: ChunkHeader) -> Result<(XmlElementView, int), ParseError> {
    match ch.typ {
        ResourceType::XmlStartNameSpace => match spec_start_namespace(s, p, ch) {
            Ok((n, q)) => Ok((XmlElementView::StartNameSpace(n), q)),
            Err(e) => Err(e),
        },
        ResourceType::XmlEndNameSpace => match spec_end_namespace(s, p, ch) {
            Ok((n, q)) => Ok((XmlElementView::EndNameSpace(n), q)),
            Err(e) => Err(e),
        },
        ResourceType::XmlStartElement => match spec_start_element(s, p, ch) {
            Ok((n, q)) => Ok((XmlElementView::StartElement(n), q)),
            Err(e) => Err(e),
        },
        ResourceType::XmlEndElement => match spec_end_element(s, p, ch) {
            Ok((n, q)) => Ok((XmlElementView::EndElement(n), q)),
            Err(e) => Err(e),
        },
        ResourceType::XmlCdata => match spec_cdata(s, p, ch) {
            Ok((n, q)) => Ok((XmlElementView::Cdata(n), q)),
            Err(e) => Err(e),
        },
        _ => Err(ParseError::InvalidFile),
    }
}

/// True when a node's chunk tag names its kind, its stored lengths are consistent, and an
/// opening element holds as many attributes as its record counts.
pub open spec fn element_tag_ok(e: XmlElementView) -> bool {
    match e {
        XmlElementView::StartNameSpace(n) => n.header.chunk_header.typ == ResourceType::XmlStartNameSpace
            && header_sizes_valid(n.header.chunk_header),
        XmlElementView::EndNameSpace(n) => n.header.chunk_header.typ == ResourceType::XmlEndNameSpace
            && header_sizes_valid(n.header.chunk_header),
        XmlElementView::StartElement(n) => n.header.chunk_header.typ == ResourceType::XmlStartElement
            && header_sizes_valid(n.header.chunk_header) && n.attributes.len() == n.attr_ext.attribute_count,
        XmlElementView::EndElement(n) => n.header.chunk_header.typ == ResourceType::XmlEndElement
            && header_sizes_valid(n.header.chunk_header),
        XmlElementView::Cdata(n) => n.header.chunk_header.typ == ResourceType::XmlCdata && header_sizes_valid(
            n.header.chunk_header,
        ),
    }
}

/// A successful attribute read yields as many attributes as asked for.
pub proof fn lemma_attributes_len(s: Seq<u8>, p: int, n: nat)
    requires
        spec_attributes(s, p, n) is Ok,
    ensures
        spec_attributes(s, p, n)->Ok_0.len() == n,
    decreases n,
{
    if n > 0 {
        lemma_attributes_len(s, p, (n - 1) as nat);
    }
}

/// Every node read after a valid chunk header of a node type carries that header and is
/// of the kind its tag names.
pub proof fn lemma_node_tag_ok(s: Seq<u8>, p: int, ch: ChunkHeader)
    requires
        header_sizes_valid(ch),
        spec_node(s, p, ch) is Ok,
    ensures
        element_tag_ok(spec_node(s, p, ch)->Ok_0.0),
{
    if ch.typ == ResourceType::XmlStartElement {
        lemma_attributes_len(s, p + 28, attr_ext_at(s, p + 8).attribute_count as nat);
    }
}

/// True when `t` tags a node chunk.
pub open spec fn is_node_type(t: ResourceType) -> bool {
    t == ResourceType::XmlStartNameSpace || t == ResourceType::XmlEndNameSpace || t
        == ResourceType::XmlStartElement || t == ResourceType::XmlEndElement || t == ResourceType::XmlCdata
}

/// The bytes of a namespace or closing-element node: header, then two indices.
pub open spec fn pair_node_bytes(h: XmlNodeHeader, a: u32, b: u32) -> Seq<u8> {
    node_header_bytes(h) + bytes32(a) + bytes32(b)
}

/// The bytes of a character-data node.
pub open spec fn cdata_bytes(c: XmlCdata) -> Seq<u8> {
    node_header_bytes(c.header) + bytes32(c.data) + resource_value_bytes(c.typed_data)
}

/// The twenty bytes of an attribute extension record.
pub open spec fn attr_ext_bytes(e: XmlAttrExt) -> Seq<u8> {
    bytes32(e.ns) + bytes32(e.name) + bytes16(e.attribute_start) + bytes16(e.attribute_size) + bytes16(
        e.attribute_count,
    ) + bytes16(e.id_index) + bytes16(e.class_index) + bytes16(e.style_index)
}

/// The twenty bytes of an attribute.
pub open spec fn attribute_bytes(a: XmlAttribute) -> Seq<u8> {
    bytes32(a.ns) + bytes32(a.name) + bytes32(a.raw_value) + resource_value_bytes(a.typed_value)
}

/// The bytes of an attribute array, in order.
pub open spec fn attributes_bytes(v: Seq<XmlAttribute>) -> Seq<u8>
    decreases v.len(),
{
    if v.len() == 0 {
        Seq::empty()
    } else {
        attributes_bytes(v.drop_last()) + attribute_bytes(v.last())
    }
}

/// The total length of an opening element with `n` attributes: 36 + 20 per attribute.
pub open spec fn start_element_size(n: nat) -> u32 {
    (36 + 20 * n) as u32
}

/// A node header as it is written: the tag of the node's kind, a 16-byte header and the
/// node's total length; the line and comment are kept.
pub open spec fn fixed_node_header(h: XmlNodeHeader, typ: ResourceType, size: u32) -> XmlNodeHeader {
    XmlNodeHeader { chunk_header: ChunkHeader { typ, header_size: 16, size }, ..h }
}

/// An opening element as it is written: its chunk header is rebuilt and the extension
/// record's start, size and count are recomputed from the attributes it holds.
pub open spec fn canonical_start_element(e: XmlStartElementView) -> XmlStartElementView {
    XmlStartElementView {
        header: fixed_node_header(e.header, ResourceType::XmlStartElement, start_element_size(e.attributes.len())),
        attr_ext: XmlAttrExt {
            attribute_start: 20,
            attribute_size: 20,
            attribute_count: e.attributes.len() as u16,
            ..e.attr_ext
        },
        attributes: e.attributes,
    }
}

/// A node as it is written: its chunk header rebuilt from its kind and fixed lengths (24
/// bytes for namespace and closing-element nodes, 28 for character data), an opening
/// element recomputed as `canonical_start_element` says.
pub open spec fn canonical_element(e: XmlElementView) -> XmlElementView {
    match e {
        XmlElementView::StartNameSpace(n) => XmlElementView::StartNameSpace(
            XmlStartNameSpace { header: fixed_node_header(n.header, ResourceType::XmlStartNameSpace, 24), ..n },
        ),
        XmlElementView::EndNameSpace(n) => XmlElementView::EndNameSpace(
            XmlEndNameSpace { header: fixed_node_header(n.header, ResourceType::XmlEndNameSpace, 24), ..n },
        ),
        XmlElementView::StartElement(n) => XmlElementView::StartElement(canonical_start_element(n)),
        XmlElementView::EndElement(n) => XmlElementView::EndElement(
            XmlEndElement { header: fixed_node_header(n.header, ResourceType::XmlEndElement, 24), ..n },
        ),
        XmlElementView::Cdata(n) => XmlElementView::Cdata(
            XmlCdata { header: fixed_node_header(n.header, ResourceType::XmlCdata, 28), ..n },
        ),
    }
}

/// The bytes of an opening element as it is written.
pub open spec fn start_element_bytes(e: XmlStartElementView) -> Seq<u8> {
    let c = canonical_start_element(e);
    node_header_bytes(c.header) + attr_ext_bytes(c.attr_ext) + attributes_bytes(c.attributes)
}

/// The bytes of a node in the form it is stored, its header as it stands.
pub open spec fn stored_element_bytes(e: XmlElementView) -> Seq<u8> {
    match e {
        XmlElementView::StartNameSpace(n) => pair_node_bytes(n.header, n.prefix, n.uri),
        XmlElementView::EndNameSpace(n) => pair_node_bytes(n.header, n.prefix, n.uri),
        XmlElementView::StartElement(n) => node_header_bytes(n.header) + attr_ext_bytes(n.attr_ext) + attributes_bytes(
            n.attributes,
        ),
        XmlElementView::EndElement(n) => pair_node_bytes(n.header, n.ns, n.name),
        XmlElementView::Cdata(n) => cdata_bytes(n),
    }
}

/// The bytes of a node chunk as it is written: its canonical form, as it stands.
pub open spec fn element_bytes(e: XmlElementView) -> Seq<u8> {
    stored_element_bytes(canonical_element(e))
}

impl XmlStartNameSpace {
    /// Reads the node that follows the chunk header `chunk_header`; see `spec_start_namespace`.
    pub fn read_from_file(input: &mut ByteReader, chunk_header: &ChunkHeader) -> (r: Result<XmlStartNameSpace, ParseError>)
        ensures
            final(input).data@ == old(input).data@,
            match r {
                Ok(n) => spec_start_namespace(old(input).data@, old(input).pos as int, *chunk_header)
                    == Ok::<(XmlStartNameSpace, int), ParseError>((n, final(input).pos as int)),
                Err(e) => spec_start_namespace(old(input).data@, old(input).pos as int, *chunk_header)
                    == Err::<(XmlStartNameSpace, int), ParseError>(e),
            },
    {
        if !(input.pos < input.data.len() && input.data.len() - input.pos >= 16) {
            return Err(ParseError::IoError);
        }
        let header = XmlNodeHeader::read_from_file(input, chunk_header)?;
        let prefix = read_u32(input)?;
        let uri = read_u32(input)?;
        Ok(XmlStartNameSpace { header, prefix, uri })
    }

    /// Writes the node with its chunk header rebuilt (24 bytes in all) and returns the
    /// count of bytes written.
    pub fn write_to_file(&self, output: &mut Vec<u8>) -> (n: usize)
        ensures
            final(output)@ == old(output)@ + pair_node_bytes(
                fixed_node_header(self.header, ResourceType::XmlStartNameSpace, 24),
                self.prefix,
                self.uri,
            ),
            n == 24,
    {
        let h = XmlNodeHeader {
            chunk_header: ChunkHeader { typ: ResourceType::XmlStartNameSpace, header_size: 16, size: 24 },
            ..self.header
        };
        h.write_to_file(output);
        write_u32(output, self.prefix);
        write_u32(output, self.uri);
        assert(final(output)@ =~= old(output)@ + pair_node_bytes(h, self.prefix, self.uri));
        24
    }
}

impl XmlEndNameSpace {
    /// Reads the node that follows the chunk header `chunk_header`; see `spec_end_namespace`.
    pub fn read_from_file(input: &mut ByteReader, chunk_header: &ChunkHeader) -> (r: Result<XmlEndNameSpace, ParseError>)
        ensures
            final(input).data@ == old(input).data@,
            match r {
                Ok(n) => spec_end_namespace(old(input).data@, old(input).pos as int, *chunk_header)
                    == Ok::<(XmlEndNameSpace, int), ParseError>((n, final(input).pos as int)),
                Err(e) => spec_end_namespace(old(input).data@, old(input).pos as int, *chunk_header)
                    == Err::<(XmlEndNameSpace, int), ParseError>(e),
            },
    {
        if !(input.pos < input.data.len() && input.data.len() - input.pos >= 16) {
            return Err(ParseError::IoError);
        }
        let header = XmlNodeHeader::read_from_file(input, chunk_header)?;
        let prefix = read_u32(input)?;
        let uri = read_u32(input)?;
        Ok(XmlEndNameSpace { header, prefix, uri })
    }

    /// Writes the node with its chunk header rebuilt (24 bytes in all) and returns the
    /// count of bytes written.
    pub fn write_to_file(&self, output: &mut Vec<u8>) -> (n: usize)
        ensures
            final(output)@ == old(output)@ + pair_node_bytes(
                fixed_node_header(self.header, ResourceType::XmlEndNameSpace, 24),
                self.prefix,
                self.uri,
            ),
            n == 24,
    {
        let h = XmlNodeHeader {
            chunk_header: ChunkHeader { typ: ResourceType::XmlEndNameSpace, header_size: 16, size: 24 },
            ..self.header
        };
        h.write_to_file(output);
        write_u32(output, self.prefix);
        write_u32(output, self.uri);
        assert(final(output)@ =~= old(output)@ + pair_node_bytes(h, self.prefix, self.uri));
        24
    }
}

impl XmlEndElement {
    /// Reads the node that follows the chunk header `chunk_header`; see `spec_end_element`.
    pub fn read_from_file(input: &mut ByteReader, chunk_header: &ChunkHeader) -> (r: Result<XmlEndElement, ParseError>)
        ensures
            final(input).data@ == old(input).data@,
            match r {
                Ok(n) => spec_end_element(old(input).data@, old(input).pos as int, *chunk_header)
                    == Ok::<(XmlEndElement, int), ParseError>((n, final(input).pos as int)),
                Err(e) => spec_end_element(old(input).data@, old(input).pos as int, *chunk_header)
                    == Err::<(XmlEndElement, int), ParseError>(e),
            },
    {
        if !(input.pos < input.data.len() && input.data.len() - input.pos >= 16) {
            return Err(ParseError::IoError);
        }
        let header = XmlNodeHeader::read_from_file(input, chunk_header)?;
        let ns = read_u32(input)?;
        let name = read_u32(input)?;
        Ok(XmlEndElement { header, ns, name })
    }

    /// Writes the node with its chunk header rebuilt (24 bytes in all) and returns the
    /// count of bytes written.
    pub fn write_to_file(&self, output: &mut Vec<u8>) -> (n: usize)
        ensures
            final(output)@ == old(output)@ + pair_node_bytes(
                fixed_node_header(self.header, ResourceType::XmlEndElement, 24),
                self.ns,
                self.name,
            ),
            n == 24,
    {
        let h = XmlNodeHeader {
            chunk_header: ChunkHeader { typ: ResourceType::XmlEndElement, header_size: 16, size: 24 },
            ..self.header
        };
        h.write_to_file(output);
        write_u32(output, self.ns);
        write_u32(output, self.name);
        assert(final(output)@ =~= old(output)@ + pair_node_bytes(h, self.ns, self.name));
        24
    }
}

impl XmlCdata {
    /// Reads the node that follows the chunk header `chunk_header`; see `spec_cdata`.
    pub fn read_from_file(input: &mut ByteReader, chunk_header: &ChunkHeader) -> (r: Result<XmlCdata, ParseError>)
        ensures
            final(input).data@ == old(input).data@,
            match r {
                Ok(n) => spec_cdata(old(input).data@, old(input).pos as int, *chunk_header)
                    == Ok::<(XmlCdata, int), ParseError>((n, final(input).pos as int)),
                Err(e) => spec_cdata(old(input).data@, old(input).pos as int, *chunk_header)
                    == Err::<(XmlCdata, int), ParseError>(e),
            },
    {
        if !(input.pos < input.data.len() && input.data.len() - input.pos >= 20) {
            return Err(ParseError::IoError);
        }
        let header = XmlNodeHeader::read_from_file(input, chunk_header)?;
        let data = read_u32(input)?;
        let typed_data = ResourceValue::read_from_file(input)?;
        Ok(XmlCdata { header, data, typed_data })
    }

    /// Writes the node with its chunk header rebuilt (28 bytes in all) and returns the
    /// count of bytes written.
    pub fn write_to_file(&self, output: &mut Vec<u8>) -> (n: usize)
        ensures
            final(output)@ == old(output)@ + cdata_bytes(
                XmlCdata { header: fixed_node_header(self.header, ResourceType::XmlCdata, 28), ..*self },
            ),
            n == 28,
    {
        let c = XmlCdata {
            header: XmlNodeHeader {
                chunk_header: ChunkHeader { typ: ResourceType::XmlCdata, header_size: 16, size: 28 },
                ..self.header
            },
            ..*self
        };
        c.header.write_to_file(output);
        write_u32(output, c.data);
        c.typed_data.write_to_file(output);
        assert(final(output)@ =~= old(output)@ + cdata_bytes(c));
        28
    }
}

impl XmlAttrExt {
    /// Reads the twenty-byte extension record.
    pub fn read_from_file(input: &mut ByteReader) -> (r: Result<XmlAttrExt, ParseError>)
        ensures
            final(input).data@ == old(input).data@,
            fits(old(input).data@, old(input).pos as int, 20) ==> r == Ok::<XmlAttrExt, ParseError>(
                attr_ext_at(old(input).data@, old(input).pos as int),
            ) && final(input).pos == old(input).pos + 20,
            !fits(old(input).data@, old(input).pos as int, 20) ==> r == Err::<XmlAttrExt, ParseError>(ParseError::IoError),
    {
        if !(input.pos < input.data.len() && input.data.len() - input.pos >= 20) {
            return Err(ParseError::IoError);
        }
        let ns = read_u32(input)?;
        let name = read_u32(input)?;
        let attribute_start = read_u16(input)?;
        let attribute_size = read_u16(input)?;
        let attribute_count = read_u16(input)?;
        let id_index = read_u16(input)?;
        let class_index = read_u16(input)?;
        let style_index = read_u16(input)?;
        Ok(XmlAttrExt { ns, name, attribute_start, attribute_size, attribute_count, id_index, class_index, style_index })
    }

    /// Writes the twenty-byte extension record and returns its length.
    pub fn write_to_file(&self, output: &mut Vec<u8>) -> (n: usize)
        ensures
            final(output)@ == old(output)@ + attr_ext_bytes(*self),
            n == 20,
    {
        write_u32(output, self.ns);
        write_u32(output, self.name);
        write_u16(output, self.attribute_start);
        write_u16(output, self.attribute_size);
        write_u16(output, self.attribute_count);
        write_u16(output, self.id_index);
        write_u16(output, self.class_index);
        write_u16(output, self.style_index);
        assert(final(output)@ =~= old(output)@ + attr_ext_bytes(*self));
        20
    }
}

impl XmlAttribute {
    /// Reads one attribute; see `spec_attribute`.
    pub fn read_from_file(input: &mut ByteReader) -> (r: Result<XmlAttribute, ParseError>)
        ensures
            final(input).data@ == old(input).data@,
            r == spec_attribute(old(input).data@, old(input).pos as int),
            r is Ok ==> final(input).pos == old(input).pos + 20,
    {
        if !(input.pos < input.data.len() && input.data.len() - input.pos >= 20) {
            return Err(ParseError::IoError);
        }
        let ns = read_u32(input)?;
        let name = read_u32(input)?;
        let raw_value = read_u32(input)?;
        let typed_value = ResourceValue::read_from_file(input)?;
        Ok(XmlAttribute { ns, name, raw_value, typed_value })
    }

    /// Writes the twenty bytes of the attribute and returns their count.
    pub fn write_to_file(&self, output: &mut Vec<u8>) -> (n: usize)
        ensures
            final(output)@ == old(output)@ + attribute_bytes(*self),
            n == 20,
    {
        write_u32(output, self.ns);
        write_u32(output, self.name);
        write_u32(output, self.raw_value);
        self.typed_value.write_to_file(output);
        assert(final(output)@ =~= old(output)@ + attribute_bytes(*self));
        20
    }
}

/// An attribute array takes twenty bytes per attribute.
pub proof fn lemma_attributes_bytes_len(v: Seq<XmlAttribute>)
    ensures
        attributes_bytes(v).len() == 20 * v.len(),
    decreases v.len(),
{
    if v.len() > 0 {
        lemma_attributes_bytes_len(v.drop_last());
    }
}

/// An opening element takes 36 bytes, and twenty more per attribute.
pub proof fn lemma_start_element_bytes_len(e: XmlStartElementView)
    ensures
        start_element_bytes(e).len() == 36 + 20 * e.attributes.len(),
{
    lemma_attributes_bytes_len(e.attributes);
}

impl XmlStartElement {
    /// Reads the node that follows the chunk header `chunk_header`; see `spec_start_element`.
    pub fn read_from_file(input: &mut ByteReader, chunk_header: &ChunkHeader) -> (r: Result<XmlStartElement, ParseError>)
        ensures
            final(input).data@ == old(input).data@,
            match r {
                Ok(n) => spec_start_element(old(input).data@, old(input).pos as int, *chunk_header)
                    == Ok::<(XmlStartElementView, int), ParseError>((n@, final(input).pos as int)),
                Err(e) => spec_start_element(old(input).data@, old(input).pos as int, *chunk_header)
                    == Err::<(XmlStartElementView, int), ParseError>(e),
            },
    {
        let ghost s = input.data@;
        let ghost p = input.pos as int;
        if !(input.pos < input.data.len() && input.data.len() - input.pos >= 28) {
            return Err(ParseError::IoError);
        }
        let header = XmlNodeHeader::read_from_file(input, chunk_header)?;
        let attr_ext = XmlAttrExt::read_from_file(input)?;
        let count = attr_ext.attribute_count;
        let mut attributes: Vec<XmlAttribute> = Vec::new();
        let mut i: u16 = 0;
        while i < count
            invariant
                input.data@ == s,
                s == old(input).data@,
                p == old(input).pos,
                header == node_header_at(s, p, *chunk_header),
                0 <= i <= count,
                count == attr_ext.attribute_count,
                attr_ext == attr_ext_at(s, p + 8),
                input.pos == p + 28 + 20 * i,
                spec_attributes(s, p + 28, i as nat) == Ok::<Seq<XmlAttribute>, ParseError>(attributes@),
            decreases count - i,
        {
            let a = match XmlAttribute::read_from_file(input) {
                Ok(a) => a,
                Err(e) => {
                    proof {
                        lemma_attributes_err(s, p + 28, (i + 1) as nat, count as nat);
                    }
                    return Err(e);
                },
            };
            attributes.push(a);
            i = i + 1;
        }
        Ok(XmlStartElement { header, attr_ext, attributes })
    }

    /// Writes the node with its chunk header rebuilt and its lengths and attribute count
    /// recomputed from the attributes it holds, and returns the count of bytes written.
    pub fn write_to_file(&self, output: &mut Vec<u8>) -> (n: usize)
        requires
            self.attributes@.len() <= 0xFFFF,
        ensures
            final(output)@ == old(output)@ + start_element_bytes(self@),
            n == 36 + 20 * self.attributes@.len(),
    {
        let len = self.attributes.len();
        let h = XmlNodeHeader {
            chunk_header: ChunkHeader { typ: ResourceType::XmlStartElement, header_size: 16, size: (36 + 20 * len) as u32 },
            ..self.header
        };
        let mut ext = self.attr_ext;
        ext.attribute_start = 20;
        ext.attribute_size = 20;
        ext.attribute_count = len as u16;
        h.write_to_file(output);
        ext.write_to_file(output);
        let ghost start = output@;
        let mut i: usize = 0;
        while i < len
            invariant
                0 <= i <= len,
                len == self.attributes@.len(),
                output@ == start + attributes_bytes(self.attributes@.subrange(0, i as int)),
            decreases len - i,
        {
            self.attributes[i].write_to_file(output);
            proof {
                let v = self.attributes@.subrange(0, i + 1);
                assert(v.drop_last() =~= self.attributes@.subrange(0, i as int));
                assert(output@ =~= start + attributes_bytes(v));
            }
            i = i + 1;
        }
        proof {
            assert(self.attributes@.subrange(0, len as int) =~= self.attributes@);
            let c = canonical_start_element(self@);
            assert(c.header == h);
            assert(c.attr_ext == ext);
            assert(output@ =~= old(output)@ + start_element_bytes(self@));
        }
        36 + 20 * len
    }
}

impl XmlElement {
    /// Writes the node in its canonical form (see `canonical_element`) and returns the count
    /// of bytes written.
    pub fn write_to_file(&self, output: &mut Vec<u8>) -> (n: usize)
        requires
            self matches XmlElement::XmlStartElement(e) ==> e.attributes@.len() <= 0xFFFF,
        ensures
            final(output)@ == old(output)@ + element_bytes(self@),
            n == element_bytes(self@).len(),
    {
        match self {
            XmlElement::XmlStartNameSpace(d) => {
                let n = d.write_to_file(output);
                assert(pair_node_bytes(fixed_node_header(d.header, ResourceType::XmlStartNameSpace, 24), d.prefix, d.uri).len() == 24);
                n
            },
            XmlElement::XmlEndNameSpace(d) => {
                let n = d.write_to_file(output);
                assert(pair_node_bytes(fixed_node_header(d.header, ResourceType::XmlEndNameSpace, 24), d.prefix, d.uri).len() == 24);
                n
            },
            XmlElement::XmlStartElement(d) => {
                let n = d.write_to_file(output);
                proof {
                    lemma_start_element_bytes_len(d@);
                }
                n
            },
            XmlElement::XmlEndElement(d) => {
                let n = d.write_to_file(output);
                assert(pair_node_bytes(fixed_node_header(d.header, ResourceType::XmlEndElement, 24), d.ns, d.name).len() == 24);
                n
            },
            XmlElement::XmlCdata(d) => {
                let n = d.write_to_file(output);
                assert(cdata_bytes(XmlCdata { header: fixed_node_header(d.header, ResourceType::XmlCdata, 28), ..*d }).len() == 28);
                n
            },
        }
    }
}

} // verus!
