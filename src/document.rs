//! The outer `Xml` container: string pool, resource map and node chunks in order.
use vstd::prelude::*;

use crate::chunk::{header_bytes, header_sizes_valid, lemma_header_round_trip, lemma_patch_size, spec_header, ChunkHeader, ResourceType};
use crate::codec::{bytes32, fits, le32, lemma_le32_bytes32, patch_u32, read_u32, write_u32, ByteReader};
use crate::nodes::{
    element_bytes, element_tag_ok, is_node_type, lemma_node_tag_ok, spec_node, XmlCdata, XmlElement, XmlElementView, XmlEndElement,
    XmlEndNameSpace, XmlStartElement, XmlStartNameSpace,
};
use crate::stringpool::{is_utf8, lemma_pool_offsets_in_range, offsets_at, lemma_utf16_pool_short, strings_short, pool_bytes, spec_string_pool, StringPool, StringPoolView};
use crate::ParseError;

verus! {

/// The resource map whose chunk header `ch` ends at `p`: `(size - header_size) / 4`
/// identifiers, read from `p` on.
pub open spec fn spec_resource_map(s: Seq<u8>, p: int, ch: ChunkHeader) -> Result<(Seq<u32>, int), ParseError> {
    let n = (ch.size - ch.header_size) / 4;
    if fits(s, p, 4 * n) {
        Ok((Seq::new(n as nat, |k: int| le32(s, p + 4 * k)), p + 4 * n))
    } else {
        Err(ParseError::IoError)
    }
}

/// Reads the identifiers of a resource map whose chunk header was just read.
pub fn parse_resource_map(input: &mut ByteReader, header: &ChunkHeader) -> (r: Result<Vec<u32>, ParseError>)
    requires
        header_sizes_valid(*header),
    ensures
        final(input).data@ == old(input).data@,
        match r {
            Ok(ids) => spec_resource_map(old(input).data@, old(input).pos as int, *header)
                == Ok::<(Seq<u32>, int), ParseError>((ids@, final(input).pos as int)),
            Err(e) => spec_resource_map(old(input).data@, old(input).pos as int, *header)
                == Err::<(Seq<u32>, int), ParseError>(e),
        },
{
    let ghost s = input.data@;
    let ghost p = input.pos as int;
    let id_count = (header.size - header.header_size as u32) / 4;
    if !(input.pos <= input.data.len() && (input.data.len() - input.pos) / 4 >= id_count as usize) {
        return Err(ParseError::IoError);
    }
    assert(4 * id_count <= s.len() - p) by (nonlinear_arith)
        requires id_count <= (s.len() - p) / 4, s.len() - p >= 0;
    let mut ids: Vec<u32> = Vec::new();
    let mut i: u32 = 0;
    while i < id_count
        invariant
            input.data@ == s,
            0 <= i <= id_count,
            p + 4 * id_count <= s.len(),
            input.pos == p + 4 * i,
            ids@ == Seq::new(i as nat, |k: int| le32(s, p + 4 * k)),
        decreases id_count - i,
    {
        let v = read_u32(input)?;
        ids.push(v);
        i = i + 1;
        assert(ids@ =~= Seq::new(i as nat, |k: int| le32(s, p + 4 * k)));
    }
    Ok(ids)
}

/// What has been gathered from the chunks read so far.
pub struct ChunksState {
    pub elements: Seq<XmlElementView>,
    pub string_pool: Option<StringPoolView>,
    pub resource_map: Option<Seq<u32>>,
}

/// The chunk that starts at `p`, added to what was gathered, and where it ends. A second
/// string pool or resource map, and a chunk of any other type than these and the node
/// chunks, fail with `InvalidFile`.
pub open spec fn spec_chunk(s: Seq<u8>, p: int, st: ChunksState) -> Result<(ChunksState, int), ParseError> {
    match spec_header(s, p) {
        Err(e) => Err(e),
        Ok(h) => {
            if h.typ == ResourceType::StringPool {
                if st.string_pool is Some {
                    Err(ParseError::InvalidFile)
                } else {
                    match spec_string_pool(s, p + 8, h) {
                        Ok((pool, q)) => Ok((ChunksState { string_pool: Some(pool), ..st }, q)),
                        Err(e) => Err(e),
                    }
                }
            } else if h.typ == ResourceType::XmlResourceMap {
                if st.resource_map is Some {
                    Err(ParseError::InvalidFile)
                } else {
                    match spec_resource_map(s, p + 8, h) {
                        Ok((m, q)) => Ok((ChunksState { resource_map: Some(m), ..st }, q)),
                        Err(e) => Err(e),
                    }
                }
            } else if is_node_type(h.typ) {
                match spec_node(s, p + 8, h) {
                    Ok((n, q)) => Ok((ChunksState { elements: st.elements.push(n), ..st }, q)),
                    Err(e) => Err(e),
                }
            } else {
                Err(ParseError::InvalidFile)
            }
        },
    }
}

/// The chunks from `p` to the end of the input, gathered onto `st`, in file order. The
/// input ending exactly at a chunk boundary ends the sequence.
pub open spec fn spec_chunks(s: Seq<u8>, p: int, st: ChunksState) -> Result<ChunksState, ParseError>
    decreases s.len() - p,
{
    if p >= s.len() {
        Ok(st)
    } else {
        match spec_chunk(s, p, st) {
            Ok((st2, q)) => if q > p {
                spec_chunks(s, q, st2)
            } else {
                Err(ParseError::InvalidFile)
            },
            Err(e) => Err(e),
        }
    }
}

/// True when a pool gathered so far is tagged as one, holds as many strings as its header
/// counts and, if UTF-16, only strings shorter than 0x8000 units; and every node gathered
/// is of the kind its tag names.
pub open spec fn gathered_well_formed(st: ChunksState) -> bool {
    &&& st.string_pool matches Some(v) ==> v.strings.len() == v.header.string_count
        && v.header.chunk_header.typ == ResourceType::StringPool && (!is_utf8(v.header.flags) ==> strings_short(
        v.strings,
    ))
    &&& forall|i: int| 0 <= i < st.elements.len() ==> element_tag_ok(#[trigger] st.elements[i])
}

/// One chunk adds its node, if it is one, after the nodes gathered before it, and keeps
/// the pool's count in step with its strings.
pub proof fn lemma_chunk_appends(s: Seq<u8>, p: int, st: ChunksState)
    requires
        spec_chunk(s, p, st) is Ok,
        gathered_well_formed(st),
    ensures
        ({
            let (st2, q) = spec_chunk(s, p, st)->Ok_0;
            &&& gathered_well_formed(st2)
            &&& q >= p + 8
            &&& (st2.elements == st.elements || (st2.elements == st.elements.push(
                spec_node(s, p + 8, spec_header(s, p)->Ok_0)->Ok_0.0,
            )))
        }),
{
    let h = spec_header(s, p)->Ok_0;
    if h.typ == ResourceType::StringPool {
        lemma_pool_offsets_in_range(s, p + 8, h);
        if !is_utf8(spec_string_pool(s, p + 8, h)->Ok_0.0.header.flags) {
            lemma_utf16_pool_short(s, p + 8, h);
        }
    } else if h.typ != ResourceType::XmlResourceMap {
        lemma_node_tag_ok(s, p + 8, h);
        let st2 = spec_chunk(s, p, st)->Ok_0.0;
        assert forall|i: int| 0 <= i < st2.elements.len() implies element_tag_ok(#[trigger] st2.elements[i]) by {
            if i < st.elements.len() {
                assert(st2.elements[i] == st.elements[i]);
            }
        }
    }
}

/// Reading the chunks keeps the nodes gathered before them, in order, at the front, and
/// keeps the pool's count in step with its strings.
pub proof fn lemma_chunks_keep_order(s: Seq<u8>, p: int, st: ChunksState)
    requires
        spec_chunks(s, p, st) is Ok,
        gathered_well_formed(st),
    ensures
        ({
            let st2 = spec_chunks(s, p, st)->Ok_0;
            &&& gathered_well_formed(st2)
            &&& st.elements.len() <= st2.elements.len()
            &&& st2.elements.take(st.elements.len() as int) == st.elements
        }),
    decreases s.len() - p,
{
    if p < s.len() {
        let (st2, q) = spec_chunk(s, p, st)->Ok_0;
        lemma_chunk_appends(s, p, st);
        lemma_chunks_keep_order(s, q, st2);
        let fin = spec_chunks(s, q, st2)->Ok_0;
        assert(fin.elements.take(st.elements.len() as int) =~= fin.elements.take(st2.elements.len() as int).take(
            st.elements.len() as int,
        ));
        assert(st2.elements.take(st.elements.len() as int) =~= st.elements);
    } else {
        assert(st.elements.take(st.elements.len() as int) =~= st.elements);
    }
}

/// True when a node chunk starts at `q` and reads as `e`.
pub open spec fn node_at(s: Seq<u8>, q: int, e: XmlElementView) -> bool {
    &&& spec_header(s, q) is Ok
    &&& is_node_type(spec_header(s, q)->Ok_0.typ)
    &&& spec_node(s, q + 8, spec_header(s, q)->Ok_0) is Ok
    &&& spec_node(s, q + 8, spec_header(s, q)->Ok_0)->Ok_0.0 == e
}

/// Where the node chunks among the chunks from `p` on start, in file order.
pub open spec fn node_positions(s: Seq<u8>, p: int, st: ChunksState) -> Seq<int>
    decreases s.len() - p,
{
    if p >= s.len() {
        Seq::empty()
    } else {
        match spec_chunk(s, p, st) {
            Ok((st2, q)) => if q > p {
                if is_node_type(spec_header(s, p)->Ok_0.typ) {
                    seq![p] + node_positions(s, q, st2)
                } else {
                    node_positions(s, q, st2)
                }
            } else {
                Seq::empty()
            },
            Err(_) => Seq::empty(),
        }
    }
}

/// The nodes gathered from the chunks from `p` on are, one for one and in the same order,
/// the node chunks that stand in the input at increasing positions.
pub proof fn lemma_nodes_in_file_order(s: Seq<u8>, p: int, st: ChunksState)
    requires
        spec_chunks(s, p, st) is Ok,
        gathered_well_formed(st),
    ensures
        ({
            let fin = spec_chunks(s, p, st)->Ok_0;
            let qs = node_positions(s, p, st);
            &&& qs.len() + st.elements.len() == fin.elements.len()
            &&& forall|j: int| 0 <= j < qs.len() ==> p <= #[trigger] qs[j] && node_at(s, qs[j], fin.elements[st.elements.len() + j])
            &&& forall|j: int| 0 < j < qs.len() ==> qs[j - 1] < #[trigger] qs[j]
        }),
    decreases s.len() - p,
{
    if p < s.len() {
        let (st2, q) = spec_chunk(s, p, st)->Ok_0;
        lemma_chunk_appends(s, p, st);
        lemma_nodes_in_file_order(s, q, st2);
        lemma_chunks_keep_order(s, q, st2);
        let fin = spec_chunks(s, p, st)->Ok_0;
        let rest = node_positions(s, q, st2);
        let h = spec_header(s, p)->Ok_0;
        if is_node_type(h.typ) {
            let n = spec_node(s, p + 8, h)->Ok_0.0;
            assert(st2.elements == st.elements.push(n));
            let qs = node_positions(s, p, st);
            assert(qs == seq![p] + rest);
            assert(fin.elements[st.elements.len() as int] == fin.elements.take(st2.elements.len() as int)[st.elements.len() as int]);
            assert forall|j: int| 0 <= j < qs.len() implies p <= #[trigger] qs[j] && node_at(s, qs[j], fin.elements[st.elements.len() + j]) by {
                if j > 0 {
                    assert(qs[j] == rest[j - 1]);
                    assert(st.elements.len() + j == st2.elements.len() + (j - 1));
                }
            }
            assert forall|j: int| 0 < j < qs.len() implies qs[j - 1] < #[trigger] qs[j] by {
                assert(qs[j] == rest[j - 1]);
                if j > 1 {
                    assert(qs[j - 1] == rest[j - 2]);
                }
            }
        } else {
            assert(st2.elements == st.elements);
        }
    }
}

/// For every document that parses, its nodes are, one for one and in the same order, the
/// node chunks that stand in the input at increasing positions.
pub proof fn lemma_document_nodes_in_file_order(s: Seq<u8>, p: int)
    requires
        spec_document(s, p) is Ok,
    ensures
        ({
            let d = spec_document(s, p)->Ok_0;
            let qs = node_positions(s, p + 8, empty_state());
            &&& qs.len() == d.elements.len()
            &&& forall|j: int| 0 <= j < qs.len() ==> node_at(s, #[trigger] qs[j], d.elements[j])
            &&& forall|j: int| 0 < j < qs.len() ==> qs[j - 1] < #[trigger] qs[j]
        }),
{
    lemma_nodes_in_file_order(s, p + 8, empty_state());
    let qs = node_positions(s, p + 8, empty_state());
    let d = spec_document(s, p)->Ok_0;
    assert forall|j: int| 0 <= j < qs.len() implies node_at(s, #[trigger] qs[j], d.elements[j]) by {
        assert(empty_state().elements.len() + j == j);
    }
}

/// Where the string pool chunk among the chunks from `p` on starts, or -1 if none does.
pub open spec fn pool_position(s: Seq<u8>, p: int, st: ChunksState) -> int
    decreases s.len() - p,
{
    if p >= s.len() {
        -1
    } else {
        match spec_chunk(s, p, st) {
            Ok((st2, q)) => if q > p {
                if spec_header(s, p)->Ok_0.typ == ResourceType::StringPool {
                    p
                } else {
                    pool_position(s, q, st2)
                }
            } else {
                -1
            },
            Err(_) => -1,
        }
    }
}

/// Once a pool is gathered, the chunks that follow keep it.
proof fn lemma_pool_kept(s: Seq<u8>, p: int, st: ChunksState)
    requires
        spec_chunks(s, p, st) is Ok,
        st.string_pool is Some,
    ensures
        spec_chunks(s, p, st)->Ok_0.string_pool == st.string_pool,
    decreases s.len() - p,
{
    if p < s.len() {
        let (st2, q) = spec_chunk(s, p, st)->Ok_0;
        lemma_pool_kept(s, q, st2);
    }
}

/// The pool gathered from the chunks from `p` on is the one read from the pool chunk at
/// `pool_position`.
proof fn lemma_pool_found(s: Seq<u8>, p: int, st: ChunksState)
    requires
        spec_chunks(s, p, st) is Ok,
        st.string_pool is None,
        spec_chunks(s, p, st)->Ok_0.string_pool is Some,
    ensures
        ({
            let c = pool_position(s, p, st);
            let h = spec_header(s, c)->Ok_0;
            &&& p <= c
            &&& spec_header(s, c) is Ok
            &&& h.typ == ResourceType::StringPool
            &&& spec_string_pool(s, c + 8, h) is Ok
            &&& spec_string_pool(s, c + 8, h)->Ok_0.0 == spec_chunks(s, p, st)->Ok_0.string_pool->Some_0
        }),
    decreases s.len() - p,
{
    if p < s.len() {
        let (st2, q) = spec_chunk(s, p, st)->Ok_0;
        if spec_header(s, p)->Ok_0.typ == ResourceType::StringPool {
            lemma_pool_kept(s, q, st2);
        } else {
            lemma_pool_found(s, q, st2);
        }
    }
}

/// For every document that parses, its strings were read from a string pool chunk in the
/// input, and every offset of that pool leaves room for a length inside its string data.
pub proof fn lemma_document_offsets_in_range(s: Seq<u8>, p: int)
    requires
        spec_document(s, p) is Ok,
    ensures
        ({
            let d = spec_document(s, p)->Ok_0;
            let c = pool_position(s, p + 8, empty_state());
            let ch = spec_header(s, c)->Ok_0;
            let buf = s.subrange(c + ch.header_size, c + ch.size);
            let data = buf.subrange(d.string_pool.header.string_start - ch.header_size, buf.len() as int);
            &&& spec_header(s, c) is Ok
            &&& ch.typ == ResourceType::StringPool
            &&& spec_string_pool(s, c + 8, ch) is Ok
            &&& spec_string_pool(s, c + 8, ch)->Ok_0.0 == d.string_pool
            &&& d.string_pool.strings.len() == d.string_pool.header.string_count
            &&& forall|k: int|
                0 <= k < d.string_pool.strings.len() ==> #[trigger] offsets_at(buf, d.string_pool.header.string_count as nat)[k]
                    + 2 <= data.len()
        }),
{
    lemma_pool_found(s, p + 8, empty_state());
    let c = pool_position(s, p + 8, empty_state());
    let ch = spec_header(s, c)->Ok_0;
    lemma_pool_offsets_in_range(s, c + 8, ch);
}

/// For every document that parses, its string pool holds exactly as many strings as the
/// pool header counts, and each node is of the kind its chunk tag names.
pub proof fn lemma_parsed_document_well_formed(s: Seq<u8>, p: int)
    requires
        spec_document(s, p) is Ok,
    ensures
        spec_document(s, p)->Ok_0.string_pool.strings.len() == spec_document(s, p)->Ok_0.string_pool.header.string_count,
        spec_document(s, p)->Ok_0.string_pool.header.chunk_header.typ == ResourceType::StringPool,
        !is_utf8(spec_document(s, p)->Ok_0.string_pool.header.flags) ==> strings_short(
            spec_document(s, p)->Ok_0.string_pool.strings,
        ),
        forall|i: int|
            0 <= i < spec_document(s, p)->Ok_0.elements.len() ==> element_tag_ok(
                #[trigger] spec_document(s, p)->Ok_0.elements[i],
            ),
{
    lemma_chunks_keep_order(s, p + 8, empty_state());
}

/// What a document holds: its node chunks in file order, its string pool and its resource map.
pub struct DocumentView {
    pub elements: Seq<XmlElementView>,
    pub string_pool: StringPoolView,
    pub resource_map: Seq<u32>,
}

/// Nothing gathered yet.
pub open spec fn empty_state() -> ChunksState {
    ChunksState { elements: Seq::empty(), string_pool: None, resource_map: None }
}

/// The document that starts at `p`: an `Xml` chunk header, then chunks up to the end of the
/// input, among which exactly one string pool and one resource map.
pub open spec fn spec_document(s: Seq<u8>, p: int) -> Result<DocumentView, ParseError> {
    match spec_header(s, p) {
        Err(e) => Err(e),
        Ok(h) => if h.typ != ResourceType::Xml {
            Err(ParseError::InvalidFile)
        } else {
            match spec_chunks(s, p + 8, empty_state()) {
                Err(e) => Err(e),
                Ok(st) => match st.string_pool {
                    None => Err(ParseError::MissingStringPoolChunk),
                    Some(pool) => match st.resource_map {
                        None => Err(ParseError::MissingResourceMapChunk),
                        Some(m) => Ok(DocumentView { elements: st.elements, string_pool: pool, resource_map: m }),
                    },
                },
            }
        },
    }
}

/// The views of a sequence of nodes.
pub open spec fn element_views(v: Seq<XmlElement>) -> Seq<XmlElementView> {
    v.map_values(|e: XmlElement| e@)
}

/// The view of a string pool that may be absent.
pub open spec fn pool_view(p: Option<StringPool>) -> Option<StringPoolView> {
    match p {
        Some(pool) => Some(pool@),
        None => None,
    }
}

/// The view of a resource map that may be absent.
pub open spec fn map_view(m: Option<Vec<u32>>) -> Option<Seq<u32>> {
    match m {
        Some(v) => Some(v@),
        None => None,
    }
}

/// A decoded document.
pub struct BinaryXmlDocument {
    pub elements: Vec<XmlElement>,
    pub string_pool: StringPool,
    pub resource_map: Vec<u32>,
}

impl View for BinaryXmlDocument {
    type V = DocumentView;

    open spec fn view(&self) -> DocumentView {
        DocumentView {
            elements: element_views(self.elements@),
            string_pool: self.string_pool@,
            resource_map: self.resource_map@,
        }
    }
}

/// The state gathered from the exec values read so far.
pub open spec fn state_of(elements: Seq<XmlElement>, string_pool: Option<StringPool>, resource_map: Option<Vec<u32>>) -> ChunksState {
    ChunksState {
        elements: element_views(elements),
        string_pool: pool_view(string_pool),
        resource_map: map_view(resource_map),
    }
}

impl BinaryXmlDocument {
    /// Reads a whole document from the reader's position to the end of its input; see
    /// `spec_document`.
    pub fn read_from_file(input: &mut ByteReader) -> (r: Result<BinaryXmlDocument, ParseError>)
        ensures
            match r {
                Ok(d) => spec_document(old(input).data@, old(input).pos as int) == Ok::<DocumentView, ParseError>(d@),
                Err(e) => spec_document(old(input).data@, old(input).pos as int) == Err::<DocumentView, ParseError>(e),
            },
    {
        let ghost s = input.data@;
        let ghost start = input.pos as int;
        let header = ChunkHeader::read_from_file(input)?;
        if header.typ != ResourceType::Xml {
            return Err(ParseError::InvalidFile);
        }
        let mut elements: Vec<XmlElement> = Vec::new();
        let mut string_pool: Option<StringPool> = None;
        let mut resource_map: Option<Vec<u32>> = None;
        assert(element_views(elements@) =~= Seq::<XmlElementView>::empty());
        while !input.at_end()
            invariant
                input.data@ == s,
                s == old(input).data@,
                start == old(input).pos,
                spec_header(s, start) == Ok::<ChunkHeader, ParseError>(header),
                header.typ == ResourceType::Xml,
                start + 8 <= input.pos,
                spec_chunks(s, start + 8, empty_state()) == spec_chunks(
                    s,
                    input.pos as int,
                    state_of(elements@, string_pool, resource_map),
                ),
            decreases s.len() - input.pos,
        {
            let ghost prev = elements@;
            let h = ChunkHeader::read_from_file(input)?;
            match h.typ {
                ResourceType::StringPool => {
                    if string_pool.is_some() {
                        return Err(ParseError::InvalidFile);
                    }
                    let pool = StringPool::read_from_file(input, &h)?;
                    string_pool = Some(pool);
                },
                ResourceType::XmlResourceMap => {
                    if resource_map.is_some() {
                        return Err(ParseError::InvalidFile);
                    }
                    let ids = parse_resource_map(input, &h)?;
                    resource_map = Some(ids);
                },
                ResourceType::XmlStartNameSpace => {
                    let n = XmlStartNameSpace::read_from_file(input, &h)?;
                    elements.push(XmlElement::XmlStartNameSpace(n));
                },
                ResourceType::XmlEndNameSpace => {
                    let n = XmlEndNameSpace::read_from_file(input, &h)?;
                    elements.push(XmlElement::XmlEndNameSpace(n));
                },
                ResourceType::XmlStartElement => {
                    let n = XmlStartElement::read_from_file(input, &h)?;
                    elements.push(XmlElement::XmlStartElement(n));
                },
                ResourceType::XmlEndElement => {
                    let n = XmlEndElement::read_from_file(input, &h)?;
                    elements.push(XmlElement::XmlEndElement(n));
                },
                ResourceType::XmlCdata => {
                    let n = XmlCdata::read_from_file(input, &h)?;
                    elements.push(XmlElement::XmlCdata(n));
                },
                _ => {
                    return Err(ParseError::InvalidFile);
                },
            }
            proof {
                if elements@.len() > prev.len() {
                    assert(element_views(elements@) =~= element_views(prev).push(elements@.last()@));
                }
            }
        }
        match string_pool {
            None => Err(ParseError::MissingStringPoolChunk),
            Some(pool) => match resource_map {
                None => Err(ParseError::MissingResourceMapChunk),
                Some(ids) => Ok(BinaryXmlDocument { elements, string_pool: pool, resource_map: ids }),
            },
        }
    }
}

/// The identifiers of a resource map, four little-endian bytes each.
pub open spec fn ids_bytes(m: Seq<u32>) -> Seq<u8>
    decreases m.len(),
{
    if m.len() == 0 {
        Seq::empty()
    } else {
        ids_bytes(m.drop_last()) + bytes32(m.last())
    }
}

/// The header of a resource map chunk holding `n` identifiers.
pub open spec fn resource_map_header(n: nat) -> ChunkHeader {
    ChunkHeader { typ: ResourceType::XmlResourceMap, header_size: 8, size: (4 * n + 8) as u32 }
}

/// A resource map chunk as it is written.
pub open spec fn resource_map_bytes(m: Seq<u32>) -> Seq<u8> {
    header_bytes(resource_map_header(m.len())) + ids_bytes(m)
}

/// Node chunks as they are written, one after another.
pub open spec fn elements_bytes(v: Seq<XmlElementView>) -> Seq<u8>
    decreases v.len(),
{
    if v.len() == 0 {
        Seq::empty()
    } else {
        elements_bytes(v.drop_last()) + element_bytes(v.last())
    }
}

/// What follows the outer header of a written document.
pub open spec fn document_body(d: DocumentView) -> Seq<u8> {
    pool_bytes(d.string_pool) + resource_map_bytes(d.resource_map) + elements_bytes(d.elements)
}

/// The outer header of a written document whose body is `body`.
pub open spec fn document_header(body: Seq<u8>) -> ChunkHeader {
    ChunkHeader { typ: ResourceType::Xml, header_size: 8, size: (8 + body.len()) as u32 }
}

/// A document as it is written: the outer `Xml` header with the total length, the string
/// pool, the resource map, then every node in order.
pub open spec fn document_bytes(d: DocumentView) -> Seq<u8> {
    header_bytes(document_header(document_body(d))) + document_body(d)
}

/// True when each count that the written form stores fits its field.
pub open spec fn writable(d: DocumentView) -> bool {
    &&& d.string_pool.strings.len() <= 0xFFFF_FFFF
    &&& d.resource_map.len() <= 0xFFFF_FFFF
    &&& forall|i: int|
        0 <= i < d.elements.len() ==> (#[trigger] d.elements[i] matches XmlElementView::StartElement(e)
            ==> e.attributes.len() <= 0xFFFF)
}

/// The identifiers of a resource map take four bytes each.
pub proof fn lemma_ids_bytes_len(m: Seq<u32>)
    ensures
        ids_bytes(m).len() == 4 * m.len(),
    decreases m.len(),
{
    if m.len() > 0 {
        lemma_ids_bytes_len(m.drop_last());
    }
}

/// The `k`-th identifier reads back from its place in the written identifiers.
proof fn lemma_ids_bytes_read(m: Seq<u32>, pre: Seq<u8>, post: Seq<u8>, k: int)
    requires
        0 <= k < m.len(),
    ensures
        le32(pre + ids_bytes(m) + post, pre.len() + 4 * k) == m[k],
    decreases m.len(),
{
    let ml = m.drop_last();
    lemma_ids_bytes_len(ml);
    if k == m.len() - 1 {
        assert(pre + ids_bytes(m) + post =~= (pre + ids_bytes(ml)) + bytes32(m.last()) + post);
        lemma_le32_bytes32(m.last(), pre + ids_bytes(ml), post);
    } else {
        assert(pre + ids_bytes(m) + post =~= pre + ids_bytes(ml) + (bytes32(m.last()) + post));
        lemma_ids_bytes_read(ml, pre, bytes32(m.last()) + post, k);
    }
}

/// A written resource map chunk declares a size of four bytes per identifier plus eight,
/// and reads back as the same identifiers, wherever it stands.
pub proof fn lemma_resource_map_round_trip(m: Seq<u32>, pre: Seq<u8>, post: Seq<u8>)
    requires
        4 * m.len() + 8 <= 0xFFFF_FFFF,
    ensures
        resource_map_header(m.len()).size == 4 * m.len() + 8,
        spec_header(pre + resource_map_bytes(m) + post, pre.len() as int) == Ok::<ChunkHeader, ParseError>(
            resource_map_header(m.len()),
        ),
        spec_resource_map(pre + resource_map_bytes(m) + post, pre.len() as int + 8, resource_map_header(m.len()))
            == Ok::<(Seq<u32>, int), ParseError>((m, pre.len() as int + 8 + 4 * m.len())),
{
    let h = resource_map_header(m.len());
    let s = pre + resource_map_bytes(m) + post;
    assert(s =~= pre + header_bytes(h) + (ids_bytes(m) + post));
    lemma_header_round_trip(h, pre, ids_bytes(m) + post);
    lemma_ids_bytes_len(m);
    let pre2 = pre + header_bytes(h);
    assert(s =~= pre2 + ids_bytes(m) + post);
    assert forall|k: int| 0 <= k < m.len() implies le32(s, pre.len() + 8 + 4 * k) == m[k] by {
        lemma_ids_bytes_read(m, pre2, post, k);
    }
    assert(Seq::new(m.len(), |k: int| le32(s, pre.len() + 8 + 4 * k)) =~= m);
}

/// Writes a resource map chunk holding `ids` and returns the count of bytes written.
pub fn write_resource_map(output: &mut Vec<u8>, ids: &Vec<u32>) -> (n: usize)
    requires
        ids@.len() <= 0xFFFF_FFFF,
    ensures
        final(output)@ == old(output)@ + resource_map_bytes(ids@),
        n == resource_map_bytes(ids@).len(),
        n == 8 + 4 * ids@.len(),
{
    proof {
        lemma_ids_bytes_len(ids@);
    }
    let start = output.len();
    let header = ChunkHeader {
        typ: ResourceType::XmlResourceMap,
        header_size: 8,
        size: ((ids.len() as u64) * 4 + 8) as u32,
    };
    header.write_to_file(output);
    let ghost mid = output@;
    let mut i: usize = 0;
    while i < ids.len()
        invariant
            0 <= i <= ids@.len(),
            output@ == mid + ids_bytes(ids@.take(i as int)),
        decreases ids@.len() - i,
    {
        write_u32(output, ids[i]);
        assert(ids@.take(i + 1).drop_last() =~= ids@.take(i as int));
        i = i + 1;
    }
    assert(ids@.take(ids@.len() as int) =~= ids@);
    assert(output@ =~= old(output)@ + resource_map_bytes(ids@));
    output.len() - start
}

/// Writes the node chunks in order.
fn write_elements(output: &mut Vec<u8>, elements: &Vec<XmlElement>)
    requires
        forall|i: int|
            0 <= i < elements@.len() ==> (#[trigger] elements@[i] matches XmlElement::XmlStartElement(e)
                ==> e.attributes@.len() <= 0xFFFF),
    ensures
        final(output)@ == old(output)@ + elements_bytes(element_views(elements@)),
{
    let ghost v = element_views(elements@);
    let mut i: usize = 0;
    while i < elements.len()
        invariant
            0 <= i <= elements@.len(),
            v == element_views(elements@),
            forall|i: int|
                0 <= i < elements@.len() ==> (#[trigger] elements@[i] matches XmlElement::XmlStartElement(e)
                    ==> e.attributes@.len() <= 0xFFFF),
            output@ == old(output)@ + elements_bytes(v.take(i as int)),
        decreases elements@.len() - i,
    {
        elements[i].write_to_file(output);
        assert(v.take(i + 1).drop_last() =~= v.take(i as int));
        i = i + 1;
    }
    assert(v.take(v.len() as int) =~= v);
}

impl BinaryXmlDocument {
    /// True when the document can be written: see `writable`.
    pub fn is_writable(&self) -> (r: bool)
        ensures
            r == writable(self@),
    {
        if self.string_pool.strings.len() > 0xFFFF_FFFF || self.resource_map.len() > 0xFFFF_FFFF {
            return false;
        }
        let mut i: usize = 0;
        while i < self.elements.len()
            invariant
                0 <= i <= self.elements@.len(),
                forall|j: int|
                    0 <= j < i ==> (#[trigger] self@.elements[j] matches XmlElementView::StartElement(e)
                        ==> e.attributes.len() <= 0xFFFF),
            decreases self.elements@.len() - i,
        {
            if let XmlElement::XmlStartElement(e) = &self.elements[i] {
                if e.attributes.len() > 0xFFFF {
                    assert(self@.elements[i as int] matches XmlElementView::StartElement(v));
                    return false;
                }
            }
            i = i + 1;
        }
        true
    }

    /// Writes the document (see `document_bytes`) and returns the count of bytes written.
    #[verifier::spinoff_prover]
    pub fn write_to_file(&self, output: &mut Vec<u8>) -> (n: usize)
        requires
            writable(self@),
        ensures
            final(output)@ == old(output)@ + document_bytes(self@),
            n == document_bytes(self@).len(),
    {
        let start = output.len();
        let header = ChunkHeader { typ: ResourceType::Xml, header_size: 8, size: 0 };
        header.write_to_file(output);
        self.string_pool.write_to_file(output);
        write_resource_map(output, &self.resource_map);
        assert forall|i: int|
            0 <= i < self.elements@.len() implies (#[trigger] self.elements@[i] matches XmlElement::XmlStartElement(e)
                ==> e.attributes@.len() <= 0xFFFF) by {
            assert(self@.elements[i] == self.elements@[i]@);
        }
        write_elements(output, &self.elements);
        let total = output.len() - start;
        let ghost unpatched = output@;
        patch_u32(output, start + 4, total as u32);
        proof {
            let body = document_body(self@);
            assert(unpatched =~= old(output)@ + header_bytes(header) + body);
            lemma_patch_size(old(output)@, header, body, total as u32);
        }
        total
    }
}

impl BinaryXmlDocument {
    /// The number of node chunks.
    pub fn element_count(&self) -> (r: usize)
        ensures
            r == self@.elements.len(),
    {
        self.elements.len()
    }

    /// The node chunk at position `i`, in file order.
    pub fn element(&self, i: usize) -> (r: Option<&XmlElement>)
        ensures
            match r {
                Some(e) => i < self@.elements.len() && e@ == self@.elements[i as int],
                None => i >= self@.elements.len(),
            },
    {
        if i < self.elements.len() {
            Some(&self.elements[i])
        } else {
            None
        }
    }

    /// The string at pool index `i`: absent for `0xFFFFFFFF` and past the end of the pool.
    pub fn get_string(&self, i: u32) -> (r: Option<&String>)
        ensures
            match r {
                Some(t) => i != 0xFFFF_FFFF && i < self@.string_pool.strings.len() && t@
                    == self@.string_pool.strings[i as int],
                None => i == 0xFFFF_FFFF || i >= self@.string_pool.strings.len(),
            },
    {
        self.string_pool.get(i as usize)
    }

    /// The resource identifier at index `i` of the resource map.
    pub fn resource_id(&self, i: u32) -> (r: Result<u32, ParseError>)
        ensures
            i < self@.resource_map.len() ==> r == Ok::<u32, ParseError>(self@.resource_map[i as int]),
            i >= self@.resource_map.len() ==> r == Err::<u32, ParseError>(ParseError::ResourceIdNotFound(i)),
    {
        if (i as usize) < self.resource_map.len() {
            Ok(self.resource_map[i as usize])
        } else {
            Err(ParseError::ResourceIdNotFound(i))
        }
    }
}

} // verus!
