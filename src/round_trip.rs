//! What the writer emits reads back: record by record, then the string pool, then a whole
//! document whose strings are UTF-16.
use vstd::prelude::*;
use vstd::utf8::{char_is_scalar, char_u32_cast};

use crate::codec::{bytes16, bytes32, le16, le32, lemma_le16_bytes16, lemma_le32_bytes32};
use crate::document::{
    document_body, document_bytes, document_header, elements_bytes, empty_state, lemma_resource_map_round_trip,
    lemma_parsed_document_well_formed, resource_map_bytes, resource_map_header, spec_chunk, spec_chunks, spec_document, spec_resource_map,
    ChunksState, DocumentView,
};
use crate::chunk::{header_bytes, header_sizes_valid, is_chunk_type, lemma_type_of_tag_of, spec_header, tag_of, ChunkHeader, ResourceType};
use crate::nodes::{
    attr_ext_at, attr_ext_bytes, attribute_bytes, attributes_bytes, canonical_element, canonical_start_element,
    cdata_bytes, fixed_node_header, XmlCdata,
    element_bytes, element_tag_ok, is_node_type, lemma_attributes_bytes_len, lemma_start_element_bytes_len, node_header_at,
    node_header_bytes, pair_node_bytes, spec_attribute, spec_attributes, spec_node, start_element_bytes,
    XmlAttrExt, XmlAttribute, XmlElementView, XmlNodeHeader,
};
use crate::resource_value::{lemma_type_of_code_of, resource_value_bytes, spec_resource_value, ResourceValue};
use crate::stringpool::{
    canonical_pool_header, char_utf16, is_utf8, lemma_offsets_bytes_len, offsets_bytes, pool_bytes,
    pool_header_at, pool_header_bytes, spec_string_pool, spec_strings, spec_utf16_string, string_bytes,
    strings_data, strings_short, units_at, units_bytes, utf16_decode, utf16_encode, StringPoolHeader,
    StringPoolView,
};
use crate::ParseError;

verus! {

/// True when `b` stands in `s` from position `k` on.
pub open spec fn at(s: Seq<u8>, k: int, b: Seq<u8>) -> bool {
    0 <= k && k + b.len() <= s.len() && s.subrange(k, k + b.len()) == b
}

/// Bytes that stand somewhere stand there piece by piece.
pub proof fn lemma_at_split(s: Seq<u8>, k: int, a: Seq<u8>, b: Seq<u8>)
    requires
        at(s, k, a + b),
    ensures
        at(s, k, a),
        at(s, k + a.len(), b),
{
    let w = s.subrange(k, k + (a + b).len());
    assert forall|i: int| 0 <= i < a.len() implies #[trigger] s.subrange(k, k + a.len())[i] == a[i] by {
        assert(w[i] == (a + b)[i]);
    }
    assert forall|i: int| 0 <= i < b.len() implies #[trigger] s.subrange(k + a.len(), k + a.len() + b.len())[i] == b[i] by {
        assert(w[a.len() + i] == (a + b)[a.len() + i]);
    }
    assert(s.subrange(k, k + a.len()) =~= a);
    assert(s.subrange(k + a.len(), k + a.len() + b.len()) =~= b);
}

/// Bytes stand where they were put between two others.
pub proof fn lemma_at_whole(pre: Seq<u8>, b: Seq<u8>, post: Seq<u8>)
    ensures
        at(pre + b + post, pre.len() as int, b),
{
    assert((pre + b + post).subrange(pre.len() as int, pre.len() + b.len() as int) =~= b);
}

/// The encoding of a 32-bit value reads back as that value.
pub proof fn lemma_at_le32(s: Seq<u8>, k: int, v: u32)
    requires
        at(s, k, bytes32(v)),
    ensures
        le32(s, k) == v,
{
    lemma_le32_bytes32(v, Seq::empty(), Seq::empty());
    assert(Seq::<u8>::empty() + bytes32(v) + Seq::<u8>::empty() =~= bytes32(v));
    assert(s[k] == bytes32(v)[0]);
    assert(s[k + 1] == bytes32(v)[1]);
    assert(s[k + 2] == bytes32(v)[2]);
    assert(s[k + 3] == bytes32(v)[3]);
}

/// The encoding of a 16-bit value reads back as that value.
pub proof fn lemma_at_le16(s: Seq<u8>, k: int, v: u16)
    requires
        at(s, k, bytes16(v)),
    ensures
        le16(s, k) == v,
{
    lemma_le16_bytes16(v, Seq::empty(), Seq::empty());
    assert(Seq::<u8>::empty() + bytes16(v) + Seq::<u8>::empty() =~= bytes16(v));
    assert(s[k] == bytes16(v)[0]);
    assert(s[k + 1] == bytes16(v)[1]);
}

/// A written resource value reads back.
pub proof fn lemma_resource_value_reads_back(s: Seq<u8>, k: int, v: ResourceValue)
    requires
        at(s, k, resource_value_bytes(v)),
    ensures
        spec_resource_value(s, k) == Ok::<ResourceValue, ParseError>(v),
{
    let mid = seq![v.res, crate::resource_value::code_of(v.data_type)];
    lemma_at_split(s, k, bytes16(v.size) + mid, bytes32(v.data));
    lemma_at_split(s, k, bytes16(v.size), mid);
    lemma_at_le16(s, k, v.size);
    lemma_at_le32(s, k + 4, v.data);
    assert(s[k + 2] == mid[0]);
    assert(s[k + 3] == mid[1]);
    lemma_type_of_code_of(v.data_type);
}

/// A written attribute reads back.
pub proof fn lemma_attribute_reads_back(s: Seq<u8>, k: int, a: XmlAttribute)
    requires
        at(s, k, attribute_bytes(a)),
    ensures
        spec_attribute(s, k) == Ok::<XmlAttribute, ParseError>(a),
{
    lemma_at_split(s, k, bytes32(a.ns) + bytes32(a.name) + bytes32(a.raw_value), resource_value_bytes(a.typed_value));
    lemma_at_split(s, k, bytes32(a.ns) + bytes32(a.name), bytes32(a.raw_value));
    lemma_at_split(s, k, bytes32(a.ns), bytes32(a.name));
    lemma_at_le32(s, k, a.ns);
    lemma_at_le32(s, k + 4, a.name);
    lemma_at_le32(s, k + 8, a.raw_value);
    lemma_resource_value_reads_back(s, k + 12, a.typed_value);
}

/// A written attribute array reads back.
pub proof fn lemma_attributes_read_back(s: Seq<u8>, k: int, v: Seq<XmlAttribute>)
    requires
        at(s, k, attributes_bytes(v)),
    ensures
        spec_attributes(s, k, v.len()) == Ok::<Seq<XmlAttribute>, ParseError>(v),
    decreases v.len(),
{
    if v.len() > 0 {
        let vl = v.drop_last();
        lemma_at_split(s, k, attributes_bytes(vl), attribute_bytes(v.last()));
        lemma_attributes_read_back(s, k, vl);
        lemma_attributes_bytes_len(vl);
        lemma_attribute_reads_back(s, k + 20 * vl.len(), v.last());
        assert(vl.push(v.last()) =~= v);
    } else {
        assert(v =~= Seq::<XmlAttribute>::empty());
    }
}

/// UTF-16 decoding undoes UTF-16 encoding.
pub proof fn lemma_utf16_round_trip(t: Seq<char>)
    ensures
        utf16_decode(utf16_encode(t)) == Some(t),
    decreases t.len(),
{
    if t.len() > 0 {
        let c = t[0];
        let v = c as u32;
        let rest = t.drop_first();
        let u = utf16_encode(t);
        lemma_utf16_round_trip(rest);
        char_is_scalar(c);
        char_u32_cast(c, v);
        assert(u == char_utf16(c) + utf16_encode(rest));
        if v < 0x10000 {
            assert(u[0] == v as u16);
            assert(u.drop_first() =~= utf16_encode(rest));
            assert((u[0] as u32) == v);
        } else {
            let w = v - 0x10000;
            assert(u[0] == (0xD800 + w / 0x400) as u16);
            assert(u[1] == (0xDC00 + w % 0x400) as u16);
            assert(u.subrange(2, u.len() as int) =~= utf16_encode(rest));
            assert(w / 0x400 < 0x400);
            assert(0x10000 + (w / 0x400) * 0x400 + w % 0x400 == v);
        }
        assert(seq![c] + rest =~= t);
    } else {
        assert(t =~= Seq::<char>::empty());
    }
}

/// Code units written one after another read back one by one.
pub proof fn lemma_units_read_back(s: Seq<u8>, k: int, u: Seq<u16>)
    requires
        at(s, k, units_bytes(u)),
    ensures
        units_at(s, k, u.len()) == u,
    decreases u.len(),
{
    if u.len() > 0 {
        let ul = u.drop_last();
        lemma_at_split(s, k, units_bytes(ul), bytes16(u.last()));
        lemma_units_read_back(s, k, ul);
        lemma_units_bytes_len(ul);
        lemma_at_le16(s, k + 2 * ul.len(), u.last());
        assert forall|j: int| 0 <= j < u.len() implies #[trigger] units_at(s, k, u.len())[j] == u[j] by {
            if j < ul.len() {
                assert(units_at(s, k, ul.len())[j] == ul[j]);
            }
        }
        assert(units_at(s, k, u.len()) =~= u);
    } else {
        assert(units_at(s, k, 0) =~= u);
    }
}

/// Code units take two bytes each.
pub proof fn lemma_units_bytes_len(u: Seq<u16>)
    ensures
        units_bytes(u).len() == 2 * u.len(),
    decreases u.len(),
{
    if u.len() > 0 {
        lemma_units_bytes_len(u.drop_last());
    }
}

/// A written string whose UTF-16 form is shorter than 0x8000 units reads back.
pub proof fn lemma_string_reads_back(s: Seq<u8>, k: int, t: Seq<char>)
    requires
        at(s, k, string_bytes(t)),
        utf16_encode(t).len() < 0x8000,
    ensures
        spec_utf16_string(s, k) == Ok::<Seq<char>, ParseError>(t),
{
    let u = utf16_encode(t);
    lemma_at_split(s, k, bytes16(u.len() as u16) + units_bytes(u), bytes16(0));
    lemma_at_split(s, k, bytes16(u.len() as u16), units_bytes(u));
    lemma_at_le16(s, k, u.len() as u16);
    lemma_units_bytes_len(u);
    lemma_units_read_back(s, k + 2, u);
    lemma_utf16_round_trip(t);
}


/// A written chunk header with consistent lengths reads back.
pub proof fn lemma_header_reads_back(s: Seq<u8>, k: int, h: ChunkHeader)
    requires
        at(s, k, header_bytes(h)),
        header_sizes_valid(h),
        is_chunk_type(h.typ),
    ensures
        spec_header(s, k) == Ok::<ChunkHeader, ParseError>(h),
{
    lemma_at_split(s, k, bytes16(tag_of(h.typ)) + bytes16(h.header_size), bytes32(h.size));
    lemma_at_split(s, k, bytes16(tag_of(h.typ)), bytes16(h.header_size));
    lemma_at_le16(s, k, tag_of(h.typ));
    lemma_at_le16(s, k + 2, h.header_size);
    lemma_at_le32(s, k + 4, h.size);
    lemma_type_of_tag_of(h.typ);
}

/// A written node header reads back: its chunk header, then its line and comment.
pub proof fn lemma_node_header_reads_back(s: Seq<u8>, k: int, h: XmlNodeHeader)
    requires
        at(s, k, node_header_bytes(h)),
        header_sizes_valid(h.chunk_header),
        is_chunk_type(h.chunk_header.typ),
    ensures
        spec_header(s, k) == Ok::<ChunkHeader, ParseError>(h.chunk_header),
        node_header_at(s, k + 8, h.chunk_header) == h,
{
    lemma_at_split(s, k, header_bytes(h.chunk_header) + bytes32(h.line_no), bytes32(h.comment));
    lemma_at_split(s, k, header_bytes(h.chunk_header), bytes32(h.line_no));
    lemma_header_reads_back(s, k, h.chunk_header);
    lemma_at_le32(s, k + 8, h.line_no);
    lemma_at_le32(s, k + 12, h.comment);
}

/// A written attribute extension record reads back.
pub proof fn lemma_attr_ext_reads_back(s: Seq<u8>, k: int, e: XmlAttrExt)
    requires
        at(s, k, attr_ext_bytes(e)),
    ensures
        attr_ext_at(s, k) == e,
{
    let a0 = bytes32(e.ns);
    let a1 = a0 + bytes32(e.name);
    let a2 = a1 + bytes16(e.attribute_start);
    let a3 = a2 + bytes16(e.attribute_size);
    let a4 = a3 + bytes16(e.attribute_count);
    let a5 = a4 + bytes16(e.id_index);
    let a6 = a5 + bytes16(e.class_index);
    lemma_at_split(s, k, a6, bytes16(e.style_index));
    lemma_at_split(s, k, a5, bytes16(e.class_index));
    lemma_at_split(s, k, a4, bytes16(e.id_index));
    lemma_at_split(s, k, a3, bytes16(e.attribute_count));
    lemma_at_split(s, k, a2, bytes16(e.attribute_size));
    lemma_at_split(s, k, a1, bytes16(e.attribute_start));
    lemma_at_split(s, k, a0, bytes32(e.name));
    lemma_at_le32(s, k, e.ns);
    lemma_at_le32(s, k + 4, e.name);
    lemma_at_le16(s, k + 8, e.attribute_start);
    lemma_at_le16(s, k + 10, e.attribute_size);
    lemma_at_le16(s, k + 12, e.attribute_count);
    lemma_at_le16(s, k + 14, e.id_index);
    lemma_at_le16(s, k + 16, e.class_index);
    lemma_at_le16(s, k + 18, e.style_index);
}

/// The chunk header that is written for a node.
pub open spec fn written_header(e: XmlElementView) -> ChunkHeader {
    match canonical_element(e) {
        XmlElementView::StartNameSpace(n) => n.header.chunk_header,
        XmlElementView::EndNameSpace(n) => n.header.chunk_header,
        XmlElementView::StartElement(n) => n.header.chunk_header,
        XmlElementView::EndElement(n) => n.header.chunk_header,
        XmlElementView::Cdata(n) => n.header.chunk_header,
    }
}

/// True when a written node reads back: an opening element's attribute count fits 16 bits.
pub open spec fn element_rereadable(e: XmlElementView) -> bool {
    e matches XmlElementView::StartElement(n) ==> n.attributes.len() <= 0xFFFF
}

/// A written node reads back as its canonical form, and ends where its bytes end.
pub proof fn lemma_element_reads_back(s: Seq<u8>, k: int, e: XmlElementView)
    requires
        at(s, k, element_bytes(e)),
        element_rereadable(e),
    ensures
        spec_header(s, k) == Ok::<ChunkHeader, ParseError>(written_header(e)),
        is_node_type(written_header(e).typ),
        spec_node(s, k + 8, written_header(e)) == Ok::<(XmlElementView, int), ParseError>(
            (canonical_element(e), k + element_bytes(e).len()),
        ),
{
    match e {
        XmlElementView::StartNameSpace(n) => {
            lemma_pair_node_reads_back(s, k, fixed_node_header(n.header, ResourceType::XmlStartNameSpace, 24), n.prefix, n.uri);
        },
        XmlElementView::EndNameSpace(n) => {
            lemma_pair_node_reads_back(s, k, fixed_node_header(n.header, ResourceType::XmlEndNameSpace, 24), n.prefix, n.uri);
        },
        XmlElementView::EndElement(n) => {
            lemma_pair_node_reads_back(s, k, fixed_node_header(n.header, ResourceType::XmlEndElement, 24), n.ns, n.name);
        },
        XmlElementView::Cdata(n) => {
            lemma_cdata_reads_back(s, k, XmlCdata { header: fixed_node_header(n.header, ResourceType::XmlCdata, 28), ..n });
        },
        XmlElementView::StartElement(n) => {
            lemma_start_element_reads_back(s, k, n);
        },
    }
}

/// A written character-data node reads back.
proof fn lemma_cdata_reads_back(s: Seq<u8>, k: int, n: XmlCdata)
    requires
        at(s, k, cdata_bytes(n)),
        header_sizes_valid(n.header.chunk_header),
        is_chunk_type(n.header.chunk_header.typ),
    ensures
        spec_header(s, k) == Ok::<ChunkHeader, ParseError>(n.header.chunk_header),
        crate::nodes::spec_cdata(s, k + 8, n.header.chunk_header) == Ok::<(XmlCdata, int), ParseError>(
            (n, k + 28),
        ),
        cdata_bytes(n).len() == 28,
{
    lemma_at_split(s, k, node_header_bytes(n.header) + bytes32(n.data), resource_value_bytes(n.typed_data));
    lemma_at_split(s, k, node_header_bytes(n.header), bytes32(n.data));
    lemma_node_header_reads_back(s, k, n.header);
    lemma_at_le32(s, k + 16, n.data);
    lemma_resource_value_reads_back(s, k + 20, n.typed_data);
}

/// A written opening element reads back in its canonical form.
proof fn lemma_start_element_reads_back(s: Seq<u8>, k: int, n: crate::nodes::XmlStartElementView)
    requires
        at(s, k, start_element_bytes(n)),
        n.attributes.len() <= 0xFFFF,
    ensures
        spec_header(s, k) == Ok::<ChunkHeader, ParseError>(canonical_start_element(n).header.chunk_header),
        crate::nodes::spec_start_element(s, k + 8, canonical_start_element(n).header.chunk_header) == Ok::<
            (crate::nodes::XmlStartElementView, int),
            ParseError,
        >((canonical_start_element(n), k + start_element_bytes(n).len())),
{
    let c = canonical_start_element(n);
    lemma_at_split(s, k, node_header_bytes(c.header) + attr_ext_bytes(c.attr_ext), attributes_bytes(c.attributes));
    lemma_at_split(s, k, node_header_bytes(c.header), attr_ext_bytes(c.attr_ext));
    lemma_node_header_reads_back(s, k, c.header);
    lemma_attr_ext_reads_back(s, k + 16, c.attr_ext);
    lemma_attributes_read_back(s, k + 36, c.attributes);
    lemma_attributes_bytes_len(c.attributes);
    lemma_start_element_bytes_len(n);
}

/// A written namespace or closing-element node: header, then two indices.
proof fn lemma_pair_node_reads_back(s: Seq<u8>, k: int, h: XmlNodeHeader, a: u32, b: u32)
    requires
        at(s, k, pair_node_bytes(h, a, b)),
        header_sizes_valid(h.chunk_header),
        is_chunk_type(h.chunk_header.typ),
    ensures
        spec_header(s, k) == Ok::<ChunkHeader, ParseError>(h.chunk_header),
        node_header_at(s, k + 8, h.chunk_header) == h,
        le32(s, k + 16) == a,
        le32(s, k + 20) == b,
        pair_node_bytes(h, a, b).len() == 24,
        k + 24 <= s.len(),
{
    lemma_at_split(s, k, node_header_bytes(h) + bytes32(a), bytes32(b));
    lemma_at_split(s, k, node_header_bytes(h), bytes32(a));
    lemma_node_header_reads_back(s, k, h);
    lemma_at_le32(s, k + 16, a);
    lemma_at_le32(s, k + 20, b);
}


/// Bytes that stand inside bytes that stand somewhere stand there too.
pub proof fn lemma_at_within(s: Seq<u8>, k: int, a: Seq<u8>, i: int, b: Seq<u8>)
    requires
        at(s, k, a),
        at(a, i, b),
    ensures
        at(s, k + i, b),
{
    assert forall|j: int| 0 <= j < b.len() implies #[trigger] s.subrange(k + i, k + i + b.len())[j] == b[j] by {
        assert(s.subrange(k, k + a.len())[i + j] == a[i + j]);
        assert(a.subrange(i, i + b.len())[j] == b[j]);
    }
    assert(s.subrange(k + i, k + i + b.len()) =~= b);
}

/// Any byte string stands at the start of itself.
proof fn lemma_at_self(a: Seq<u8>)
    ensures
        at(a, 0, a),
{
    assert(a.subrange(0, a.len() as int) =~= a);
}

/// The string data of a prefix of the strings is a prefix of the string data.
proof fn lemma_strings_data_prefix(v: Seq<Seq<char>>, j: int)
    requires
        0 <= j <= v.len(),
    ensures
        at(strings_data(v), 0, strings_data(v.take(j))),
    decreases v.len(),
{
    if j == v.len() {
        assert(v.take(j) =~= v);
        lemma_at_self(strings_data(v));
    } else {
        let dl = v.drop_last();
        assert(v.take(j) =~= dl.take(j));
        lemma_strings_data_prefix(dl, j);
        lemma_at_self(strings_data(v));
        lemma_at_split(strings_data(v), 0, strings_data(dl), string_bytes(v.last()));
        lemma_at_within(strings_data(v), 0, strings_data(dl), 0, strings_data(dl.take(j)));
    }
}

/// The `j`-th string stands in the string data where the strings before it end.
proof fn lemma_string_in_data(v: Seq<Seq<char>>, j: int)
    requires
        0 <= j < v.len(),
    ensures
        at(strings_data(v), strings_data(v.take(j)).len() as int, string_bytes(v[j])),
        strings_data(v.take(j)).len() <= strings_data(v).len(),
{
    lemma_strings_data_prefix(v, j + 1);
    assert(v.take(j + 1).drop_last() =~= v.take(j));
    let a = strings_data(v.take(j + 1));
    assert(a == strings_data(v.take(j)) + string_bytes(v[j]));
    lemma_at_self(a);
    lemma_at_split(a, 0, strings_data(v.take(j)), string_bytes(v[j]));
    lemma_at_within(strings_data(v), 0, a, strings_data(v.take(j)).len() as int, string_bytes(v[j]));
}

/// A written offset table reads back entry by entry.
proof fn lemma_offsets_read_back(s: Seq<u8>, k: int, v: Seq<Seq<char>>, n: nat)
    requires
        at(s, k, offsets_bytes(v, n)),
    ensures
        forall|j: int| 0 <= j < n ==> #[trigger] le32(s, k + 4 * j) == strings_data(v.take(j)).len() as u32,
    decreases n,
{
    if n > 0 {
        let x = bytes32(strings_data(v.take(n - 1)).len() as u32);
        lemma_at_split(s, k, offsets_bytes(v, (n - 1) as nat), x);
        lemma_offsets_read_back(s, k, v, (n - 1) as nat);
        lemma_offsets_bytes_len(v, (n - 1) as nat);
        lemma_at_le32(s, k + 4 * (n - 1), strings_data(v.take(n - 1)).len() as u32);
    }
}

/// The strings of a written UTF-16 pool read back, given its offset table.
proof fn lemma_strings_read_back(buf: Seq<u8>, v: Seq<Seq<char>>, n: nat)
    requires
        n <= v.len(),
        strings_short(v),
        strings_data(v).len() < 0x1_0000_0000,
        forall|j: int| 0 <= j < v.len() ==> #[trigger] le32(buf, 4 * j) == strings_data(v.take(j)).len() as u32,
    ensures
        spec_strings(buf, strings_data(v), n, false) == Ok::<Seq<Seq<char>>, ParseError>(v.take(n as int)),
    decreases n,
{
    if n > 0 {
        let j = n - 1;
        lemma_strings_read_back(buf, v, j as nat);
        lemma_string_in_data(v, j);
        assert(le32(buf, 4 * j) == strings_data(v.take(j)).len() as u32);
        lemma_string_reads_back(strings_data(v), strings_data(v.take(j)).len() as int, v[j]);
        assert(v.take(j).push(v[j]) =~= v.take(n as int));
    } else {
        assert(v.take(0) =~= Seq::<Seq<char>>::empty());
    }
}

/// A pool as it reads back after being written: its header recomputed, its strings kept.
pub open spec fn canonical_pool(v: StringPoolView) -> StringPoolView {
    StringPoolView { header: canonical_pool_header(v), strings: v.strings }
}

/// True when a written pool reads back: it is marked UTF-16, its strings are short enough
/// for a 15-bit length, and its total length fits 32 bits.
pub open spec fn pool_rereadable(v: StringPoolView) -> bool {
    &&& !is_utf8(v.header.flags)
    &&& strings_short(v.strings)
    &&& 28 + 4 * v.strings.len() + strings_data(v.strings).len() <= 0xFFFF_FFFF
}

/// A written pool header reads back.
#[verifier::rlimit(50)]
proof fn lemma_pool_header_reads_back(s: Seq<u8>, k: int, h: StringPoolHeader)
    requires
        at(s, k, pool_header_bytes(h)),
        header_sizes_valid(h.chunk_header),
        h.chunk_header.typ == ResourceType::StringPool,
    ensures
        spec_header(s, k) == Ok::<ChunkHeader, ParseError>(h.chunk_header),
        pool_header_at(s, k + 8, h.chunk_header) == h,
{
    let chunk = header_bytes(h.chunk_header);
    let upto_count = chunk + bytes32(h.string_count);
    let upto_styles = upto_count + bytes32(h.style_count);
    let upto_flags = upto_styles + bytes32(h.flags);
    let upto_start = upto_flags + bytes32(h.string_start);
    lemma_at_split(s, k, upto_start, bytes32(h.style_start));
    lemma_at_split(s, k, upto_flags, bytes32(h.string_start));
    lemma_at_split(s, k, upto_styles, bytes32(h.flags));
    lemma_at_split(s, k, upto_count, bytes32(h.style_count));
    lemma_at_split(s, k, chunk, bytes32(h.string_count));
    lemma_header_reads_back(s, k, h.chunk_header);
    lemma_at_le32(s, k + 8, h.string_count);
    lemma_at_le32(s, k + 12, h.style_count);
    lemma_at_le32(s, k + 16, h.flags);
    lemma_at_le32(s, k + 20, h.string_start);
    lemma_at_le32(s, k + 24, h.style_start);
}

/// The offset table and string data of a written UTF-16 pool read back as its strings.
proof fn lemma_pool_body_reads_back(buf: Seq<u8>, v: Seq<Seq<char>>)
    requires
        buf == offsets_bytes(v, v.len()) + strings_data(v),
        strings_short(v),
        strings_data(v).len() < 0x1_0000_0000,
    ensures
        v.len() <= buf.len() / 4,
        buf.subrange(4 * v.len() as int, buf.len() as int) == strings_data(v),
        spec_strings(buf, strings_data(v), v.len(), false) == Ok::<Seq<Seq<char>>, ParseError>(v),
{
    let n = v.len();
    let offs = offsets_bytes(v, n);
    let data = strings_data(v);
    lemma_offsets_bytes_len(v, n);
    assert(n <= buf.len() / 4) by (nonlinear_arith)
        requires buf.len() == 4 * n + data.len(), n >= 0, data.len() >= 0;
    assert(buf.subrange(4 * n as int, buf.len() as int) =~= data);
    lemma_at_self(buf);
    lemma_at_split(buf, 0, offs, data);
    lemma_offsets_read_back(buf, 0, v, n);
    assert forall|j: int| 0 <= j < v.len() implies #[trigger] le32(buf, 4 * j) == strings_data(v.take(j)).len() as u32 by {
        assert(le32(buf, 0 + 4 * j) == strings_data(v.take(j)).len() as u32);
    }
    lemma_strings_read_back(buf, v, n);
    assert(v.take(n as int) =~= v);
}

/// A written UTF-16 pool reads back as its canonical form, and ends where its bytes end.
#[verifier::rlimit(50)]
pub proof fn lemma_pool_reads_back(s: Seq<u8>, k: int, v: StringPoolView)
    requires
        at(s, k, pool_bytes(v)),
        pool_rereadable(v),
    ensures
        spec_header(s, k) == Ok::<ChunkHeader, ParseError>(canonical_pool_header(v).chunk_header),
        spec_string_pool(s, k + 8, canonical_pool_header(v).chunk_header) == Ok::<(StringPoolView, int), ParseError>(
            (canonical_pool(v), k + pool_bytes(v).len()),
        ),
{
    let h = canonical_pool_header(v);
    let ch = h.chunk_header;
    let n = v.strings.len();
    let offs = offsets_bytes(v.strings, n);
    let data = strings_data(v.strings);
    lemma_offsets_bytes_len(v.strings, n);
    lemma_at_split(s, k, pool_header_bytes(h) + offs, data);
    lemma_at_split(s, k, pool_header_bytes(h), offs);
    lemma_pool_header_reads_back(s, k, h);
    let size = 28 + 4 * n + data.len();
    let buf = s.subrange(k + 28, k + size);
    assert(buf =~= offs + data) by {
        assert(s.subrange(k + 28, k + 28 + offs.len()) == offs);
        assert(s.subrange(k + 28 + offs.len(), k + 28 + offs.len() + data.len()) == data);
    }
    lemma_pool_body_reads_back(buf, v.strings);
}


/// The nodes as they read back after being written.
pub open spec fn canonical_elements(v: Seq<XmlElementView>) -> Seq<XmlElementView> {
    v.map_values(|e: XmlElementView| canonical_element(e))
}

/// A document as it reads back after being written: chunk headers, lengths, counts and offsets
/// recomputed, everything else kept.
pub open spec fn canonical_document(d: DocumentView) -> DocumentView {
    DocumentView {
        elements: canonical_elements(d.elements),
        string_pool: canonical_pool(d.string_pool),
        resource_map: d.resource_map,
    }
}

/// True when a written document reads back: its pool is UTF-16 and rereadable, each of its
/// nodes is, and its resource map and total length fit their 32-bit size fields.
pub open spec fn document_rereadable(d: DocumentView) -> bool {
    &&& pool_rereadable(d.string_pool)
    &&& 4 * d.resource_map.len() + 8 <= 0xFFFF_FFFF
    &&& forall|i: int| 0 <= i < d.elements.len() ==> element_rereadable(#[trigger] d.elements[i])
    &&& 8 + document_body(d).len() <= 0xFFFF_FFFF
}

/// The bytes of a prefix of the nodes are a prefix of the bytes of the nodes.
proof fn lemma_elements_bytes_prefix(v: Seq<XmlElementView>, j: int)
    requires
        0 <= j <= v.len(),
    ensures
        at(elements_bytes(v), 0, elements_bytes(v.take(j))),
    decreases v.len(),
{
    if j == v.len() {
        assert(v.take(j) =~= v);
        lemma_at_self(elements_bytes(v));
    } else {
        let dl = v.drop_last();
        assert(v.take(j) =~= dl.take(j));
        lemma_elements_bytes_prefix(dl, j);
        lemma_at_self(elements_bytes(v));
        lemma_at_split(elements_bytes(v), 0, elements_bytes(dl), element_bytes(v.last()));
        lemma_at_within(elements_bytes(v), 0, elements_bytes(dl), 0, elements_bytes(dl.take(j)));
    }
}

/// The `j`-th node stands where the nodes before it end.
proof fn lemma_element_in_bytes(v: Seq<XmlElementView>, j: int)
    requires
        0 <= j < v.len(),
    ensures
        at(elements_bytes(v), elements_bytes(v.take(j)).len() as int, element_bytes(v[j])),
        elements_bytes(v.take(j + 1)).len() == elements_bytes(v.take(j)).len() + element_bytes(v[j]).len(),
{
    lemma_elements_bytes_prefix(v, j + 1);
    assert(v.take(j + 1).drop_last() =~= v.take(j));
    let a = elements_bytes(v.take(j + 1));
    assert(a == elements_bytes(v.take(j)) + element_bytes(v[j]));
    lemma_at_self(a);
    lemma_at_split(a, 0, elements_bytes(v.take(j)), element_bytes(v[j]));
    lemma_at_within(elements_bytes(v), 0, a, elements_bytes(v.take(j)).len() as int, element_bytes(v[j]));
}

/// Written nodes that end the input read back one chunk at a time, in order.
proof fn lemma_element_chunks(
    s: Seq<u8>,
    base: int,
    v: Seq<XmlElementView>,
    j: int,
    pool: Option<StringPoolView>,
    map: Option<Seq<u32>>,
)
    requires
        at(s, base, elements_bytes(v)),
        base + elements_bytes(v).len() == s.len(),
        0 <= j <= v.len(),
        forall|i: int| 0 <= i < v.len() ==> element_rereadable(#[trigger] v[i]),
        pool is Some,
        map is Some,
    ensures
        spec_chunks(
            s,
            base + elements_bytes(v.take(j)).len(),
            ChunksState { elements: canonical_elements(v.take(j)), string_pool: pool, resource_map: map },
        ) == Ok::<ChunksState, ParseError>(
            ChunksState { elements: canonical_elements(v), string_pool: pool, resource_map: map },
        ),
    decreases v.len() - j,
{
    if j == v.len() {
        assert(v.take(j) =~= v);
    } else {
        let k = base + elements_bytes(v.take(j)).len();
        lemma_element_in_bytes(v, j);
        lemma_at_within(s, base, elements_bytes(v), elements_bytes(v.take(j)).len() as int, element_bytes(v[j]));
        lemma_element_reads_back(s, k, v[j]);
        let h = written_header(v[j]);
        assert(h.typ != ResourceType::StringPool && h.typ != ResourceType::XmlResourceMap);
        let st = ChunksState { elements: canonical_elements(v.take(j)), string_pool: pool, resource_map: map };
        let st2 = ChunksState { elements: canonical_elements(v.take(j + 1)), string_pool: pool, resource_map: map };
        assert(canonical_elements(v.take(j)).push(canonical_element(v[j])) =~= canonical_elements(v.take(j + 1)));
        assert(spec_chunk(s, k, st) == Ok::<(ChunksState, int), ParseError>((st2, k + element_bytes(v[j]).len())));
        assert(element_bytes(v[j]).len() > 0) by {
            lemma_element_bytes_nonempty(v[j]);
        }
        lemma_element_chunks(s, base, v, j + 1, pool, map);
    }
}

/// Every written node takes at least its 8-byte chunk header.
proof fn lemma_element_bytes_nonempty(e: XmlElementView)
    ensures
        element_bytes(e).len() >= 8,
{
    match e {
        XmlElementView::StartElement(n) => lemma_start_element_bytes_len(n),
        _ => {},
    }
}

/// The first chunk of a written document is its pool, which reads back.
proof fn lemma_pool_chunk_step(s: Seq<u8>, v: StringPoolView)
    requires
        at(s, 8, pool_bytes(v)),
        pool_rereadable(v),
    ensures
        spec_chunk(s, 8, empty_state()) == Ok::<(ChunksState, int), ParseError>(
            (ChunksState { string_pool: Some(canonical_pool(v)), ..empty_state() }, 8 + pool_bytes(v).len() as int),
        ),
        pool_bytes(v).len() >= 28,
{
    lemma_pool_reads_back(s, 8, v);
    lemma_offsets_bytes_len(v.strings, v.strings.len());
}

/// A written resource map chunk reads back into a state that has none yet.
#[verifier::rlimit(50)]
proof fn lemma_map_chunk_step(s: Seq<u8>, k: int, m: Seq<u32>, st: ChunksState)
    requires
        at(s, k, resource_map_bytes(m)),
        4 * m.len() + 8 <= 0xFFFF_FFFF,
        st.resource_map is None,
    ensures
        spec_chunk(s, k, st) == Ok::<(ChunksState, int), ParseError>(
            (ChunksState { resource_map: Some(m), ..st }, k + resource_map_bytes(m).len() as int),
        ),
        resource_map_bytes(m).len() >= 8,
{
    let mb = resource_map_bytes(m);
    let pre = s.subrange(0, k);
    let post = s.subrange(k + mb.len(), s.len() as int);
    assert(s =~= pre + mb + post);
    lemma_resource_map_round_trip(m, pre, post);
    crate::document::lemma_ids_bytes_len(m);
}

/// The chunks of a written document body read back, in order, up to the end of the input.
#[verifier::rlimit(50)]
proof fn lemma_body_chunks(s: Seq<u8>, d: DocumentView)
    requires
        at(s, 8, pool_bytes(d.string_pool)),
        at(s, 8 + pool_bytes(d.string_pool).len() as int, resource_map_bytes(d.resource_map)),
        at(
            s,
            8 + pool_bytes(d.string_pool).len() as int + resource_map_bytes(d.resource_map).len() as int,
            elements_bytes(d.elements),
        ),
        8 + pool_bytes(d.string_pool).len() + resource_map_bytes(d.resource_map).len() + elements_bytes(
            d.elements,
        ).len() == s.len(),
        pool_rereadable(d.string_pool),
        4 * d.resource_map.len() + 8 <= 0xFFFF_FFFF,
        forall|i: int| 0 <= i < d.elements.len() ==> element_rereadable(#[trigger] d.elements[i]),
    ensures
        spec_chunks(s, 8, empty_state()) == Ok::<ChunksState, ParseError>(
            ChunksState {
                elements: canonical_elements(d.elements),
                string_pool: Some(canonical_pool(d.string_pool)),
                resource_map: Some(d.resource_map),
            },
        ),
{
    let map_at = 8 + pool_bytes(d.string_pool).len();
    let nodes_at = map_at + resource_map_bytes(d.resource_map).len();
    let cp = canonical_pool(d.string_pool);
    let st1 = ChunksState { string_pool: Some(cp), ..empty_state() };
    let st2 = ChunksState { resource_map: Some(d.resource_map), ..st1 };
    lemma_pool_chunk_step(s, d.string_pool);
    lemma_map_chunk_step(s, map_at as int, d.resource_map, st1);
    assert(d.elements.take(0) =~= Seq::<XmlElementView>::empty());
    assert(canonical_elements(d.elements.take(0)) =~= Seq::<XmlElementView>::empty());
    lemma_element_chunks(s, nodes_at as int, d.elements, 0, Some(cp), Some(d.resource_map));
    assert(st2 == ChunksState {
        elements: canonical_elements(d.elements.take(0)),
        string_pool: Some(cp),
        resource_map: Some(d.resource_map),
    });
    assert(spec_chunks(s, map_at as int, st1) == spec_chunks(s, nodes_at as int, st2));
    assert(spec_chunks(s, 8, empty_state()) == spec_chunks(s, map_at as int, st1));
}

/// Where the parts of a written document stand in its bytes.
proof fn lemma_document_layout(d: DocumentView)
    ensures
        ({
            let s = document_bytes(d);
            let map_at = 8 + pool_bytes(d.string_pool).len();
            let nodes_at = map_at + resource_map_bytes(d.resource_map).len();
            &&& at(s, 0, header_bytes(document_header(document_body(d))))
            &&& at(s, 8, pool_bytes(d.string_pool))
            &&& at(s, map_at as int, resource_map_bytes(d.resource_map))
            &&& at(s, nodes_at as int, elements_bytes(d.elements))
            &&& nodes_at + elements_bytes(d.elements).len() == s.len()
        }),
{
    let body = document_body(d);
    let s = document_bytes(d);
    let hd = document_header(body);
    let pb = pool_bytes(d.string_pool);
    let mb = resource_map_bytes(d.resource_map);
    let eb = elements_bytes(d.elements);
    lemma_at_self(s);
    lemma_at_split(s, 0, header_bytes(hd), body);
    lemma_at_split(s, 8, pb + mb, eb);
    lemma_at_split(s, 8, pb, mb);
}

/// A written document reads back as its canonical form.
pub proof fn lemma_document_reads_back(d: DocumentView)
    requires
        document_rereadable(d),
    ensures
        spec_document(document_bytes(d), 0) == Ok::<DocumentView, ParseError>(canonical_document(d)),
{
    let s = document_bytes(d);
    let hd = document_header(document_body(d));
    lemma_document_layout(d);
    lemma_header_reads_back(s, 0, hd);
    lemma_body_chunks(s, d);
}

/// Writing a canonical document again changes nothing.
pub proof fn lemma_canonical_idempotent(d: DocumentView)
    ensures
        canonical_document(canonical_document(d)) == canonical_document(d),
{
    let c = canonical_document(d);
    assert(canonical_elements(c.elements) =~= c.elements);
}

/// A document read from bytes whose string pool is UTF-16 reads back, once written, with
/// the same nodes in the same order, the same attributes, the same strings and the same
/// resource identifiers; only the chunk headers, lengths, counts and offsets that the
/// writer recomputes may differ, and reading and writing once more changes nothing. The
/// other premises exclude totals past the 32-bit size fields, which the written form
/// cannot hold.
pub proof fn lemma_utf16_document_round_trip(s: Seq<u8>, p: int)
    requires
        spec_document(s, p) is Ok,
        !is_utf8(spec_document(s, p)->Ok_0.string_pool.header.flags),
        28 + 4 * spec_document(s, p)->Ok_0.string_pool.strings.len() + strings_data(
            spec_document(s, p)->Ok_0.string_pool.strings,
        ).len() <= 0xFFFF_FFFF,
        4 * spec_document(s, p)->Ok_0.resource_map.len() + 8 <= 0xFFFF_FFFF,
        8 + document_body(spec_document(s, p)->Ok_0).len() <= 0xFFFF_FFFF,
    ensures
        ({
            let d = spec_document(s, p)->Ok_0;
            let r = spec_document(document_bytes(d), 0);
            &&& r is Ok
            &&& r->Ok_0.string_pool.strings == d.string_pool.strings
            &&& r->Ok_0.resource_map == d.resource_map
            &&& r->Ok_0.elements.len() == d.elements.len()
            &&& forall|i: int| 0 <= i < d.elements.len() ==> #[trigger] r->Ok_0.elements[i] == canonical_element(d.elements[i])
            &&& canonical_document(r->Ok_0) == canonical_document(d)
        }),
{
    let d = spec_document(s, p)->Ok_0;
    lemma_parsed_document_well_formed(s, p);
    assert forall|i: int| 0 <= i < d.elements.len() implies element_rereadable(#[trigger] d.elements[i]) by {
        assert(element_tag_ok(d.elements[i]));
    }
    lemma_document_reads_back(d);
    lemma_canonical_idempotent(d);
}

} // verus!
