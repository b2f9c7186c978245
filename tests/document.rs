use axmldecoder::chunk::{ChunkHeader, ResourceType};
use axmldecoder::document::{parse_resource_map, write_resource_map};
use axmldecoder::nodes::{XmlElement, XmlStartElement};
use axmldecoder::resource_value::{ResourceValue, ResourceValueType};
use axmldecoder::{parse, BinaryXmlDocument, ByteReader, ParseError};

fn u16le(out: &mut Vec<u8>, v: u16) {
    out.extend_from_slice(&v.to_le_bytes());
}

fn u32le(out: &mut Vec<u8>, v: u32) {
    out.extend_from_slice(&v.to_le_bytes());
}

fn chunk_header(out: &mut Vec<u8>, typ: u16, header_size: u16, size: u32) {
    u16le(out, typ);
    u16le(out, header_size);
    u32le(out, size);
}

/// A UTF-16 pool holding `strings`, in the form the writer produces.
fn utf16_pool(strings: &[&str]) -> Vec<u8> {
    let mut data = Vec::new();
    let mut offsets = Vec::new();
    for s in strings {
        offsets.push(data.len() as u32);
        let units: Vec<u16> = s.encode_utf16().collect();
        u16le(&mut data, units.len() as u16);
        for u in units {
            u16le(&mut data, u);
        }
        u16le(&mut data, 0);
    }
    let n = strings.len() as u32;
    let mut out = Vec::new();
    chunk_header(&mut out, 0x0001, 28, 28 + 4 * n + data.len() as u32);
    u32le(&mut out, n);
    u32le(&mut out, 0);
    u32le(&mut out, 0);
    u32le(&mut out, 28 + 4 * n);
    u32le(&mut out, 0);
    for o in offsets {
        u32le(&mut out, o);
    }
    out.extend_from_slice(&data);
    out
}

fn resource_map(ids: &[u32]) -> Vec<u8> {
    let mut out = Vec::new();
    chunk_header(&mut out, 0x0180, 8, 8 + 4 * ids.len() as u32);
    for id in ids {
        u32le(&mut out, *id);
    }
    out
}

fn pair_node(typ: u16, a: u32, b: u32) -> Vec<u8> {
    let mut out = Vec::new();
    chunk_header(&mut out, typ, 16, 24);
    u32le(&mut out, 1);
    u32le(&mut out, 0xFFFF_FFFF);
    u32le(&mut out, a);
    u32le(&mut out, b);
    out
}

/// The opening element of the single-attribute scenario: 56 bytes.
fn start_element_one_attribute() -> Vec<u8> {
    let mut out = Vec::new();
    chunk_header(&mut out, 0x0102, 16, 56);
    u32le(&mut out, 1);
    u32le(&mut out, 0xFFFF_FFFF);
    u32le(&mut out, 0xFFFF_FFFF);
    u32le(&mut out, 0);
    u16le(&mut out, 20);
    u16le(&mut out, 20);
    u16le(&mut out, 1);
    u16le(&mut out, 0);
    u16le(&mut out, 0);
    u16le(&mut out, 0);
    u32le(&mut out, 0xFFFF_FFFF);
    u32le(&mut out, 1);
    u32le(&mut out, 0xFFFF_FFFF);
    u16le(&mut out, 8);
    out.push(0);
    out.push(0x12);
    u32le(&mut out, 1);
    out
}

fn document(chunks: &[Vec<u8>]) -> Vec<u8> {
    let body: Vec<u8> = chunks.concat();
    let mut out = Vec::new();
    chunk_header(&mut out, 0x0003, 8, 8 + body.len() as u32);
    out.extend_from_slice(&body);
    out
}

fn sample() -> Vec<u8> {
    document(&[
        utf16_pool(&["manifest", "enabled", "h\u{e9}", "\u{1F600}"]),
        resource_map(&[0x0101_0000]),
        pair_node(0x0100, 2, 3),
        start_element_one_attribute(),
        pair_node(0x0103, 0xFFFF_FFFF, 0),
        pair_node(0x0101, 2, 3),
    ])
}

fn parse_bytes(bytes: Vec<u8>) -> Result<BinaryXmlDocument, ParseError> {
    let mut r = ByteReader::new(bytes);
    parse(&mut r)
}

#[test]
fn parses_sample_document() {
    let doc = parse_bytes(sample()).unwrap();
    assert_eq!(doc.element_count(), 4);
    assert!(matches!(doc.element(0), Some(XmlElement::XmlStartNameSpace(_))));
    assert!(matches!(doc.element(1), Some(XmlElement::XmlStartElement(_))));
    assert!(matches!(doc.element(2), Some(XmlElement::XmlEndElement(_))));
    assert!(matches!(doc.element(3), Some(XmlElement::XmlEndNameSpace(_))));
    assert!(doc.element(4).is_none());
    assert_eq!(doc.get_string(0).map(|s| s.as_str()), Some("manifest"));
    assert_eq!(doc.get_string(2).map(|s| s.as_str()), Some("h\u{e9}"));
    assert_eq!(doc.get_string(3).map(|s| s.as_str()), Some("\u{1F600}"));
    assert_eq!(doc.resource_id(0), Ok(0x0101_0000));
    match doc.element(1) {
        Some(XmlElement::XmlStartElement(e)) => {
            assert_eq!(e.attributes.len(), 1);
            assert_eq!(e.attributes[0].name, 1);
            assert_eq!(e.attributes[0].typed_value.data_type, ResourceValueType::Boolean);
            assert_eq!(e.attributes[0].typed_value.data, 1);
        }
        _ => panic!("expected an opening element"),
    }
}

#[test]
fn string_index_all_ones_is_absent() {
    let doc = parse_bytes(sample()).unwrap();
    assert!(doc.get_string(0xFFFF_FFFF).is_none());
    assert!(doc.get_string(4).is_none());
    assert!(doc.string_pool.get(0xFFFF_FFFF).is_none());
}

#[test]
fn resource_index_out_of_range() {
    let doc = parse_bytes(sample()).unwrap();
    assert_eq!(doc.resource_id(1), Err(ParseError::ResourceIdNotFound(1)));
}

#[test]
fn canonical_document_round_trips_byte_for_byte() {
    let bytes = sample();
    let doc = parse_bytes(bytes.clone()).unwrap();
    assert!(doc.is_writable());
    let mut out = Vec::new();
    let n = doc.write_to_file(&mut out);
    assert_eq!(n, bytes.len());
    assert_eq!(out, bytes);
}

#[test]
fn utf16_document_round_trips_structurally() {
    let doc = parse_bytes(sample()).unwrap();
    let mut out = Vec::new();
    doc.write_to_file(&mut out);
    let again = parse_bytes(out).unwrap();
    assert_eq!(again.element_count(), doc.element_count());
    for i in 0..4u32 {
        assert_eq!(again.get_string(i), doc.get_string(i));
    }
    assert_eq!(again.resource_map, doc.resource_map);
}

#[test]
fn empty_attribute_vector_writes_36_bytes() {
    let mut bytes = Vec::new();
    chunk_header(&mut bytes, 0x0102, 16, 36);
    u32le(&mut bytes, 7);
    u32le(&mut bytes, 0xFFFF_FFFF);
    u32le(&mut bytes, 0xFFFF_FFFF);
    u32le(&mut bytes, 0);
    u16le(&mut bytes, 20);
    u16le(&mut bytes, 20);
    u16le(&mut bytes, 0);
    u16le(&mut bytes, 0);
    u16le(&mut bytes, 0);
    u16le(&mut bytes, 0);
    let mut r = ByteReader::new(bytes.clone());
    let h = ChunkHeader::read_from_file(&mut r).unwrap();
    let e = XmlStartElement::read_from_file(&mut r, &h).unwrap();
    assert!(e.attributes.is_empty());
    let mut out = Vec::new();
    assert_eq!(e.write_to_file(&mut out), 36);
    assert_eq!(out, bytes);
}

#[test]
fn empty_resource_map_round_trips() {
    let bytes = vec![0x80u8, 0x01, 0x08, 0x00, 0x08, 0x00, 0x00, 0x00];
    let mut r = ByteReader::new(bytes.clone());
    let h = ChunkHeader::read_from_file(&mut r).unwrap();
    assert_eq!(h.typ, ResourceType::XmlResourceMap);
    let ids = parse_resource_map(&mut r, &h).unwrap();
    assert!(ids.is_empty());
    let mut out = Vec::new();
    assert_eq!(write_resource_map(&mut out, &ids), 8);
    assert_eq!(out, bytes);
}

#[test]
fn resource_map_size_is_four_per_entry_plus_eight() {
    let ids = vec![1u32, 2, 3];
    let mut out = Vec::new();
    assert_eq!(write_resource_map(&mut out, &ids), 20);
    assert_eq!(out, resource_map(&ids));
    let mut r = ByteReader::new(out);
    let h = ChunkHeader::read_from_file(&mut r).unwrap();
    assert_eq!(h.size, 3 * 4 + 8);
    assert_eq!(parse_resource_map(&mut r, &h).unwrap(), ids);
}

#[test]
fn single_attribute_start_element_round_trips() {
    let bytes = start_element_one_attribute();
    assert_eq!(bytes.len(), 56);
    let mut r = ByteReader::new(bytes.clone());
    let h = ChunkHeader::read_from_file(&mut r).unwrap();
    let e = XmlStartElement::read_from_file(&mut r, &h).unwrap();
    assert_eq!(e.header.line_no, 1);
    assert_eq!(e.header.comment, 0xFFFF_FFFF);
    assert_eq!(e.attr_ext.ns, 0xFFFF_FFFF);
    assert_eq!(e.attr_ext.name, 0);
    let mut out = Vec::new();
    assert_eq!(e.write_to_file(&mut out), 56);
    assert_eq!(out, bytes);
}

#[test]
fn missing_string_pool() {
    let bytes = vec![
        0x03u8, 0x00, 0x08, 0x00, 0x10, 0x00, 0x00, 0x00, 0x80, 0x01, 0x08, 0x00, 0x08, 0x00, 0x00,
        0x00,
    ];
    assert_eq!(parse_bytes(bytes).err(), Some(ParseError::MissingStringPoolChunk));
}

#[test]
fn missing_resource_map() {
    let bytes = document(&[utf16_pool(&["a"])]);
    assert_eq!(parse_bytes(bytes).err(), Some(ParseError::MissingResourceMapChunk));
}

#[test]
fn unknown_chunk_tag() {
    let mut unknown = Vec::new();
    chunk_header(&mut unknown, 0x0099, 8, 8);
    let bytes = document(&[utf16_pool(&["a"]), resource_map(&[]), unknown]);
    assert_eq!(parse_bytes(bytes).err(), Some(ParseError::InvalidFile));
}

#[test]
fn known_tag_of_wrong_kind_is_rejected() {
    let mut table = Vec::new();
    chunk_header(&mut table, 0x0002, 8, 8);
    let bytes = document(&[utf16_pool(&["a"]), resource_map(&[]), table]);
    assert_eq!(parse_bytes(bytes).err(), Some(ParseError::InvalidFile));
}

#[test]
fn outer_chunk_must_be_xml() {
    let mut bytes = sample();
    bytes[0] = 0x01;
    assert_eq!(parse_bytes(bytes).err(), Some(ParseError::InvalidFile));
}

#[test]
fn duplicate_singleton_chunks_are_rejected() {
    let twice_pool = document(&[utf16_pool(&["a"]), utf16_pool(&["b"]), resource_map(&[])]);
    assert_eq!(parse_bytes(twice_pool).err(), Some(ParseError::InvalidFile));
    let twice_map = document(&[utf16_pool(&["a"]), resource_map(&[]), resource_map(&[1])]);
    assert_eq!(parse_bytes(twice_map).err(), Some(ParseError::InvalidFile));
}

#[test]
fn header_sizes_out_of_order_are_rejected() {
    let mut small = Vec::new();
    chunk_header(&mut small, 0x0103, 4, 24);
    let bytes = document(&[utf16_pool(&["a"]), resource_map(&[]), small]);
    assert_eq!(parse_bytes(bytes).err(), Some(ParseError::InvalidFile));
    let mut r = ByteReader::new(vec![0x03, 0x00, 0x10, 0x00, 0x08, 0x00, 0x00, 0x00]);
    assert_eq!(ChunkHeader::read_from_file(&mut r), Err(ParseError::InvalidFile));
}

#[test]
fn truncated_chunk_is_an_io_error() {
    let mut bytes = sample();
    bytes.truncate(bytes.len() - 3);
    assert_eq!(parse_bytes(bytes).err(), Some(ParseError::IoError));
}

#[test]
fn unpaired_surrogate_fails_utf16_decoding() {
    let mut pool = Vec::new();
    chunk_header(&mut pool, 0x0001, 28, 28 + 4 + 6);
    for v in [1u32, 0, 0, 32, 0, 0] {
        u32le(&mut pool, v);
    }
    for u in [1u16, 0xD800, 0] {
        u16le(&mut pool, u);
    }
    let bytes = document(&[pool, resource_map(&[])]);
    assert_eq!(parse_bytes(bytes).err(), Some(ParseError::Utf16StringParseError));
}

#[test]
fn long_utf16_length_is_rejected() {
    let mut pool = Vec::new();
    chunk_header(&mut pool, 0x0001, 28, 28 + 4 + 6);
    for v in [1u32, 0, 0, 32, 0, 0] {
        u32le(&mut pool, v);
    }
    for u in [0x8001u16, 0x0041, 0] {
        u16le(&mut pool, u);
    }
    let bytes = document(&[pool, resource_map(&[])]);
    assert_eq!(parse_bytes(bytes).err(), Some(ParseError::InvalidFile));
}

fn utf8_pool(body: &[u8]) -> Vec<u8> {
    let mut pool = Vec::new();
    chunk_header(&mut pool, 0x0001, 28, 28 + 4 + body.len() as u32);
    for v in [1u32, 0, 0x100, 32, 0] {
        u32le(&mut pool, v);
    }
    u32le(&mut pool, 0);
    pool.extend_from_slice(body);
    pool
}

#[test]
fn utf8_pool_is_decoded() {
    let bytes = document(&[utf8_pool(&[2, 3, b'h', 0xC3, 0xA9, 0]), resource_map(&[])]);
    let doc = parse_bytes(bytes).unwrap();
    assert_eq!(doc.get_string(0).map(|s| s.as_str()), Some("h\u{e9}"));
}

#[test]
fn invalid_utf8_fails() {
    let bytes = document(&[utf8_pool(&[1, 1, 0xFF, 0]), resource_map(&[])]);
    assert_eq!(parse_bytes(bytes).err(), Some(ParseError::Utf8StringParseError));
}

#[test]
fn long_utf8_length_is_rejected() {
    let bytes = document(&[utf8_pool(&[1, 0x81, b'a', 0]), resource_map(&[])]);
    assert_eq!(parse_bytes(bytes).err(), Some(ParseError::InvalidFile));
}

#[test]
fn unknown_value_type_is_rejected() {
    let mut el = start_element_one_attribute();
    el[8 + 8 + 20 + 15] = 0x07;
    let bytes = document(&[utf16_pool(&["a", "b"]), resource_map(&[]), el]);
    assert_eq!(parse_bytes(bytes).err(), Some(ParseError::InvalidFile));
}

#[test]
fn offset_outside_string_data_is_rejected() {
    let mut pool = Vec::new();
    chunk_header(&mut pool, 0x0001, 28, 28 + 4 + 6);
    for v in [1u32, 0, 0, 32, 0, 40] {
        u32le(&mut pool, v);
    }
    for u in [1u16, 0x41, 0] {
        u16le(&mut pool, u);
    }
    let bytes = document(&[pool, resource_map(&[])]);
    assert_eq!(parse_bytes(bytes).err(), Some(ParseError::InvalidFile));
}

fn value(data_type: ResourceValueType, data: u32) -> ResourceValue {
    ResourceValue { size: 8, res: 0, data_type, data }
}

#[test]
fn values_render_as_text() {
    let doc = parse_bytes(sample()).unwrap();
    let pool = &doc.string_pool;
    assert_eq!(value(ResourceValueType::Dec, 42).get_value(pool), Ok("42".to_string()));
    assert_eq!(value(ResourceValueType::Dec, 0).get_value(pool), Ok("0".to_string()));
    assert_eq!(value(ResourceValueType::Dec, 0xFFFF_FFFF).get_value(pool), Ok("4294967295".to_string()));
    assert_eq!(value(ResourceValueType::Hex, 255).get_value(pool), Ok("0xff".to_string()));
    assert_eq!(value(ResourceValueType::Hex, 0x0101_021b).get_value(pool), Ok("0x101021b".to_string()));
    assert_eq!(value(ResourceValueType::Hex, 0).get_value(pool), Ok("0x0".to_string()));
    assert_eq!(value(ResourceValueType::Boolean, 0).get_value(pool), Ok("false".to_string()));
    assert_eq!(value(ResourceValueType::Boolean, 7).get_value(pool), Ok("true".to_string()));
    assert_eq!(value(ResourceValueType::String, 1).get_value(pool), Ok("enabled".to_string()));
    assert_eq!(value(ResourceValueType::String, 9).get_value(pool), Err(ParseError::StringNotFound(9)));
    assert_eq!(
        value(ResourceValueType::Reference, 5).get_value(pool),
        Ok("ResourceValueType::Reference/5".to_string())
    );
}

#[test]
fn non_canonical_extension_record_is_recomputed_on_write() {
    let mut el = start_element_one_attribute();
    // attribute_size field of the extension record
    el[8 + 8 + 10] = 99;
    let bytes = document(&[utf16_pool(&["a", "b"]), resource_map(&[7]), el]);
    let doc = parse_bytes(bytes.clone()).unwrap();
    let mut out = Vec::new();
    doc.write_to_file(&mut out);
    assert_ne!(out, bytes);
    let again = parse_bytes(out).unwrap();
    match (doc.element(0), again.element(0)) {
        (Some(XmlElement::XmlStartElement(a)), Some(XmlElement::XmlStartElement(b))) => {
            assert_eq!(a.attr_ext.attribute_size, 99);
            assert_eq!(b.attr_ext.attribute_size, 20);
            assert_eq!(a.attributes, b.attributes);
            assert_eq!(a.header, b.header);
        }
        _ => panic!("expected opening elements"),
    }
    assert_eq!(again.get_string(1).map(|s| s.as_str()), Some("b"));
    assert_eq!(again.resource_id(0), Ok(7));
}

#[test]
fn node_headers_are_rebuilt_on_write() {
    let mut end = pair_node(0x0103, 0xFFFF_FFFF, 0);
    end[4] = 100;
    let mut start = start_element_one_attribute();
    start[2] = 40;
    let bytes = document(&[utf16_pool(&["a", "b"]), resource_map(&[]), start, end]);
    let doc = parse_bytes(bytes).unwrap();
    let mut out = Vec::new();
    doc.write_to_file(&mut out);
    let expected = document(&[
        utf16_pool(&["a", "b"]),
        resource_map(&[]),
        start_element_one_attribute(),
        pair_node(0x0103, 0xFFFF_FFFF, 0),
    ]);
    assert_eq!(out, expected);
    let again = parse_bytes(out).unwrap();
    assert_eq!(again.element_count(), 2);
}

#[test]
fn header_reader_rejects_tags_outside_the_document_types() {
    for tag in [0x0000u16, 0x0002, 0x017f, 0x0200, 0x0203] {
        let mut bytes = Vec::new();
        chunk_header(&mut bytes, tag, 8, 8);
        let mut r = ByteReader::new(bytes);
        assert_eq!(ChunkHeader::read_from_file(&mut r), Err(ParseError::InvalidFile));
    }
    let mut bytes = Vec::new();
    chunk_header(&mut bytes, 0x0180, 8, 8);
    let mut r = ByteReader::new(bytes);
    assert!(ChunkHeader::read_from_file(&mut r).is_ok());
}
