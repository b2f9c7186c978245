//! The string pool: a table of UTF-16 or UTF-8 strings reached by index.
use vstd::prelude::*;
use vstd::utf8::{decode_utf8, valid_utf8};

use crate::chunk::{header_bytes, header_sizes_valid, ChunkHeader, ResourceType};
use crate::codec::{
    bytes16, bytes32, fits, le16, le32, patch_u32, read_u32, write_bytes, u16_at, u32_at, write_u16, write_u32,
    ByteReader,
};
use crate::ParseError;

verus! {

/// The UTF-16 code units of one character.
pub open spec fn char_utf16(c: char) -> Seq<u16> {
    let v = c as u32;
    if v < 0x10000 {
        seq![v as u16]
    } else {
        let w = v - 0x10000;
        seq![(0xD800 + w / 0x400) as u16, (0xDC00 + w % 0x400) as u16]
    }
}

/// The UTF-16 encoding of a text.
pub open spec fn utf16_encode(t: Seq<char>) -> Seq<u16>
    decreases t.len(),
{
    if t.len() == 0 {
        Seq::empty()
    } else {
        char_utf16(t[0]) + utf16_encode(t.drop_first())
    }
}

/// The text that UTF-16 code units encode, or `None` where a surrogate is unpaired.
pub open spec fn utf16_decode(u: Seq<u16>) -> Option<Seq<char>>
    decreases u.len(),
{
    if u.len() == 0 {
        Some(Seq::empty())
    } else if u[0] < 0xD800 || u[0] > 0xDFFF {
        match utf16_decode(u.drop_first()) {
            Some(r) => Some(seq![(u[0] as u32) as char] + r),
            None => None,
        }
    } else if u[0] <= 0xDBFF && u.len() >= 2 && 0xDC00 <= u[1] <= 0xDFFF {
        let v = 0x10000 + (u[0] - 0xD800) * 0x400 + (u[1] - 0xDC00);
        match utf16_decode(u.subrange(2, u.len() as int)) {
            Some(r) => Some(seq![(v as u32) as char] + r),
            None => None,
        }
    } else {
        None
    }
}

/// UTF-16 encoding undoes UTF-16 decoding.
pub proof fn lemma_utf16_decode_encode(u: Seq<u16>)
    requires
        utf16_decode(u) is Some,
    ensures
        utf16_encode(utf16_decode(u)->Some_0) == u,
    decreases u.len(),
{
    if u.len() > 0 {
        let t = utf16_decode(u)->Some_0;
        if u[0] < 0xD800 || u[0] > 0xDFFF {
            let rest = u.drop_first();
            lemma_utf16_decode_encode(rest);
            let c = (u[0] as u32) as char;
            assert(t == seq![c] + utf16_decode(rest)->Some_0);
            assert(t.drop_first() =~= utf16_decode(rest)->Some_0);
            assert(c as u32 == u[0] as u32);
            assert(char_utf16(c) =~= seq![u[0]]);
            assert(utf16_encode(t) =~= u);
        } else {
            let rest = u.subrange(2, u.len() as int);
            lemma_utf16_decode_encode(rest);
            let a = u[0] as u32;
            let b = u[1] as u32;
            let v = 0x10000 + (a - 0xD800) * 0x400 + (b - 0xDC00);
            let c = (v as u32) as char;
            assert(t == seq![c] + utf16_decode(rest)->Some_0);
            assert(t.drop_first() =~= utf16_decode(rest)->Some_0);
            assert(0x10000 <= v <= 0x10FFFF);
            assert(c as u32 == v);
            let w = v - 0x10000;
            assert(w / 0x400 == a - 0xD800 && w % 0x400 == b - 0xDC00) by (nonlinear_arith)
                requires w == (a - 0xD800) * 0x400 + (b - 0xDC00), 0 <= b - 0xDC00 < 0x400, 0 <= a - 0xD800;
            assert(char_utf16(c) =~= seq![u[0], u[1]]);
            assert(utf16_encode(t) =~= u);
        }
    } else {
        assert(utf16_encode(utf16_decode(u)->Some_0) =~= u);
    }
}

/// True when every string's UTF-16 form is shorter than 0x8000 units.
pub open spec fn strings_short(v: Seq<Seq<char>>) -> bool {
    forall|i: int| 0 <= i < v.len() ==> #[trigger] utf16_encode(v[i]).len() < 0x8000
}

/// Every string of a UTF-16 pool that parses is shorter than 0x8000 units.
pub proof fn lemma_utf16_strings_short(buf: Seq<u8>, d: Seq<u8>, n: nat)
    requires
        spec_strings(buf, d, n, false) is Ok,
    ensures
        strings_short(spec_strings(buf, d, n, false)->Ok_0),
    decreases n,
{
    if n > 0 {
        lemma_utf16_strings_short(buf, d, (n - 1) as nat);
        let o = le32(buf, 4 * (n - 1)) as int;
        let k = le16(d, o);
        lemma_utf16_decode_encode(units_at(d, o + 2, k as nat));
    }
}

/// Every string of a UTF-16 pool chunk that parses is shorter than 0x8000 units.
pub proof fn lemma_utf16_pool_short(s: Seq<u8>, p: int, ch: ChunkHeader)
    requires
        spec_string_pool(s, p, ch) is Ok,
        !is_utf8(spec_string_pool(s, p, ch)->Ok_0.0.header.flags),
    ensures
        strings_short(spec_string_pool(s, p, ch)->Ok_0.0.strings),
{
    let h = pool_header_at(s, p, ch);
    let c = p - 8;
    let buf = s.subrange(c + ch.header_size, c + ch.size);
    let d = buf.subrange(h.string_start - ch.header_size, buf.len() as int);
    lemma_utf16_strings_short(buf, d, h.string_count as nat);
}

/// Relies on std's `String::from_utf16`: it decodes UTF-16 and fails on an unpaired surrogate.
#[verifier::external_body]
fn text_of_utf16(units: &[u16]) -> (r: Option<String>)
    ensures
        match r {
            Some(t) => utf16_decode(units@) == Some(t@),
            None => utf16_decode(units@) is None,
        },
{
    String::from_utf16(units).ok()
}

/// Relies on std's `String::from_utf8`: it accepts exactly the well-formed UTF-8 byte strings.
#[verifier::external_body]
fn text_of_utf8(bytes: Vec<u8>) -> (r: Option<String>)
    ensures
        match r {
            Some(t) => valid_utf8(bytes@) && t@ == decode_utf8(bytes@),
            None => !valid_utf8(bytes@),
        },
{
    String::from_utf8(bytes).ok()
}

/// Relies on std's `str::encode_utf16`: the UTF-16 code units of the text, in order.
#[verifier::external_body]
fn utf16_of(t: &str) -> (r: Vec<u16>)
    ensures
        r@ == utf16_encode(t@),
{
    t.encode_utf16().collect()
}

/// The `n` code units stored from `p` on.
pub open spec fn units_at(d: Seq<u8>, p: int, n: nat) -> Seq<u16> {
    Seq::new(n, |k: int| le16(d, p + 2 * k))
}

/// The length-prefixed UTF-16 string at offset `o` of the string data `d`.
pub open spec fn spec_utf16_string(d: Seq<u8>, o: int) -> Result<Seq<char>, ParseError> {
    if !fits(d, o, 2) {
        Err(ParseError::InvalidFile)
    } else {
        let n = le16(d, o);
        if n >= 0x8000 || !fits(d, o + 2, 2 * n) {
            Err(ParseError::InvalidFile)
        } else {
            match utf16_decode(units_at(d, o + 2, n as nat)) {
                Some(t) => Ok(t),
                None => Err(ParseError::Utf16StringParseError),
            }
        }
    }
}

/// The length-prefixed UTF-8 string at offset `o` of the string data `d`; its byte length
/// is the second byte.
pub open spec fn spec_utf8_string(d: Seq<u8>, o: int) -> Result<Seq<char>, ParseError> {
    if !fits(d, o, 2) {
        Err(ParseError::InvalidFile)
    } else {
        let n = d[o + 1];
        if n >= 0x80 || !fits(d, o + 2, n as int) {
            Err(ParseError::InvalidFile)
        } else {
            let b = d.subrange(o + 2, o + 2 + n);
            if valid_utf8(b) {
                Ok(decode_utf8(b))
            } else {
                Err(ParseError::Utf8StringParseError)
            }
        }
    }
}

/// True when the top bit of a 16-bit length is set.
pub fn is_high_bit_set_16(input: u16) -> (r: bool)
    ensures
        r == (input >= 0x8000),
{
    input >= 0x8000
}

/// True when the top bit of an 8-bit length is set.
pub fn is_high_bit_set_8(input: u8) -> (r: bool)
    ensures
        r == (input >= 0x80),
{
    input >= 0x80
}

/// Decodes the UTF-16 string at `offset` of the string data.
pub fn parse_utf16_string(string_data: &[u8], offset: usize) -> (r: Result<String, ParseError>)
    ensures
        match r {
            Ok(t) => spec_utf16_string(string_data@, offset as int) == Ok::<Seq<char>, ParseError>(t@),
            Err(e) => spec_utf16_string(string_data@, offset as int) == Err::<Seq<char>, ParseError>(e),
        },
{
    if !(offset < string_data.len() && string_data.len() - offset >= 2) {
        return Err(ParseError::InvalidFile);
    }
    let len = u16_at(string_data, offset);
    if is_high_bit_set_16(len) {
        return Err(ParseError::InvalidFile);
    }
    let start = offset + 2;
    if string_data.len() - start < 2 * (len as usize) {
        return Err(ParseError::InvalidFile);
    }
    let mut units: Vec<u16> = Vec::new();
    let mut i: usize = 0;
    while i < len as usize
        invariant
            0 <= i <= len,
            start + 2 * len <= string_data@.len() <= usize::MAX,
            units@ == units_at(string_data@, start as int, i as nat),
        decreases len - i,
    {
        let u = u16_at(string_data, start + 2 * i);
        units.push(u);
        i = i + 1;
        assert(units@ =~= units_at(string_data@, start as int, i as nat));
    }
    match text_of_utf16(units.as_slice()) {
        Some(t) => Ok(t),
        None => Err(ParseError::Utf16StringParseError),
    }
}

/// Decodes the UTF-8 string at `offset` of the string data.
pub fn parse_utf8_string(string_data: &[u8], offset: usize) -> (r: Result<String, ParseError>)
    ensures
        match r {
            Ok(t) => spec_utf8_string(string_data@, offset as int) == Ok::<Seq<char>, ParseError>(t@),
            Err(e) => spec_utf8_string(string_data@, offset as int) == Err::<Seq<char>, ParseError>(e),
        },
{
    if !(offset < string_data.len() && string_data.len() - offset >= 2) {
        return Err(ParseError::InvalidFile);
    }
    let len = string_data[offset + 1];
    if is_high_bit_set_8(len) {
        return Err(ParseError::InvalidFile);
    }
    let start = offset + 2;
    if string_data.len() - start < len as usize {
        return Err(ParseError::InvalidFile);
    }
    let mut bytes: Vec<u8> = Vec::new();
    let mut i: usize = 0;
    while i < len as usize
        invariant
            0 <= i <= len,
            start + len <= string_data@.len() <= usize::MAX,
            bytes@ == string_data@.subrange(start as int, start + i),
        decreases len - i,
    {
        bytes.push(string_data[start + i]);
        i = i + 1;
        assert(bytes@ =~= string_data@.subrange(start as int, start + i));
    }
    match text_of_utf8(bytes) {
        Some(t) => Ok(t),
        None => Err(ParseError::Utf8StringParseError),
    }
}

/// The fixed part of a string pool chunk.
#[derive(Debug, Clone, Copy, PartialEq, Eq, Structural)]
pub struct StringPoolHeader {
    pub chunk_header: ChunkHeader,
    pub string_count: u32,
    pub style_count: u32,
    pub flags: u32,
    pub string_start: u32,
    pub style_start: u32,
}

/// The pool header whose chunk header is `ch` and whose fields stand at `s[p..p + 20]`.
pub open spec fn pool_header_at(s: Seq<u8>, p: int, ch: ChunkHeader) -> StringPoolHeader {
    StringPoolHeader {
        chunk_header: ch,
        string_count: le32(s, p),
        style_count: le32(s, p + 4),
        flags: le32(s, p + 8),
        string_start: le32(s, p + 12),
        style_start: le32(s, p + 16),
    }
}

/// The 28 bytes that encode a pool header.
pub open spec fn pool_header_bytes(h: StringPoolHeader) -> Seq<u8> {
    header_bytes(h.chunk_header) + bytes32(h.string_count) + bytes32(h.style_count) + bytes32(h.flags)
        + bytes32(h.string_start) + bytes32(h.style_start)
}

impl StringPoolHeader {
    /// Reads the five pool fields that follow the chunk header `chunk_header`.
    pub fn read_from_file(input: &mut ByteReader, chunk_header: &ChunkHeader) -> (r: Result<StringPoolHeader, ParseError>)
        ensures
            final(input).data@ == old(input).data@,
            fits(old(input).data@, old(input).pos as int, 20) ==> r == Ok::<StringPoolHeader, ParseError>(
                pool_header_at(old(input).data@, old(input).pos as int, *chunk_header),
            ) && final(input).pos == old(input).pos + 20,
            !fits(old(input).data@, old(input).pos as int, 20) ==> r == Err::<StringPoolHeader, ParseError>(
                ParseError::IoError,
            ),
    {
        if !(input.pos < input.data.len() && input.data.len() - input.pos >= 20) {
            return Err(ParseError::IoError);
        }
        let string_count = read_u32(input)?;
        let style_count = read_u32(input)?;
        let flags = read_u32(input)?;
        let string_start = read_u32(input)?;
        let style_start = read_u32(input)?;
        Ok(StringPoolHeader { chunk_header: *chunk_header, string_count, style_count, flags, string_start, style_start })
    }

    /// Writes the 28 bytes of the pool header and returns their count.
    pub fn write_to_file(&self, output: &mut Vec<u8>) -> (n: usize)
        ensures
            final(output)@ == old(output)@ + pool_header_bytes(*self),
            n == 28,
    {
        self.chunk_header.write_to_file(output);
        write_u32(output, self.string_count);
        write_u32(output, self.style_count);
        write_u32(output, self.flags);
        write_u32(output, self.string_start);
        write_u32(output, self.style_start);
        assert(final(output)@ =~= old(output)@ + pool_header_bytes(*self));
        28
    }
}

/// True when bit 8 of the flags marks the strings as UTF-8.
pub open spec fn is_utf8(flags: u32) -> bool {
    (flags / 256) % 2 == 1
}

/// The string at offset `o` of the string data, in the pool's encoding.
pub open spec fn spec_string(d: Seq<u8>, o: int, utf8: bool) -> Result<Seq<char>, ParseError> {
    if utf8 {
        spec_utf8_string(d, o)
    } else {
        spec_utf16_string(d, o)
    }
}

/// The offsets of the first `n` strings, from the table at the start of `buf`.
pub open spec fn offsets_at(buf: Seq<u8>, n: nat) -> Seq<u32> {
    Seq::new(n, |k: int| le32(buf, 4 * k))
}

/// The first `n` strings of the pool whose offset table starts `buf` and whose string data
/// is `d`; the first one that fails decides.
pub open spec fn spec_strings(buf: Seq<u8>, d: Seq<u8>, n: nat, utf8: bool) -> Result<Seq<Seq<char>>, ParseError>
    decreases n,
{
    if n == 0 {
        Ok(Seq::empty())
    } else {
        match spec_strings(buf, d, (n - 1) as nat, utf8) {
            Ok(v) => match spec_string(d, le32(buf, 4 * (n - 1)) as int, utf8) {
                Ok(t) => Ok(v.push(t)),
                Err(e) => Err(e),
            },
            Err(e) => Err(e),
        }
    }
}

/// Once a string fails, so does every longer prefix of the pool, with that error.
proof fn lemma_strings_err(buf: Seq<u8>, d: Seq<u8>, i: nat, n: nat, utf8: bool)
    requires
        i <= n,
        spec_strings(buf, d, i, utf8) is Err,
    ensures
        spec_strings(buf, d, n, utf8) == spec_strings(buf, d, i, utf8),
    decreases n,
{
    if i < n {
        lemma_strings_err(buf, d, i, (n - 1) as nat, utf8);
    }
}

/// Every string that decoded had its offset inside the string data.
pub proof fn lemma_strings_offsets_in_range(buf: Seq<u8>, d: Seq<u8>, n: nat, utf8: bool)
    requires
        spec_strings(buf, d, n, utf8) is Ok,
    ensures
        spec_strings(buf, d, n, utf8)->Ok_0.len() == n,
        forall|k: int| 0 <= k < n ==> #[trigger] le32(buf, 4 * k) + 2 <= d.len(),
    decreases n,
{
    if n > 0 {
        lemma_strings_offsets_in_range(buf, d, (n - 1) as nat, utf8);
    }
}

/// What a string pool holds: its header and its strings.
pub struct StringPoolView {
    pub header: StringPoolHeader,
    pub strings: Seq<Seq<char>>,
}

/// The texts of a sequence of strings.
pub open spec fn texts(v: Seq<String>) -> Seq<Seq<char>> {
    v.map_values(|t: String| t@)
}

/// The pool chunk whose header `ch` ends at `p`, and the position where the chunk ends.
/// The pool header needs 28 bytes and no styles; the offset table and the start of the
/// string data must lie inside the chunk.
pub open spec fn spec_string_pool(s: Seq<u8>, p: int, ch: ChunkHeader) -> Result<(StringPoolView, int), ParseError> {
    let c = p - 8;
    let hs = ch.header_size as int;
    let size = ch.size as int;
    if !fits(s, p, 20) {
        Err(ParseError::IoError)
    } else {
        let h = pool_header_at(s, p, ch);
        if hs < 28 || h.style_count != 0 {
            Err(ParseError::InvalidFile)
        } else if !fits(s, c, size) {
            Err(ParseError::IoError)
        } else {
            let buf = s.subrange(c + hs, c + size);
            if h.string_count > buf.len() / 4 || h.string_start < hs || h.string_start - hs > buf.len() {
                Err(ParseError::InvalidFile)
            } else {
                let d = buf.subrange(h.string_start - hs, buf.len() as int);
                match spec_strings(buf, d, h.string_count as nat, is_utf8(h.flags)) {
                    Ok(v) => Ok((StringPoolView { header: h, strings: v }, c + size)),
                    Err(e) => Err(e),
                }
            }
        }
    }
}

/// For every pool that parses, the number of strings is the header's count, which is the
/// length of the offset table, and every offset leaves room for a length inside the string
/// data.
pub proof fn lemma_pool_offsets_in_range(s: Seq<u8>, p: int, ch: ChunkHeader)
    requires
        spec_string_pool(s, p, ch) is Ok,
    ensures
        ({
            let v = spec_string_pool(s, p, ch)->Ok_0.0;
            let c = p - 8;
            let buf = s.subrange(c + ch.header_size, c + ch.size);
            let d = buf.subrange(v.header.string_start - ch.header_size, buf.len() as int);
            &&& v.strings.len() == v.header.string_count
            &&& offsets_at(buf, v.header.string_count as nat).len() == v.strings.len()
            &&& forall|k: int| 0 <= k < v.strings.len() ==> #[trigger] offsets_at(buf, v.header.string_count as nat)[k] + 2 <= d.len()
            &&& ch.header_size <= v.header.string_start
            &&& forall|k: int|
                0 <= k < v.strings.len() ==> (v.header.string_start - ch.header_size) + #[trigger] offsets_at(
                    buf,
                    v.header.string_count as nat,
                )[k] + 2 <= buf.len()
        }),
{
    let h = pool_header_at(s, p, ch);
    let c = p - 8;
    let buf = s.subrange(c + ch.header_size, c + ch.size);
    let d = buf.subrange(h.string_start - ch.header_size, buf.len() as int);
    lemma_strings_offsets_in_range(buf, d, h.string_count as nat, is_utf8(h.flags));
    assert forall|k: int| 0 <= k < h.string_count implies #[trigger] offsets_at(buf, h.string_count as nat)[k] + 2 <= d.len() by {
        assert(le32(buf, 4 * k) + 2 <= d.len());
    }
}

/// A pool chunk in which some string's offset leaves no room for its length inside the
/// string data never parses: reading it fails, and does not panic.
pub proof fn lemma_pool_bad_offset_rejected(s: Seq<u8>, p: int, ch: ChunkHeader, k: int)
    requires
        fits(s, p, 20),
        ({
            let h = pool_header_at(s, p, ch);
            let c = p - 8;
            let buf = s.subrange(c + ch.header_size, c + ch.size);
            let d = buf.subrange(h.string_start - ch.header_size, buf.len() as int);
            &&& 0 <= k < h.string_count
            &&& offsets_at(buf, h.string_count as nat)[k] + 2 > d.len()
        }),
    ensures
        spec_string_pool(s, p, ch) is Err,
{
    if spec_string_pool(s, p, ch) is Ok {
        lemma_pool_offsets_in_range(s, p, ch);
    }
}

/// The 32-bit offsets in the table at the start of `string_data`.
pub fn parse_offsets(string_data: &[u8], count: usize) -> (r: Vec<u32>)
    requires
        count <= string_data@.len() / 4,
    ensures
        r@ == offsets_at(string_data@, count as nat),
{
    let ghost l = string_data@.len();
    assert(4 * count <= l) by (nonlinear_arith)
        requires count <= l / 4, l >= 0;
    let _ = string_data.len();
    let mut offsets: Vec<u32> = Vec::new();
    let mut i: usize = 0;
    while i < count
        invariant
            0 <= i <= count,
            string_data@.len() <= usize::MAX,
            4 * count <= string_data@.len(),
            offsets@ == offsets_at(string_data@, i as nat),
        decreases count - i,
    {
        offsets.push(u32_at(string_data, 4 * i));
        i = i + 1;
        assert(offsets@ =~= offsets_at(string_data@, i as nat));
    }
    offsets
}

/// A string pool: its header and its strings in index order.
#[derive(Debug, Clone)]
pub struct StringPool {
    pub header: StringPoolHeader,
    pub strings: Vec<String>,
}

impl View for StringPool {
    type V = StringPoolView;

    open spec fn view(&self) -> StringPoolView {
        StringPoolView { header: self.header, strings: texts(self.strings@) }
    }
}

impl StringPool {
    /// Reads the pool whose chunk header `chunk_header` was just read; see `spec_string_pool`.
    pub fn read_from_file(input: &mut ByteReader, chunk_header: &ChunkHeader) -> (r: Result<StringPool, ParseError>)
        requires
            old(input).pos >= 8,
            header_sizes_valid(*chunk_header),
        ensures
            final(input).data@ == old(input).data@,
            match r {
                Ok(pool) => spec_string_pool(old(input).data@, old(input).pos as int, *chunk_header)
                    == Ok::<(StringPoolView, int), ParseError>((pool@, final(input).pos as int)),
                Err(e) => spec_string_pool(old(input).data@, old(input).pos as int, *chunk_header)
                    == Err::<(StringPoolView, int), ParseError>(e),
            },
    {
        let ghost s = input.data@;
        let ghost p = input.pos as int;
        if !(input.pos < input.data.len() && input.data.len() - input.pos >= 20) {
            return Err(ParseError::IoError);
        }
        let header = StringPoolHeader::read_from_file(input, chunk_header)?;
        let string_count = header.string_count;
        let style_count = header.style_count;
        let flags = header.flags;
        let string_start = header.string_start;
        let hs = chunk_header.header_size as usize;
        let size = chunk_header.size as usize;
        if hs < 28 || style_count != 0 {
            return Err(ParseError::InvalidFile);
        }
        let c = input.pos - 28;
        if size > input.data.len() - c {
            return Err(ParseError::IoError);
        }
        let buf = &input.data.as_slice()[c + hs..c + size];
        let count = string_count as usize;
        let ss = string_start as usize;
        if count > buf.len() / 4 || ss < hs || ss - hs > buf.len() {
            return Err(ParseError::InvalidFile);
        }
        let d = &buf[ss - hs..buf.len()];
        let offsets = parse_offsets(buf, count);
        let utf8 = (flags / 256) % 2 == 1;
        let mut strings: Vec<String> = Vec::new();
        assert(texts(strings@) =~= Seq::<Seq<char>>::empty());
        let mut k: usize = 0;
        while k < count
            invariant
                s == old(input).data@,
                input.data@ == s,
                p == old(input).pos,
                c == p - 8,
                0 <= c,
                p + 20 <= s.len(),
                28 <= hs <= size,
                style_count == 0,
                hs <= ss,
                ss - hs <= buf@.len(),
                count <= buf@.len() / 4,
                c + size <= s.len(),
                hs == chunk_header.header_size,
                size == chunk_header.size,
                buf@ == s.subrange(c + hs, c + size),
                d@ == buf@.subrange(ss - hs, buf@.len() as int),
                ss == string_start,
                header == pool_header_at(s, p, *chunk_header),
                header.style_count == style_count,
                header.flags == flags,
                header.string_count == string_count,
                header.string_start == string_start,
                0 <= k <= count,
                count == string_count,
                offsets@ == offsets_at(buf@, count as nat),
                utf8 == is_utf8(flags),
                spec_strings(buf@, d@, k as nat, utf8) == Ok::<Seq<Seq<char>>, ParseError>(texts(strings@)),
            decreases count - k,
        {
            let off = offsets[k] as usize;
            let ghost prev = strings@;
            assert(off == le32(buf@, 4 * k));
            assert(spec_strings(buf@, d@, (k + 1) as nat, utf8) == match spec_string(d@, off as int, utf8) {
                Ok(t) => Ok(texts(prev).push(t)),
                Err(e) => Err::<Seq<Seq<char>>, ParseError>(e),
            });
            let t = if utf8 {
                parse_utf8_string(d, off)
            } else {
                parse_utf16_string(d, off)
            };
            match t {
                Ok(t) => {
                    strings.push(t);
                    assert(texts(strings@) =~= texts(prev).push(t@));
                },
                Err(e) => {
                    proof {
                        lemma_strings_err(buf@, d@, (k + 1) as nat, count as nat, utf8);
                    }
                    return Err(e);
                },
            }
            k = k + 1;
        }
        input.pos = c + size;
        Ok(StringPool { header, strings })
    }
}

/// The bytes of a sequence of code units, two per unit, little-endian.
pub open spec fn units_bytes(u: Seq<u16>) -> Seq<u8>
    decreases u.len(),
{
    if u.len() == 0 {
        Seq::empty()
    } else {
        units_bytes(u.drop_last()) + bytes16(u.last())
    }
}

/// A string as it is written: its UTF-16 length, its code units, then a zero unit.
pub open spec fn string_bytes(t: Seq<char>) -> Seq<u8> {
    let u = utf16_encode(t);
    bytes16(u.len() as u16) + units_bytes(u) + bytes16(0)
}

/// The string data region of a pool holding `v`, the strings one after another.
pub open spec fn strings_data(v: Seq<Seq<char>>) -> Seq<u8>
    decreases v.len(),
{
    if v.len() == 0 {
        Seq::empty()
    } else {
        strings_data(v.drop_last()) + string_bytes(v.last())
    }
}

/// The offset table of the first `n` strings of `v`: where each starts in the string data.
pub open spec fn offsets_bytes(v: Seq<Seq<char>>, n: nat) -> Seq<u8>
    decreases n,
{
    if n == 0 {
        Seq::empty()
    } else {
        offsets_bytes(v, (n - 1) as nat) + bytes32(strings_data(v.take(n - 1)).len() as u32)
    }
}

/// The header of a pool as it is written: the string-pool tag, 28 header bytes (the five
/// fields after the chunk header), no styles, and the counts, lengths and string start
/// recomputed from the strings it holds.
pub open spec fn canonical_pool_header(v: StringPoolView) -> StringPoolHeader {
    let n = v.strings.len();
    StringPoolHeader {
        chunk_header: ChunkHeader {
            typ: ResourceType::StringPool,
            header_size: 28,
            size: (28 + 4 * n + strings_data(v.strings).len()) as u32,
        },
        string_count: n as u32,
        style_count: 0,
        flags: v.header.flags,
        string_start: (4 * n + 28) as u32,
        style_start: v.header.style_start,
    }
}

/// The bytes of a pool as it is written: header, offset table, string data.
pub open spec fn pool_bytes(v: StringPoolView) -> Seq<u8> {
    pool_header_bytes(canonical_pool_header(v)) + offsets_bytes(v.strings, v.strings.len()) + strings_data(v.strings)
}

/// Writes one string as UTF-16 (length, code units, zero unit) and returns the count of bytes.
pub fn write_utf16_string(output: &mut Vec<u8>, s: &str) -> (n: usize)
    ensures
        final(output)@ == old(output)@ + string_bytes(s@),
        n == string_bytes(s@).len(),
{
    let start = output.len();
    let units = utf16_of(s);
    write_u16(output, units.len() as u16);
    let ghost mid = output@;
    let mut i: usize = 0;
    while i < units.len()
        invariant
            0 <= i <= units@.len(),
            output@ == mid + units_bytes(units@.take(i as int)),
        decreases units@.len() - i,
    {
        write_u16(output, units[i]);
        assert(units@.take(i + 1).drop_last() =~= units@.take(i as int));
        i = i + 1;
    }
    write_u16(output, 0);
    assert(units@.take(units@.len() as int) =~= units@);
    assert(output@ =~= old(output)@ + string_bytes(s@));
    output.len() - start
}

impl StringPool {
    /// The string at index `i`: absent for `0xFFFFFFFF` and for an index past the end.
    pub fn get(&self, i: usize) -> (r: Option<&String>)
        ensures
            match r {
                Some(t) => i != 0xFFFF_FFFF && i < self.strings@.len() && t@ == self@.strings[i as int],
                None => i == 0xFFFF_FFFF || i >= self.strings@.len(),
            },
    {
        if i == 0xFFFF_FFFF || i >= self.strings.len() {
            None
        } else {
            Some(&self.strings[i])
        }
    }

    /// Writes the pool in UTF-16 with its header recomputed (see `canonical_pool_header`)
    /// and returns the count of bytes written.
    #[verifier::spinoff_prover]
    pub fn write_to_file(&self, output: &mut Vec<u8>) -> (n: usize)
        requires
            self.strings@.len() <= 0xFFFF_FFFF,
        ensures
            final(output)@ == old(output)@ + pool_bytes(self@),
            n == pool_bytes(self@).len(),
    {
        let ghost v = self@.strings;
        let count = self.strings.len();
        let (data, offs) = encode_strings(&self.strings);
        let h = StringPoolHeader {
            chunk_header: ChunkHeader { typ: ResourceType::StringPool, header_size: 28, size: 0 },
            string_count: count as u32,
            style_count: 0,
            flags: self.header.flags,
            string_start: ((count as u64) * 4 + 28) as u32,
            style_start: self.header.style_start,
        };
        let total = emit_pool(output, &h, &offs, &data, Ghost(v));
        proof {
            lemma_offsets_bytes_len(v, count as nat);
            let h1 = StringPoolHeader { chunk_header: ChunkHeader { size: total as u32, ..h.chunk_header }, ..h };
            assert(h1 == canonical_pool_header(self@));
        }
        total
    }
}

/// Overwriting the size field of a written pool header gives the header with that size.
proof fn lemma_patch_pool_size(pre: Seq<u8>, h: StringPoolHeader, rest: Seq<u8>, x: u32)
    ensures
        ({
            let s = pre + pool_header_bytes(h) + rest;
            let h1 = StringPoolHeader { chunk_header: ChunkHeader { size: x, ..h.chunk_header }, ..h };
            s.subrange(0, pre.len() as int + 4) + bytes32(x) + s.subrange(pre.len() as int + 8, s.len() as int) == pre
                + pool_header_bytes(h1) + rest
        }),
{
    let s = pre + pool_header_bytes(h) + rest;
    let h1 = StringPoolHeader { chunk_header: ChunkHeader { size: x, ..h.chunk_header }, ..h };
    assert(s.subrange(0, pre.len() as int + 4) + bytes32(x) + s.subrange(pre.len() as int + 8, s.len() as int) =~= pre
        + pool_header_bytes(h1) + rest);
}

/// Writes a pool header, the offset table of `v` and the string data `data`, then sets the
/// header's size to the count of bytes written, which it returns.
fn emit_pool(output: &mut Vec<u8>, h: &StringPoolHeader, offs: &Vec<u32>, data: &Vec<u8>, v: Ghost<Seq<Seq<char>>>) -> (total: usize)
    requires
        offs@.len() == v@.len(),
        forall|j: int| 0 <= j < v@.len() ==> #[trigger] offs@[j] == strings_data(v@.take(j)).len() as u32,
    ensures
        total == 28 + 4 * v@.len() + data@.len(),
        final(output)@ == old(output)@ + pool_header_bytes(
            StringPoolHeader { chunk_header: ChunkHeader { size: total as u32, ..h.chunk_header }, ..*h },
        ) + offsets_bytes(v@, v@.len()) + data@,
{
    let start = output.len();
    h.write_to_file(output);
    write_offsets(output, offs, v);
    write_bytes(output, data);
    proof {
        lemma_offsets_bytes_len(v@, v@.len());
    }
    let total = output.len() - start;
    let ghost unpatched = output@;
    patch_u32(output, start + 4, total as u32);
    proof {
        let rest = offsets_bytes(v@, v@.len()) + data@;
        assert(unpatched =~= old(output)@ + pool_header_bytes(*h) + rest);
        lemma_patch_pool_size(old(output)@, *h, rest, total as u32);
    }
    total
}


/// The string data of `strings`, and where each string starts in it.
fn encode_strings(strings: &Vec<String>) -> (r: (Vec<u8>, Vec<u32>))
    ensures
        r.0@ == strings_data(texts(strings@)),
        r.1@.len() == strings@.len(),
        forall|k: int| 0 <= k < strings@.len() ==> #[trigger] r.1@[k] == strings_data(texts(strings@).take(k)).len() as u32,
{
    let ghost v = texts(strings@);
    let count = strings.len();
    let mut data: Vec<u8> = Vec::new();
    let mut offs: Vec<u32> = Vec::new();
    let mut i: usize = 0;
    while i < count
        invariant
            0 <= i <= count,
            count == strings@.len(),
            v == texts(strings@),
            data@ == strings_data(v.take(i as int)),
            offs@.len() == i,
            forall|k: int| 0 <= k < i ==> #[trigger] offs@[k] == strings_data(v.take(k)).len() as u32,
        decreases count - i,
    {
        offs.push(data.len() as u32);
        write_utf16_string(&mut data, strings[i].as_str());
        assert(v.take(i + 1).drop_last() =~= v.take(i as int));
        i = i + 1;
    }
    assert(v.take(count as int) =~= v);
    (data, offs)
}

/// Writes the offset table of the strings `v`, given where each one starts.
fn write_offsets(output: &mut Vec<u8>, offs: &Vec<u32>, v: Ghost<Seq<Seq<char>>>)
    requires
        offs@.len() == v@.len(),
        forall|j: int| 0 <= j < v@.len() ==> #[trigger] offs@[j] == strings_data(v@.take(j)).len() as u32,
    ensures
        final(output)@ == old(output)@ + offsets_bytes(v@, v@.len()),
{
    let mut k: usize = 0;
    while k < offs.len()
        invariant
            0 <= k <= offs@.len(),
            offs@.len() == v@.len(),
            forall|j: int| 0 <= j < v@.len() ==> #[trigger] offs@[j] == strings_data(v@.take(j)).len() as u32,
            output@ == old(output)@ + offsets_bytes(v@, k as nat),
        decreases offs@.len() - k,
    {
        write_u32(output, offs[k]);
        assert(output@ =~= old(output)@ + offsets_bytes(v@, (k + 1) as nat));
        k = k + 1;
    }
}

/// The offset table takes four bytes per string.
pub proof fn lemma_offsets_bytes_len(v: Seq<Seq<char>>, n: nat)
    ensures
        offsets_bytes(v, n).len() == 4 * n,
    decreases n,
{
    if n > 0 {
        lemma_offsets_bytes_len(v, (n - 1) as nat);
    }
}

} // verus!
