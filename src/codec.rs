//! Little-endian fixed-width integer codec over an in-memory byte source.
use byteorder::{ByteOrder, LittleEndian};
use vstd::prelude::*;

use crate::ParseError;

verus! {

/// The 16-bit little-endian value stored at `s[p..p + 2]`.
pub open spec fn le16(s: Seq<u8>, p: int) -> u16 {
    (s[p] as int + 256 * s[p + 1] as int) as u16
}

/// The 32-bit little-endian value stored at `s[p..p + 4]`.
pub open spec fn le32(s: Seq<u8>, p: int) -> u32 {
    (s[p] as int + 256 * s[p + 1] as int + 65536 * s[p + 2] as int + 16777216 * s[p + 3] as int) as u32
}

/// The two little-endian bytes of `v`.
pub open spec fn bytes16(v: u16) -> Seq<u8> {
    seq![(v % 256) as u8, (v / 256) as u8]
}

/// The four little-endian bytes of `v`.
pub open spec fn bytes32(v: u32) -> Seq<u8> {
    seq![(v % 256) as u8, (v / 256 % 256) as u8, (v / 65536 % 256) as u8, (v / 16777216) as u8]
}

/// True when `n` bytes can be read from `s` at position `p`.
pub open spec fn fits(s: Seq<u8>, p: int, n: int) -> bool {
    0 <= p && p + n <= s.len()
}

/// Decoding the encoding of a 16-bit value gives the value back, wherever it stands.
pub proof fn lemma_le16_bytes16(v: u16, pre: Seq<u8>, post: Seq<u8>)
    ensures
        le16(pre + bytes16(v) + post, pre.len() as int) == v,
{
    let s = pre + bytes16(v) + post;
    assert(s[pre.len() as int] == (v % 256) as u8);
    assert(s[pre.len() as int + 1] == (v / 256) as u8);
}

/// Decoding the encoding of a 32-bit value gives the value back, wherever it stands.
pub proof fn lemma_le32_bytes32(v: u32, pre: Seq<u8>, post: Seq<u8>)
    ensures
        le32(pre + bytes32(v) + post, pre.len() as int) == v,
{
    let s = pre + bytes32(v) + post;
    let k = pre.len() as int;
    assert(s[k] == (v % 256) as u8);
    assert(s[k + 1] == (v / 256 % 256) as u8);
    assert(s[k + 2] == (v / 65536 % 256) as u8);
    assert(s[k + 3] == (v / 16777216) as u8);
    let x = v as int;
    assert(x % 256 + 256 * (x / 256 % 256) + 65536 * (x / 65536 % 256) + 16777216 * (x / 16777216) == x)
        by (nonlinear_arith)
        requires 0 <= x < 0x1_0000_0000;
}

/// A byte source with a read position, as a seekable input stream.
pub struct ByteReader {
    pub data: Vec<u8>,
    pub pos: usize,
}

impl ByteReader {
    /// A reader positioned at the start of `data`.
    pub fn new(data: Vec<u8>) -> (r: ByteReader)
        ensures
            r.data@ == data@,
            r.pos == 0,
    {
        ByteReader { data, pos: 0 }
    }

    /// True when no byte is left to read.
    pub fn at_end(&self) -> (r: bool)
        ensures
            r == (self.pos >= self.data@.len()),
    {
        self.pos >= self.data.len()
    }
}

/// Relies on byteorder's `LittleEndian::read_u16`: the first two bytes of `b`, little-endian.
#[verifier::external_body]
fn decode_le16(b: &[u8]) -> (r: u16)
    requires
        b@.len() >= 2,
    ensures
        r == le16(b@, 0),
{
    LittleEndian::read_u16(b)
}

/// Relies on byteorder's `LittleEndian::read_u32`: the first four bytes of `b`, little-endian.
#[verifier::external_body]
fn decode_le32(b: &[u8]) -> (r: u32)
    requires
        b@.len() >= 4,
    ensures
        r == le32(b@, 0),
{
    LittleEndian::read_u32(b)
}

/// Relies on byteorder's `LittleEndian::write_u16`: it stores `v` little-endian in two bytes.
#[verifier::external_body]
fn encode_le16(v: u16) -> (r: Vec<u8>)
    ensures
        r@ == bytes16(v),
{
    let mut b = vec![0u8; 2];
    LittleEndian::write_u16(&mut b, v);
    b
}

/// Relies on byteorder's `LittleEndian::write_u32`: it stores `v` little-endian in four bytes.
#[verifier::external_body]
fn encode_le32(v: u32) -> (r: Vec<u8>)
    ensures
        r@ == bytes32(v),
{
    let mut b = vec![0u8; 4];
    LittleEndian::write_u32(&mut b, v);
    b
}

/// The 16-bit little-endian value at `b[p..p + 2]`.
pub fn u16_at(b: &[u8], p: usize) -> (r: u16)
    requires
        fits(b@, p as int, 2),
    ensures
        r == le16(b@, p as int),
{
    let _ = b.len();
    let r = decode_le16(&b[p..p + 2]);
    assert(b@.subrange(p as int, p + 2)[0] == b@[p as int]);
    assert(b@.subrange(p as int, p + 2)[1] == b@[p + 1]);
    r
}

/// The 32-bit little-endian value at `b[p..p + 4]`.
pub fn u32_at(b: &[u8], p: usize) -> (r: u32)
    requires
        fits(b@, p as int, 4),
    ensures
        r == le32(b@, p as int),
{
    let _ = b.len();
    let r = decode_le32(&b[p..p + 4]);
    assert(b@.subrange(p as int, p + 4)[0] == b@[p as int]);
    assert(b@.subrange(p as int, p + 4)[1] == b@[p + 1]);
    assert(b@.subrange(p as int, p + 4)[2] == b@[p + 2]);
    assert(b@.subrange(p as int, p + 4)[3] == b@[p + 3]);
    r
}

/// Reads one byte; a short read fails with `IoError`.
pub fn read_u8(input: &mut ByteReader) -> (r: Result<u8, ParseError>)
    ensures
        final(input).data@ == old(input).data@,
        fits(old(input).data@, old(input).pos as int, 1) ==> r == Ok::<u8, ParseError>(
            old(input).data@[old(input).pos as int],
        ) && final(input).pos == old(input).pos + 1,
        !fits(old(input).data@, old(input).pos as int, 1) ==> r == Err::<u8, ParseError>(
            ParseError::IoError,
        ) && final(input).pos == old(input).pos,
{
    if input.pos < input.data.len() {
        let v = input.data[input.pos];
        input.pos = input.pos + 1;
        Ok(v)
    } else {
        Err(ParseError::IoError)
    }
}

/// Reads a little-endian 16-bit value; a short read fails with `IoError`.
pub fn read_u16(input: &mut ByteReader) -> (r: Result<u16, ParseError>)
    ensures
        final(input).data@ == old(input).data@,
        fits(old(input).data@, old(input).pos as int, 2) ==> r == Ok::<u16, ParseError>(
            le16(old(input).data@, old(input).pos as int),
        ) && final(input).pos == old(input).pos + 2,
        !fits(old(input).data@, old(input).pos as int, 2) ==> r == Err::<u16, ParseError>(
            ParseError::IoError,
        ) && final(input).pos == old(input).pos,
{
    if input.pos < input.data.len() && input.data.len() - input.pos >= 2 {
        let p = input.pos;
        let v = decode_le16(&input.data.as_slice()[p..p + 2]);
        input.pos = p + 2;
        Ok(v)
    } else {
        Err(ParseError::IoError)
    }
}

/// Reads a little-endian 32-bit value; a short read fails with `IoError`.
pub fn read_u32(input: &mut ByteReader) -> (r: Result<u32, ParseError>)
    ensures
        final(input).data@ == old(input).data@,
        fits(old(input).data@, old(input).pos as int, 4) ==> r == Ok::<u32, ParseError>(
            le32(old(input).data@, old(input).pos as int),
        ) && final(input).pos == old(input).pos + 4,
        !fits(old(input).data@, old(input).pos as int, 4) ==> r == Err::<u32, ParseError>(
            ParseError::IoError,
        ) && final(input).pos == old(input).pos,
{
    if input.pos < input.data.len() && input.data.len() - input.pos >= 4 {
        let p = input.pos;
        let v = decode_le32(&input.data.as_slice()[p..p + 4]);
        input.pos = p + 4;
        Ok(v)
    } else {
        Err(ParseError::IoError)
    }
}

/// Overwrites the four bytes at `at` with `v`, little-endian.
pub fn patch_u32(output: &mut Vec<u8>, at: usize, v: u32)
    requires
        at + 4 <= old(output)@.len(),
    ensures
        final(output)@ == old(output)@.subrange(0, at as int) + bytes32(v) + old(output)@.subrange(
            at + 4,
            old(output)@.len() as int,
        ),
{
    let _ = output.len();
    let b = encode_le32(v);
    output.set(at, b[0]);
    output.set(at + 1, b[1]);
    output.set(at + 2, b[2]);
    output.set(at + 3, b[3]);
    assert(final(output)@ =~= old(output)@.subrange(0, at as int) + bytes32(v) + old(output)@.subrange(
        at + 4,
        old(output)@.len() as int,
    ));
}

/// Appends all of `data`.
pub fn write_bytes(output: &mut Vec<u8>, data: &Vec<u8>)
    ensures
        final(output)@ == old(output)@ + data@,
{
    let mut j: usize = 0;
    while j < data.len()
        invariant
            0 <= j <= data@.len(),
            output@ == old(output)@ + data@.take(j as int),
        decreases data@.len() - j,
    {
        output.push(data[j]);
        assert(data@.take(j + 1) =~= data@.take(j as int).push(data@[j as int]));
        j = j + 1;
    }
    assert(data@.take(data@.len() as int) =~= data@);
}

/// Appends one byte and returns the count written.
pub fn write_u8(output: &mut Vec<u8>, v: u8) -> (n: usize)
    ensures
        final(output)@ == old(output)@.push(v),
        n == 1,
{
    output.push(v);
    1
}

/// Appends `v` as two little-endian bytes and returns the count written.
pub fn write_u16(output: &mut Vec<u8>, v: u16) -> (n: usize)
    ensures
        final(output)@ == old(output)@ + bytes16(v),
        n == 2,
{
    let b = encode_le16(v);
    output.push(b[0]);
    output.push(b[1]);
    assert(final(output)@ =~= old(output)@ + bytes16(v));
    2
}

/// Appends `v` as four little-endian bytes and returns the count written.
pub fn write_u32(output: &mut Vec<u8>, v: u32) -> (n: usize)
    ensures
        final(output)@ == old(output)@ + bytes32(v),
        n == 4,
{
    let b = encode_le32(v);
    output.push(b[0]);
    output.push(b[1]);
    output.push(b[2]);
    output.push(b[3]);
    4
}

} // verus!
