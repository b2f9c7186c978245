use axmldecoder::{read_u16, read_u32, read_u8, write_u16, write_u32, write_u8, ByteReader, ParseError};

#[test]
fn test_u8_rw() {
    let src = [42u8; 1];
    let mut dst: Vec<u8> = vec![];
    let mut cursor = ByteReader::new(src.to_vec());
    let v = read_u8(&mut cursor).unwrap();
    assert_eq!(v, 42u8);
    let n = write_u8(&mut dst, v);
    assert_eq!(n, 1);
    assert_eq!(&src, dst.as_slice());
}

#[test]
fn test_u16_rw() {
    let src = [43u8, 99u8];
    let mut dst: Vec<u8> = vec![];
    let mut cursor = ByteReader::new(src.to_vec());
    let v = read_u16(&mut cursor).unwrap();
    assert_eq!(v, 99 * 256 + 43);
    let n = write_u16(&mut dst, v);
    assert_eq!(n, 2);
    assert_eq!(&src, dst.as_slice());
}

#[test]
fn test_u32_rw() {
    let src = [0xfau8, 0xceu8, 0xb0u8, 0x0cu8];
    let mut dst: Vec<u8> = vec![];
    let mut cursor = ByteReader::new(src.to_vec());
    let v = read_u32(&mut cursor).unwrap();
    assert_eq!(v, 0x0cb0cefa);
    let n = write_u32(&mut dst, v);
    assert_eq!(n, 4);
    assert_eq!(&src, dst.as_slice());
}

#[test]
fn short_reads_fail_with_io_error() {
    let mut cursor = ByteReader::new(vec![1u8, 2, 3]);
    assert_eq!(read_u32(&mut cursor), Err(ParseError::IoError));
    assert_eq!(read_u16(&mut cursor), Ok(0x0201));
    assert_eq!(read_u16(&mut cursor), Err(ParseError::IoError));
    assert_eq!(read_u8(&mut cursor), Ok(3));
    assert_eq!(read_u8(&mut cursor), Err(ParseError::IoError));
    assert!(cursor.at_end());
}

#[test]
fn integer_round_trip_on_extremes() {
    for x in [0u32, 1, 0xFF, 0x100, 0xFFFF_FFFF, 0x8000_0000] {
        let mut out = Vec::new();
        write_u32(&mut out, x);
        let mut r = ByteReader::new(out);
        assert_eq!(read_u32(&mut r), Ok(x));
    }
    for x in [0u16, 1, 0xFF, 0x100, 0xFFFF] {
        let mut out = Vec::new();
        write_u16(&mut out, x);
        let mut r = ByteReader::new(out);
        assert_eq!(read_u16(&mut r), Ok(x));
    }
}
