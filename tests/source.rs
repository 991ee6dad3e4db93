use ojcmp::{drain, ByteRead, IoByte, MemReader};

#[test]
fn mem_reader_yields_bytes_then_end() {
    let mut r = MemReader::from_slice(b"ab", 1);
    let x = r.next_byte();
    assert!(!x.is_eof());
    assert_eq!(x.as_u8(), b'a');
    assert_eq!(r.next_byte().as_u8(), b'b');
    assert!(r.next_byte().is_eof());
    assert!(r.next_byte().is_eof());
}

#[test]
fn mem_reader_blocks() {
    let mut r = MemReader::new(b"abcdefg".to_vec(), 3);
    assert_eq!(r.buffer(), b"");
    r.fill_buf();
    assert_eq!(r.buffer(), b"abc");
    r.consume(2);
    assert_eq!(r.buffer(), b"c");
    r.fill_buf();
    assert_eq!(r.buffer(), b"c");
    assert_eq!(r.next_byte().as_u8(), b'c');
    r.fill_buf();
    assert_eq!(r.buffer(), b"def");
    drain(&mut r);
    r.fill_buf();
    assert_eq!(r.buffer(), b"");
    assert!(r.next_byte().is_eof());
}

#[test]
fn io_byte_accessors() {
    let b = IoByte::from_u8(7);
    assert_eq!(b.as_u8(), 7);
    assert!(!b.is_eof());
    assert!(IoByte::eof_marker().is_eof());
    assert_eq!(IoByte::eof_marker().as_u8(), 0);
    let mut r = MemReader::from_slice(b"", 4);
    assert_eq!(r.next_byte().as_u8(), 0);
}
