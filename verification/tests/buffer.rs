use minihttp::ByteBuffer;

#[test]
fn append_and_consume() {
    let mut b = ByteBuffer::new();
    assert!(b.is_empty());
    b.append(b"hello ");
    b.append(b"world");
    assert_eq!(b.len(), 11);
    assert_eq!(b.as_slice(), b"hello world");
    assert_eq!(b.get(6), b'w');

    b.consume(6);
    assert_eq!(b.as_slice(), b"world");
    b.consume(5);
    assert!(b.is_empty());
}

#[test]
fn consume_invalidates_earlier_offsets() {
    // Offsets handed out before a consume are relative to the old start;
    // after the shift the same offset selects later bytes.
    let mut b = ByteBuffer::new();
    b.append(b"abcdef");
    assert_eq!(b.get(0), b'a');
    b.consume(2);
    assert_eq!(b.get(0), b'c');
    assert_eq!(b.len(), 4);
}

#[test]
fn push_appends_single_bytes() {
    let mut b = ByteBuffer::new();
    b.push(13);
    b.push(10);
    assert_eq!(b.as_slice(), b"\r\n");
}
