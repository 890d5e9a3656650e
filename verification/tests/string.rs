use std::io::{BufReader, Read, Write};

use payments_engine::string::{StringReader, StringWriter};

#[test]
fn read_a_string() {
    let s = "Hello World".to_string();

    let r = StringReader::from(s.clone());

    // New bytes
    let mut read_bytes = Vec::new();
    for _ in 0..s.len() {
        read_bytes.push(0);
    }

    let mut reader = BufReader::new(r);
    reader.read(read_bytes.as_mut_slice()).unwrap();

    assert_eq!(read_bytes.as_slice(), s.as_bytes());
}

#[test]
fn sanity_check_partial_reads() {
    let s = "Hello World";

    let r = StringReader::from(s);

    // Only one byte will be present in this buffer. We'll read one byte at a time
    let mut read_bytes = Vec::new();
    read_bytes.push(0);

    let mut reader = BufReader::new(r);

    for _ in 0..s.len() {
        let count = reader.read(read_bytes.as_mut_slice()).unwrap();
        assert_eq!(count, 1);
    }

    // There should be no more bytes to read
    let count = reader.read(read_bytes.as_mut_slice()).unwrap();
    assert_eq!(count, 0);
}

#[test]
fn writer_test() {
    let s = "Hello World";

    let mut w = StringWriter::new();

    w.write_all(s.as_bytes()).unwrap();

    assert_eq!(w.take().as_str(), s);
}

#[test]
fn read_hands_out_the_bytes_in_order() {
    let mut r = StringReader::from("abcdef");
    let mut buf = [0u8; 4];

    assert_eq!(r.read(&mut buf).unwrap(), 4);
    assert_eq!(&buf, b"abcd");

    // Two bytes are left: the rest of the buffer stays as it was.
    assert_eq!(r.read(&mut buf).unwrap(), 2);
    assert_eq!(&buf, b"efcd");

    assert_eq!(r.read(&mut buf).unwrap(), 0);
    assert_eq!(&buf, b"efcd");
}

#[test]
fn read_into_an_empty_buffer_reads_nothing() {
    let mut r = StringReader::from("abc");
    let mut none: [u8; 0] = [];
    assert_eq!(r.read(&mut none).unwrap(), 0);

    let mut buf = [0u8; 3];
    assert_eq!(r.read(&mut buf).unwrap(), 3);
    assert_eq!(&buf, b"abc");
}

#[test]
fn read_of_an_empty_string_reads_nothing() {
    let mut r = StringReader::from(String::new());
    let mut buf = [7u8; 2];
    assert_eq!(r.read(&mut buf).unwrap(), 0);
    assert_eq!(buf, [7u8, 7u8]);
}

#[test]
fn read_hands_out_utf8() {
    let text = "né";
    let mut r = StringReader::from(text);
    let mut buf = [0u8; 8];
    assert_eq!(r.read(&mut buf).unwrap(), 3);
    assert_eq!(&buf[..3], text.as_bytes());
}

#[test]
fn read_to_string_returns_the_text() {
    let mut r = StringReader::from("type, client\ndeposit, 1\n");
    let mut out = String::new();
    r.read_to_string(&mut out).unwrap();
    assert_eq!(out, "type, client\ndeposit, 1\n");
}

#[test]
fn writer_starts_empty() {
    assert_eq!(StringWriter::new().take(), "");
}

#[test]
fn writer_appends_in_order() {
    let mut w = StringWriter::new();
    assert_eq!(w.write(b"Hello").unwrap(), 5);
    assert_eq!(w.write(b" ").unwrap(), 1);
    w.push_text("World");
    w.flush().unwrap();
    assert_eq!(w.take(), "Hello World");
}

#[test]
fn writer_replaces_invalid_utf8() {
    let mut w = StringWriter::new();
    // 0xff is never valid in UTF-8; all three bytes count as written.
    assert_eq!(w.write(&[b'a', 0xff, b'b']).unwrap(), 3);
    assert_eq!(w.take(), "a\u{fffd}b");
}

#[test]
fn writer_decodes_utf8() {
    let mut w = StringWriter::new();
    assert_eq!(w.write("né".as_bytes()).unwrap(), 3);
    assert_eq!(w.take(), "né");
}

#[test]
fn writers_compare_by_text() {
    let mut a = StringWriter::new();
    let mut b = StringWriter::new();
    a.push_text("x");
    assert_ne!(a, b);
    b.push_text("x");
    assert_eq!(a, b.clone());
}
