//! The streaming writer and reader, and multi-member archives.

use std::cell::RefCell;
use std::io::Write;
use std::rc::Rc;

use gzip::member::METHOD_STORE;
use gzip::read_archive;
use gzip::write_member;
use gzip::Member;
use gzip::Reader;
use gzip::Writer;

/// Smoke-test for the compression wrapper. Confirms that a writer can be
/// constructed, data can be written to it, it can be finished, and the data
/// produced isn't garbage.
#[test]
fn write_smoke() {
    let mut output: Vec<u8> = vec![];
    let mut gzip_writer = Writer::new(Member::new(), 6).expect("writer");
    output.extend(gzip_writer.write(b"test string").expect("write"));
    output.extend(gzip_writer.finish().expect("flush"));
    assert_ne!(output.len(), 0);
}

/// Refcell wrapper for monitoring of types consuming a shared buffer
/// through the `Write` trait, as a program around the library would.
#[derive(Debug, Clone)]
struct MockFile(Rc<RefCell<Vec<u8>>>);

impl Write for MockFile {
    fn write(&mut self, buf: &[u8]) -> std::io::Result<usize> {
        self.0.borrow_mut().write(buf)
    }

    fn flush(&mut self) -> std::io::Result<()> {
        self.0.borrow_mut().flush()
    }
}

#[test]
fn mockfile_works() {
    let buffer = Rc::new(RefCell::new(vec![]));
    let mut mock_writer = MockFile(buffer.clone());
    mock_writer.write_all(b"test").expect("write");
    mock_writer.flush().expect("flush");
    assert_eq!(buffer.borrow()[..], b"test"[..]);
}

#[test]
fn chunked_writes_match_single_write() {
    let payload: Vec<u8> = (0..10000u32).map(|i| (i % 251) as u8).collect();
    let whole = write_member(&Member::new(), &payload, 6).expect("one call");

    for chunk in [1usize, 3, 7, 100, 4096] {
        let mut w = Writer::new(Member::new(), 6).expect("writer");
        let mut out: Vec<u8> = vec![];
        for part in payload.chunks(chunk) {
            out.extend(w.write(part).expect("write"));
        }
        out.extend(w.finish().expect("finish"));
        assert_eq!(out, whole, "chunk size {}", chunk);
    }
}

#[test]
fn writer_refuses_use_after_finish() {
    let mut w = Writer::new(Member::new(), 6).expect("writer");
    w.finish().expect("finish");
    assert_eq!(w.write(b"more"), Err(gzip::Error::Usage));
    assert_eq!(w.finish(), Err(gzip::Error::Usage));
}

#[test]
fn writer_refuses_bad_method() {
    let mut m = Member::new();
    m.method = 7;
    assert_eq!(
        Writer::new(m, 6).err(),
        Some(gzip::Error::Format(gzip::FormatError::UnsupportedMethod))
    );
}

#[test]
fn writer_refuses_embedded_zero_in_name() {
    let mut m = Member::new();
    m.name = Some(b"a\0b".to_vec());
    assert_eq!(Writer::new(m, 6).err(), Some(gzip::Error::Usage));
}

#[test]
fn writer_refuses_reserved_flags() {
    let mut m = Member::new();
    m.reserved_flags = 0x20;
    assert_eq!(Writer::new(m, 6).err(), Some(gzip::Error::Usage));
}

#[test]
fn two_member_concatenation() {
    let mut m1 = Member::new();
    m1.name = Some(b"first".to_vec());
    let mut m2 = Member::new();
    m2.name = Some(b"second".to_vec());
    let a = write_member(&m1, b"payload one", 6).expect("first");
    let b = write_member(&m2, b"payload two, a bit longer", 9).expect("second");
    let mut joined = a.clone();
    joined.extend_from_slice(&b);

    let members = read_archive(&joined).expect("decode");
    assert_eq!(members.len(), 2);
    assert_eq!(members[0].0.name.as_ref().unwrap().as_slice(), b"first");
    assert_eq!(members[0].1.as_slice(), b"payload one");
    assert_eq!(members[1].0.name.as_ref().unwrap().as_slice(), b"second");
    assert_eq!(members[1].1.as_slice(), b"payload two, a bit longer");
}

#[test]
fn concatenation_with_stored_tail() {
    let m1 = Member::new();
    let mut m2 = Member::new();
    m2.method = METHOD_STORE;
    let a = write_member(&m1, b"compressed head", 6).expect("first");
    let b = write_member(&m2, b"stored tail", 6).expect("second");
    let mut joined = a;
    joined.extend_from_slice(&b);

    let members = read_archive(&joined).expect("decode");
    assert_eq!(members.len(), 2);
    assert_eq!(members[0].1.as_slice(), b"compressed head");
    assert_eq!(members[1].1.as_slice(), b"stored tail");
}

#[test]
fn three_member_archive() {
    let mut joined = Vec::new();
    for (name, payload) in [
        (&b"one"[..], &b"first payload"[..]),
        (&b"two"[..], &b"second payload, rather longer than the first"[..]),
        (&b"three"[..], &b""[..]),
    ] {
        let mut m = Member::new();
        m.name = Some(name.to_vec());
        joined.extend(write_member(&m, payload, 6).expect("encode"));
    }
    let members = read_archive(&joined).expect("decode");
    assert_eq!(members.len(), 3);
    assert_eq!(members[0].1.as_slice(), b"first payload");
    assert_eq!(
        members[1].1.as_slice(),
        &b"second payload, rather longer than the first"[..]
    );
    assert!(members[2].1.is_empty());
    assert_eq!(members[2].0.name.as_ref().unwrap().as_slice(), b"three");
}

#[test]
fn reader_steps_through_members() {
    let a = write_member(&Member::new(), b"one", 6).expect("first");
    let b = write_member(&Member::new(), b"two", 6).expect("second");
    let mut joined = a;
    joined.extend_from_slice(&b);

    let mut rd = Reader::new(joined);
    assert!(!rd.at_end());
    let first = rd.next_member().expect("first").expect("some");
    assert_eq!(first.1.as_slice(), b"one");
    let second = rd.next_member().expect("second").expect("some");
    assert_eq!(second.1.as_slice(), b"two");
    assert!(rd.at_end());
    assert!(rd.next_member().expect("end").is_none());
}

#[test]
fn reader_error_leaves_position() {
    let good = write_member(&Member::new(), b"data", 6).expect("encode");
    let mut rd = Reader::new(good[..good.len() - 3].to_vec());
    assert_eq!(rd.next_member(), Err(gzip::FormatError::Truncated));
    // The reader is unmoved and reports the same error again.
    assert_eq!(rd.next_member(), Err(gzip::FormatError::Truncated));
}

#[test]
fn large_incompressible_payload_roundtrip() {
    // A pseudo-random payload larger than the writer's chunk, so the drain
    // loop runs more than once.
    let mut state = 0x12345678u32;
    let payload: Vec<u8> = (0..100000)
        .map(|_| {
            state = state.wrapping_mul(1664525).wrapping_add(1013904223);
            (state >> 24) as u8
        })
        .collect();
    let bytes = write_member(&Member::new(), &payload, 1).expect("encode");
    let members = read_archive(&bytes).expect("decode");
    assert_eq!(members[0].1, payload);
}
