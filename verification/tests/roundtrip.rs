//! Round-trip behaviour of the codec: what is encoded decodes back,
//! field for field and byte for byte.

use gzip::member::ExtraField;
use gzip::member::METHOD_DEFLATE;
use gzip::member::METHOD_STORE;
use gzip::read_archive;
use gzip::write_member;
use gzip::Member;

fn crc32(data: &[u8]) -> u32 {
    let mut c = flate2::Crc::new();
    c.update(data);
    c.sum()
}

#[test]
fn store_scenario() {
    // A stored member with a name and a five-byte payload.
    let mut m = Member::new();
    m.method = METHOD_STORE;
    m.name = Some(b"a.txt".to_vec());
    let bytes = write_member(&m, b"hello", 6).expect("encode");

    let members = read_archive(&bytes).expect("decode");
    assert_eq!(members.len(), 1);
    let (got, payload) = &members[0];
    assert_eq!(payload.as_slice(), b"hello");
    assert_eq!(got.name.as_ref().expect("name").as_slice(), b"a.txt");
    assert!(got.comment.is_none());
    assert!(got.extra.is_none());
    assert_eq!(got.payload_size, 5);
    assert_eq!(got.payload_crc32, crc32(b"hello"));

    // Re-encoding the decoded member reproduces the bytes exactly.
    let again = write_member(got, payload, 6).expect("re-encode");
    assert_eq!(again, bytes);
}

#[test]
fn deflate_all_fields_roundtrip() {
    let mut m = Member::new();
    m.method = METHOD_DEFLATE;
    m.ascii_hint = true;
    m.mtime = 1700000000;
    m.xfl = 2;
    m.os_code = 3;
    m.extra = Some(ExtraField {
        id1: b'A',
        id2: b'P',
        data: vec![1, 2, 3, 4, 5],
    });
    m.name = Some(b"data.bin".to_vec());
    m.comment = Some(b"a comment".to_vec());
    m.header_crc = true;
    let payload = b"the quick brown fox jumps over the lazy dog".repeat(20);
    let bytes = write_member(&m, &payload, 6).expect("encode");

    let members = read_archive(&bytes).expect("decode");
    assert_eq!(members.len(), 1);
    let (got, p) = &members[0];
    assert_eq!(p, &payload);
    assert_eq!(got.method, METHOD_DEFLATE);
    assert!(got.ascii_hint);
    assert_eq!(got.mtime, 1700000000);
    assert_eq!(got.xfl, 2);
    assert_eq!(got.os_code, 3);
    let e = got.extra.as_ref().expect("extra");
    assert_eq!((e.id1, e.id2), (b'A', b'P'));
    assert_eq!(e.data, vec![1, 2, 3, 4, 5]);
    assert_eq!(got.name.as_ref().expect("name").as_slice(), b"data.bin");
    assert_eq!(got.comment.as_ref().expect("comment").as_slice(), b"a comment");
    assert!(got.header_crc);
    assert_eq!(got.reserved_flags, 0);
    assert_eq!(got.payload_size, payload.len() as u32);
    assert_eq!(got.payload_crc32, crc32(&payload));

    let again = write_member(got, p, 6).expect("re-encode");
    assert_eq!(again, bytes);
}

#[test]
fn empty_payload_roundtrip() {
    let m = Member::new();
    let bytes = write_member(&m, b"", 6).expect("encode");
    let members = read_archive(&bytes).expect("decode");
    assert_eq!(members.len(), 1);
    let (got, p) = &members[0];
    assert!(p.is_empty());
    assert_eq!(got.payload_size, 0);
    assert_eq!(got.payload_crc32, crc32(b""));
}

#[test]
fn header_checksum_roundtrip() {
    let mut m = Member::new();
    m.header_crc = true;
    m.name = Some(b"checked".to_vec());
    let bytes = write_member(&m, b"payload bytes", 9).expect("encode");
    let members = read_archive(&bytes).expect("decode");
    assert_eq!(members[0].1.as_slice(), b"payload bytes");
    assert!(members[0].0.header_crc);
}

#[test]
fn known_crc_check_value() {
    // The well-known CRC-32 check value pins the checksum engine down.
    assert_eq!(crc32(b"123456789"), 0xCBF43926);
    let mut m = Member::new();
    m.method = METHOD_STORE;
    let bytes = write_member(&m, b"123456789", 6).expect("encode");
    let members = read_archive(&bytes).expect("decode");
    assert_eq!(members[0].0.payload_crc32, 0xCBF43926);
}
