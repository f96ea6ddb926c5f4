//! Byte-level compatibility with an independent implementation: what this
//! codec writes, flate2's gzip decoder reads, and the other way round.

use std::io::Read;
use std::io::Write;

use gzip::member::METHOD_DEFLATE;
use gzip::read_archive;
use gzip::write_member;
use gzip::Member;

#[test]
fn our_archive_reads_elsewhere() {
    let mut m = Member::new();
    m.method = METHOD_DEFLATE;
    m.name = Some(b"inter.op".to_vec());
    m.mtime = 123456789;
    let payload = b"compatibility is the point of a container format".repeat(10);
    let bytes = write_member(&m, &payload, 6).expect("encode");

    let mut d = flate2::bufread::GzDecoder::new(bytes.as_slice());
    let mut got = Vec::new();
    d.read_to_end(&mut got).expect("foreign decode");
    assert_eq!(got, payload);
    let header = d.header().expect("header");
    assert_eq!(header.filename().expect("name"), b"inter.op");
    assert_eq!(header.mtime(), 123456789);
}

#[test]
fn foreign_archive_reads_here() {
    let payload = b"written by another implementation".to_vec();
    let sink: Vec<u8> = Vec::new();
    let mut enc = flate2::GzBuilder::new()
        .filename("foreign.txt")
        .comment("made elsewhere")
        .mtime(987654321)
        .write(sink, flate2::Compression::new(6));
    enc.write_all(&payload).expect("write");
    let bytes = enc.finish().expect("finish");

    let members = read_archive(&bytes).expect("decode");
    assert_eq!(members.len(), 1);
    let (m, p) = &members[0];
    assert_eq!(p, &payload);
    assert_eq!(m.name.as_ref().expect("name").as_slice(), b"foreign.txt");
    assert_eq!(
        m.comment.as_ref().expect("comment").as_slice(),
        b"made elsewhere"
    );
    assert_eq!(m.mtime, 987654321);
    assert_eq!(m.method, METHOD_DEFLATE);
}

#[test]
fn foreign_extra_field_reads_here() {
    // flate2 writes the extra bytes verbatim; shaped as one subfield they
    // decode into the library's extra-field model.
    let extra = vec![b'X', b'Y', 3, 0, 7, 8, 9];
    let sink: Vec<u8> = Vec::new();
    let mut enc = flate2::GzBuilder::new()
        .extra(extra)
        .write(sink, flate2::Compression::new(6));
    enc.write_all(b"data").expect("write");
    let bytes = enc.finish().expect("finish");

    let members = read_archive(&bytes).expect("decode");
    let e = members[0].0.extra.as_ref().expect("extra");
    assert_eq!((e.id1, e.id2), (b'X', b'Y'));
    assert_eq!(e.data, vec![7, 8, 9]);
}

#[test]
fn our_concatenation_reads_elsewhere() {
    let a = write_member(&Member::new(), b"alpha", 6).expect("first");
    let b = write_member(&Member::new(), b"beta", 6).expect("second");
    let mut joined = a;
    joined.extend_from_slice(&b);

    let mut d = flate2::bufread::MultiGzDecoder::new(joined.as_slice());
    let mut got = Vec::new();
    d.read_to_end(&mut got).expect("foreign decode");
    assert_eq!(got, b"alphabeta");
}

#[test]
fn foreign_concatenation_reads_here() {
    let mut joined = Vec::new();
    for part in [&b"one "[..], &b"two"[..]] {
        let sink: Vec<u8> = Vec::new();
        let mut enc = flate2::write::GzEncoder::new(sink, flate2::Compression::new(9));
        enc.write_all(part).expect("write");
        joined.extend(enc.finish().expect("finish"));
    }
    let members = read_archive(&joined).expect("decode");
    assert_eq!(members.len(), 2);
    assert_eq!(members[0].1.as_slice(), b"one ");
    assert_eq!(members[1].1.as_slice(), b"two");
}
