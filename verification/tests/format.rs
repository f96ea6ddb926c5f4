//! Malformed input: every way an archive can be wrong has its own error,
//! and none of them passes silently.

use gzip::header::decode_header;
use gzip::member::METHOD_DEFLATE;
use gzip::member::METHOD_STORE;
use gzip::read_archive;
use gzip::write_member;
use gzip::FormatError;
use gzip::Member;

#[test]
fn bad_magic_zip() {
    // A zip local-file signature is not a gzip archive.
    let bytes = b"PK\x03\x04whatever follows does not matter".to_vec();
    assert_eq!(read_archive(&bytes), Err(FormatError::BadMagic));
    assert!(matches!(decode_header(&bytes, 0), Err(FormatError::BadMagic)));
}

#[test]
fn bad_magic_bzip2() {
    let bytes = b"BZh91AY&SY".to_vec();
    assert_eq!(read_archive(&bytes), Err(FormatError::BadMagic));
}

#[test]
fn legacy_magic_is_a_distinct_verdict() {
    // The historical relatives sharing the first magic byte — pack,
    // compress, an old container revision, lzh — are recognized as such,
    // apart from a plain mismatch.
    for second in [0x1eu8, 0x9d, 0x9e, 0xa0] {
        let bytes = vec![0x1f, second, 0x90, 0x01, 0x02, 0x03];
        assert_eq!(
            read_archive(&bytes),
            Err(FormatError::UnsupportedFormat),
            "second byte {:#x}",
            second
        );
    }
    // Any other second byte is a plain mismatch.
    let bytes = vec![0x1f, 0x42, 0x90, 0x01, 0x02, 0x03];
    assert_eq!(read_archive(&bytes), Err(FormatError::BadMagic));
}

#[test]
fn truncation_at_every_offset() {
    let mut m = Member::new();
    m.method = METHOD_DEFLATE;
    m.name = Some(b"t.bin".to_vec());
    m.header_crc = true;
    let bytes = write_member(&m, b"some payload to compress, long enough to matter", 6)
        .expect("encode");
    for t in 0..bytes.len() {
        assert_eq!(
            read_archive(&bytes[..t]),
            Err(FormatError::Truncated),
            "offset {}",
            t
        );
    }
    assert!(read_archive(&bytes).is_ok());
}

#[test]
fn header_byte_flip_never_succeeds() {
    let mut m = Member::new();
    m.method = METHOD_DEFLATE;
    m.name = Some(b"n".to_vec());
    m.comment = Some(b"c".to_vec());
    m.header_crc = true;
    let bytes = write_member(&m, b"xyz", 6).expect("encode");
    let (_, header_len) = decode_header(&bytes, 0).expect("header");
    let mut mismatch_seen = false;
    for i in 0..header_len {
        let mut bad = bytes.clone();
        bad[i] ^= 0xff;
        let r = decode_header(&bad, 0);
        assert!(r.is_err(), "flip at {} decoded", i);
        if r == Err(FormatError::HeaderChecksumMismatch) {
            mismatch_seen = true;
        }
        assert!(read_archive(&bad).is_err());
    }
    assert!(mismatch_seen);
}

#[test]
fn trailer_crc_mismatch() {
    let mut m = Member::new();
    m.method = METHOD_DEFLATE;
    let mut bytes = write_member(&m, b"payload", 6).expect("encode");
    // The trailer is the last eight bytes: CRC-32 first.
    let at = bytes.len() - 8;
    bytes[at] ^= 0xff;
    assert_eq!(read_archive(&bytes), Err(FormatError::IntegrityMismatch));
}

#[test]
fn trailer_size_mismatch() {
    let mut m = Member::new();
    m.method = METHOD_STORE;
    let mut bytes = write_member(&m, b"payload", 6).expect("encode");
    // The size field is the last four bytes.
    let at = bytes.len() - 4;
    bytes[at] ^= 0xff;
    assert_eq!(read_archive(&bytes), Err(FormatError::IntegrityMismatch));
}

#[test]
fn corrupt_payload() {
    // A valid header followed by an impossible DEFLATE block: the low three
    // bits of the first byte select a reserved block type.
    let mut bytes = vec![0x1f, 0x8b, 0x08, 0x00, 0, 0, 0, 0, 0x00, 0xff];
    bytes.extend_from_slice(&[0x06, 0x00, 0x00, 0x00, 0x00, 0x00, 0x00, 0x00, 0x00]);
    assert_eq!(read_archive(&bytes), Err(FormatError::CorruptPayload));
}

#[test]
fn unsupported_method() {
    // Method 5 is reserved: the header decodes (pass-through), the member
    // does not.
    let bytes = vec![
        0x1f, 0x8b, 0x05, 0x00, 0, 0, 0, 0, 0x00, 0xff, 1, 2, 3, 4, 5, 6, 7, 8, 9,
    ];
    let (m, n) = decode_header(&bytes, 0).expect("header is pass-through");
    assert_eq!(m.method, 5);
    assert_eq!(n, 10);
    assert_eq!(read_archive(&bytes), Err(FormatError::UnsupportedMethod));
}

#[test]
fn malformed_extra_outer_length() {
    // FEXTRA set, but the declared extra length cannot even hold the
    // subfield id and length.
    let bytes = vec![
        0x1f, 0x8b, 0x08, 0x04, 0, 0, 0, 0, 0x00, 0xff, 0x02, 0x00, b'A', b'B',
    ];
    assert_eq!(read_archive(&bytes), Err(FormatError::MalformedLength));
}

#[test]
fn malformed_extra_inner_length() {
    // The subfield declares three payload bytes, the outer length allows
    // one.
    let bytes = vec![
        0x1f, 0x8b, 0x08, 0x04, 0, 0, 0, 0, 0x00, 0xff, 0x05, 0x00, b'A', b'B', 0x03, 0x00, 9,
    ];
    assert_eq!(read_archive(&bytes), Err(FormatError::MalformedLength));
}

#[test]
fn extra_length_past_input_is_truncated() {
    // The declared extra length reads past the available bytes.
    let bytes = vec![
        0x1f, 0x8b, 0x08, 0x04, 0, 0, 0, 0, 0x00, 0xff, 0x40, 0x00, b'A', b'B',
    ];
    assert_eq!(read_archive(&bytes), Err(FormatError::Truncated));
}

#[test]
fn empty_input_is_truncated() {
    assert_eq!(read_archive(b""), Err(FormatError::Truncated));
}

#[test]
fn two_member_truncation() {
    let a = write_member(&Member::new(), b"first payload", 6).expect("first");
    let b = write_member(&Member::new(), b"second payload", 6).expect("second");
    let mut joined = a.clone();
    joined.extend_from_slice(&b);
    for t in 0..joined.len() {
        let r = read_archive(&joined[..t]);
        if t == a.len() {
            // A cut exactly at a member boundary is a clean, shorter
            // archive: each member delimits itself, so nothing can tell
            // the difference. Everywhere else the cut is detected.
            let members = r.expect("boundary is a valid archive");
            assert_eq!(members.len(), 1);
            assert_eq!(members[0].1.as_slice(), b"first payload");
        } else {
            assert_eq!(r, Err(FormatError::Truncated), "offset {}", t);
        }
    }
}

#[test]
fn reserved_flag_bits_are_preserved_on_read() {
    // Flag byte 0x20: a reserved bit, no optional fields.
    let bytes = vec![0x1f, 0x8b, 0x08, 0x20, 0, 0, 0, 0, 0x00, 0xff];
    let (m, n) = decode_header(&bytes, 0).expect("decode");
    assert_eq!(m.reserved_flags, 0x20);
    assert_eq!(n, 10);
    // The writing path refuses reserved bits.
    assert_eq!(gzip::Writer::new(m, 6).err(), Some(gzip::Error::Usage));
}

#[test]
fn unknown_extra_subfield_is_preserved() {
    // An unrecognized subfield id round-trips untouched.
    let mut m = Member::new();
    m.extra = Some(gzip::ExtraField {
        id1: 0xAB,
        id2: 0xCD,
        data: vec![0xDE, 0xAD, 0xBE, 0xEF],
    });
    let bytes = write_member(&m, b"x", 6).expect("encode");
    let members = read_archive(&bytes).expect("decode");
    let e = members[0].0.extra.as_ref().expect("extra");
    assert_eq!((e.id1, e.id2), (0xAB, 0xCD));
    assert_eq!(e.data, vec![0xDE, 0xAD, 0xBE, 0xEF]);
}
