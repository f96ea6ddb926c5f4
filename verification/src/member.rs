//! The in-memory model of one archive member and the error taxonomy.

use vstd::prelude::*;

verus! {

/// First byte of the gzip magic.
pub const MAGIC0: u8 = 0x1f;

/// Second byte of the gzip magic.
pub const MAGIC1: u8 = 0x8b;

/// Method code: payload is stored uncompressed.
pub const METHOD_STORE: u8 = 0;

/// Method code: payload is DEFLATE-compressed.
pub const METHOD_DEFLATE: u8 = 8;

/// Sentinel OS code: producing system unknown.
pub const OS_UNKNOWN: u8 = 255;

/// Flag bit: payload is probably ASCII text.
pub const FLAG_ASCII: u8 = 0x01;

/// Flag bit: a CRC-16 of the header follows the optional fields.
pub const FLAG_HEADER_CRC: u8 = 0x02;

/// Flag bit: an extra field is present.
pub const FLAG_EXTRA: u8 = 0x04;

/// Flag bit: a zero-terminated file name is present.
pub const FLAG_NAME: u8 = 0x08;

/// Flag bit: a zero-terminated comment is present.
pub const FLAG_COMMENT: u8 = 0x10;

/// The largest extra-field payload that fits: the two-byte outer length
/// also covers the subfield id and the subfield length.
pub const EXTRA_DATA_MAX: usize = 65531;

/// Direction of a streaming engine.
#[derive(Debug, Clone, Copy, PartialEq, Eq, Structural)]
pub enum Mode {
    INFLATE,
    DEFLATE,
}

/// A malformed or inconsistent archive, detected while decoding.
#[derive(Debug, Clone, Copy, PartialEq, Eq, Structural)]
pub enum FormatError {
    /// The input does not begin with the gzip magic nor with the magic of
    /// any recognized relative of it.
    BadMagic,
    /// The input begins with the magic of a recognized legacy relative of
    /// this format (pack, compress, lzh, or an old container revision),
    /// which this codec does not read: a diagnosable near miss, reported
    /// apart from a plain mismatch.
    UnsupportedFormat,
    /// The input ends before a complete header, payload or trailer.
    Truncated,
    /// The member's method code is one this codec cannot decompress.
    UnsupportedMethod,
    /// The stored header CRC-16 does not match the header bytes.
    HeaderChecksumMismatch,
    /// The trailer disagrees with the decompressed payload.
    IntegrityMismatch,
    /// A declared length is inconsistent with the bytes present.
    MalformedLength,
    /// The compressed payload itself is invalid and can never inflate.
    CorruptPayload,
}

/// An error of the writing path.
#[derive(Debug, Clone, Copy, PartialEq, Eq, Structural)]
pub enum Error {
    /// A format-level fault, shared with the reading path.
    Format(FormatError),
    /// An operation on a finished writer, or an invalid configuration.
    Usage,
}

/// One subfield of the optional extra field: a two-byte identifier and
/// opaque payload bytes. Unknown identifiers are preserved, never rejected.
#[derive(Debug, PartialEq, Eq)]
pub struct ExtraField {
    pub id1: u8,
    pub id2: u8,
    pub data: Vec<u8>,
}

/// Ghost image of an extra field.
pub ghost struct ExtraFieldView {
    pub id1: u8,
    pub id2: u8,
    pub data: Seq<u8>,
}

impl View for ExtraField {
    type V = ExtraFieldView;

    open spec fn view(&self) -> ExtraFieldView {
        ExtraFieldView { id1: self.id1, id2: self.id2, data: self.data@ }
    }
}

/// One framed unit of an archive: everything the header and trailer carry.
///
/// The presence of each optional field decides the corresponding flag bit;
/// a flag can therefore never disagree with its field. `payload_size` and
/// `payload_crc32` mirror the trailer: decoding fills them in, and the
/// writing path computes them from the payload itself.
#[derive(Debug, PartialEq, Eq)]
pub struct Member {
    pub method: u8,
    pub ascii_hint: bool,
    /// The reserved top three bits of the flag byte, kept as read
    /// (in their original positions); must be zero to write.
    pub reserved_flags: u8,
    pub mtime: u32,
    pub xfl: u8,
    pub os_code: u8,
    pub extra: Option<ExtraField>,
    pub name: Option<Vec<u8>>,
    pub comment: Option<Vec<u8>>,
    pub header_crc: bool,
    pub payload_size: u32,
    pub payload_crc32: u32,
}

/// Ghost image of a member.
pub ghost struct MemberView {
    pub method: u8,
    pub ascii_hint: bool,
    pub reserved_flags: u8,
    pub mtime: u32,
    pub xfl: u8,
    pub os_code: u8,
    pub extra: Option<ExtraFieldView>,
    pub name: Option<Seq<u8>>,
    pub comment: Option<Seq<u8>>,
    pub header_crc: bool,
    pub payload_size: u32,
    pub payload_crc32: u32,
}

impl View for Member {
    type V = MemberView;

    open spec fn view(&self) -> MemberView {
        MemberView {
            method: self.method,
            ascii_hint: self.ascii_hint,
            reserved_flags: self.reserved_flags,
            mtime: self.mtime,
            xfl: self.xfl,
            os_code: self.os_code,
            extra: match self.extra {
                Some(e) => Some(e@),
                None => None,
            },
            name: match self.name {
                Some(n) => Some(n@),
                None => None,
            },
            comment: match self.comment {
                Some(c) => Some(c@),
                None => None,
            },
            header_crc: self.header_crc,
            payload_size: self.payload_size,
            payload_crc32: self.payload_crc32,
        }
    }
}

/// No byte of `s` is zero: required of names and comments, whose encoding
/// is terminated by the first zero byte.
pub open spec fn no_zero_bytes(s: Seq<u8>) -> bool {
    forall|i: int| 0 <= i < s.len() ==> s[i] != 0
}

impl MemberView {
    /// The flag byte encodes exactly which optional fields are present,
    /// plus the hint bit and the reserved bits as stored.
    pub open spec fn flags_byte(self) -> u8 {
        (if self.ascii_hint { FLAG_ASCII } else { 0 })
        | (if self.header_crc { FLAG_HEADER_CRC } else { 0 })
        | (if self.extra is Some { FLAG_EXTRA } else { 0 })
        | (if self.name is Some { FLAG_NAME } else { 0 })
        | (if self.comment is Some { FLAG_COMMENT } else { 0 })
        | self.reserved_flags
    }

    /// A member whose optional fields can be laid out at all: texts hold
    /// no embedded terminator, the extra payload fits its two-byte length,
    /// and the reserved bits sit in the top three positions only.
    pub open spec fn wf(self) -> bool {
        &&& self.reserved_flags & 0x1f == 0
        &&& match self.extra {
            Some(e) => e.data.len() <= EXTRA_DATA_MAX,
            None => true,
        }
        &&& match self.name {
            Some(n) => no_zero_bytes(n),
            None => true,
        }
        &&& match self.comment {
            Some(c) => no_zero_bytes(c),
            None => true,
        }
    }

    /// What the writing path additionally demands: a method this codec can
    /// produce, and no reserved flag bits.
    pub open spec fn write_ready(self) -> bool {
        &&& self.wf()
        &&& self.reserved_flags == 0
        &&& self.method == METHOD_STORE || self.method == METHOD_DEFLATE
    }
}

impl Member {
    /// A member configured with the documented write-path defaults:
    /// DEFLATE method, no flags, unknown mtime and OS, no optional fields.
    pub fn new() -> (m: Member)
        ensures
            m@ == (MemberView {
                method: METHOD_DEFLATE,
                ascii_hint: false,
                reserved_flags: 0,
                mtime: 0,
                xfl: 0,
                os_code: OS_UNKNOWN,
                extra: None::<ExtraFieldView>,
                name: None::<Seq<u8>>,
                comment: None::<Seq<u8>>,
                header_crc: false,
                payload_size: 0,
                payload_crc32: 0,
            }),
            m@.write_ready(),
    {
        proof {
            assert(0u8 & 0x1f == 0) by (bit_vector);
        }
        Member {
            method: METHOD_DEFLATE,
            ascii_hint: false,
            reserved_flags: 0,
            mtime: 0,
            xfl: 0,
            os_code: OS_UNKNOWN,
            extra: None,
            name: None,
            comment: None,
            header_crc: false,
            payload_size: 0,
            payload_crc32: 0,
        }
    }
}

impl Clone for ExtraField {
    fn clone(&self) -> (r: Self)
        ensures
            r@ == self@,
    {
        let data = clone_bytes(&self.data);
        ExtraField { id1: self.id1, id2: self.id2, data }
    }
}

impl Clone for Member {
    fn clone(&self) -> (r: Self)
        ensures
            r@ == self@,
    {
        Member {
            method: self.method,
            ascii_hint: self.ascii_hint,
            reserved_flags: self.reserved_flags,
            mtime: self.mtime,
            xfl: self.xfl,
            os_code: self.os_code,
            extra: match &self.extra {
                Some(e) => Some(e.clone()),
                None => None,
            },
            name: match &self.name {
                Some(n) => Some(clone_bytes(n)),
                None => None,
            },
            comment: match &self.comment {
                Some(c) => Some(clone_bytes(c)),
                None => None,
            },
            header_crc: self.header_crc,
            payload_size: self.payload_size,
            payload_crc32: self.payload_crc32,
        }
    }
}

/// A copy of a byte vector, with its contents known.
pub fn clone_bytes(v: &Vec<u8>) -> (r: Vec<u8>)
    ensures
        r@ == v@,
{
    let mut r: Vec<u8> = Vec::new();
    let n = v.len();
    for i in 0..n
        invariant
            n == v@.len(),
            r@ == v@.take(i as int),
    {
        r.push(v[i]);
        assert(r@ =~= v@.take(i + 1));
    }
    assert(r@ =~= v@);
    r
}

/// Whether `v` holds a zero byte; decides if it may be a name or comment.
pub fn has_zero_byte(v: &[u8]) -> (r: bool)
    ensures
        r == !no_zero_bytes(v@),
{
    let n = v.len();
    for i in 0..n
        invariant
            n == v@.len(),
            forall|j: int| 0 <= j < i ==> v@[j] != 0,
    {
        if v[i] == 0 {
            return true;
        }
    }
    false
}

} // verus!
