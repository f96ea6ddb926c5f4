//! The header codec: the byte-exact layout of a member's metadata.
//!
//! `spec_header_bytes` is the one source of truth for the layout on the
//! writing side, `spec_parse_header` for the reading side; the executable
//! encoder and decoder are proved against them, and the round-trip laws
//! relate the two.

use vstd::prelude::*;
use vstd::slice::slice_index_get;
use vstd::slice::slice_subrange;
use vstd::slice::slice_to_vec;

use crate::checksum::Checksum;
use crate::checksum::crc32_of;
use crate::member::EXTRA_DATA_MAX;
use crate::member::ExtraField;
use crate::member::ExtraFieldView;
use crate::member::FLAG_ASCII;
use crate::member::FLAG_COMMENT;
use crate::member::FLAG_EXTRA;
use crate::member::FLAG_HEADER_CRC;
use crate::member::FLAG_NAME;
use crate::member::FormatError;
use crate::member::MAGIC0;
use crate::member::MAGIC1;
use crate::member::Member;
use crate::member::MemberView;
use crate::member::no_zero_bytes;

verus! {

/// The two bytes of `v`, low first.
pub open spec fn le16(v: u16) -> Seq<u8> {
    seq![(v & 0xff) as u8, ((v >> 8) & 0xff) as u8]
}

/// The four bytes of `v`, low first.
pub open spec fn le32(v: u32) -> Seq<u8> {
    seq![
        (v & 0xff) as u8,
        ((v >> 8) & 0xff) as u8,
        ((v >> 16) & 0xff) as u8,
        ((v >> 24) & 0xff) as u8,
    ]
}

/// The value of the two bytes at `i`, low first.
pub open spec fn le16_at(b: Seq<u8>, i: int) -> u16 {
    (b[i] as u16) | ((b[i + 1] as u16) << 8)
}

/// The value of the four bytes at `i`, low first.
pub open spec fn le32_at(b: Seq<u8>, i: int) -> u32 {
    (b[i] as u32) | ((b[i + 1] as u32) << 8) | ((b[i + 2] as u32) << 16) | ((b[i + 3] as u32)
        << 24)
}

pub proof fn lemma_le16_roundtrip(v: u16)
    ensures
        le16_at(le16(v), 0) == v,
{
    let b0 = (v & 0xff) as u8;
    let b1 = ((v >> 8) & 0xff) as u8;
    assert((b0 as u16) | ((b1 as u16) << 8) == v) by (bit_vector)
        requires
            b0 == (v & 0xff) as u8,
            b1 == ((v >> 8) & 0xff) as u8,
    ;
}

pub proof fn lemma_le32_roundtrip(v: u32)
    ensures
        le32_at(le32(v), 0) == v,
{
    let b0 = (v & 0xff) as u8;
    let b1 = ((v >> 8) & 0xff) as u8;
    let b2 = ((v >> 16) & 0xff) as u8;
    let b3 = ((v >> 24) & 0xff) as u8;
    assert((b0 as u32) | ((b1 as u32) << 8) | ((b2 as u32) << 16) | ((b3 as u32) << 24) == v)
        by (bit_vector)
        requires
            b0 == (v & 0xff) as u8,
            b1 == ((v >> 8) & 0xff) as u8,
            b2 == ((v >> 16) & 0xff) as u8,
            b3 == ((v >> 24) & 0xff) as u8,
    ;
}

/// The encoded extra section: outer two-byte length, subfield id, subfield
/// length, payload. The outer length also covers the four id/length bytes.
pub open spec fn spec_extra_bytes(e: ExtraFieldView) -> Seq<u8> {
    le16((e.data.len() + 4) as u16) + seq![e.id1, e.id2] + le16(e.data.len() as u16) + e.data
}

pub open spec fn spec_opt_extra(x: Option<ExtraFieldView>) -> Seq<u8> {
    match x {
        Some(e) => spec_extra_bytes(e),
        None => Seq::empty(),
    }
}

/// An optional zero-terminated text.
pub open spec fn spec_opt_zstr(x: Option<Seq<u8>>) -> Seq<u8> {
    match x {
        Some(s) => s + seq![0u8],
        None => Seq::empty(),
    }
}

/// All header bytes before the optional header checksum.
pub open spec fn spec_pre_crc_bytes(m: MemberView) -> Seq<u8> {
    seq![MAGIC0, MAGIC1, m.method, m.flags_byte()] + le32(m.mtime) + seq![m.xfl, m.os_code]
        + spec_opt_extra(m.extra) + spec_opt_zstr(m.name) + spec_opt_zstr(m.comment)
}

/// The full encoded header: the checksum, when asked for, is the low
/// sixteen bits of the CRC-32 of everything before it.
pub open spec fn spec_header_bytes(m: MemberView) -> Seq<u8> {
    spec_pre_crc_bytes(m) + if m.header_crc {
        le16((crc32_of(spec_pre_crc_bytes(m)) & 0xffff) as u16)
    } else {
        Seq::empty()
    }
}

/// The second magic byte of each recognized legacy relative of this
/// format: pack (0x1e), compress (0x9d), an old revision of this container
/// (0x9e), lzh (0xa0). They share the first magic byte and are reported as
/// a diagnosable near miss, not a plain mismatch.
pub open spec fn legacy_magic2(x: u8) -> bool {
    x == 0x1e || x == 0x9d || x == 0x9e || x == 0xa0
}

/// The first index of a zero byte at or after `i`, or -1 if there is none.
pub open spec fn find_zero(b: Seq<u8>, i: int) -> int
    decreases b.len() - i,
{
    if i < 0 || i >= b.len() {
        -1
    } else if b[i] == 0 {
        i
    } else {
        find_zero(b, i + 1)
    }
}

/// A zero at `z` with none before it pins `find_zero` down.
pub proof fn lemma_find_zero_unique(b: Seq<u8>, i: int, z: int)
    requires
        0 <= i <= z < b.len(),
        b[z] == 0,
        forall|k: int| i <= k < z ==> b[k] != 0,
    ensures
        find_zero(b, i) == z,
    decreases z - i,
{
    if i < z {
        lemma_find_zero_unique(b, i + 1, z);
    }
}

/// Without any zero there is nothing to find.
pub proof fn lemma_find_zero_missing(b: Seq<u8>, i: int)
    requires
        0 <= i <= b.len(),
        forall|k: int| i <= k < b.len() ==> b[k] != 0,
    ensures
        find_zero(b, i) == -1,
    decreases b.len() - i,
{
    if i < b.len() {
        lemma_find_zero_missing(b, i + 1);
    }
}

/// Parses the optional extra section at `i`, gated by the flag byte `f`.
pub open spec fn spec_parse_extra(b: Seq<u8>, i: int, f: u8) -> Result<
    (Option<ExtraFieldView>, int),
    FormatError,
> {
    if f & FLAG_EXTRA == 0 {
        Ok((None, i))
    } else if b.len() - i < 2 {
        Err(FormatError::Truncated)
    } else {
        let xlen = le16_at(b, i) as int;
        if b.len() - (i + 2) < xlen {
            Err(FormatError::Truncated)
        } else if xlen < 4 {
            Err(FormatError::MalformedLength)
        } else {
            let slen = le16_at(b, i + 4) as int;
            if slen + 4 != xlen {
                Err(FormatError::MalformedLength)
            } else {
                Ok(
                    (
                        Some(
                            ExtraFieldView {
                                id1: b[i + 2],
                                id2: b[i + 3],
                                data: b.subrange(i + 6, i + 2 + xlen),
                            },
                        ),
                        i + 2 + xlen,
                    ),
                )
            }
        }
    }
}

/// Parses an optional zero-terminated text at `i`.
pub open spec fn spec_parse_zstr(b: Seq<u8>, i: int, present: bool) -> Result<
    (Option<Seq<u8>>, int),
    FormatError,
> {
    if !present {
        Ok((None, i))
    } else {
        let z = find_zero(b, i);
        if z < 0 {
            Err(FormatError::Truncated)
        } else {
            Ok((Some(b.subrange(i, z)), z + 1))
        }
    }
}

/// Parses one full header at `i`: fixed fields, then each optional field
/// exactly when its flag bit is set, then the optional header checksum over
/// every header byte before it. Returns the member (trailer fields zero)
/// and the index just past the header.
pub open spec fn spec_parse_header(b: Seq<u8>, i: int) -> Result<(MemberView, int), FormatError> {
    if b.len() - i < 2 {
        Err(FormatError::Truncated)
    } else if !(b[i] == MAGIC0 && b[i + 1] == MAGIC1) {
        if b[i] == MAGIC0 && legacy_magic2(b[i + 1]) {
            Err(FormatError::UnsupportedFormat)
        } else {
            Err(FormatError::BadMagic)
        }
    } else if b.len() - i < 10 {
        Err(FormatError::Truncated)
    } else {
        let f = b[i + 3];
        match spec_parse_extra(b, i + 10, f) {
            Err(e) => Err(e),
            Ok((extra, j2)) => match spec_parse_zstr(b, j2, f & FLAG_NAME != 0) {
                Err(e) => Err(e),
                Ok((name, j3)) => match spec_parse_zstr(b, j3, f & FLAG_COMMENT != 0) {
                    Err(e) => Err(e),
                    Ok((comment, j4)) => {
                        let m = MemberView {
                            method: b[i + 2],
                            ascii_hint: f & FLAG_ASCII != 0,
                            reserved_flags: f & 0xe0,
                            mtime: le32_at(b, i + 4),
                            xfl: b[i + 8],
                            os_code: b[i + 9],
                            extra,
                            name,
                            comment,
                            header_crc: f & FLAG_HEADER_CRC != 0,
                            payload_size: 0,
                            payload_crc32: 0,
                        };
                        if f & FLAG_HEADER_CRC != 0 {
                            if b.len() - j4 < 2 {
                                Err(FormatError::Truncated)
                            } else if le16_at(b, j4) != (crc32_of(b.subrange(i, j4))
                                & 0xffff) as u16 {
                                Err(FormatError::HeaderChecksumMismatch)
                            } else {
                                Ok((m, j4 + 2))
                            }
                        } else {
                            Ok((m, j4))
                        }
                    },
                },
            },
        }
    }
}

/// How an executable header-decode result must relate to the parse spec.
pub open spec fn header_result_matches(
    b: Seq<u8>,
    i: int,
    r: Result<(Member, usize), FormatError>,
) -> bool {
    match spec_parse_header(b, i) {
        Ok(v) => r matches Ok(x) && x.0@ == v.0 && x.1 as int == v.1,
        Err(e) => r == Err::<(Member, usize), FormatError>(e),
    }
}

/// Reads the two little-endian bytes at `from`.
pub fn read_le16(b: &[u8], from: usize) -> (r: u16)
    requires
        from + 2 <= b@.len(),
    ensures
        r == le16_at(b@, from as int),
{
    // An exec length keeps the index sums below usize::MAX.
    let n = b.len();
    let b0 = *slice_index_get(b, from);
    let b1 = *slice_index_get(b, from + 1);
    (b0 as u16) | ((b1 as u16) << 8)
}

/// Reads the four little-endian bytes at `from`.
pub fn read_le32(b: &[u8], from: usize) -> (r: u32)
    requires
        from + 4 <= b@.len(),
    ensures
        r == le32_at(b@, from as int),
{
    // An exec length keeps the index sums below usize::MAX.
    let n = b.len();
    let b0 = *slice_index_get(b, from);
    let b1 = *slice_index_get(b, from + 1);
    let b2 = *slice_index_get(b, from + 2);
    let b3 = *slice_index_get(b, from + 3);
    (b0 as u32) | ((b1 as u32) << 8) | ((b2 as u32) << 16) | ((b3 as u32) << 24)
}

/// Finds the first zero byte at or after `from`.
fn scan_zero(b: &[u8], from: usize) -> (r: Option<usize>)
    requires
        from <= b@.len(),
    ensures
        match r {
            Some(z) => z == find_zero(b@, from as int) && from <= z < b@.len(),
            None => find_zero(b@, from as int) == -1,
        },
{
    let n = b.len();
    let mut k = from;
    while k < n
        invariant
            from <= k <= n,
            n == b@.len(),
            forall|j: int| from <= j < k ==> b@[j] != 0,
        decreases n - k,
    {
        if *slice_index_get(b, k) == 0 {
            proof {
                lemma_find_zero_unique(b@, from as int, k as int);
            }
            return Some(k);
        }
        k = k + 1;
    }
    proof {
        lemma_find_zero_missing(b@, from as int);
    }
    None
}

/// Decodes one header starting at `from`, exactly as `spec_parse_header`
/// reads it.
pub fn decode_header(b: &[u8], from: usize) -> (r: Result<(Member, usize), FormatError>)
    requires
        from <= b@.len(),
    ensures
        header_result_matches(b@, from as int, r),
        r matches Ok(x) ==> from < x.1 <= b@.len(),
{
    let n = b.len();
    if n - from < 2 {
        return Err(FormatError::Truncated);
    }
    let m0 = *slice_index_get(b, from);
    let m1 = *slice_index_get(b, from + 1);
    if !(m0 == MAGIC0 && m1 == MAGIC1) {
        if m0 == MAGIC0 && (m1 == 0x1e || m1 == 0x9d || m1 == 0x9e || m1 == 0xa0) {
            return Err(FormatError::UnsupportedFormat);
        }
        return Err(FormatError::BadMagic);
    }
    if n - from < 10 {
        return Err(FormatError::Truncated);
    }
    let method = *slice_index_get(b, from + 2);
    let f = *slice_index_get(b, from + 3);
    let mtime = read_le32(b, from + 4);
    let xfl = *slice_index_get(b, from + 8);
    let os_code = *slice_index_get(b, from + 9);

    // Extra field.
    let mut pos = from + 10;
    let extra: Option<ExtraField>;
    if f & FLAG_EXTRA != 0 {
        if n - pos < 2 {
            return Err(FormatError::Truncated);
        }
        let xlen = read_le16(b, pos) as usize;
        if n - (pos + 2) < xlen {
            return Err(FormatError::Truncated);
        }
        if xlen < 4 {
            return Err(FormatError::MalformedLength);
        }
        let id1 = *slice_index_get(b, pos + 2);
        let id2 = *slice_index_get(b, pos + 3);
        let slen = read_le16(b, pos + 4) as usize;
        if slen + 4 != xlen {
            return Err(FormatError::MalformedLength);
        }
        let data = slice_to_vec(slice_subrange(b, pos + 6, pos + 2 + xlen));
        extra = Some(ExtraField { id1, id2, data });
        pos = pos + 2 + xlen;
    } else {
        extra = None;
    }

    // Name.
    let name: Option<Vec<u8>>;
    if f & FLAG_NAME != 0 {
        match scan_zero(b, pos) {
            Some(z) => {
                name = Some(slice_to_vec(slice_subrange(b, pos, z)));
                pos = z + 1;
            },
            None => {
                return Err(FormatError::Truncated);
            },
        }
    } else {
        name = None;
    }

    // Comment.
    let comment: Option<Vec<u8>>;
    if f & FLAG_COMMENT != 0 {
        match scan_zero(b, pos) {
            Some(z) => {
                comment = Some(slice_to_vec(slice_subrange(b, pos, z)));
                pos = z + 1;
            },
            None => {
                return Err(FormatError::Truncated);
            },
        }
    } else {
        comment = None;
    }

    let m = Member {
        method,
        ascii_hint: f & FLAG_ASCII != 0,
        reserved_flags: f & 0xe0,
        mtime,
        xfl,
        os_code,
        extra,
        name,
        comment,
        header_crc: f & FLAG_HEADER_CRC != 0,
        payload_size: 0,
        payload_crc32: 0,
    };

    // Header checksum.
    if f & FLAG_HEADER_CRC != 0 {
        if n - pos < 2 {
            return Err(FormatError::Truncated);
        }
        let stored = read_le16(b, pos);
        let mut ck = Checksum::new();
        ck.update(b, from, pos);
        let sum = ck.sum();
        proof {
            assert(sum & 0xffff < 0x10000) by (bit_vector);
        }
        let computed = (sum & 0xffff) as u16;
        if stored != computed {
            return Err(FormatError::HeaderChecksumMismatch);
        }
        Ok((m, pos + 2))
    } else {
        Ok((m, pos))
    }
}

/// Appends the two little-endian bytes of `v`.
pub fn push_le16(out: &mut Vec<u8>, v: u16)
    ensures
        final(out)@ == old(out)@ + le16(v),
{
    proof {
        assert(v & 0xff < 0x100 && (v >> 8) & 0xff < 0x100) by (bit_vector);
    }
    out.push((v & 0xff) as u8);
    out.push(((v >> 8) & 0xff) as u8);
    assert(final(out)@ =~= old(out)@ + le16(v));
}

/// Appends the four little-endian bytes of `v`.
pub fn push_le32(out: &mut Vec<u8>, v: u32)
    ensures
        final(out)@ == old(out)@ + le32(v),
{
    proof {
        assert(v & 0xff < 0x100 && (v >> 8) & 0xff < 0x100 && (v >> 16) & 0xff < 0x100 && (v >> 24)
            & 0xff < 0x100) by (bit_vector);
    }
    out.push((v & 0xff) as u8);
    out.push(((v >> 8) & 0xff) as u8);
    out.push(((v >> 16) & 0xff) as u8);
    out.push(((v >> 24) & 0xff) as u8);
    assert(final(out)@ =~= old(out)@ + le32(v));
}

/// The flag byte derived from which optional fields are populated.
fn flags_of(m: &Member) -> (f: u8)
    ensures
        f == m@.flags_byte(),
{
    (if m.ascii_hint {
        FLAG_ASCII
    } else {
        0
    }) | (if m.header_crc {
        FLAG_HEADER_CRC
    } else {
        0
    }) | (match &m.extra {
        Some(_) => FLAG_EXTRA,
        None => 0,
    }) | (match &m.name {
        Some(_) => FLAG_NAME,
        None => 0,
    }) | (match &m.comment {
        Some(_) => FLAG_COMMENT,
        None => 0,
    }) | m.reserved_flags
}

/// Encodes one header, exactly as `spec_header_bytes` lays it out.
pub fn encode_header(m: &Member) -> (r: Vec<u8>)
    requires
        m@.wf(),
    ensures
        r@ == spec_header_bytes(m@),
{
    let mut out: Vec<u8> = Vec::new();
    out.push(MAGIC0);
    out.push(MAGIC1);
    out.push(m.method);
    let f = flags_of(m);
    out.push(f);
    push_le32(&mut out, m.mtime);
    out.push(m.xfl);
    out.push(m.os_code);
    assert(out@ =~= seq![MAGIC0, MAGIC1, m@.method, m@.flags_byte()] + le32(m@.mtime)
        + seq![m@.xfl, m@.os_code]);
    let ghost fixed = out@;

    match &m.extra {
        Some(e) => {
            let dlen = e.data.len();
            assert(m@.extra == Some(e@) && e@.data.len() <= EXTRA_DATA_MAX);
            push_le16(&mut out, (dlen + 4) as u16);
            out.push(e.id1);
            out.push(e.id2);
            push_le16(&mut out, dlen as u16);
            out.extend_from_slice(e.data.as_slice());
            assert(out@ =~= fixed + spec_extra_bytes(e@));
        },
        None => {},
    }
    assert(out@ == fixed + spec_opt_extra(m@.extra));
    let ghost with_extra = out@;

    match &m.name {
        Some(n) => {
            out.extend_from_slice(n.as_slice());
            out.push(0);
            assert(out@ =~= with_extra + (n@ + seq![0u8]));
        },
        None => {},
    }
    assert(out@ == with_extra + spec_opt_zstr(m@.name));
    let ghost with_name = out@;

    match &m.comment {
        Some(c) => {
            out.extend_from_slice(c.as_slice());
            out.push(0);
            assert(out@ =~= with_name + (c@ + seq![0u8]));
        },
        None => {},
    }
    assert(out@ == with_name + spec_opt_zstr(m@.comment));
    assert(out@ =~= spec_pre_crc_bytes(m@));
    let ghost pre = out@;

    if m.header_crc {
        let mut ck = Checksum::new();
        let len = out.len();
        ck.update(out.as_slice(), 0, len);
        assert(ck.bytes() =~= pre);
        let sum = ck.sum();
        proof {
            assert(sum & 0xffff < 0x10000) by (bit_vector);
        }
        push_le16(&mut out, (sum & 0xffff) as u16);
    }
    assert(out@ =~= spec_header_bytes(m@));
    out
}

/// `m` with the trailer-mirror fields cleared: what parsing a header alone
/// can know of a member.
pub open spec fn header_part(m: MemberView) -> MemberView {
    MemberView { payload_size: 0, payload_crc32: 0, ..m }
}

/// Two bytes that spell `le16(v)` read back as `v`.
proof fn lemma_le16_at_of(b: Seq<u8>, i: int, v: u16)
    requires
        0 <= i,
        i + 2 <= b.len(),
        b[i] == le16(v)[0],
        b[i + 1] == le16(v)[1],
    ensures
        le16_at(b, i) == v,
{
    lemma_le16_roundtrip(v);
}

/// Four bytes that spell `le32(v)` read back as `v`.
proof fn lemma_le32_at_of(b: Seq<u8>, i: int, v: u32)
    requires
        0 <= i,
        i + 4 <= b.len(),
        b[i] == le32(v)[0],
        b[i + 1] == le32(v)[1],
        b[i + 2] == le32(v)[2],
        b[i + 3] == le32(v)[3],
    ensures
        le32_at(b, i) == v,
{
    lemma_le32_roundtrip(v);
}

/// Each flag bit of the derived flag byte reads back as the presence it
/// was derived from.
pub proof fn lemma_flags_decompose(m: MemberView)
    requires
        m.reserved_flags & 0x1f == 0,
    ensures
        (m.flags_byte() & FLAG_ASCII != 0) == m.ascii_hint,
        (m.flags_byte() & FLAG_HEADER_CRC != 0) == m.header_crc,
        (m.flags_byte() & FLAG_EXTRA != 0) == (m.extra is Some),
        (m.flags_byte() & FLAG_NAME != 0) == (m.name is Some),
        (m.flags_byte() & FLAG_COMMENT != 0) == (m.comment is Some),
        m.flags_byte() & 0xe0 == m.reserved_flags,
{
    let fa: u8 = if m.ascii_hint {
        FLAG_ASCII
    } else {
        0
    };
    let fh: u8 = if m.header_crc {
        FLAG_HEADER_CRC
    } else {
        0
    };
    let fe: u8 = if m.extra is Some {
        FLAG_EXTRA
    } else {
        0
    };
    let fg: u8 = if m.name is Some {
        FLAG_NAME
    } else {
        0
    };
    let fc: u8 = if m.comment is Some {
        FLAG_COMMENT
    } else {
        0
    };
    let rr = m.reserved_flags;
    let f = m.flags_byte();
    assert(f == (fa | fh | fe | fg | fc | rr));
    assert((f & 0x01 == fa) && (f & 0x02 == fh) && (f & 0x04 == fe) && (f & 0x08 == fg) && (f
        & 0x10 == fc) && (f & 0xe0 == rr)) by (bit_vector)
        requires
            f == (fa | fh | fe | fg | fc | rr),
            fa == 0 || fa == 0x01,
            fh == 0 || fh == 0x02,
            fe == 0 || fe == 0x04,
            fg == 0 || fg == 0x08,
            fc == 0 || fc == 0x10,
            rr & 0x1f == 0,
    ;
}

/// An encoded extra section parses back to the field it encodes.
proof fn lemma_extra_section(b: Seq<u8>, i: int, e: ExtraFieldView, f: u8)
    requires
        0 <= i,
        e.data.len() <= EXTRA_DATA_MAX,
        f & FLAG_EXTRA != 0,
        i + spec_extra_bytes(e).len() <= b.len(),
        b.subrange(i, i + spec_extra_bytes(e).len() as int) == spec_extra_bytes(e),
    ensures
        spec_parse_extra(b, i, f) == Ok::<_, FormatError>(
            (Some(e), i + spec_extra_bytes(e).len()),
        ),
{
    let ex = spec_extra_bytes(e);
    let dlen = e.data.len() as int;
    let outer = (dlen + 4) as u16;
    let inner = dlen as u16;
    let l1 = le16(outer);
    let ids = seq![e.id1, e.id2];
    let l2 = le16(inner);
    let p3 = (l1 + ids) + l2;
    assert(ex == p3 + e.data);
    assert(p3.len() == 6);
    assert(ex.len() == 6 + dlen);
    assert forall|k: int| 0 <= k < ex.len() implies b[i + k] == ex[k] by {
        assert(b.subrange(i, i + ex.len() as int)[k] == b[i + k]);
    }
    assert(p3[0] == (l1 + ids)[0] && (l1 + ids)[0] == l1[0]);
    assert(p3[1] == (l1 + ids)[1] && (l1 + ids)[1] == l1[1]);
    assert(p3[2] == (l1 + ids)[2] && (l1 + ids)[2] == ids[0]);
    assert(p3[3] == (l1 + ids)[3] && (l1 + ids)[3] == ids[1]);
    assert(p3[4] == l2[0] && p3[5] == l2[1]);
    assert(ex[0] == p3[0] && ex[1] == p3[1] && ex[2] == p3[2] && ex[3] == p3[3] && ex[4] == p3[4]
        && ex[5] == p3[5]);
    assert(b[i + 0] == ex[0] && b[i + 1] == ex[1] && b[i + 2] == ex[2] && b[i + 3] == ex[3] && b[i
        + 4] == ex[4] && b[i + 5] == ex[5]);
    lemma_le16_at_of(b, i, outer);
    lemma_le16_at_of(b, i + 4, inner);
    assert(le16_at(b, i) as int == dlen + 4);
    assert(le16_at(b, i + 4) as int == dlen);
    assert(b[i + 2] == e.id1 && b[i + 3] == e.id2);
    assert(b.subrange(i + 6, i + 2 + (dlen + 4)) =~= e.data) by {
        assert forall|k: int| 0 <= k < dlen implies b.subrange(i + 6, i + 6 + dlen)[k]
            == e.data[k] by {
            assert(b[i + 6 + k] == ex[6 + k]);
            assert(ex[6 + k] == e.data[k]);
        }
    }
}

/// An encoded zero-terminated text parses back to itself.
proof fn lemma_zstr_section(b: Seq<u8>, i: int, s: Seq<u8>)
    requires
        0 <= i,
        no_zero_bytes(s),
        i + s.len() + 1 <= b.len(),
        b.subrange(i, i + s.len() as int) == s,
        b[i + s.len()] == 0,
    ensures
        spec_parse_zstr(b, i, true) == Ok::<_, FormatError>((Some(s), i + s.len() + 1)),
{
    assert forall|k: int| i <= k < i + s.len() implies b[k] != 0 by {
        assert(b.subrange(i, i + s.len() as int)[k - i] == b[k]);
    }
    lemma_find_zero_unique(b, i, i + s.len());
    assert(b.subrange(i, i + s.len() as int) == s);
}

/// Index just past the fixed bytes and the extra section.
pub open spec fn off_name(m: MemberView) -> int {
    10 + spec_opt_extra(m.extra).len() as int
}

/// Index just past the name section.
pub open spec fn off_comment(m: MemberView) -> int {
    off_name(m) + spec_opt_zstr(m.name).len() as int
}

/// Index just past the comment section: where the header checksum sits.
pub open spec fn off_crc(m: MemberView) -> int {
    off_comment(m) + spec_opt_zstr(m.comment).len() as int
}

/// Where each byte of an encoded header sits.
#[verifier::rlimit(100)]
proof fn lemma_header_layout(m: MemberView)
    requires
        m.wf(),
    ensures
        ({
            let h = spec_header_bytes(m);
            let pre = spec_pre_crc_bytes(m);
            &&& pre.len() == off_crc(m)
            &&& h.len() == off_crc(m) + if m.header_crc {
                2int
            } else {
                0int
            }
            &&& forall|k: int| 0 <= k < pre.len() ==> h[k] == pre[k]
            &&& pre[0] == MAGIC0
            &&& pre[1] == MAGIC1
            &&& pre[2] == m.method
            &&& pre[3] == m.flags_byte()
            &&& pre[4] == le32(m.mtime)[0]
            &&& pre[5] == le32(m.mtime)[1]
            &&& pre[6] == le32(m.mtime)[2]
            &&& pre[7] == le32(m.mtime)[3]
            &&& pre[8] == m.xfl
            &&& pre[9] == m.os_code
            &&& match m.extra {
                Some(e) => forall|k: int|
                    0 <= k < spec_extra_bytes(e).len() ==> pre[10 + k] == spec_extra_bytes(e)[k],
                None => true,
            }
            &&& match m.name {
                Some(s) => (forall|k: int| 0 <= k < s.len() ==> pre[off_name(m) + k] == s[k])
                    && pre[off_name(m) + s.len()] == 0,
                None => true,
            }
            &&& match m.comment {
                Some(s) => (forall|k: int| 0 <= k < s.len() ==> pre[off_comment(m) + k] == s[k])
                    && pre[off_comment(m) + s.len()] == 0,
                None => true,
            }
            &&& m.header_crc ==> {
                let v = (crc32_of(pre) & 0xffff) as u16;
                h[off_crc(m)] == le16(v)[0] && h[off_crc(m) + 1] == le16(v)[1]
            }
        }),
{
    let pre = spec_pre_crc_bytes(m);
    let h = spec_header_bytes(m);
    let s4 = seq![MAGIC0, MAGIC1, m.method, m.flags_byte()];
    let l32 = le32(m.mtime);
    let s2 = seq![m.xfl, m.os_code];
    let fixed = (s4 + l32) + s2;
    let exb = spec_opt_extra(m.extra);
    let nmb = spec_opt_zstr(m.name);
    let cmb = spec_opt_zstr(m.comment);
    assert(fixed.len() == 10);
    assert(pre == ((fixed + exb) + nmb) + cmb);
    let o2 = off_name(m);
    let o3 = off_comment(m);
    let o4 = off_crc(m);
    assert(pre.len() == o4);
    assert forall|k: int| 0 <= k < pre.len() implies h[k] == pre[k] by {}
    assert forall|k: int| 0 <= k < 10 implies pre[k] == fixed[k] by {
        assert(pre[k] == ((fixed + exb) + nmb)[k]);
        assert(((fixed + exb) + nmb)[k] == (fixed + exb)[k]);
        assert((fixed + exb)[k] == fixed[k]);
    }
    assert(fixed[0] == (s4 + l32)[0] && (s4 + l32)[0] == s4[0]);
    assert(fixed[1] == (s4 + l32)[1] && (s4 + l32)[1] == s4[1]);
    assert(fixed[2] == (s4 + l32)[2] && (s4 + l32)[2] == s4[2]);
    assert(fixed[3] == (s4 + l32)[3] && (s4 + l32)[3] == s4[3]);
    assert(fixed[4] == (s4 + l32)[4] && (s4 + l32)[4] == l32[0]);
    assert(fixed[5] == (s4 + l32)[5] && (s4 + l32)[5] == l32[1]);
    assert(fixed[6] == (s4 + l32)[6] && (s4 + l32)[6] == l32[2]);
    assert(fixed[7] == (s4 + l32)[7] && (s4 + l32)[7] == l32[3]);
    assert(fixed[8] == s2[0] && fixed[9] == s2[1]);
    assert forall|k: int| 0 <= k < exb.len() implies pre[10 + k] == exb[k] by {
        assert(pre[10 + k] == ((fixed + exb) + nmb)[10 + k]);
        assert(((fixed + exb) + nmb)[10 + k] == (fixed + exb)[10 + k]);
        assert((fixed + exb)[10 + k] == exb[k]);
    }
    assert forall|k: int| 0 <= k < nmb.len() implies pre[o2 + k] == nmb[k] by {
        assert(pre[o2 + k] == ((fixed + exb) + nmb)[o2 + k]);
        assert(((fixed + exb) + nmb)[o2 + k] == nmb[k]);
    }
    assert forall|k: int| 0 <= k < cmb.len() implies pre[o3 + k] == cmb[k] by {
        assert(pre[o3 + k] == cmb[k]);
    }
    match m.name {
        Some(s) => {
            assert(nmb == s + seq![0u8]);
            assert forall|k: int| 0 <= k < s.len() implies pre[o2 + k] == s[k] by {
                assert(pre[o2 + k] == nmb[k]);
                assert(nmb[k] == s[k]);
            }
            assert(pre[o2 + s.len()] == nmb[s.len() as int]);
            assert(nmb[s.len() as int] == 0);
        },
        None => {},
    }
    match m.comment {
        Some(s) => {
            assert(cmb == s + seq![0u8]);
            assert forall|k: int| 0 <= k < s.len() implies pre[o3 + k] == s[k] by {
                assert(pre[o3 + k] == cmb[k]);
                assert(cmb[k] == s[k]);
            }
            assert(pre[o3 + s.len()] == cmb[s.len() as int]);
            assert(cmb[s.len() as int] == 0);
        },
        None => {},
    }
    if m.header_crc {
        let v = (crc32_of(pre) & 0xffff) as u16;
        assert(h == pre + le16(v));
        assert(h[o4] == le16(v)[0] && h[o4 + 1] == le16(v)[1]);
    } else {
        assert(h =~= pre);
    }
}

/// A header encoded at `i` parses back to the member it encodes, whatever
/// bytes surround it.
#[verifier::rlimit(100)]
pub proof fn lemma_parse_header_at(m: MemberView, b: Seq<u8>, i: int)
    requires
        m.wf(),
        0 <= i,
        i + spec_header_bytes(m).len() <= b.len(),
        b.subrange(i, i + spec_header_bytes(m).len() as int) == spec_header_bytes(m),
    ensures
        spec_parse_header(b, i) == Ok::<_, FormatError>(
            (header_part(m), i + spec_header_bytes(m).len()),
        ),
{
    lemma_header_layout(m);
    lemma_flags_decompose(m);
    let h = spec_header_bytes(m);
    let pre = spec_pre_crc_bytes(m);
    let f = m.flags_byte();
    let o2 = off_name(m);
    let o3 = off_comment(m);
    let o4 = off_crc(m);
    assert forall|k: int| 0 <= k < h.len() implies b[i + k] == h[k] by {
        assert(b.subrange(i, i + h.len() as int)[k] == b[i + k]);
    }
    assert(b[i] == h[0] && b[i + 1] == h[1] && b[i + 2] == h[2] && b[i + 3] == h[3]) by {
        assert(b[i + 0] == h[0]);
    }
    assert(b[i] == MAGIC0 && b[i + 1] == MAGIC1 && b[i + 2] == m.method && b[i + 3] == f);
    assert(b[i + 4] == le32(m.mtime)[0] && b[i + 5] == le32(m.mtime)[1] && b[i + 6] == le32(
        m.mtime,
    )[2] && b[i + 7] == le32(m.mtime)[3]);
    lemma_le32_at_of(b, i + 4, m.mtime);
    assert(b[i + 8] == m.xfl && b[i + 9] == m.os_code);

    // Extra field.
    match m.extra {
        Some(e) => {
            let ex = spec_extra_bytes(e);
            assert(b.subrange(i + 10, i + 10 + ex.len() as int) =~= ex) by {
                assert forall|k: int| 0 <= k < ex.len() implies b.subrange(
                    i + 10,
                    i + 10 + ex.len() as int,
                )[k] == ex[k] by {
                    assert(b[i + 10 + k] == h[10 + k]);
                    assert(h[10 + k] == pre[10 + k]);
                }
            }
            lemma_extra_section(b, i + 10, e, f);
            assert(spec_parse_extra(b, i + 10, f) == Ok::<_, FormatError>((Some(e), i + o2)));
        },
        None => {
            assert(f & FLAG_EXTRA == 0);
            assert(spec_parse_extra(b, i + 10, f) == Ok::<_, FormatError>(
                (None::<ExtraFieldView>, i + 10),
            ));
            assert(o2 == 10);
        },
    }

    // Name.
    match m.name {
        Some(s) => {
            assert(b.subrange(i + o2, i + o2 + s.len() as int) =~= s) by {
                assert forall|k: int| 0 <= k < s.len() implies b.subrange(
                    i + o2,
                    i + o2 + s.len() as int,
                )[k] == s[k] by {
                    assert(b[i + o2 + k] == h[o2 + k]);
                    assert(h[o2 + k] == pre[o2 + k]);
                }
            }
            assert(b[i + o2 + s.len()] == h[o2 + s.len()] == pre[o2 + s.len()] == 0);
            lemma_zstr_section(b, i + o2, s);
            assert(spec_parse_zstr(b, i + o2, f & FLAG_NAME != 0) == Ok::<_, FormatError>(
                (Some(s), i + o3),
            ));
        },
        None => {
            assert(spec_parse_zstr(b, i + o2, f & FLAG_NAME != 0) == Ok::<_, FormatError>(
                (None::<Seq<u8>>, i + o2),
            ));
            assert(o3 == o2);
        },
    }

    // Comment.
    match m.comment {
        Some(s) => {
            assert(b.subrange(i + o3, i + o3 + s.len() as int) =~= s) by {
                assert forall|k: int| 0 <= k < s.len() implies b.subrange(
                    i + o3,
                    i + o3 + s.len() as int,
                )[k] == s[k] by {
                    assert(b[i + o3 + k] == h[o3 + k]);
                    assert(h[o3 + k] == pre[o3 + k]);
                }
            }
            assert(b[i + o3 + s.len()] == h[o3 + s.len()] == pre[o3 + s.len()] == 0);
            lemma_zstr_section(b, i + o3, s);
            assert(spec_parse_zstr(b, i + o3, f & FLAG_COMMENT != 0) == Ok::<_, FormatError>(
                (Some(s), i + o4),
            ));
        },
        None => {
            assert(spec_parse_zstr(b, i + o3, f & FLAG_COMMENT != 0) == Ok::<_, FormatError>(
                (None::<Seq<u8>>, i + o3),
            ));
            assert(o4 == o3);
        },
    }

    // Header checksum.
    if m.header_crc {
        let v = (crc32_of(pre) & 0xffff) as u16;
        assert(h.len() == o4 + 2);
        assert(b[i + o4] == h[o4] && b[i + o4 + 1] == h[o4 + 1]);
        assert(b[i + o4] == le16(v)[0] && b[i + o4 + 1] == le16(v)[1]);
        lemma_le16_at_of(b, i + o4, v);
        assert(b.subrange(i, i + o4) =~= pre) by {
            assert forall|k: int| 0 <= k < o4 implies b.subrange(i, i + o4)[k] == pre[k] by {
                assert(b[i + k] == h[k]);
            }
        }
        assert(le16_at(b, i + o4) == (crc32_of(b.subrange(i, i + o4)) & 0xffff) as u16);
    } else {
        assert(h.len() == o4);
    }

    // Assemble the parsed member.
    let parsed = spec_parse_header(b, i);
    assert(parsed is Ok);
    let pm = parsed->Ok_0.0;
    assert(pm.extra == m.extra);
    assert(pm.name == m.name);
    assert(pm.comment == m.comment);
    assert(pm == header_part(m));
    assert(parsed->Ok_0.1 == i + h.len() as int);
}

/// Header-checksum law: a header that carries a checksum decodes only when
/// the stored value equals the low sixteen bits of the CRC-32 of every
/// header byte before it — whatever the input was, the checksum is
/// recomputed and compared, never ignored.
pub proof fn lemma_header_crc_checked(b: Seq<u8>, i: int)
    ensures
        spec_parse_header(b, i) matches Ok(v) ==> v.0.header_crc ==> le16_at(b, v.1 - 2) == (
        crc32_of(b.subrange(i, v.1 - 2)) & 0xffff) as u16,
{
}

/// A header cut short anywhere before its end parses as `Truncated`,
/// whichever optional sections it has and wherever in the input it starts:
/// the encoded bytes reach from `i` to the end of the input, but stop short
/// of a whole header.
#[verifier::rlimit(100)]
pub proof fn lemma_parse_header_truncated_at(m: MemberView, b: Seq<u8>, i: int)
    requires
        m.wf(),
        0 <= i <= b.len(),
        b.len() - i < spec_header_bytes(m).len(),
        forall|k: int| 0 <= k < b.len() - i ==> b[i + k] == spec_header_bytes(m)[k],
    ensures
        spec_parse_header(b, i) == Err::<(MemberView, int), _>(FormatError::Truncated),
{
    lemma_header_layout(m);
    let h = spec_header_bytes(m);
    let pre = spec_pre_crc_bytes(m);
    let t = b.len() - i;
    if t < 2 {
        return ;
    }
    assert(b[i + 0] == h[0] && b[i + 1] == h[1]);
    assert(b[i] == MAGIC0 && b[i + 1] == MAGIC1);
    if t < 10 {
        return ;
    }
    let f = m.flags_byte();
    assert(b[i + 3] == h[3]);
    assert(b[i + 3] == f);
    lemma_flags_decompose(m);
    let o2 = off_name(m);
    let o3 = off_comment(m);
    let o4 = off_crc(m);

    // Extra section.
    match m.extra {
        Some(e) => {
            assert(f & FLAG_EXTRA != 0);
            let ex = spec_extra_bytes(e);
            assert(spec_opt_extra(m.extra) == ex);
            if t < 12 {
                assert(b.len() - (i + 10) < 2);
                return ;
            }
            // The outer length is readable; if the body is cut, the length
            // check fails first.
            assert(b[i + 10] == le16((e.data.len() + 4) as u16)[0] && b[i + 11] == le16(
                (e.data.len() + 4) as u16,
            )[1]) by {
                assert(b[i + 10] == h[10] && b[i + 11] == h[11]);
                assert(pre[10int] == ex[0] && pre[11int] == ex[1]);
                assert(ex[0] == le16((e.data.len() + 4) as u16)[0] && ex[1] == le16(
                    (e.data.len() + 4) as u16,
                )[1]) by {
                    let l1 = le16((e.data.len() + 4) as u16);
                    let ids = seq![e.id1, e.id2];
                    let l2 = le16(e.data.len() as u16);
                    assert(ex == ((l1 + ids) + l2) + e.data);
                    assert(ex[0] == ((l1 + ids) + l2)[0] && ((l1 + ids) + l2)[0] == (l1 + ids)[0]
                        && (l1 + ids)[0] == l1[0]);
                    assert(ex[1] == ((l1 + ids) + l2)[1] && ((l1 + ids) + l2)[1] == (l1 + ids)[1]
                        && (l1 + ids)[1] == l1[1]);
                }
            }
            lemma_le16_at_of(b, i + 10, (e.data.len() + 4) as u16);
            let xlen = le16_at(b, i + 10) as int;
            assert(xlen == e.data.len() + 4);
            if t < o2 {
                assert(b.len() - (i + 12) < xlen);
                return ;
            }
            assert forall|k: int| 0 <= k < ex.len() implies b.subrange(
                i + 10,
                i + 10 + ex.len() as int,
            )[k] == ex[k] by {
                assert(b.subrange(i + 10, i + 10 + ex.len() as int)[k] == b[i + (10 + k)]);
                assert(b[i + (10 + k)] == h[10 + k]);
                assert(h[10 + k] == pre[10 + k]);
            }
            assert(b.subrange(i + 10, i + 10 + ex.len() as int) =~= ex);
            lemma_extra_section(b, i + 10, e, f);
            assert(spec_parse_extra(b, i + 10, f) == Ok::<_, FormatError>((Some(e), i + o2)));
        },
        None => {
            assert(f & FLAG_EXTRA == 0);
            assert(o2 == 10);
        },
    }
    assert(t >= o2);

    // Name section.
    match m.name {
        Some(s) => {
            assert(f & FLAG_NAME != 0);
            if t < o3 {
                // Every available byte of the name region is nonzero, so no
                // terminator is found.
                assert forall|k: int| i + o2 <= k < b.len() implies b[k] != 0 by {
                    assert(b[i + (k - i)] == h[k - i]);
                    assert(h[k - i] == pre[k - i]);
                    assert(pre[k - i] == s[k - i - o2]);
                }
                lemma_find_zero_missing(b, i + o2);
                return ;
            }
            assert(b.subrange(i + o2, i + o2 + s.len() as int) =~= s) by {
                assert forall|k: int| 0 <= k < s.len() implies b.subrange(
                    i + o2,
                    i + o2 + s.len() as int,
                )[k] == s[k] by {
                    assert(b.subrange(i + o2, i + o2 + s.len() as int)[k] == b[i + (o2 + k)]);
                    assert(b[i + (o2 + k)] == h[o2 + k]);
                    assert(h[o2 + k] == pre[o2 + k]);
                }
            }
            assert(b[i + (o2 + s.len())] == h[o2 + s.len()]);
            assert(b[i + o2 + s.len()] == pre[o2 + s.len()] == 0);
            lemma_zstr_section(b, i + o2, s);
            assert(spec_parse_zstr(b, i + o2, f & FLAG_NAME != 0) == Ok::<_, FormatError>(
                (Some(s), i + o3),
            ));
        },
        None => {
            assert(o3 == o2);
        },
    }
    assert(t >= o3);

    // Comment section.
    match m.comment {
        Some(s) => {
            assert(f & FLAG_COMMENT != 0);
            if t < o4 {
                assert forall|k: int| i + o3 <= k < b.len() implies b[k] != 0 by {
                    assert(b[i + (k - i)] == h[k - i]);
                    assert(h[k - i] == pre[k - i]);
                    assert(pre[k - i] == s[k - i - o3]);
                }
                lemma_find_zero_missing(b, i + o3);
                return ;
            }
            assert(b.subrange(i + o3, i + o3 + s.len() as int) =~= s) by {
                assert forall|k: int| 0 <= k < s.len() implies b.subrange(
                    i + o3,
                    i + o3 + s.len() as int,
                )[k] == s[k] by {
                    assert(b.subrange(i + o3, i + o3 + s.len() as int)[k] == b[i + (o3 + k)]);
                    assert(b[i + (o3 + k)] == h[o3 + k]);
                    assert(h[o3 + k] == pre[o3 + k]);
                }
            }
            assert(b[i + (o3 + s.len())] == h[o3 + s.len()]);
            assert(b[i + o3 + s.len()] == pre[o3 + s.len()] == 0);
            lemma_zstr_section(b, i + o3, s);
            assert(spec_parse_zstr(b, i + o3, f & FLAG_COMMENT != 0) == Ok::<_, FormatError>(
                (Some(s), i + o4),
            ));
        },
        None => {
            assert(o4 == o3);
        },
    }
    assert(t >= o4);

    // Header checksum: only its two bytes can still be missing.
    assert(m.header_crc) by {
        if !m.header_crc {
            assert(h.len() == o4);
        }
    }
    assert(t < o4 + 2);
    assert(b.len() - (i + o4) < 2);
}

} // verus!
