//! The archive model: how one member frames its payload between header and
//! trailer, and how members concatenate into an archive.

use vstd::prelude::*;

use crate::backend::InflateReading;
use crate::backend::deflate_facts;
use crate::backend::deflate_of;
use crate::backend::inflate_of;
use crate::checksum::crc32_of;
use crate::header::le32;
use crate::header::le32_at;
use crate::header::lemma_le32_roundtrip;
use crate::header::lemma_parse_header_at;
use crate::header::header_part;
use crate::header::spec_header_bytes;
use crate::header::spec_parse_header;
use crate::member::FormatError;
use crate::member::METHOD_DEFLATE;
use crate::member::METHOD_STORE;
use crate::member::MemberView;

verus! {

/// A length reduced to the 32 bits the trailer can hold.
pub open spec fn mod32(n: nat) -> u32 {
    (n % 0x1_0000_0000) as u32
}

/// The eight trailer bytes: payload CRC-32, then payload size, both
/// little-endian.
pub open spec fn spec_trailer_bytes(crc: u32, size: u32) -> Seq<u8> {
    le32(crc) + le32(size)
}

/// The compressed image of the payload: the DEFLATE stream for the one
/// compressed method, the payload itself for the stored method.
pub open spec fn spec_body_bytes(m: MemberView, level: u8, p: Seq<u8>) -> Seq<u8> {
    if m.method == METHOD_DEFLATE {
        deflate_of(level, p)
    } else {
        p
    }
}

/// Every byte of one member: header, payload image, trailer.
pub open spec fn spec_member_bytes(m: MemberView, level: u8, p: Seq<u8>) -> Seq<u8> {
    spec_header_bytes(m) + spec_body_bytes(m, level, p) + spec_trailer_bytes(
        crc32_of(p),
        mod32(p.len()),
    )
}

/// The member a successful decode reports: the header fields, with the
/// trailer mirror filled in from the payload.
pub open spec fn filled(m: MemberView, p: Seq<u8>) -> MemberView {
    MemberView {
        payload_crc32: crc32_of(p),
        payload_size: mod32(p.len()),
        ..header_part(m)
    }
}

/// Validates the eight trailer bytes at `t` against the decompressed
/// payload `p`, completing the member on success.
pub open spec fn spec_check_trailer(b: Seq<u8>, t: int, m: MemberView, p: Seq<u8>) -> Result<
    (MemberView, Seq<u8>, int),
    FormatError,
> {
    let crc = le32_at(b, t);
    let size = le32_at(b, t + 4);
    if crc != crc32_of(p) || size != mod32(p.len()) {
        Err(FormatError::IntegrityMismatch)
    } else {
        Ok((MemberView { payload_crc32: crc, payload_size: size, ..m }, p, t + 8))
    }
}

/// Parses one member at `i`: a header, then the payload image, then the
/// trailer. A DEFLATE payload delimits itself; a stored payload has no
/// marker of its own end, so a stored member extends to the end of the
/// input. The result carries the index just past the trailer. The split
/// between `Truncated` and `CorruptPayload` is the decoder's own reading:
/// out of input is `Truncated`, an invalid stream is `CorruptPayload`.
pub open spec fn spec_parse_member(b: Seq<u8>, i: int) -> Result<
    (MemberView, Seq<u8>, int),
    FormatError,
> {
    match spec_parse_header(b, i) {
        Err(e) => Err(e),
        Ok((m, j)) => {
            if m.method == METHOD_DEFLATE {
                match inflate_of(b.skip(j)) {
                    InflateReading::Complete(p, c) => {
                        if b.len() < j + c + 8 {
                            Err(FormatError::Truncated)
                        } else {
                            spec_check_trailer(b, j + c, m, p)
                        }
                    },
                    InflateReading::NeedsInput => Err(FormatError::Truncated),
                    InflateReading::Invalid => Err(FormatError::CorruptPayload),
                }
            } else if m.method == METHOD_STORE {
                if b.len() - j < 8 {
                    Err(FormatError::Truncated)
                } else {
                    spec_check_trailer(b, b.len() - 8, m, b.subrange(j, b.len() - 8))
                }
            } else {
                Err(FormatError::UnsupportedMethod)
            }
        },
    }
}

/// Parses a whole archive at `i`: one or more members, back to back, the
/// last one ending exactly at the end of the input.
pub open spec fn spec_parse_archive(b: Seq<u8>, i: int) -> Result<
    Seq<(MemberView, Seq<u8>)>,
    FormatError,
>
    decreases b.len() - i,
{
    if i >= b.len() {
        Err(FormatError::Truncated)
    } else {
        match spec_parse_member(b, i) {
            Err(e) => Err(e),
            Ok((m, p, n)) => {
                // A member always consumes bytes, so `n <= i` cannot come
                // out of a successful parse; the bound only keeps the
                // recursion well-founded.
                if n >= b.len() || n <= i {
                    Ok(seq![(m, p)])
                } else {
                    match spec_parse_archive(b, n) {
                        Err(e) => Err(e),
                        Ok(rest) => Ok(seq![(m, p)] + rest),
                    }
                }
            },
        }
    }
}

/// Integrity: whatever the input was — round trip or foreign bytes — a
/// member that decodes successfully reports exactly the CRC-32 and the
/// reduced size of the payload it hands back: the trailer was checked
/// against the decompressed bytes, never taken on faith.
pub proof fn lemma_parse_member_integrity(b: Seq<u8>, i: int)
    ensures
        spec_parse_member(b, i) matches Ok(v) ==> v.0.payload_crc32 == crc32_of(v.1)
            && v.0.payload_size == mod32(v.1.len()),
{
}

/// Magic mismatch: whatever else the input holds, if it does not begin
/// with the two magic bytes of this format, decoding reports exactly
/// `UnsupportedFormat` for a recognized legacy relative's magic and exactly
/// `BadMagic` for anything else — a diagnosable outcome either way, never
/// a generic failure.
pub proof fn lemma_bad_magic(b: Seq<u8>)
    requires
        b.len() >= 2,
        b[0] != crate::member::MAGIC0 || b[1] != crate::member::MAGIC1,
    ensures
        ({
            let e = if b[0] == crate::member::MAGIC0 && crate::header::legacy_magic2(b[1]) {
                FormatError::UnsupportedFormat
            } else {
                FormatError::BadMagic
            };
            &&& spec_parse_archive(b, 0) == Err::<Seq<(MemberView, Seq<u8>)>, _>(e)
            &&& spec_parse_header(b, 0) == Err::<(MemberView, int), _>(e)
        }),
{
}

/// Eight bytes that spell a trailer read back as its two values.
pub(crate) proof fn lemma_trailer_at(b: Seq<u8>, t: int, crc: u32, size: u32)
    requires
        0 <= t,
        t + 8 <= b.len(),
        b.subrange(t, t + 8) == spec_trailer_bytes(crc, size),
    ensures
        le32_at(b, t) == crc,
        le32_at(b, t + 4) == size,
{
    let tr = spec_trailer_bytes(crc, size);
    assert forall|k: int| 0 <= k < 8 implies b[t + k] == tr[k] by {
        assert(b.subrange(t, t + 8)[k] == b[t + k]);
    }
    assert(tr[0] == le32(crc)[0] && tr[1] == le32(crc)[1] && tr[2] == le32(crc)[2] && tr[3]
        == le32(crc)[3]);
    assert(tr[4] == le32(size)[0] && tr[5] == le32(size)[1] && tr[6] == le32(size)[2] && tr[7]
        == le32(size)[3]);
    assert(b[t + 0] == tr[0] && b[t + 1] == tr[1] && b[t + 2] == tr[2] && b[t + 3] == tr[3] && b[t
        + 4] == tr[4] && b[t + 5] == tr[5] && b[t + 6] == tr[6] && b[t + 7] == tr[7]);
    lemma_le32_roundtrip(crc);
    lemma_le32_roundtrip(size);
}

/// A member encoded at `i` parses back to the member and payload it
/// encodes. A stored member must reach the end of the input, since nothing
/// inside it marks where its payload ends; a compressed member delimits
/// itself, so anything may follow it.
#[verifier::rlimit(100)]
pub(crate) proof fn lemma_parse_member_at(
    m: MemberView,
    level: u8,
    p: Seq<u8>,
    b: Seq<u8>,
    i: int,
)
    requires
        m.wf(),
        m.method == METHOD_DEFLATE || m.method == METHOD_STORE,
        m.method == METHOD_DEFLATE ==> deflate_facts(level, p),
        m.method == METHOD_STORE ==> i + spec_member_bytes(m, level, p).len() == b.len(),
        0 <= i,
        i + spec_member_bytes(m, level, p).len() <= b.len(),
        b.subrange(i, i + spec_member_bytes(m, level, p).len() as int) == spec_member_bytes(
            m,
            level,
            p,
        ),
    ensures
        spec_parse_member(b, i) == Ok::<_, FormatError>(
            (filled(m, p), p, i + spec_member_bytes(m, level, p).len()),
        ),
{
    let h = spec_header_bytes(m);
    let body = spec_body_bytes(m, level, p);
    let tr = spec_trailer_bytes(crc32_of(p), mod32(p.len()));
    let mb = spec_member_bytes(m, level, p);
    let hl = h.len() as int;
    let bl = body.len() as int;
    let l = mb.len() as int;
    assert(mb == (h + body) + tr);
    assert(l == hl + bl + 8);
    assert forall|k: int| 0 <= k < l implies b[i + k] == mb[k] by {
        assert(b.subrange(i, i + l)[k] == b[i + k]);
    }
    assert forall|k: int| 0 <= k < hl implies mb[k] == h[k] by {
        assert(mb[k] == (h + body)[k]);
    }
    assert forall|k: int| 0 <= k < bl implies mb[hl + k] == body[k] by {
        assert(mb[hl + k] == (h + body)[hl + k]);
    }
    assert forall|k: int| 0 <= k < 8 implies mb[hl + bl + k] == tr[k] by {}

    // The header parses in place.
    assert(b.subrange(i, i + hl) =~= h) by {
        assert forall|k: int| 0 <= k < hl implies b.subrange(i, i + hl)[k] == h[k] by {
            assert(b.subrange(i, i + hl)[k] == b[i + k]);
            assert(b[i + k] == mb[k]);
        }
    }
    lemma_parse_header_at(m, b, i);
    let j = i + hl;

    // The trailer sits just past the payload image.
    assert(b.subrange(j + bl, j + bl + 8) =~= tr) by {
        assert forall|k: int| 0 <= k < 8 implies b.subrange(j + bl, j + bl + 8)[k] == tr[k] by {
            assert(b.subrange(j + bl, j + bl + 8)[k] == b[j + bl + k]);
            assert(b[i + (hl + bl + k)] == mb[hl + bl + k]);
        }
    }
    lemma_trailer_at(b, j + bl, crc32_of(p), mod32(p.len()));

    if m.method == METHOD_DEFLATE {
        let stream = deflate_of(level, p);
        assert(body == stream);
        let rest2 = tr + b.skip(i + l);
        assert(b.skip(j) =~= stream + rest2) by {
            assert forall|k: int| 0 <= k < b.len() - j implies b.skip(j)[k] == (stream + rest2)[k]
                by {
                assert(b.skip(j)[k] == b[j + k]);
                if k < bl {
                    assert(b[i + (hl + k)] == mb[hl + k]);
                    assert((stream + rest2)[k] == stream[k]);
                } else if k < bl + 8 {
                    assert(b[i + (hl + k)] == mb[hl + k]);
                    assert((stream + rest2)[k] == rest2[k - bl]);
                    assert(rest2[k - bl] == tr[k - bl]);
                } else {
                    assert((stream + rest2)[k] == rest2[k - bl]);
                    assert(rest2[k - bl] == b.skip(i + l)[k - bl - 8]);
                    assert(b.skip(i + l)[k - bl - 8] == b[i + l + (k - bl - 8)]);
                }
            }
        }
        assert(inflate_of(stream + rest2) == InflateReading::Complete(p, stream.len() as int));
        assert(inflate_of(b.skip(j)) == InflateReading::Complete(p, bl));
        assert(b.len() >= j + bl + 8);
    } else {
        assert(body == p);
        assert(b.len() - j == p.len() + 8);
        assert(b.subrange(j, b.len() - 8) =~= p) by {
            assert forall|k: int| 0 <= k < p.len() implies b.subrange(j, b.len() - 8)[k] == p[k]
                by {
                assert(b.subrange(j, b.len() - 8)[k] == b[j + k]);
                assert(b[i + (hl + k)] == mb[hl + k]);
            }
        }
    }
    assert(spec_parse_member(b, i) == Ok::<_, FormatError>((filled(m, p), p, i + l)));
}

/// The bytes of an archive built from `items`: each member — configuration,
/// compression level, payload — encoded in turn, back to back.
pub open spec fn spec_archive_bytes(items: Seq<(MemberView, u8, Seq<u8>)>) -> Seq<u8>
    decreases items.len(),
{
    if items.len() == 0 {
        Seq::empty()
    } else {
        spec_member_bytes(items[0].0, items[0].1, items[0].2) + spec_archive_bytes(items.skip(1))
    }
}

/// What the archive-wide laws ask of every entry: a well-formed compressed
/// member, with the backend facts that hold of every finished stream.
pub open spec fn deflate_items(items: Seq<(MemberView, u8, Seq<u8>)>) -> bool {
    forall|k: int|
        0 <= k < items.len() ==> {
            let it = #[trigger] items[k];
            it.0.wf() && it.0.method == METHOD_DEFLATE && deflate_facts(it.1, it.2)
        }
}

/// The members and payloads an archive of `items` decodes to.
pub open spec fn spec_archive_members(items: Seq<(MemberView, u8, Seq<u8>)>) -> Seq<
    (MemberView, Seq<u8>),
> {
    items.map(|k: int, it: (MemberView, u8, Seq<u8>)| (filled(it.0, it.2), it.2))
}

/// An encoded member is at least the fixed header and the trailer long.
pub(crate) proof fn lemma_member_bytes_len(m: MemberView, level: u8, p: Seq<u8>)
    ensures
        spec_member_bytes(m, level, p).len() >= 18,
        spec_member_bytes(m, level, p).len() == spec_header_bytes(m).len() + spec_body_bytes(
            m,
            level,
            p,
        ).len() + 8,
        spec_header_bytes(m).len() >= 10,
{
    assert(crate::header::spec_pre_crc_bytes(m).len() >= 10);
}

/// One encoded member is a whole archive of exactly that member.
pub(crate) proof fn lemma_archive_single(m: MemberView, level: u8, p: Seq<u8>)
    requires
        m.wf(),
        m.method == METHOD_DEFLATE || m.method == METHOD_STORE,
        m.method == METHOD_DEFLATE ==> deflate_facts(level, p),
    ensures
        spec_parse_archive(spec_member_bytes(m, level, p), 0) == Ok::<_, FormatError>(
            seq![(filled(m, p), p)],
        ),
{
    let mb = spec_member_bytes(m, level, p);
    lemma_member_bytes_len(m, level, p);
    assert(mb.subrange(0, mb.len() as int) =~= mb);
    lemma_parse_member_at(m, level, p, mb, 0);
}

/// Round trip: decoding an encoded member gives back exactly the member
/// and payload it was built from, with the trailer mirror filled in from
/// the payload — so field for field equal to a member whose trailer fields
/// already agree with its payload. `deflate_facts` holds of every stream
/// the writer finishes, so every encoded member satisfies these premises.
pub proof fn lemma_member_roundtrip(m: MemberView, level: u8, p: Seq<u8>)
    requires
        m.wf(),
        m.method == METHOD_DEFLATE || m.method == METHOD_STORE,
        m.method == METHOD_DEFLATE ==> deflate_facts(level, p),
    ensures
        spec_parse_member(spec_member_bytes(m, level, p), 0) == Ok::<_, FormatError>(
            (filled(m, p), p, spec_member_bytes(m, level, p).len() as int),
        ),
        m.payload_crc32 == crc32_of(p) && m.payload_size == mod32(p.len()) ==> filled(m, p) == m,
{
    let mb = spec_member_bytes(m, level, p);
    lemma_member_bytes_len(m, level, p);
    assert(mb.subrange(0, mb.len() as int) =~= mb);
    lemma_parse_member_at(m, level, p, mb, 0);
}

/// Concatenation: an archive built from two independently encoded
/// single-member archives, back to back, decodes as an archive of exactly
/// those two members, in order, each integrity-checked on its own. The
/// first member must be compressed: a stored payload has no end marker of
/// its own, so only a self-delimiting first member lets a reader find the
/// second.
pub proof fn lemma_archive_concatenation(
    m1: MemberView,
    l1: u8,
    p1: Seq<u8>,
    m2: MemberView,
    l2: u8,
    p2: Seq<u8>,
)
    requires
        m1.wf(),
        m1.method == METHOD_DEFLATE,
        deflate_facts(l1, p1),
        m2.wf(),
        m2.method == METHOD_DEFLATE || m2.method == METHOD_STORE,
        m2.method == METHOD_DEFLATE ==> deflate_facts(l2, p2),
    ensures
        spec_parse_archive(spec_member_bytes(m1, l1, p1) + spec_member_bytes(m2, l2, p2), 0)
            == Ok::<_, FormatError>(seq![(filled(m1, p1), p1), (filled(m2, p2), p2)]),
{
    let a = spec_member_bytes(m1, l1, p1);
    let bb = spec_member_bytes(m2, l2, p2);
    let c = a + bb;
    let la = a.len() as int;
    let lb = bb.len() as int;
    lemma_member_bytes_len(m1, l1, p1);
    lemma_member_bytes_len(m2, l2, p2);
    assert(c.subrange(0, la) =~= a) by {
        assert forall|k: int| 0 <= k < la implies c.subrange(0, la)[k] == a[k] by {
            assert(c.subrange(0, la)[k] == c[k]);
            assert(c[k] == a[k]);
        }
    }
    lemma_parse_member_at(m1, l1, p1, c, 0);
    assert(c.subrange(la, la + lb) =~= bb) by {
        assert forall|k: int| 0 <= k < lb implies c.subrange(la, la + lb)[k] == bb[k] by {
            assert(c.subrange(la, la + lb)[k] == c[la + k]);
            assert(c[la + k] == bb[k]);
        }
    }
    lemma_parse_member_at(m2, l2, p2, c, la);
    assert(spec_parse_archive(c, la) == Ok::<_, FormatError>(seq![(filled(m2, p2), p2)]));
    assert(spec_parse_archive(c, 0) == Ok::<_, FormatError>(
        seq![(filled(m1, p1), p1)] + seq![(filled(m2, p2), p2)],
    ));
    assert(seq![(filled(m1, p1), p1)] + seq![(filled(m2, p2), p2)] =~= seq![
        (filled(m1, p1), p1),
        (filled(m2, p2), p2),
    ]);
}

/// A compressed member whose encoding starts at `i` but is cut off by the
/// end of the input parses as `Truncated`, wherever the cut lands: in the
/// header, inside the compressed payload, or inside the trailer.
#[verifier::rlimit(100)]
pub(crate) proof fn lemma_member_truncated_at(
    m: MemberView,
    level: u8,
    p: Seq<u8>,
    b: Seq<u8>,
    i: int,
)
    requires
        m.wf(),
        m.method == METHOD_DEFLATE,
        deflate_facts(level, p),
        0 <= i <= b.len(),
        b.len() - i < spec_member_bytes(m, level, p).len(),
        forall|k: int| 0 <= k < b.len() - i ==> b[i + k] == spec_member_bytes(m, level, p)[k],
    ensures
        spec_parse_member(b, i) == Err::<(MemberView, Seq<u8>, int), _>(FormatError::Truncated),
{
    let h = spec_header_bytes(m);
    let stream = deflate_of(level, p);
    let tr = spec_trailer_bytes(crc32_of(p), mod32(p.len()));
    let mb = spec_member_bytes(m, level, p);
    let hl = h.len() as int;
    let bl = stream.len() as int;
    let t = b.len() - i;
    lemma_member_bytes_len(m, level, p);
    assert(mb == (h + stream) + tr);
    assert forall|k: int| 0 <= k < hl implies mb[k] == h[k] by {
        assert(mb[k] == (h + stream)[k]);
    }
    assert forall|k: int| 0 <= k < bl implies mb[hl + k] == stream[k] by {
        assert(mb[hl + k] == (h + stream)[hl + k]);
    }
    assert forall|k: int| 0 <= k < 8 implies mb[hl + bl + k] == tr[k] by {}
    if t < hl {
        assert forall|k: int| 0 <= k < b.len() - i implies b[i + k] == h[k] by {
            assert(b[i + k] == mb[k]);
        }
        crate::header::lemma_parse_header_truncated_at(m, b, i);
        return ;
    }
    assert(b.subrange(i, i + hl) =~= h) by {
        assert forall|k: int| 0 <= k < hl implies b.subrange(i, i + hl)[k] == h[k] by {
            assert(b.subrange(i, i + hl)[k] == b[i + k]);
            assert(b[i + k] == mb[k]);
        }
    }
    lemma_parse_header_at(m, b, i);
    let j = i + hl;
    let u = t - hl;
    if u < bl {
        // Cut inside the compressed payload: the decoder still waits for
        // the rest of the stream.
        assert(b.skip(j) =~= stream.take(u)) by {
            assert forall|k: int| 0 <= k < u implies b.skip(j)[k] == stream.take(u)[k] by {
                assert(b.skip(j)[k] == b[j + k]);
                assert(b[i + (hl + k)] == mb[hl + k]);
            }
        }
        assert(inflate_of(stream.take(u)) == InflateReading::NeedsInput);
        assert(inflate_of(b.skip(j)) == InflateReading::NeedsInput);
    } else {
        // Cut inside the trailer: the stream is whole, the trailer is not.
        assert(b.skip(j) =~= stream + tr.take(u - bl)) by {
            assert forall|k: int| 0 <= k < u implies b.skip(j)[k] == (stream + tr.take(u - bl))[k]
                by {
                assert(b.skip(j)[k] == b[j + k]);
                assert(b[i + (hl + k)] == mb[hl + k]);
                if k >= bl {
                    assert((stream + tr.take(u - bl))[k] == tr.take(u - bl)[k - bl]);
                }
            }
        }
        assert(inflate_of(stream + tr.take(u - bl)) == InflateReading::Complete(
            p,
            stream.len() as int,
        ));
        assert(inflate_of(b.skip(j)) == InflateReading::Complete(p, bl));
        assert(b.len() < j + bl + 8);
    }
}

/// An archive of `items` encoded at `i` and reaching exactly the end of the
/// input parses back to all of its members, in order.
proof fn lemma_archive_of_members_at(items: Seq<(MemberView, u8, Seq<u8>)>, b: Seq<u8>, i: int)
    requires
        deflate_items(items),
        items.len() >= 1,
        0 <= i,
        i + spec_archive_bytes(items).len() == b.len(),
        b.subrange(i, b.len() as int) == spec_archive_bytes(items),
    ensures
        spec_parse_archive(b, i) == Ok::<_, FormatError>(spec_archive_members(items)),
    decreases items.len(),
{
    let first = items[0];
    let a = spec_member_bytes(first.0, first.1, first.2);
    let la = a.len() as int;
    let rest = items.skip(1);
    let ab = spec_archive_bytes(items);
    assert(ab == a + spec_archive_bytes(rest));
    lemma_member_bytes_len(first.0, first.1, first.2);
    assert forall|k: int| 0 <= k < ab.len() implies b[i + k] == ab[k] by {
        assert(b.subrange(i, b.len() as int)[k] == b[i + k]);
    }
    assert(b.subrange(i, i + la) =~= a) by {
        assert forall|k: int| 0 <= k < la implies b.subrange(i, i + la)[k] == a[k] by {
            assert(b.subrange(i, i + la)[k] == b[i + k]);
            assert(ab[k] == a[k]);
        }
    }
    lemma_parse_member_at(first.0, first.1, first.2, b, i);
    let n = i + la;
    if rest.len() == 0 {
        assert(ab =~= a);
        assert(n == b.len());
        assert(spec_archive_members(items) =~= seq![(filled(first.0, first.2), first.2)]);
    } else {
        lemma_member_bytes_len(rest[0].0, rest[0].1, rest[0].2);
        assert(spec_archive_bytes(rest) == spec_member_bytes(rest[0].0, rest[0].1, rest[0].2)
            + spec_archive_bytes(rest.skip(1)));
        assert(spec_archive_bytes(rest).len() >= 18);
        assert(n < b.len());
        assert(deflate_items(rest)) by {
            assert forall|k: int| 0 <= k < rest.len() implies {
                let it = #[trigger] rest[k];
                it.0.wf() && it.0.method == METHOD_DEFLATE && deflate_facts(it.1, it.2)
            } by {
                assert(rest[k] == items[k + 1]);
            }
        }
        assert(b.subrange(n, b.len() as int) =~= spec_archive_bytes(rest)) by {
            assert forall|k: int| 0 <= k < spec_archive_bytes(rest).len() implies b.subrange(
                n,
                b.len() as int,
            )[k] == spec_archive_bytes(rest)[k] by {
                assert(b.subrange(n, b.len() as int)[k] == b[n + k]);
                assert(b[i + (la + k)] == ab[la + k]);
                assert(ab[la + k] == spec_archive_bytes(rest)[k]);
            }
        }
        lemma_archive_of_members_at(rest, b, n);
        assert(seq![(filled(first.0, first.2), first.2)] + spec_archive_members(rest)
            =~= spec_archive_members(items));
    }
}

/// An archive built from any number of compressed members decodes as
/// exactly those members, in order, each integrity-checked on its own.
pub proof fn lemma_archive_of_members(items: Seq<(MemberView, u8, Seq<u8>)>)
    requires
        deflate_items(items),
        items.len() >= 1,
    ensures
        spec_parse_archive(spec_archive_bytes(items), 0) == Ok::<_, FormatError>(
            spec_archive_members(items),
        ),
{
    let ab = spec_archive_bytes(items);
    assert(ab.subrange(0, ab.len() as int) =~= ab);
    lemma_archive_of_members_at(items, ab, 0);
}

/// Truncation: a compressed member cut short at any offset before its end
/// reads as `Truncated` — never as a shorter successful archive, and never
/// as any other error. (A stored member is excluded: without an end marker
/// of its own, a cut inside its payload moves where the reader looks for
/// the trailer instead of leaving the trailer short.)
pub proof fn lemma_member_truncated(m: MemberView, level: u8, p: Seq<u8>, t: int)
    requires
        m.wf(),
        m.method == METHOD_DEFLATE,
        deflate_facts(level, p),
        0 <= t < spec_member_bytes(m, level, p).len(),
    ensures
        spec_parse_archive(spec_member_bytes(m, level, p).take(t), 0) == Err::<
            Seq<(MemberView, Seq<u8>)>,
            _,
        >(FormatError::Truncated),
{
    let mb = spec_member_bytes(m, level, p);
    let b = mb.take(t);
    if t == 0 {
        return ;
    }
    assert forall|k: int| 0 <= k < b.len() implies b[0 + k] == mb[k] by {}
    lemma_member_truncated_at(m, level, p, b, 0);
}

/// An archive of `items` encoded at `i` but cut off by the end of the input,
/// strictly inside some member, parses as `Truncated`.
proof fn lemma_archive_truncated_at(items: Seq<(MemberView, u8, Seq<u8>)>, b: Seq<u8>, i: int)
    requires
        deflate_items(items),
        items.len() >= 1,
        0 <= i <= b.len(),
        b.len() - i < spec_archive_bytes(items).len(),
        b.subrange(i, b.len() as int) == spec_archive_bytes(items).take(b.len() - i),
        forall|k: int|
            1 <= k < items.len() ==> b.len() - i != spec_archive_bytes(#[trigger] items.take(
                k,
            )).len(),
    ensures
        spec_parse_archive(b, i) == Err::<Seq<(MemberView, Seq<u8>)>, _>(FormatError::Truncated),
    decreases items.len(),
{
    let u = b.len() - i;
    let first = items[0];
    let a = spec_member_bytes(first.0, first.1, first.2);
    let la = a.len() as int;
    let rest = items.skip(1);
    let ab = spec_archive_bytes(items);
    assert(ab == a + spec_archive_bytes(rest));
    lemma_member_bytes_len(first.0, first.1, first.2);
    assert forall|k: int| 0 <= k < u implies b[i + k] == ab[k] by {
        assert(b.subrange(i, b.len() as int)[k] == b[i + k]);
        assert(ab.take(u)[k] == ab[k]);
    }
    assert(spec_archive_bytes(items.take(1)) =~= a) by {
        assert(items.take(1)[0] == first);
        assert(items.take(1).skip(1) =~= Seq::<(MemberView, u8, Seq<u8>)>::empty());
        assert(spec_archive_bytes(items.take(1)) == a + spec_archive_bytes(items.take(1).skip(1)));
    }
    if u == 0 {
        return ;
    }
    if u < la {
        assert forall|k: int| 0 <= k < u implies b[i + k] == a[k] by {
            assert(ab[k] == a[k]);
        }
        lemma_member_truncated_at(first.0, first.1, first.2, b, i);
        return ;
    }
    if items.len() == 1 {
        assert(ab =~= a);
        assert(false);
    }
    assert(u != la);
    assert(u > la);
    assert(b.subrange(i, i + la) =~= a) by {
        assert forall|k: int| 0 <= k < la implies b.subrange(i, i + la)[k] == a[k] by {
            assert(b.subrange(i, i + la)[k] == b[i + k]);
            assert(ab[k] == a[k]);
        }
    }
    lemma_parse_member_at(first.0, first.1, first.2, b, i);
    let n = i + la;
    assert(rest.len() >= 1);
    assert(deflate_items(rest)) by {
        assert forall|k: int| 0 <= k < rest.len() implies {
            let it = #[trigger] rest[k];
            it.0.wf() && it.0.method == METHOD_DEFLATE && deflate_facts(it.1, it.2)
        } by {
            assert(rest[k] == items[k + 1]);
        }
    }
    assert(b.len() - n < spec_archive_bytes(rest).len());
    assert(b.subrange(n, b.len() as int) =~= spec_archive_bytes(rest).take(b.len() - n)) by {
        assert forall|k: int| 0 <= k < u - la implies b.subrange(n, b.len() as int)[k]
            == spec_archive_bytes(rest).take(b.len() - n)[k] by {
            assert(b.subrange(n, b.len() as int)[k] == b[n + k]);
            assert(b[i + (la + k)] == ab[la + k]);
            assert(ab[la + k] == spec_archive_bytes(rest)[k]);
        }
    }
    assert forall|k: int| 1 <= k < rest.len() implies b.len() - n != spec_archive_bytes(
        #[trigger] rest.take(k),
    ).len() by {
        assert(items.take(k + 1)[0] == first);
        assert(items.take(k + 1).skip(1) =~= rest.take(k));
        assert(spec_archive_bytes(items.take(k + 1)) == a + spec_archive_bytes(
            items.take(k + 1).skip(1),
        ));
        assert(b.len() - i != spec_archive_bytes(items.take(k + 1)).len());
    }
    lemma_archive_truncated_at(rest, b, n);
}

/// Truncation across any concatenation: an archive of any number of
/// compressed members, cut anywhere strictly inside a member, reads as
/// `Truncated`. A cut exactly at a boundary between members is excluded: it
/// leaves the well-formed shorter archive of the members before it, and
/// since each member delimits itself, no reader could tell the difference.
pub proof fn lemma_archive_truncated(items: Seq<(MemberView, u8, Seq<u8>)>, t: int)
    requires
        deflate_items(items),
        items.len() >= 1,
        0 <= t < spec_archive_bytes(items).len(),
        forall|k: int|
            1 <= k < items.len() ==> t != spec_archive_bytes(#[trigger] items.take(k)).len(),
    ensures
        spec_parse_archive(spec_archive_bytes(items).take(t), 0) == Err::<
            Seq<(MemberView, Seq<u8>)>,
            _,
        >(FormatError::Truncated),
{
    let ab = spec_archive_bytes(items);
    let b = ab.take(t);
    assert(b.subrange(0, b.len() as int) =~= ab.take(b.len() - 0));
    lemma_archive_truncated_at(items, b, 0);
}

/// Truncation across a concatenation: an archive of two compressed members
/// cut anywhere strictly inside either member reads as `Truncated`. A cut
/// exactly at the boundary between the members is excluded: it leaves the
/// well-formed shorter archive of the first member alone, and since each
/// member delimits itself, no reader could tell the difference.
pub proof fn lemma_archive_pair_truncated(
    m1: MemberView,
    l1: u8,
    p1: Seq<u8>,
    m2: MemberView,
    l2: u8,
    p2: Seq<u8>,
    t: int,
)
    requires
        m1.wf(),
        m1.method == METHOD_DEFLATE,
        deflate_facts(l1, p1),
        m2.wf(),
        m2.method == METHOD_DEFLATE,
        deflate_facts(l2, p2),
        0 <= t < spec_member_bytes(m1, l1, p1).len() + spec_member_bytes(m2, l2, p2).len(),
        t != spec_member_bytes(m1, l1, p1).len(),
    ensures
        spec_parse_archive((spec_member_bytes(m1, l1, p1) + spec_member_bytes(m2, l2, p2)).take(t), 0)
            == Err::<Seq<(MemberView, Seq<u8>)>, _>(FormatError::Truncated),
{
    let a = spec_member_bytes(m1, l1, p1);
    let bb = spec_member_bytes(m2, l2, p2);
    let c = a + bb;
    let la = a.len() as int;
    let ct = c.take(t);
    lemma_member_bytes_len(m1, l1, p1);
    lemma_member_bytes_len(m2, l2, p2);
    if t < la {
        assert(ct =~= a.take(t)) by {
            assert forall|k: int| 0 <= k < t implies ct[k] == a.take(t)[k] by {
                assert(ct[k] == c[k]);
                assert(c[k] == a[k]);
            }
        }
        lemma_member_truncated(m1, l1, p1, t);
        return ;
    }
    // The cut is strictly inside the second member. The first one still
    // parses in place, and the parse then meets the truncated second.
    assert(ct.subrange(0, la) =~= a) by {
        assert forall|k: int| 0 <= k < la implies ct.subrange(0, la)[k] == a[k] by {
            assert(ct.subrange(0, la)[k] == ct[k]);
            assert(ct[k] == c[k]);
            assert(c[k] == a[k]);
        }
    }
    lemma_parse_member_at(m1, l1, p1, ct, 0);
    assert forall|k: int| 0 <= k < ct.len() - la implies ct[la + k] == bb[k] by {
        assert(ct[la + k] == c[la + k]);
        assert(c[la + k] == bb[k]);
    }
    lemma_member_truncated_at(m2, l2, p2, ct, la);
    assert(spec_parse_archive(ct, la) == Err::<Seq<(MemberView, Seq<u8>)>, _>(
        FormatError::Truncated,
    ));
}

} // verus!
