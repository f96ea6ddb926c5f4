//! The streaming reader: members decoded one at a time from a byte source,
//! with integrity checked against each trailer.

use vstd::prelude::*;
use vstd::slice::slice_subrange;
use vstd::slice::slice_to_vec;

use crate::archive::mod32;
use crate::archive::spec_parse_archive;
use crate::archive::spec_parse_member;
use crate::backend::InflateError;
use crate::backend::inflate_whole;
use crate::checksum::Checksum;
use crate::checksum::crc32_of;
use crate::header::decode_header;
use crate::header::le32_at;
use crate::header::read_le32;
use crate::member::FormatError;
use crate::member::METHOD_DEFLATE;
use crate::member::METHOD_STORE;
use crate::member::Member;
use crate::member::MemberView;

verus! {

/// The ghost image of a decoded archive: each member with its payload.
pub open spec fn archive_view(v: Seq<(Member, Vec<u8>)>) -> Seq<(MemberView, Seq<u8>)> {
    v.map(|i: int, x: (Member, Vec<u8>)| (x.0@, x.1@))
}

/// A streaming reader over one archive held in memory. Each call to
/// `next_member` decodes one full member — header, payload, trailer — and
/// leaves the reader at the start of the next one.
pub struct Reader {
    src: Vec<u8>,
    pos: usize,
}

impl Reader {
    /// The bytes the reader was built over.
    pub closed spec fn source(self) -> Seq<u8> {
        self.src@
    }

    /// How far the reader has consumed its source.
    pub closed spec fn position(self) -> int {
        self.pos as int
    }

    /// The reader's invariant.
    pub closed spec fn wf(self) -> bool {
        self.pos <= self.src@.len()
    }

    pub fn new(src: Vec<u8>) -> (r: Reader)
        ensures
            r.wf(),
            r.source() == src@,
            r.position() == 0,
    {
        Reader { src, pos: 0 }
    }

    /// Whether the source is fully consumed: a clean end of the archive.
    pub fn at_end(&self) -> (r: bool)
        requires
            self.wf(),
        ensures
            r == (self.position() == self.source().len()),
    {
        self.pos == self.src.len()
    }

    /// Decodes the next member. `Ok(None)` is the clean end of the archive:
    /// the previous member ended exactly at the end of the source. Any
    /// error leaves the reader unmoved, and is exactly what the parse of
    /// the remaining bytes gives: a short header, payload or trailer is
    /// `Truncated`, an invalid compressed payload `CorruptPayload`, and a
    /// trailer that disagrees with the decompressed payload
    /// `IntegrityMismatch`.
    pub fn next_member(&mut self) -> (r: Result<Option<(Member, Vec<u8>)>, FormatError>)
        requires
            old(self).wf(),
        ensures
            final(self).wf(),
            final(self).source() == old(self).source(),
            match r {
                Ok(opt) => match opt {
                    None => old(self).position() == old(self).source().len() && *final(self)
                        == *old(self),
                    Some(mp) => {
                        &&& old(self).position() < old(self).source().len()
                        &&& old(self).position() < final(self).position() <= old(
                            self,
                        ).source().len()
                        &&& spec_parse_member(old(self).source(), old(self).position()) == Ok::<
                            _,
                            FormatError,
                        >((mp.0@, mp.1@, final(self).position()))
                    },
                },
                Err(e) => {
                    &&& old(self).position() < old(self).source().len()
                    &&& spec_parse_member(old(self).source(), old(self).position()) == Err::<
                        (MemberView, Seq<u8>, int),
                        _,
                    >(e)
                    &&& *final(self) == *old(self)
                },
            },
    {
        let n = self.src.len();
        if self.pos == n {
            return Ok(None);
        }
        let (m0, hn) = match decode_header(self.src.as_slice(), self.pos) {
            Ok(x) => x,
            Err(e) => {
                return Err(e);
            },
        };
        let mut m = m0;
        if m.method == METHOD_DEFLATE {
            let (payload, used) = match inflate_whole(self.src.as_slice(), hn) {
                Ok(x) => x,
                Err(InflateError::Incomplete) => {
                    return Err(FormatError::Truncated);
                },
                Err(InflateError::Corrupt) => {
                    return Err(FormatError::CorruptPayload);
                },
            };
            let t = hn + used;
            if n - t < 8 {
                return Err(FormatError::Truncated);
            }
            let (crc, size) = self.check_trailer(t, &payload)?;
            m.payload_crc32 = crc;
            m.payload_size = size;
            self.pos = t + 8;
            Ok(Some((m, payload)))
        } else if m.method == METHOD_STORE {
            if n - hn < 8 {
                return Err(FormatError::Truncated);
            }
            let end = n - 8;
            let payload = slice_to_vec(slice_subrange(self.src.as_slice(), hn, end));
            let (crc, size) = self.check_trailer(end, &payload)?;
            m.payload_crc32 = crc;
            m.payload_size = size;
            self.pos = n;
            Ok(Some((m, payload)))
        } else {
            Err(FormatError::UnsupportedMethod)
        }
    }

    /// Reads the eight trailer bytes at `t` and validates them against the
    /// decompressed payload, as `spec_check_trailer` does.
    fn check_trailer(&self, t: usize, payload: &Vec<u8>) -> (r: Result<(u32, u32), FormatError>)
        requires
            self.wf(),
            t + 8 <= self.source().len(),
        ensures
            match r {
                Ok(v) => {
                    &&& v.0 == crc32_of(payload@)
                    &&& v.1 == mod32(payload@.len())
                    &&& le32_at(self.source(), t as int) == v.0
                    &&& le32_at(self.source(), t as int + 4) == v.1
                },
                Err(e) => e == FormatError::IntegrityMismatch && (le32_at(self.source(), t as int)
                    != crc32_of(payload@) || le32_at(self.source(), t as int + 4) != mod32(
                    payload@.len(),
                )),
            },
    {
        // An exec length keeps the index sums below usize::MAX.
        let n = self.src.len();
        let stored_crc = read_le32(self.src.as_slice(), t);
        let stored_size = read_le32(self.src.as_slice(), t + 4);
        let mut ck = Checksum::new();
        ck.update(payload.as_slice(), 0, payload.len());
        proof {
            assert(ck.bytes() =~= payload@);
        }
        let computed_crc = ck.sum();
        let len64 = payload.len() as u64;
        proof {
            assert((len64 as u32) as u64 == len64 % 0x1_0000_0000u64) by (bit_vector);
        }
        let computed_size = #[verifier::truncate] (len64 as u32);
        proof {
            assert(computed_size == mod32(payload@.len()));
        }
        if stored_crc != computed_crc || stored_size != computed_size {
            return Err(FormatError::IntegrityMismatch);
        }
        Ok((stored_crc, stored_size))
    }
}

/// Decodes a whole archive: one or more members, back to back, the last
/// ending exactly at the end of the input. The result is exactly what the
/// archive parse of the bytes gives: every member in order, each
/// integrity-checked; an empty input, or one that ends mid-member, is
/// `Truncated`.
#[verifier::loop_isolation(false)]
pub fn read_archive(b: &[u8]) -> (r: Result<Vec<(Member, Vec<u8>)>, FormatError>)
    ensures
        match r {
            Ok(v) => spec_parse_archive(b@, 0) == Ok::<_, FormatError>(archive_view(v@)),
            Err(e) => spec_parse_archive(b@, 0) == Err::<Seq<(MemberView, Seq<u8>)>, _>(e),
        },
{
    let n = b.len();
    if n == 0 {
        return Err(FormatError::Truncated);
    }
    let mut rd = Reader::new(slice_to_vec(b));
    let mut items: Vec<(Member, Vec<u8>)> = Vec::new();
    while !rd.at_end()
        invariant
            rd.wf(),
            rd.source() == b@,
            rd.position() < b@.len() ==> (match spec_parse_archive(b@, rd.position()) {
                Ok(res) => spec_parse_archive(b@, 0) == Ok::<_, FormatError>(
                    archive_view(items@) + res,
                ),
                Err(e) => spec_parse_archive(b@, 0) == Err::<Seq<(MemberView, Seq<u8>)>, _>(e),
            }),
            rd.position() == b@.len() ==> spec_parse_archive(b@, 0) == Ok::<_, FormatError>(
                archive_view(items@),
            ),
        decreases b@.len() - rd.position(),
    {
        let ghost pos0 = rd.position();
        let ghost items0 = items@;
        match rd.next_member() {
            Ok(Some(mp)) => {
                items.push(mp);
            },
            Ok(None) => {
                proof {
                    assert(false);
                }
                return Err(FormatError::Truncated);
            },
            Err(e) => {
                return Err(e);
            },
        }
        proof {
            let x = (items@[items@.len() - 1].0@, items@[items@.len() - 1].1@);
            assert(archive_view(items@) =~= archive_view(items0) + seq![x]);
            let pos1 = rd.position();
            assert(spec_parse_member(b@, pos0) == Ok::<_, FormatError>((x.0, x.1, pos1)));
            if pos1 < b@.len() {
                match spec_parse_archive(b@, pos1) {
                    Ok(res) => {
                        assert(spec_parse_archive(b@, pos0) == Ok::<_, FormatError>(
                            seq![x] + res,
                        ));
                        assert(archive_view(items0) + (seq![x] + res) =~= archive_view(items@)
                            + res);
                    },
                    Err(_) => {},
                }
            } else {
                assert(spec_parse_archive(b@, pos0) == Ok::<_, FormatError>(seq![x]));
                assert(archive_view(items0) + seq![x] =~= archive_view(items@));
            }
        }
    }
    Ok(items)
}

} // verus!
