//! The streaming writer: one member, written incrementally.
//!
//! The writer holds the member configuration, an incremental compressor and
//! a running CRC-32. The header is emitted lazily on the first write, each
//! write feeds the compressor and drains whatever compressed bytes are
//! ready, and `finish` drains the rest and appends the trailer. The writer
//! owns no sink: every call returns the bytes to append to the stream, and
//! the contract of `finish` says that everything handed out over the
//! writer's lifetime is exactly the encoded member.

use vstd::prelude::*;
use vstd::slice::slice_subrange;

use crate::archive::filled;
use crate::archive::lemma_archive_single;
use crate::archive::lemma_member_truncated;
use crate::archive::lemma_parse_member_at;
use crate::archive::mod32;
use crate::archive::spec_body_bytes;
use crate::archive::spec_member_bytes;
use crate::archive::spec_parse_archive;
use crate::archive::spec_parse_member;
use crate::archive::spec_trailer_bytes;
use crate::backend::Compressor;
use crate::backend::StepStatus;
use crate::backend::deflate_facts;
use crate::backend::deflate_of;
use crate::checksum::Checksum;
use crate::checksum::crc32_of;
use crate::header::encode_header;
use crate::header::push_le32;
use crate::header::spec_header_bytes;
use crate::member::EXTRA_DATA_MAX;
use crate::member::Error;
use crate::member::FormatError;
use crate::member::METHOD_DEFLATE;
use crate::member::METHOD_STORE;
use crate::member::Member;
use crate::member::MemberView;
use crate::member::has_zero_byte;

verus! {

/// How many compressed bytes one compressor step may hand back.
pub const WRITE_CHUNK: usize = 4096;

/// A streaming writer for one member.
pub struct Writer {
    member: Member,
    comp: Option<Compressor>,
    crc: Checksum,
    count: u64,
    level: u8,
    started: bool,
    finished: bool,
    out_log: Ghost<Seq<u8>>,
}

impl Writer {
    /// The member configuration this writer frames.
    pub closed spec fn config(self) -> MemberView {
        self.member@
    }

    /// The compression level.
    pub closed spec fn lvl(self) -> u8 {
        self.level
    }

    /// The uncompressed payload written so far.
    pub closed spec fn payload(self) -> Seq<u8> {
        self.crc.bytes()
    }

    /// Every byte handed out so far, over all calls.
    pub closed spec fn emitted(self) -> Seq<u8> {
        self.out_log@
    }

    /// Whether `finish` has run: no further operation is accepted.
    pub closed spec fn is_finished(self) -> bool {
        self.finished
    }

    /// The writer's invariant, carried from call to call.
    pub closed spec fn wf(self) -> bool {
        &&& self.member@.write_ready()
        &&& self.level <= 10
        &&& !self.finished ==> {
            &&& self.count as nat == self.crc.bytes().len()
            &&& if self.member@.method == METHOD_DEFLATE {
                &&& self.comp is Some
                &&& self.comp->Some_0.level() == self.level
                &&& self.comp->Some_0.fed_bytes() == self.crc.bytes()
                &&& !self.comp->Some_0.finishing()
                &&& !self.comp->Some_0.spoiled()
                &&& self.comp->Some_0.out_bytes().is_prefix_of(
                    deflate_of(self.level, self.comp->Some_0.fed_bytes()),
                )
                &&& self.started ==> self.out_log@ == spec_header_bytes(self.member@)
                    + self.comp->Some_0.out_bytes()
                &&& !self.started ==> self.comp->Some_0.out_bytes() == Seq::<u8>::empty()
            } else {
                self.started ==> self.out_log@ == spec_header_bytes(self.member@)
                    + self.crc.bytes()
            }
            &&& !self.started ==> self.out_log@ == Seq::<u8>::empty() && self.crc.bytes()
                == Seq::<u8>::empty()
        }
    }

    /// Builds a writer for `member` at compression level `level` (0 to 10).
    /// The member must be ready to write: a method this codec can produce —
    /// anything else is `UnsupportedMethod` — and well-formed optional
    /// fields and clear reserved bits, else `Usage`.
    pub fn new(member: Member, level: u8) -> (r: Result<Writer, Error>)
        ensures
            match r {
                Ok(w) => {
                    &&& member@.write_ready()
                    &&& level <= 10
                    &&& w.wf()
                    &&& !w.is_finished()
                    &&& w.config() == member@
                    &&& w.lvl() == level
                    &&& w.payload() == Seq::<u8>::empty()
                    &&& w.emitted() == Seq::<u8>::empty()
                },
                Err(e) => {
                    &&& !(member@.write_ready() && level <= 10)
                    &&& e == (if !(member@.method == METHOD_STORE || member@.method
                        == METHOD_DEFLATE) {
                        Error::Format(FormatError::UnsupportedMethod)
                    } else {
                        Error::Usage
                    })
                },
            },
    {
        if !(member.method == METHOD_STORE || member.method == METHOD_DEFLATE) {
            return Err(Error::Format(FormatError::UnsupportedMethod));
        }
        if member.reserved_flags != 0 || level > 10 {
            return Err(Error::Usage);
        }
        match &member.extra {
            Some(e) => {
                if e.data.len() > EXTRA_DATA_MAX {
                    return Err(Error::Usage);
                }
            },
            None => {},
        }
        match &member.name {
            Some(n) => {
                if has_zero_byte(n.as_slice()) {
                    return Err(Error::Usage);
                }
            },
            None => {},
        }
        match &member.comment {
            Some(c) => {
                if has_zero_byte(c.as_slice()) {
                    return Err(Error::Usage);
                }
            },
            None => {},
        }
        proof {
            assert(0u8 & 0x1f == 0) by (bit_vector);
        }
        let comp = if member.method == METHOD_DEFLATE {
            Some(Compressor::new(level))
        } else {
            None
        };
        Ok(
            Writer {
                member,
                comp,
                crc: Checksum::new(),
                count: 0,
                level,
                started: false,
                finished: false,
                out_log: Ghost(Seq::empty()),
            },
        )
    }

    /// Writes payload bytes. Emits the header first if this is the first
    /// call, feeds the compressor, and returns whatever bytes the stream
    /// gains now — possibly none: the compressor may keep buffering.
    /// Succeeds on every writer that is not yet finished; on a finished
    /// one it is a usage error and nothing changes.
    #[verifier::loop_isolation(false)]
    pub fn write(&mut self, data: &[u8]) -> (r: Result<Vec<u8>, Error>)
        requires
            old(self).wf(),
            old(self).payload().len() + data@.len() <= u64::MAX,
        ensures
            final(self).wf(),
            final(self).config() == old(self).config(),
            final(self).lvl() == old(self).lvl(),
            r is Ok <==> !old(self).is_finished(),
            match r {
                Ok(out) => {
                    &&& !final(self).is_finished()
                    &&& final(self).payload() == old(self).payload() + data@
                    &&& final(self).emitted() == old(self).emitted() + out@
                },
                Err(e) => e == Error::Usage && *final(self) == *old(self),
            },
    {
        if self.finished {
            return Err(Error::Usage);
        }
        let ghost hdr = spec_header_bytes(self.member@);
        let mut out: Vec<u8> = Vec::new();
        if !self.started {
            out = encode_header(&self.member);
            self.started = true;
        }
        if self.member.method == METHOD_DEFLATE {
            let mut buf: Vec<u8> = vec![0u8; WRITE_CHUNK];
            let mut i: usize = 0;
            let n = data.len();
            let ghost level = self.level;
            let copt = self.comp.take();
            let mut c = copt.unwrap();
            let ghost fed0 = c.fed_bytes();
            let ghost taken0 = c.out_bytes();
            while i < n
                invariant
                    i <= n,
                    n == data@.len(),
                    buf@.len() == WRITE_CHUNK,
                    c.level() == level,
                    c.fed_bytes() == fed0 + data@.take(i as int),
                    !c.finishing(),
                    !c.spoiled(),
                    c.out_bytes().is_prefix_of(deflate_of(level, c.fed_bytes())),
                    taken0.is_prefix_of(c.out_bytes()),
                    out@ == (if old(self).started {
                        Seq::<u8>::empty()
                    } else {
                        hdr
                    }) + c.out_bytes().skip(taken0.len() as int),
                    self.member == old(self).member,
                    self.level == old(self).level,
                    self.crc == old(self).crc,
                    self.count == old(self).count,
                    self.out_log == old(self).out_log,
                    self.started,
                    !self.finished,
                decreases n - i, deflate_of(level, c.fed_bytes()).len() - c.out_bytes().len(),
            {
                let ghost fed_pre = c.fed_bytes();
                let ghost taken_pre = c.out_bytes();
                let (cc, ww, st) = c.step(data, i, &mut buf, false);
                match st {
                    StepStatus::Refused | StepStatus::Finished => {
                        // The step contract rules both out for a live,
                        // non-finishing engine with input left.
                        proof {
                            assert(false);
                        }
                        return Err(Error::Usage);
                    },
                    StepStatus::Progress => {},
                }
                out.extend_from_slice(slice_subrange(buf.as_slice(), 0, ww));
                i = i + cc;
                proof {
                    assert(c.fed_bytes() =~= fed0 + data@.take(i as int));
                    assert(c.out_bytes().skip(taken0.len() as int) =~= taken_pre.skip(
                        taken0.len() as int,
                    ) + buf@.take(ww as int));
                    if cc == 0 {
                        assert(ww == WRITE_CHUNK);
                        assert(c.fed_bytes() == fed_pre);
                    }
                }
            }
            proof {
                assert(c.fed_bytes() =~= fed0 + data@);
                assert(taken0 + c.out_bytes().skip(taken0.len() as int) =~= c.out_bytes());
            }
            self.comp = Some(c);
        } else {
            out.extend_from_slice(data);
        }
        self.crc.update(data, 0, data.len());
        self.count = self.count + (data.len() as u64);
        proof {
            self.out_log@ = self.out_log@ + out@;
        }
        proof {
            if self.member@.method == METHOD_DEFLATE {
                assert(self.out_log@ =~= spec_header_bytes(self.member@)
                    + self.comp->Some_0.out_bytes());
            } else {
                assert(self.out_log@ =~= spec_header_bytes(self.member@) + self.crc.bytes());
            }
        }
        Ok(out)
    }

    /// Ends the member: emits the header if nothing was written yet, drains
    /// the compressor, and appends the trailer — the payload's CRC-32, then
    /// its size modulo 2^32, both little-endian. Everything this writer has
    /// ever handed out, with this final piece, is exactly the encoded
    /// member. Succeeds on every writer that is not yet finished; on a
    /// finished one it is a usage error and nothing changes.
    #[verifier::loop_isolation(false)]
    pub fn finish(&mut self) -> (r: Result<Vec<u8>, Error>)
        requires
            old(self).wf(),
        ensures
            final(self).wf(),
            final(self).config() == old(self).config(),
            final(self).lvl() == old(self).lvl(),
            r is Ok <==> !old(self).is_finished(),
            match r {
                Ok(out) => {
                    &&& final(self).is_finished()
                    &&& final(self).payload() == old(self).payload()
                    &&& final(self).emitted() == old(self).emitted() + out@
                    &&& old(self).emitted() + out@ == spec_member_bytes(
                        old(self).config(),
                        old(self).lvl(),
                        old(self).payload(),
                    )
                    &&& old(self).config().method == METHOD_DEFLATE ==> deflate_facts(
                        old(self).lvl(),
                        old(self).payload(),
                    )
                },
                Err(e) => e == Error::Usage && *final(self) == *old(self),
            },
    {
        if self.finished {
            return Err(Error::Usage);
        }
        let ghost hdr = spec_header_bytes(self.member@);
        let mut out: Vec<u8> = Vec::new();
        if !self.started {
            out = encode_header(&self.member);
            self.started = true;
        }
        if self.member.method == METHOD_DEFLATE {
            let mut buf: Vec<u8> = vec![0u8; WRITE_CHUNK];
            let nothing: Vec<u8> = Vec::new();
            let ghost level = self.level;
            let copt = self.comp.take();
            let mut c = copt.unwrap();
            let ghost fed0 = c.fed_bytes();
            let ghost taken0 = c.out_bytes();
            let mut done = false;
            while !done
                invariant
                    buf@.len() == WRITE_CHUNK,
                    c.level() == level,
                    c.fed_bytes() == fed0,
                    !c.spoiled(),
                    c.out_bytes().is_prefix_of(deflate_of(level, fed0)),
                    taken0.is_prefix_of(c.out_bytes()),
                    out@ == (if old(self).started {
                        Seq::<u8>::empty()
                    } else {
                        hdr
                    }) + c.out_bytes().skip(taken0.len() as int),
                    done ==> c.out_bytes() == deflate_of(level, fed0) && deflate_facts(
                        level,
                        fed0,
                    ),
                    self.member == old(self).member,
                    self.level == old(self).level,
                    self.crc == old(self).crc,
                    self.count == old(self).count,
                    self.out_log == old(self).out_log,
                    self.started,
                    !self.finished,
                decreases
                    (if done {
                        0int
                    } else {
                        deflate_of(level, fed0).len() - c.out_bytes().len() + 1
                    }),
            {
                let ghost taken_pre = c.out_bytes();
                let (cc, ww, st) = c.step(nothing.as_slice(), 0, &mut buf, true);
                match st {
                    StepStatus::Refused => {
                        // The step contract rules this out for a live
                        // engine on a finishing step.
                        proof {
                            assert(false);
                        }
                        return Err(Error::Usage);
                    },
                    StepStatus::Finished => {
                        done = true;
                    },
                    StepStatus::Progress => {},
                }
                out.extend_from_slice(slice_subrange(buf.as_slice(), 0, ww));
                proof {
                    assert(c.fed_bytes() =~= fed0);
                    assert(c.out_bytes().skip(taken0.len() as int) =~= taken_pre.skip(
                        taken0.len() as int,
                    ) + buf@.take(ww as int));
                    if st == StepStatus::Progress {
                        assert(ww == WRITE_CHUNK);
                    }
                }
            }
            proof {
                assert(taken0 + c.out_bytes().skip(taken0.len() as int) =~= c.out_bytes());
            }
            self.comp = Some(c);
        }
        let crc = self.crc.sum();
        let count = self.count;
        proof {
            assert((count as u32) as u64 == count % 0x1_0000_0000u64) by (bit_vector);
            assert(count as nat == self.crc.bytes().len());
            assert(count as u32 == mod32(self.crc.bytes().len()));
        }
        let size = #[verifier::truncate] (count as u32);
        push_le32(&mut out, crc);
        push_le32(&mut out, size);
        self.finished = true;
        proof {
            self.out_log@ = self.out_log@ + out@;
        }
        proof {
            let m = old(self).config();
            let level = old(self).lvl();
            let p = old(self).payload();
            assert(old(self).emitted() + out@ =~= spec_header_bytes(m) + spec_body_bytes(
                m,
                level,
                p,
            ) + spec_trailer_bytes(crc32_of(p), mod32(p.len())));
        }
        Ok(out)
    }
}

/// Encodes one whole member in a single call: header, payload image,
/// trailer. What comes back parses back to exactly the member and payload
/// given — the round trip of the codec — and, for the compressed method,
/// cutting the result anywhere before its end parses as `Truncated`.
pub fn write_member(member: &Member, payload: &[u8], level: u8) -> (r: Result<Vec<u8>, Error>)
    ensures
        match r {
            Ok(out) => {
                &&& member@.write_ready()
                &&& level <= 10
                &&& out@ == spec_member_bytes(member@, level, payload@)
                &&& spec_parse_member(out@, 0) == Ok::<_, FormatError>(
                    (filled(member@, payload@), payload@, out@.len() as int),
                )
                &&& spec_parse_archive(out@, 0) == Ok::<_, FormatError>(
                    seq![(filled(member@, payload@), payload@)],
                )
                &&& member@.method == METHOD_DEFLATE ==> deflate_facts(level, payload@)
                    && (forall|t: int|
                    0 <= t < out@.len() ==> spec_parse_archive(out@.take(t), 0) == Err::<
                        Seq<(MemberView, Seq<u8>)>,
                        _,
                    >(FormatError::Truncated))
            },
            Err(e) => {
                &&& !(member@.write_ready() && level <= 10)
                &&& e == (if !(member@.method == METHOD_STORE || member@.method
                    == METHOD_DEFLATE) {
                    Error::Format(FormatError::UnsupportedMethod)
                } else {
                    Error::Usage
                })
            },
        },
        r is Ok <==> member@.write_ready() && level <= 10,
{
    let n = payload.len();
    proof {
        assert(n <= u64::MAX);
    }
    let mut w = match Writer::new(member.clone(), level) {
        Ok(w) => w,
        Err(e) => {
            return Err(e);
        },
    };
    let mut out = w.write(payload).unwrap();
    let mut tail = w.finish().unwrap();
    out.append(&mut tail);
    proof {
        assert(out@ =~= spec_member_bytes(member@, level, payload@));
        let mb = spec_member_bytes(member@, level, payload@);
        assert(mb.subrange(0, mb.len() as int) =~= mb);
        crate::archive::lemma_member_bytes_len(member@, level, payload@);
        lemma_parse_member_at(member@, level, payload@, mb, 0);
        lemma_archive_single(member@, level, payload@);
        if member@.method == METHOD_DEFLATE {
            assert forall|t: int| 0 <= t < out@.len() implies spec_parse_archive(
                out@.take(t),
                0,
            ) == Err::<Seq<(MemberView, Seq<u8>)>, _>(FormatError::Truncated) by {
                lemma_member_truncated(member@, level, payload@, t);
            }
        }
    }
    Ok(out)
}

} // verus!

