//! The compression backend: an incremental raw-DEFLATE compressor and a
//! whole-stream decompressor, both outside collaborators.
//!
//! The compressed image of a byte sequence and the decoder's reading of a
//! byte sequence are named by uninterpreted functions; the trusted items
//! below state of them only what the backends' sources show: the engines
//! are deterministic, a stream is self-delimiting, and inflating undoes
//! deflating.

use vstd::prelude::*;

verus! {

/// The complete raw-DEFLATE stream that the backend compressor produces for
/// `data` at compression level `level`, once finished.
pub uninterp spec fn deflate_of(level: u8, data: Seq<u8>) -> Seq<u8>;

/// How the backend decoder reads a byte sequence.
pub ghost enum InflateReading {
    /// The data begins with one complete stream: the bytes it inflates to,
    /// and how many input bytes the stream occupies.
    Complete(Seq<u8>, int),
    /// The data ran out before the stream completed and before the decoder
    /// met a fault: it waits for more input. The data need not be a prefix
    /// of any valid stream — some faults surface only after further bytes.
    NeedsInput,
    /// The data can be no DEFLATE stream: the decoder stops with a fault.
    Invalid,
}

/// The backend decoder's reading of `data`: a deterministic function of
/// the bytes alone.
pub uninterp spec fn inflate_of(data: Seq<u8>) -> InflateReading;

/// What the backend guarantees of a finished stream: inflating undoes
/// deflating wherever the stream stands in a longer input, and the decoder
/// is still waiting on every proper prefix of the stream.
pub open spec fn deflate_facts(level: u8, data: Seq<u8>) -> bool {
    let stream = deflate_of(level, data);
    &&& forall|rest: Seq<u8>|
        #[trigger] inflate_of(stream + rest) == InflateReading::Complete(
            data,
            stream.len() as int,
        )
    &&& forall|i: int|
        0 <= i < stream.len() ==> inflate_of(#[trigger] stream.take(i))
            == InflateReading::NeedsInput
}

/// Round trip of the backend pair: a finished DEFLATE stream inflates back
/// to exactly the bytes that were compressed, and ends exactly at its own
/// end. The premise holds of every stream the writer finishes.
pub proof fn lemma_compress_roundtrip(level: u8, p: Seq<u8>)
    requires
        deflate_facts(level, p),
    ensures
        inflate_of(deflate_of(level, p)) == InflateReading::Complete(
            p,
            deflate_of(level, p).len() as int,
        ),
{
    let stream = deflate_of(level, p);
    assert(stream + Seq::<u8>::empty() =~= stream);
    assert(inflate_of(stream + Seq::<u8>::empty()) == InflateReading::Complete(
        p,
        stream.len() as int,
    ));
}

#[verifier::external_type_specification]
#[verifier::external_body]
pub struct ExCompressorOxide(miniz_oxide::deflate::core::CompressorOxide);

/// What one compressor step reports.
#[derive(Debug, Clone, Copy, PartialEq, Eq, Structural)]
pub enum StepStatus {
    /// More work remains: the step ended because it ran out of input or of
    /// output space.
    Progress,
    /// The stream is complete; every compressed byte has been handed out.
    Finished,
    /// The backend refused the step: only possible when the calling
    /// discipline below is broken.
    Refused,
}

/// Relies on miniz_oxide's `CompressorOxide::with_params`: a fresh
/// raw-DEFLATE (no zlib framing) compressor at the given level.
#[verifier::external_body]
fn raw_deflate_engine(level: u8) -> miniz_oxide::deflate::core::CompressorOxide {
    miniz_oxide::deflate::core::CompressorOxide::with_params(
        miniz_oxide::DataFormat::Raw,
        level,
        miniz_oxide::deflate::core::CompressionStrategy::Default,
        15,
    )
}

/// An incremental compressor together with ghost records of the bytes fed
/// into it, the compressed bytes drained out of it, whether finishing has
/// begun, and whether a step was ever refused.
pub struct Compressor {
    inner: miniz_oxide::deflate::core::CompressorOxide,
    lvl: u8,
    fed: Ghost<Seq<u8>>,
    taken: Ghost<Seq<u8>>,
    fin: Ghost<bool>,
    bad: Ghost<bool>,
}

impl Compressor {
    /// The compression level the engine was built with.
    pub closed spec fn level(self) -> u8 {
        self.lvl
    }

    /// The uncompressed bytes fed so far.
    pub closed spec fn fed_bytes(self) -> Seq<u8> {
        self.fed@
    }

    /// The compressed bytes drained so far.
    pub closed spec fn out_bytes(self) -> Seq<u8> {
        self.taken@
    }

    /// Whether a finishing step has been taken: after that, only finishing
    /// steps are accepted.
    pub closed spec fn finishing(self) -> bool {
        self.fin@
    }

    /// Whether the engine ever refused a step: after that, nothing more is
    /// promised.
    pub closed spec fn spoiled(self) -> bool {
        self.bad@
    }

    pub fn new(level: u8) -> (c: Compressor)
        requires
            level <= 10,
        ensures
            c.level() == level,
            c.fed_bytes() == Seq::<u8>::empty(),
            c.out_bytes() == Seq::<u8>::empty(),
            !c.finishing(),
            !c.spoiled(),
    {
        Compressor {
            inner: raw_deflate_engine(level),
            lvl: level,
            fed: Ghost(Seq::empty()),
            taken: Ghost(Seq::empty()),
            fin: Ghost(false),
            bad: Ghost(false),
        }
    }

    /// One compression step. Feeds `input[from..]`, writes compressed bytes
    /// over the front of `out`, and returns how many bytes were consumed and
    /// written. With `finish`, signals end of input and drains what remains.
    ///
    /// Relies on `miniz_oxide::deflate::stream::deflate`, whose source shows:
    /// the step ends only once the input is consumed or `out` is full (with
    /// `finish`, only once `out` is full or the stream is done); the engine
    /// is deterministic, so the bytes drained so far are a prefix of the
    /// finished stream for the bytes fed so far; the stream-end status comes
    /// only out of finishing; and a step is refused only for an empty output
    /// (ruled out here), for a step with nothing to do (no input, no
    /// finish), for going on after finishing began without finishing, or
    /// for a put-buffer failure that the slice-backed output of this call
    /// has no path to produce. Once finished, the stream is complete; that
    /// it inflates back to what was fed, ends exactly where it ends whatever
    /// bytes follow, and leaves a decoder waiting on every proper prefix, is
    /// the documented contract of DEFLATE itself.
    #[verifier::external_body]
    pub fn step(&mut self, input: &[u8], from: usize, out: &mut Vec<u8>, finish: bool) -> (r: (
        usize,
        usize,
        StepStatus,
    ))
        requires
            from <= input@.len(),
            old(out)@.len() >= 1,
        ensures
            final(self).level() == old(self).level(),
            final(out)@.len() == old(out)@.len(),
            r.0 <= input@.len() - from,
            r.1 <= old(out)@.len(),
            final(self).fed_bytes() == old(self).fed_bytes() + input@.subrange(
                from as int,
                from + r.0,
            ),
            final(self).out_bytes() == old(self).out_bytes() + final(out)@.take(r.1 as int),
            final(self).out_bytes().is_prefix_of(
                deflate_of(old(self).level(), final(self).fed_bytes()),
            ),
            final(self).finishing() == (old(self).finishing() || finish),
            final(self).spoiled() == (old(self).spoiled() || r.2 == StepStatus::Refused),
            !old(self).spoiled() && (finish || (!old(self).finishing() && from < input@.len()))
                ==> r.2 != StepStatus::Refused,
            r.2 == StepStatus::Finished ==> finish || old(self).finishing(),
            r.2 == StepStatus::Progress ==> r.0 == input@.len() - from || r.1 == old(out)@.len(),
            r.2 == StepStatus::Progress && finish ==> r.1 == old(out)@.len(),
            r.2 == StepStatus::Finished ==> final(self).out_bytes() == deflate_of(
                old(self).level(),
                final(self).fed_bytes(),
            ) && deflate_facts(old(self).level(), final(self).fed_bytes()),
    {
        let flush = if finish { miniz_oxide::MZFlush::Finish } else { miniz_oxide::MZFlush::None };
        let res = miniz_oxide::deflate::stream::deflate(&mut self.inner, &input[from..], &mut out[..], flush);
        let status = match res.status {
            Ok(miniz_oxide::MZStatus::StreamEnd) => StepStatus::Finished,
            Ok(_) => StepStatus::Progress,
            Err(_) => StepStatus::Refused,
        };
        (res.bytes_consumed, res.bytes_written, status)
    }
}

/// Why a whole-stream inflation failed.
#[derive(Debug, Clone, Copy, PartialEq, Eq, Structural)]
pub enum InflateError {
    /// The decoder ran out of input before the stream completed.
    Incomplete,
    /// The decoder stopped with a fault: the data can be no stream.
    Corrupt,
}

/// Inflates the one complete DEFLATE stream that starts at `b[from..]`,
/// returning the decompressed bytes and how many input bytes the stream
/// occupied; bytes after the stream are left untouched.
///
/// Relies on `flate2::bufread::DeflateDecoder` (driven to the end of the
/// stream by `std::io::Read::read_to_end`) and `flate2::Decompress::total_in`:
/// the decoder consumes exactly the stream's bytes; reaching the end of the
/// input without progress is reported as `UnexpectedEof` (here `Incomplete`)
/// and a decode fault as a distinct error (here `Corrupt`) — the same
/// three-way reading `inflate_of` names.
#[verifier::external_body]
pub fn inflate_whole(b: &[u8], from: usize) -> (r: Result<(Vec<u8>, usize), InflateError>)
    requires
        from <= b@.len(),
    ensures
        match r {
            Ok(p) => p.1 <= b@.len() - from && inflate_of(b@.skip(from as int))
                == InflateReading::Complete(p.0@, p.1 as int),
            Err(e) => inflate_of(b@.skip(from as int)) == (if e == InflateError::Incomplete {
                InflateReading::NeedsInput
            } else {
                InflateReading::Invalid
            }),
        },
{
    let mut d = flate2::bufread::DeflateDecoder::new(&b[from..]);
    let mut p = Vec::new();
    match std::io::Read::read_to_end(&mut d, &mut p) {
        Ok(_) => Ok((p, d.total_in() as usize)),
        Err(e) => match e.kind() {
            std::io::ErrorKind::UnexpectedEof => Err(InflateError::Incomplete),
            _ => Err(InflateError::Corrupt),
        },
    }
}

} // verus!
