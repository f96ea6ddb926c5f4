//! Incremental CRC-32 over a growing byte sequence.
//!
//! The checksum itself is computed by `flate2::Crc`; this module only keeps
//! track, in ghost state, of which bytes have been hashed so far, so that
//! contracts elsewhere can speak about "the CRC-32 of exactly these bytes".

use vstd::prelude::*;

verus! {

/// The CRC-32 (as used by the gzip format) of a byte sequence, as computed
/// by the outside checksum engine.
pub uninterp spec fn crc32_of(data: Seq<u8>) -> u32;

#[verifier::external_type_specification]
#[verifier::external_body]
pub struct ExCrc(flate2::Crc);

/// Relies on `flate2::Crc::new`: a checksum engine over the empty sequence.
#[verifier::external_body]
fn raw_crc() -> flate2::Crc {
    flate2::Crc::new()
}

/// An incremental CRC-32 engine together with the sequence of bytes it has
/// been fed, kept as ghost state.
pub struct Checksum {
    inner: flate2::Crc,
    fed: Ghost<Seq<u8>>,
}

impl Checksum {
    /// The bytes hashed so far.
    pub closed spec fn bytes(self) -> Seq<u8> {
        self.fed@
    }

    pub fn new() -> (c: Checksum)
        ensures
            c.bytes() == Seq::<u8>::empty(),
    {
        Checksum { inner: raw_crc(), fed: Ghost(Seq::empty()) }
    }

    /// Relies on `flate2::Crc::update`: hashes `data[from..to]` after the
    /// bytes already hashed.
    #[verifier::external_body]
    pub fn update(&mut self, data: &[u8], from: usize, to: usize)
        requires
            from <= to <= data@.len(),
        ensures
            final(self).bytes() == old(self).bytes() + data@.subrange(from as int, to as int),
    {
        self.inner.update(&data[from..to]);
    }

    /// Relies on `flate2::Crc::sum`: the CRC-32 of all bytes hashed so far.
    #[verifier::external_body]
    pub fn sum(&self) -> (r: u32)
        ensures
            r == crc32_of(self.bytes()),
    {
        self.inner.sum()
    }
}

} // verus!
