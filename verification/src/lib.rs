//! A verified codec for the gzip container format: member headers and
//! trailers, multi-member archives, and streaming compression wrappers.
//!
//! The DEFLATE engine and the CRC-32 engine are outside collaborators; the
//! byte layout of the container, the flag-gated optional header fields, the
//! integrity checks and the archive concatenation rules are implemented and
//! verified here.

pub mod archive;
pub mod backend;
pub mod checksum;
pub mod cli;
pub mod header;
pub mod member;
pub mod reader;
pub mod writer;

pub use checksum::Checksum;
pub use cli::Args;
pub use member::Error;
pub use member::ExtraField;
pub use member::FormatError;
pub use member::Member;
pub use member::Mode;
pub use reader::Reader;
pub use reader::read_archive;
pub use writer::Writer;
pub use writer::write_member;
