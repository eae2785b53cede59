//! A random-access, line-oriented reader layered over a seekable byte
//! source, built around a chunk cache: the source is partitioned into
//! fixed-size aligned chunks, only the chunks needed to satisfy a
//! requested byte range are fetched, and a fetched chunk is retained for
//! the lifetime of the buffer and never re-read.

use vstd::prelude::*;

pub mod align;
pub mod chunk;
pub mod lines;
pub mod sparsebuf;
pub mod source;

pub use source::Error;
pub use source::SourceBytes;
pub use source::MemSource;
pub use source::Source;
pub use sparsebuf::SparseBuf;
pub use sparsebuf::NEWLINE;

verus! {

/// Default size in bytes of one aligned cache chunk.
pub const CHUNK_SIZE_BYTES: usize = 125000;

/// Default size in bytes of one delimiter-scan window.
pub const LINE_SEEK_SIZE_BYTES: usize = 1024;

} // verus!
