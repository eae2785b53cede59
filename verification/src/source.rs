//! The byte source a buffer reads from: an abstract seekable, readable
//! stream with a fixed content, plus an in-memory implementation.

use vstd::prelude::*;

verus! {

/// The two failure kinds a buffer operation can report. End-of-source is
/// not an error: it is signalled by short reads and short line counts.
#[derive(Clone, Copy, Debug, PartialEq, Eq, Structural)]
pub enum Error {
    /// A seek or read on the underlying stream failed.
    SourceIo,
    /// Bytes between delimiters are not valid UTF-8 text.
    Encoding,
}

/// The mathematical contents of a source: a sequence of bytes. Outside
/// implementors of [`Source`] name this alias for the ghost member they
/// must provide; the member is never called at run time, so its body can
/// be `unreachable!()`.
pub type SourceBytes = Seq<u8>;

/// The bytes of `s` in the half-open range `[offset, offset + len)`,
/// clipped to the length of `s`.
pub open spec fn read_window(s: Seq<u8>, offset: int, len: int) -> Seq<u8> {
    let lo = if offset <= s.len() {
        offset
    } else {
        s.len() as int
    };
    let hi = if offset + len <= s.len() {
        offset + len
    } else {
        s.len() as int
    };
    if lo <= hi {
        s.subrange(lo, hi)
    } else {
        s.subrange(lo, lo)
    }
}

/// A seekable, readable byte stream with fixed contents. The buffer is
/// generic over this trait; the contents never change, only the handle's
/// private state (a cursor, instrumentation) may.
pub trait Source: Sized {
    /// The full contents of the stream.
    spec fn bytes(&self) -> Seq<u8>;

    /// Seek to `offset` and read up to `len` bytes. On success the result
    /// holds exactly the bytes of `[offset, offset + len)` clipped to the
    /// end of the stream; a short result therefore means end-of-source.
    /// A failure is an I/O failure.
    fn read_at(&mut self, offset: u64, len: usize) -> (r: Result<Vec<u8>, Error>)
        ensures
            final(self).bytes() == old(self).bytes(),
            (r matches Ok(v) ==> v@ == read_window(old(self).bytes(), offset as int, len as int)),
            (r matches Err(e) ==> e == Error::SourceIo),
    ;
}

/// An in-memory source over a byte vector. Reads never fail; the number
/// of reads served is counted, so a caller can observe how often the
/// source was actually consulted.
pub struct MemSource {
    data: Vec<u8>,
    reads: u64,
}

impl MemSource {
    /// How many `read_at` calls this source has served.
    pub closed spec fn read_count(&self) -> int {
        self.reads as int
    }

    pub fn new(data: Vec<u8>) -> (r: MemSource)
        ensures
            r.bytes() == data@,
            r.read_count() == 0,
    {
        MemSource { data, reads: 0 }
    }

    /// The number of reads served so far.
    pub fn reads(&self) -> (r: u64)
        ensures
            r == self.read_count(),
    {
        self.reads
    }

    /// The length of the held contents.
    pub fn len(&self) -> (r: usize)
        ensures
            r == self.bytes().len(),
    {
        self.data.len()
    }
}

impl Source for MemSource {
    closed spec fn bytes(&self) -> Seq<u8> {
        self.data@
    }

    fn read_at(&mut self, offset: u64, len: usize) -> (r: Result<Vec<u8>, Error>)
        ensures
            final(self).bytes() == old(self).bytes(),
            (r matches Ok(v) ==> v@ == read_window(old(self).bytes(), offset as int, len as int)),
            (r matches Err(e) ==> e == Error::SourceIo),
            r is Ok,
    {
        if self.reads < u64::MAX {
            self.reads = self.reads + 1;
        }
        let n = self.data.len();
        let lo: usize = if offset <= n as u64 {
            offset as usize
        } else {
            n
        };
        let hi: usize = if len <= n - lo {
            lo + len
        } else {
            n
        };
        let mut out: Vec<u8> = Vec::new();
        let mut i: usize = lo;
        while i < hi
            invariant
                lo <= i <= hi <= self.data.len(),
                out@ == self.data@.subrange(lo as int, i as int),
            decreases hi - i,
        {
            out.push(self.data[i]);
            assert(out@ == self.data@.subrange(lo as int, i + 1));
            i = i + 1;
        }
        assert(out@ == read_window(self.data@, offset as int, len as int));
        Ok(out)
    }
}

} // verus!
