//! The sparse buffer: cursor tracking, chunk-span computation, chunk
//! loading through the cache, cross-chunk byte assembly for ranged reads,
//! delimiter scanning, and line production.

use vstd::prelude::*;
use vstd::utf8::decode_utf8;
use vstd::utf8::valid_utf8;

use crate::align::align_down;
use crate::align::aligned;
use crate::align::lemma_align_down;
use crate::align::lemma_align_down_monotone;
use crate::align::lemma_aligned_close;
use crate::align::lemma_aligned_step;
use crate::chunk::Chunk;
use crate::chunk::ChunkCache;
use crate::lines::delim_pos;
use crate::lines::has_delim;
use crate::lines::lemma_delim_pos;
use crate::lines::lemma_line_end;
use crate::lines::line_end;
use crate::lines::lines_cursor;
use crate::lines::lines_from;
use crate::source::read_window;
use crate::source::Error;
use crate::source::Source;
use crate::CHUNK_SIZE_BYTES;
use crate::LINE_SEEK_SIZE_BYTES;

verus! {

/// The delimiter that ends a line.
pub const NEWLINE: u8 = 10;

/// Relies on `memchr::memchr`: it returns the index of the first
/// occurrence of `needle` in `haystack`, and `None` when `needle` does
/// not occur.
#[verifier::external_body]
fn find_byte(needle: u8, haystack: &[u8]) -> (r: Option<usize>)
    ensures
        (r matches Some(i) ==> i < haystack@.len() && haystack@[i as int] == needle && forall|
            j: int,
        | 0 <= j < i ==> haystack@[j] != needle),
        (r is None ==> forall|j: int| 0 <= j < haystack@.len() ==> haystack@[j] != needle),
{
    memchr::memchr(needle, haystack)
}

/// Relies on `String::from_utf8`: it succeeds exactly when the bytes are
/// valid UTF-8, and then returns the string they encode.
#[verifier::external_body]
fn string_from_utf8(bytes: Vec<u8>) -> (r: Option<String>)
    ensures
        (r matches Some(t) ==> valid_utf8(bytes@) && t@ == decode_utf8(bytes@)),
        (r is None ==> !valid_utf8(bytes@)),
{
    match String::from_utf8(bytes) {
        Ok(t) => Some(t),
        Err(_) => None,
    }
}

/// A cached chunk holds the start it is keyed by, aligned to the chunk
/// size, and exactly the bytes of the source at `[start, start + cs)`,
/// clipped to the end of the source.
pub open spec fn chunk_inv(c: Chunk, s: Seq<u8>, cs: int) -> bool {
    &&& aligned(c.start as int, cs)
    &&& c.data@ == read_window(s, c.start as int, cs)
}

/// How many bytes a read of `len` bytes at `offset` can return: `len`,
/// clipped to the end of the source.
pub open spec fn clipped_len(s: Seq<u8>, offset: int, len: int) -> int {
    if offset >= s.len() {
        0
    } else if offset + len <= s.len() {
        len
    } else {
        s.len() - offset
    }
}

/// A random-access reader over a seekable byte source. The source is
/// partitioned into fixed-size aligned chunks; a ranged read fetches the
/// missing chunks of its span in ascending order, then assembles the
/// bytes out of the resident chunks. A fetched chunk is kept for the
/// lifetime of the buffer and never requested from the source again; the
/// cache grows without bound for the buffer's lifetime.
pub struct SparseBuf<F: Source> {
    pos: u64,
    end: u64,
    source: F,
    chunks: ChunkCache,
    chunk_size: usize,
    scan_size: usize,
}

impl<F: Source> SparseBuf<F> {
    /// The contents of the underlying source.
    pub closed spec fn bytes(&self) -> Seq<u8> {
        self.source.bytes()
    }

    /// The logical read cursor.
    pub closed spec fn cursor(&self) -> int {
        self.pos as int
    }

    /// The total source length, fixed at construction.
    pub closed spec fn length(&self) -> int {
        self.end as int
    }

    /// The chunk size this buffer was built with.
    pub closed spec fn chunk_size_spec(&self) -> int {
        self.chunk_size as int
    }

    /// The delimiter-scan window size this buffer was built with.
    pub closed spec fn scan_size_spec(&self) -> int {
        self.scan_size as int
    }

    /// The state of the underlying source handle.
    pub closed spec fn source_state(&self) -> F {
        self.source
    }

    /// The chunk with aligned start `a` is resident in the cache.
    pub closed spec fn has_chunk(&self, a: int) -> bool {
        self.chunks.contains_spec(a)
    }

    /// Every chunk overlapping the byte range `[start, start + len)` is
    /// resident.
    pub closed spec fn covers(&self, start: int, len: int) -> bool {
        forall|a: int|
            aligned(a, self.chunk_size_spec()) && align_down(start, self.chunk_size_spec()) <= a
                <= align_down(start + len, self.chunk_size_spec())
                ==> #[trigger] self.has_chunk(a)
    }

    /// Well-formedness: the recorded length is the source's length, the
    /// cursor never passes it, the sizes are positive, and the cache
    /// holds well-formed chunks in ascending start order.
    pub closed spec fn wf(&self) -> bool {
        &&& self.source.bytes().len() == self.end as int
        &&& self.pos <= self.end
        &&& self.chunk_size >= 1
        &&& self.scan_size >= 1
        &&& self.chunks.wf()
        &&& forall|i: int|
            0 <= i < self.chunks.entries@.len() ==> chunk_inv(
                #[trigger] self.chunks.entries@[i],
                self.source.bytes(),
                self.chunk_size as int,
            )
    }

    /// What never changes across read operations: the source contents,
    /// the recorded length and the two sizes.
    pub open spec fn same_shape(pre: Self, post: Self) -> bool {
        &&& post.bytes() == pre.bytes()
        &&& post.length() == pre.length()
        &&& post.chunk_size_spec() == pre.chunk_size_spec()
        &&& post.scan_size_spec() == pre.scan_size_spec()
    }

    /// The cache only grows: a chunk once resident stays resident.
    pub open spec fn keeps_chunks(pre: Self, post: Self) -> bool {
        forall|a: int|
            #![trigger pre.has_chunk(a)]
            #![trigger post.has_chunk(a)]
            pre.has_chunk(a) ==> post.has_chunk(a)
    }

    /// The current cursor position.
    pub fn position(&self) -> (r: u64)
        ensures
            r as int == self.cursor(),
    {
        self.pos
    }

    /// The total source length this buffer was constructed with.
    pub fn source_len(&self) -> (r: u64)
        ensures
            r as int == self.length(),
    {
        self.end
    }

    /// A view of the underlying source handle, for callers that
    /// instrument it.
    pub fn source_ref(&self) -> (r: &F)
        ensures
            *r == self.source_state(),
    {
        &self.source
    }

    /// A buffer over `f`, whose total length is `len`, with the default
    /// chunk and scan-window sizes. The cursor starts at 0.
    pub fn new(f: F, len: u64) -> (r: SparseBuf<F>)
        requires
            f.bytes().len() == len as int,
        ensures
            r.wf(),
            r.bytes() == f.bytes(),
            r.cursor() == 0,
            r.length() == len as int,
            r.source_state() == f,
            r.chunk_size_spec() == CHUNK_SIZE_BYTES as int,
            r.scan_size_spec() == LINE_SEEK_SIZE_BYTES as int,
            forall|a: int| !r.has_chunk(a),
    {
        Self::with_geometry(f, len, CHUNK_SIZE_BYTES, LINE_SEEK_SIZE_BYTES)
    }

    /// A buffer with explicit chunk and scan-window sizes, for callers
    /// (and tests) that need a different granularity.
    pub fn with_geometry(f: F, len: u64, chunk_size: usize, scan_size: usize) -> (r: SparseBuf<
        F,
    >)
        requires
            f.bytes().len() == len as int,
            chunk_size >= 1,
            scan_size >= 1,
        ensures
            r.wf(),
            r.bytes() == f.bytes(),
            r.cursor() == 0,
            r.length() == len as int,
            r.source_state() == f,
            r.chunk_size_spec() == chunk_size as int,
            r.scan_size_spec() == scan_size as int,
            forall|a: int| !r.has_chunk(a),
    {
        SparseBuf {
            pos: 0,
            end: len,
            source: f,
            chunks: ChunkCache::new(),
            chunk_size,
            scan_size,
        }
    }

    /// Moves the logical cursor to an absolute offset. The cache is keyed
    /// by absolute offsets, so nothing needs invalidating; subsequent
    /// reads observe exactly the new position.
    pub fn seek(&mut self, offset: u64)
        requires
            old(self).wf(),
            offset as int <= old(self).length(),
        ensures
            final(self).wf(),
            Self::same_shape(*old(self), *final(self)),
            final(self).cursor() == offset as int,
            final(self).source_state() == old(self).source_state(),
            forall|a: int| final(self).has_chunk(a) == old(self).has_chunk(a),
    {
        self.pos = offset;
    }

    /// Makes the chunk starting at `aligned_start` resident: a no-op when
    /// it already is — a previously loaded chunk is never read from the
    /// source again — and a single source read otherwise.
    fn fetch_chunk(&mut self, aligned_start: u64) -> (r: Result<(), Error>)
        requires
            old(self).wf(),
            aligned(aligned_start as int, old(self).chunk_size_spec()),
        ensures
            final(self).wf(),
            Self::same_shape(*old(self), *final(self)),
            Self::keeps_chunks(*old(self), *final(self)),
            final(self).cursor() == old(self).cursor(),
            (r is Ok ==> final(self).has_chunk(aligned_start as int)),
            (r matches Err(e) ==> e == Error::SourceIo),
            old(self).has_chunk(aligned_start as int) ==> *final(self) == *old(self) && r is Ok,
            (r is Err ==> forall|a: int| final(self).has_chunk(a) == old(self).has_chunk(a)),
            (forall|a: int|
                final(self).has_chunk(a) ==> old(self).has_chunk(a) || a == aligned_start as int),
    {
        if self.chunks.contains(aligned_start) {
            return Ok(());
        }
        let data = match self.source.read_at(aligned_start, self.chunk_size) {
            Ok(v) => v,
            Err(e) => {
                return Err(e);
            },
        };
        let c = Chunk { start: aligned_start, data };
        self.chunks.insert(c);
        proof {
            assert forall|i: int| 0 <= i < self.chunks.entries@.len() implies chunk_inv(
                #[trigger] self.chunks.entries@[i],
                self.source.bytes(),
                self.chunk_size as int,
            ) by {
                if self.chunks.entries@[i] != c {
                    let e = self.chunks.entries@[i];
                    assert(old(self).chunks.entries@.contains(e));
                    let j = choose|j: int|
                        0 <= j < old(self).chunks.entries@.len() && old(self).chunks.entries@[j]
                            == e;
                    assert(chunk_inv(
                        old(self).chunks.entries@[j],
                        old(self).bytes(),
                        old(self).chunk_size as int,
                    ));
                }
            }
        }
        Ok(())
    }

    /// Makes every chunk overlapping `[unaligned_start, unaligned_start +
    /// size)` resident, fetching the missing ones one at a time in
    /// ascending offset order.
    fn fetch_chunks(&mut self, unaligned_start: u64, size: u64) -> (r: Result<(), Error>)
        requires
            old(self).wf(),
            unaligned_start + size <= old(self).length(),
        ensures
            final(self).wf(),
            Self::same_shape(*old(self), *final(self)),
            Self::keeps_chunks(*old(self), *final(self)),
            final(self).cursor() == old(self).cursor(),
            (r is Ok ==> final(self).covers(unaligned_start as int, size as int)),
            (r matches Err(e) ==> e == Error::SourceIo),
            old(self).covers(unaligned_start as int, size as int) ==> *final(self) == *old(self)
                && r is Ok,
    {
        let cs = self.chunk_size as u64;
        let unaligned_end = unaligned_start + size;
        proof {
            lemma_align_down(unaligned_start as int, cs as int);
            lemma_align_down(unaligned_end as int, cs as int);
            lemma_align_down_monotone(unaligned_start as int, unaligned_end as int, cs as int);
        }
        let first = unaligned_start - unaligned_start % cs;
        let last = unaligned_end - unaligned_end % cs;
        let mut a = first;
        loop
            invariant
                self.wf(),
                cs == self.chunk_size as u64,
                Self::same_shape(*old(self), *self),
                Self::keeps_chunks(*old(self), *self),
                self.cursor() == old(self).cursor(),
                first as int == align_down(unaligned_start as int, cs as int),
                last as int == align_down(unaligned_end as int, cs as int),
                unaligned_end == unaligned_start + size,
                unaligned_end <= self.end,
                first <= a <= last,
                aligned(a as int, cs as int),
                aligned(first as int, cs as int),
                aligned(last as int, cs as int),
                forall|o: int|
                    aligned(o, cs as int) && first as int <= o < a as int ==> #[trigger] self
                        .has_chunk(o),
                old(self).covers(unaligned_start as int, size as int) ==> *self == *old(self),
            decreases last - a,
        {
            proof {
                if old(self).covers(unaligned_start as int, size as int) {
                    assert(old(self).has_chunk(a as int));
                }
            }
            match self.fetch_chunk(a) {
                Ok(_) => {},
                Err(e) => {
                    return Err(e);
                },
            }
            if last - a < cs {
                proof {
                    lemma_aligned_close(a as int, last as int, cs as int);
                    assert forall|o: int|
                        aligned(o, cs as int) && first as int <= o <= last as int implies #[trigger] self.has_chunk(o) by {
                        if o < a as int {
                        } else {
                            lemma_aligned_close(a as int, o, cs as int);
                        }
                    }
                }
                return Ok(());
            }
            proof {
                lemma_aligned_step(a as int, cs as int);
                assert forall|o: int|
                    aligned(o, cs as int) && first as int <= o < a as int + cs as int implies #[trigger] self.has_chunk(o) by {
                    if o > a as int {
                        lemma_aligned_close(a as int, o, cs as int);
                    }
                }
            }
            a = a + cs;
        }
    }

    /// Reads up to `len` bytes at the absolute offset `offset`, without
    /// moving the logical cursor. On success the result holds exactly
    /// the source bytes of `[offset, offset + len)` clipped to the end
    /// of the source — identical to a direct unbuffered read of the same
    /// range. When every chunk of the span is already resident, the
    /// source is not consulted at all.
    pub fn read_range(&mut self, offset: u64, len: usize) -> (r: Result<Vec<u8>, Error>)
        requires
            old(self).wf(),
        ensures
            final(self).wf(),
            Self::same_shape(*old(self), *final(self)),
            Self::keeps_chunks(*old(self), *final(self)),
            final(self).cursor() == old(self).cursor(),
            (r matches Ok(v) ==> v@ == read_window(old(self).bytes(), offset as int, len as int)),
            (r matches Err(e) ==> e == Error::SourceIo),
            (offset as int >= old(self).length() || len == 0) ==> r is Ok && *final(self) == *old(
                self,
            ),
            old(self).covers(
                offset as int,
                clipped_len(old(self).bytes(), offset as int, len as int),
            ) ==> r is Ok && *final(self) == *old(self),
            (r is Ok && clipped_len(old(self).bytes(), offset as int, len as int) > 0)
                ==> final(self).covers(
                offset as int,
                clipped_len(old(self).bytes(), offset as int, len as int),
            ),
    {
        if len == 0 || offset >= self.end {
            let out: Vec<u8> = Vec::new();
            assert(out@ =~= read_window(self.bytes(), offset as int, len as int));
            return Ok(out);
        }
        let avail = self.end - offset;
        let n: u64 = if (len as u64) <= avail {
            len as u64
        } else {
            avail
        };
        assert(n as int == clipped_len(self.bytes(), offset as int, len as int));
        match self.fetch_chunks(offset, n) {
            Ok(_) => {},
            Err(e) => {
                return Err(e);
            },
        }
        let cs = self.chunk_size as u64;
        let n_usize: usize = n as usize;
        let ghost s = self.bytes();
        let mut out: Vec<u8> = Vec::new();
        let mut cur: u64 = offset;
        while out.len() < n_usize
            invariant
                self.wf(),
                Self::same_shape(*old(self), *self),
                Self::keeps_chunks(*old(self), *self),
                self.cursor() == old(self).cursor(),
                old(self).covers(offset as int, n as int) ==> *self == *old(self),
                s == self.bytes(),
                cs == self.chunk_size as u64,
                n == n_usize as u64,
                offset < self.end,
                offset + n <= self.end,
                self.end as int == s.len(),
                n as int == clipped_len(s, offset as int, len as int),
                out@.len() <= n,
                cur == offset + out@.len(),
                out@ == s.subrange(offset as int, cur as int),
                self.covers(offset as int, n as int),
            decreases n_usize - out.len(),
        {
            proof {
                lemma_align_down(cur as int, cs as int);
                lemma_align_down_monotone(offset as int, cur as int, cs as int);
                lemma_align_down_monotone(cur as int, offset as int + n as int, cs as int);
            }
            let a = cur - cur % cs;
            proof {
                assert(self.has_chunk(a as int));
            }
            let ci = self.chunks.find(a).unwrap();
            let chunk = &self.chunks.entries[ci];
            proof {
                assert(chunk_inv(self.chunks.entries@[ci as int], s, cs as int));
                assert(chunk.data@.len() == clipped_len(s, a as int, cs as int));
            }
            let mut idx: usize = (cur - a) as usize;
            let ghost prev_len = out@.len();
            let ghost idx0 = idx as int;
            assert(idx < chunk.data.len());
            while idx < chunk.data.len() && out.len() < n_usize
                invariant
                    chunk.data@ == read_window(s, a as int, cs as int),
                    aligned(a as int, cs as int),
                    a <= cur,
                    idx as int == cur - a,
                    cur == offset + out@.len(),
                    out@ == s.subrange(offset as int, cur as int),
                    offset + n <= s.len(),
                    offset + n <= u64::MAX,
                    n == n_usize as u64,
                    out@.len() <= n,
                    out@.len() >= prev_len,
                    out@.len() > prev_len || idx as int == idx0,
                decreases chunk.data@.len() - idx,
            {
                let b = chunk.data[idx];
                proof {
                    assert(chunk.data@[idx as int] == s[a as int + idx as int]);
                }
                out.push(b);
                proof {
                    assert(out@ =~= s.subrange(offset as int, cur as int + 1));
                }
                idx = idx + 1;
                cur = cur + 1;
            }
            proof {
                assert(out@.len() > prev_len);
            }
        }
        proof {
            assert(out@ =~= read_window(s, offset as int, len as int));
        }
        Ok(out)
    }

    /// Fills as much of a `len`-byte request as possible starting at the
    /// cursor, and advances the cursor by the number of bytes returned.
    /// A short result means the source ended; a request at or past the
    /// end returns no bytes and no error.
    pub fn read(&mut self, len: usize) -> (r: Result<Vec<u8>, Error>)
        requires
            old(self).wf(),
        ensures
            final(self).wf(),
            Self::same_shape(*old(self), *final(self)),
            Self::keeps_chunks(*old(self), *final(self)),
            (r matches Ok(v) ==> v@ == read_window(old(self).bytes(), old(self).cursor(), len as int)
                && final(self).cursor() == old(self).cursor() + v@.len()),
            (r is Err ==> final(self).cursor() == old(self).cursor()),
            (r matches Err(e) ==> e == Error::SourceIo),
            (old(self).cursor() >= old(self).length() || len == 0) ==> r is Ok && *final(self)
                == *old(self),
            old(self).covers(
                old(self).cursor(),
                clipped_len(old(self).bytes(), old(self).cursor(), len as int),
            ) ==> r is Ok && final(self).source_state() == old(self).source_state(),
            (r is Ok && clipped_len(old(self).bytes(), old(self).cursor(), len as int) > 0)
                ==> final(self).covers(
                old(self).cursor(),
                clipped_len(old(self).bytes(), old(self).cursor(), len as int),
            ),
    {
        let p = self.pos;
        let ghost cl = clipped_len(old(self).bytes(), p as int, len as int);
        let v = match self.read_range(p, len) {
            Ok(v) => v,
            Err(e) => {
                return Err(e);
            },
        };
        let ghost mid = *self;
        assert(p + v@.len() <= self.end);
        self.pos = p + v.len() as u64;
        proof {
            assert forall|a: int| old(self).has_chunk(a) implies self.has_chunk(a) by {
                assert(mid.has_chunk(a));
            }
            if cl > 0 {
                assert forall|a: int|
                    aligned(a, self.chunk_size_spec()) && align_down(
                        p as int,
                        self.chunk_size_spec(),
                    ) <= a <= align_down(p as int + cl, self.chunk_size_spec()) implies self
                    .has_chunk(a) by {
                    assert(mid.has_chunk(a));
                }
                assert(self.covers(p as int, cl));
            }
        }
        Ok(v)
    }

    /// Reads bytes from the cursor up to and including the first `delim`,
    /// appending them to `buf`, scanning in fixed-size windows. Returns
    /// the number of content bytes, excluding the delimiter; the cursor
    /// lands one byte past the delimiter. When the source ends without a
    /// delimiter, the remaining bytes are appended and the cursor lands
    /// exactly at end-of-source (it is not advanced past the end by the
    /// byte a delimiter would have occupied). On error nothing is
    /// appended and the cursor does not move.
    pub fn read_until(&mut self, delim: u8, buf: &mut Vec<u8>) -> (r: Result<usize, Error>)
        requires
            old(self).wf(),
        ensures
            final(self).wf(),
            Self::same_shape(*old(self), *final(self)),
            Self::keeps_chunks(*old(self), *final(self)),
            (r matches Ok(n) ==> ({
                let s = old(self).bytes();
                let start = old(self).cursor();
                let e = line_end(s, start, delim);
                &&& final(self).cursor() == e
                &&& final(buf)@ == old(buf)@ + s.subrange(start, e)
                &&& n as int == (if has_delim(s, start, delim) {
                    e - 1 - start
                } else {
                    e - start
                })
            })),
            (r is Err ==> final(self).cursor() == old(self).cursor() && final(buf)@ == old(buf)@),
            (r matches Err(e) ==> e == Error::SourceIo),
            old(self).cursor() == old(self).length() ==> (r matches Ok(n) && n == 0),
            old(self).covers(old(self).cursor(), old(self).length() - old(self).cursor()) ==> r
                is Ok,
    {
        let start = self.pos;
        let ghost s = self.bytes();
        let mut acc: Vec<u8> = Vec::new();
        let mut cursor = start;
        loop
            invariant
                self.wf(),
                Self::same_shape(*old(self), *self),
                Self::keeps_chunks(*old(self), *self),
                s == self.bytes(),
                s.len() == self.end as int,
                self.cursor() == old(self).cursor(),
                start == old(self).cursor(),
                start <= cursor <= self.end,
                cursor == start + acc@.len(),
                acc@ == s.subrange(start as int, cursor as int),
                buf@ == old(buf)@,
                forall|j: int| start as int <= j < cursor as int ==> s[j] != delim,
            decreases self.end - cursor,
        {
            proof {
                if old(self).covers(start as int, old(self).length() - start as int) {
                    let cl = clipped_len(s, cursor as int, self.scan_size as int);
                    assert forall|a: int|
                        aligned(a, self.chunk_size_spec()) && align_down(
                            cursor as int,
                            self.chunk_size_spec(),
                        ) <= a <= align_down(
                            cursor as int + cl,
                            self.chunk_size_spec(),
                        ) implies self.has_chunk(a) by {
                        lemma_align_down_monotone(
                            start as int,
                            cursor as int,
                            self.chunk_size_spec(),
                        );
                        lemma_align_down_monotone(
                            cursor as int + cl,
                            self.end as int,
                            self.chunk_size_spec(),
                        );
                        assert(old(self).has_chunk(a));
                    }
                    assert(self.covers(cursor as int, cl));
                }
            }
            let w = match self.read_range(cursor, self.scan_size) {
                Ok(w) => w,
                Err(e) => {
                    return Err(e);
                },
            };
            let ghost m = cursor as int + w@.len();
            proof {
                assert(w@ == s.subrange(cursor as int, m));
                assert(m <= s.len());
            }
            match find_byte(delim, w.as_slice()) {
                Some(i) => {
                    proof {
                        assert(s[cursor as int + i] == delim);
                        assert forall|j: int| start as int <= j < cursor as int + i implies s[j]
                            != delim by {
                            if cursor as int <= j {
                                assert(w@[j - cursor as int] != delim);
                            }
                        }
                        lemma_delim_pos(s, start as int, delim);
                        assert(delim_pos(s, start as int, delim) == cursor as int + i);
                    }
                    let mut j: usize = 0;
                    while j <= i
                        invariant
                            i < w@.len() <= usize::MAX,
                            j <= i + 1,
                            w@ == s.subrange(cursor as int, m),
                            m == cursor as int + w@.len(),
                            m <= s.len(),
                            start <= cursor,
                            acc@ == s.subrange(start as int, cursor as int + j),
                        decreases i + 1 - j,
                    {
                        let b = w[j];
                        proof {
                            assert(w@[j as int] == s[cursor as int + j]);
                        }
                        acc.push(b);
                        proof {
                            assert(acc@ =~= s.subrange(start as int, cursor as int + (j + 1)));
                        }
                        j = j + 1;
                    }
                    let total = acc.len() - 1;
                    self.pos = cursor + (i as u64) + 1;
                    buf.append(&mut acc);
                    return Ok(total);
                },
                None => {
                    let wl = w.len();
                    let mut tail = w;
                    acc.append(&mut tail);
                    proof {
                        assert(acc@ =~= s.subrange(start as int, m));
                        assert forall|j: int| start as int <= j < m implies s[j] != delim by {
                            if cursor as int <= j {
                                assert(s.subrange(cursor as int, m)[j - cursor as int] != delim);
                            }
                        }
                    }
                    cursor = cursor + wl as u64;
                    if wl < self.scan_size {
                        proof {
                            assert(cursor == self.end);
                            assert(!has_delim(s, start as int, delim));
                            assert(line_end(s, start as int, delim) == s.len());
                        }
                        let total = acc.len();
                        self.pos = cursor;
                        buf.append(&mut acc);
                        return Ok(total);
                    }
                },
            }
        }
    }

    /// Produces up to `num_lines` lines starting at the cursor, in order
    /// and omitting none, each decoded as UTF-8 text and including its
    /// trailing newline — except possibly the last line, when the source
    /// ends without one. Fewer lines than requested come back exactly
    /// when end-of-source is reached. On any error the cursor is restored
    /// to where the call began, so the caller can recover.
    pub fn read_lines(&mut self, num_lines: u64) -> (r: Result<Vec<String>, Error>)
        requires
            old(self).wf(),
        ensures
            final(self).wf(),
            Self::same_shape(*old(self), *final(self)),
            Self::keeps_chunks(*old(self), *final(self)),
            (r matches Ok(v) ==> ({
                let s = old(self).bytes();
                let start = old(self).cursor();
                let model = lines_from(s, start, num_lines as nat, NEWLINE);
                &&& v@.len() == model.len()
                &&& (forall|i: int|
                    0 <= i < model.len() ==> valid_utf8(#[trigger] model[i]) && v@[i]@
                        == decode_utf8(model[i]))
                &&& final(self).cursor() == lines_cursor(s, start, num_lines as nat, NEWLINE)
                &&& (v@.len() < num_lines ==> final(self).cursor() == old(self).length())
            })),
            (r is Err ==> final(self).cursor() == old(self).cursor()),
            (r matches Err(e) ==> e == Error::SourceIo || e == Error::Encoding),
            old(self).cursor() == old(self).length() ==> (r matches Ok(v) && v@.len() == 0),
            old(self).covers(old(self).cursor(), old(self).length() - old(self).cursor()) ==> !(r
                matches Err(e) && e == Error::SourceIo),
            (r matches Err(e) && e == Error::Encoding ==> exists|i: int|
                0 <= i < lines_from(
                    old(self).bytes(),
                    old(self).cursor(),
                    num_lines as nat,
                    NEWLINE,
                ).len() && !valid_utf8(
                    #[trigger] lines_from(
                        old(self).bytes(),
                        old(self).cursor(),
                        num_lines as nat,
                        NEWLINE,
                    )[i],
                )),
    {
        let start = self.pos;
        let ghost s = self.bytes();
        let ghost k = num_lines as nat;
        let mut out: Vec<String> = Vec::new();
        let ghost mut done: Seq<Seq<u8>> = Seq::empty();
        let mut i: u64 = 0;
        while i < num_lines
            invariant
                self.wf(),
                Self::same_shape(*old(self), *self),
                Self::keeps_chunks(*old(self), *self),
                s == self.bytes(),
                s.len() == self.end as int,
                k == num_lines as nat,
                start == old(self).cursor(),
                start as int <= self.cursor() <= self.end,
                i <= num_lines,
                out@.len() == i,
                done.len() == i,
                forall|t: int|
                    0 <= t < done.len() ==> valid_utf8(#[trigger] done[t]) && out@[t]@
                        == decode_utf8(done[t]),
                lines_from(s, start as int, k, NEWLINE) == done + lines_from(
                    s,
                    self.cursor(),
                    (k - i) as nat,
                    NEWLINE,
                ),
                lines_cursor(s, start as int, k, NEWLINE) == lines_cursor(
                    s,
                    self.cursor(),
                    (k - i) as nat,
                    NEWLINE,
                ),
            ensures
                self.wf(),
                Self::same_shape(*old(self), *self),
                Self::keeps_chunks(*old(self), *self),
                s == self.bytes(),
                start == old(self).cursor(),
                start as int <= self.cursor() <= self.end,
                out@.len() == i <= num_lines,
                done.len() == i,
                forall|t: int|
                    0 <= t < done.len() ==> valid_utf8(#[trigger] done[t]) && out@[t]@
                        == decode_utf8(done[t]),
                lines_from(s, start as int, k, NEWLINE) == done + lines_from(
                    s,
                    self.cursor(),
                    (k - i) as nat,
                    NEWLINE,
                ),
                lines_cursor(s, start as int, k, NEWLINE) == lines_cursor(
                    s,
                    self.cursor(),
                    (k - i) as nat,
                    NEWLINE,
                ),
                i == num_lines || self.cursor() == self.end as int,
            decreases num_lines - i,
        {
            let ghost at = self.cursor();
            proof {
                if old(self).covers(start as int, old(self).length() - start as int) {
                    assert forall|a: int|
                        aligned(a, self.chunk_size_spec()) && align_down(at, self.chunk_size_spec())
                            <= a <= align_down(
                            at + (self.end as int - at),
                            self.chunk_size_spec(),
                        ) implies self.has_chunk(a) by {
                        lemma_align_down_monotone(start as int, at, self.chunk_size_spec());
                        assert(old(self).has_chunk(a));
                    }
                    assert(self.covers(at, self.end as int - at));
                }
            }
            let mut line: Vec<u8> = Vec::new();
            match self.read_until(NEWLINE, &mut line) {
                Ok(_) => {},
                Err(e) => {
                    self.pos = start;
                    return Err(e);
                },
            }
            let ghost e = line_end(s, at, NEWLINE);
            proof {
                lemma_line_end(s, at, NEWLINE);
                assert(line@ =~= s.subrange(at, e));
            }
            if line.len() == 0 {
                proof {
                    assert(at >= s.len());
                    assert(self.cursor() == self.end as int);
                }
                break ;
            }
            let ghost line_bytes = line@;
            proof {
                assert(at < s.len());
                assert(lines_from(s, at, (k - i) as nat, NEWLINE) == seq![line_bytes]
                    + lines_from(s, e, (k - (i + 1)) as nat, NEWLINE));
            }
            match string_from_utf8(line) {
                Some(t) => {
                    out.push(t);
                    proof {
                        let rest = lines_from(s, e, (k - (i + 1)) as nat, NEWLINE);
                        assert(done.push(line_bytes) + rest =~= done + (seq![line_bytes] + rest));
                        done = done.push(line_bytes);
                    }
                    i = i + 1;
                },
                None => {
                    proof {
                        let model = lines_from(s, start as int, k, NEWLINE);
                        assert(model[i as int] == line_bytes);
                        assert(0 <= i as int && (i as int) < model.len());
                    }
                    self.pos = start;
                    return Err(Error::Encoding);
                },
            }
        }
        proof {
            assert(lines_from(s, self.cursor(), (k - i) as nat, NEWLINE) =~= Seq::<
                Seq<u8>,
            >::empty());
            assert(lines_from(s, start as int, k, NEWLINE) =~= done);
        }
        Ok(out)
    }
}

} // verus!
