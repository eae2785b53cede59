//! The chunk cache: an ordered collection of resident chunks keyed by
//! their aligned start offset. A chunk, once inserted, is never removed
//! or mutated; the cache only grows for the lifetime of its buffer.

use vstd::prelude::*;

verus! {

/// One fixed-size aligned window of the source: its absolute start
/// offset and the bytes actually read there. The stored bytes fall short
/// of the chunk size only at end-of-source.
pub struct Chunk {
    /// Absolute byte offset of this chunk; always a multiple of the
    /// buffer's chunk size.
    pub start: u64,
    /// The valid bytes of the window, exclusively owned by this chunk.
    pub data: Vec<u8>,
}

/// The resident chunks, held in strictly ascending order of `start`.
pub struct ChunkCache {
    pub entries: Vec<Chunk>,
}

impl ChunkCache {
    /// Starts are strictly ascending, hence unique.
    pub open spec fn wf(&self) -> bool {
        forall|i: int, j: int|
            0 <= i < j < self.entries.len() ==> self.entries[i].start < self.entries[j].start
    }

    /// A chunk starting at `a` is resident.
    pub open spec fn contains_spec(&self, a: int) -> bool {
        exists|i: int| 0 <= i < self.entries.len() && self.entries[i].start == a
    }

    pub fn new() -> (r: ChunkCache)
        ensures
            r.wf(),
            r.entries@.len() == 0,
            forall|a: int| !r.contains_spec(a),
    {
        ChunkCache { entries: Vec::new() }
    }

    /// Whether the chunk starting at `a` is resident.
    pub fn contains(&self, a: u64) -> (r: bool)
        ensures
            r == self.contains_spec(a as int),
    {
        match self.find(a) {
            Some(_) => true,
            None => false,
        }
    }

    /// The index of the resident chunk starting at `a`, if any.
    pub fn find(&self, a: u64) -> (r: Option<usize>)
        ensures
            (r matches Some(i) ==> i < self.entries@.len() && self.entries@[i as int].start == a),
            (r is None ==> !self.contains_spec(a as int)),
    {
        let n = self.entries.len();
        let mut i: usize = 0;
        while i < n
            invariant
                i <= n,
                n == self.entries@.len(),
                forall|j: int| 0 <= j < i ==> self.entries@[j].start != a,
            decreases n - i,
        {
            if self.entries[i].start == a {
                return Some(i);
            }
            i = i + 1;
        }
        None
    }

    /// Stores a newly fetched chunk, keeping the entries ordered. The
    /// caller never re-inserts a resident offset.
    pub fn insert(&mut self, c: Chunk)
        requires
            old(self).wf(),
            !old(self).contains_spec(c.start as int),
        ensures
            final(self).wf(),
            final(self).entries@.len() == old(self).entries@.len() + 1,
            final(self).contains_spec(c.start as int),
            forall|a: int|
                final(self).contains_spec(a) <==> old(self).contains_spec(a) || a == c.start,
            forall|i: int|
                0 <= i < final(self).entries@.len() ==> final(self).entries@[i] == c
                    || old(self).entries@.contains(final(self).entries@[i]),
    {
        let n = self.entries.len();
        let mut i: usize = 0;
        while i < n
            invariant
                i <= n,
                n == self.entries@.len(),
                forall|j: int| 0 <= j < i ==> self.entries@[j].start < c.start,
            ensures
                i <= n,
                n == self.entries@.len(),
                forall|j: int| 0 <= j < i ==> self.entries@[j].start < c.start,
                i < n ==> self.entries@[i as int].start >= c.start,
            decreases n - i,
        {
            if self.entries[i].start >= c.start {
                break ;
            }
            i = i + 1;
        }
        assert(forall|j: int| i <= j < n ==> self.entries@[j].start > c.start) by {
            assert(!old(self).contains_spec(c.start as int));
            assert(forall|j: int|
                i < j < n ==> self.entries@[j].start > self.entries@[i as int].start);
        }
        self.entries.insert(i, c);
        assert(self.entries@[i as int] == c);
        assert forall|a: int| self.contains_spec(a) implies old(self).contains_spec(a) || a
            == c.start by {
            let k = choose|k: int|
                0 <= k < self.entries@.len() && self.entries@[k].start == a;
            if k < i {
                assert(old(self).entries@[k].start == a);
            } else if k > i {
                assert(old(self).entries@[k - 1].start == a);
            }
        }
        assert forall|a: int| old(self).contains_spec(a) implies self.contains_spec(a) by {
            let k = choose|k: int|
                0 <= k < old(self).entries@.len() && old(self).entries@[k].start == a;
            if k < i {
                assert(self.entries@[k].start == a);
            } else {
                assert(self.entries@[k + 1].start == a);
            }
        }
        assert forall|k: int|
            0 <= k < self.entries@.len() && self.entries@[k] != c implies old(
            self,
        ).entries@.contains(self.entries@[k]) by {
            if k < i {
                assert(self.entries@[k] == old(self).entries@[k]);
            } else if k > i {
                assert(self.entries@[k] == old(self).entries@[k - 1]);
            }
        }
    }
}

} // verus!
