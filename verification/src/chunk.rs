use vstd::prelude::*;

verus! {

/// Download state of one chunk. Every chunk starts out `Pending`; the
/// coordinator marks it `Downloaded` once a worker has fetched its bytes.
/// A failed attempt leaves the chunk `Pending`, so it can be queued again.
#[derive(Clone, Copy, Debug, PartialEq, Eq, Structural)]
pub enum Status {
    Pending,
    Downloaded,
}

/// One contiguous byte range of the target resource: the unit of work and of
/// merge ordering. `start` and `end` are inclusive byte offsets, so the range
/// covers `end - start + 1` bytes. `id` is dense and 0-based and fixes the
/// order in which chunks are merged into the final output.
#[derive(Clone, Copy, Debug, PartialEq, Eq, Structural)]
pub struct Chunk {
    pub id: usize,
    pub start: usize,
    pub end: usize,
    pub status: Status,
}

impl Chunk {
    /// Number of bytes the range covers.
    pub open spec fn spec_len(self) -> int {
        self.end - self.start + 1
    }

    /// A chunk's range is never empty: inclusive offsets cannot describe a
    /// zero-byte range, so a zero-length resource simply has no chunks.
    pub open spec fn wf(self) -> bool {
        self.start <= self.end < usize::MAX
    }

    /// Number of bytes the range covers.
    pub fn len(&self) -> (n: usize)
        requires
            self.wf(),
        ensures
            n == self.spec_len(),
    {
        self.end - self.start + 1
    }

    /// The same range, reset to `Pending`, ready to be queued again after a
    /// failed attempt.
    pub fn reset(&self) -> (c: Chunk)
        ensures
            c == (Chunk { status: Status::Pending, ..*self }),
    {
        Chunk { id: self.id, start: self.start, end: self.end, status: Status::Pending }
    }
}

/// What one worker reports on the result channel after one attempt: the
/// chunk it was given (marked `Downloaded` on success, left `Pending` on any
/// failure) together with the fetched payload (empty on failure).
#[derive(Clone)]
pub struct ChunkResult {
    pub chunk: Chunk,
    pub data: Vec<u8>,
}

} // verus!
