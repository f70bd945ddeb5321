use crate::chunk::{Chunk, ChunkResult, Status};
use vstd::prelude::*;

verus! {

/// A worker's policy for one attempt, separated from the transport that
/// carries it out: given the chunk it was asked to fetch and the outcome of
/// the ranged fetch — the full payload, or `None` on any transport, read,
/// or persist failure — build the result to report back. On success the
/// chunk comes back `Downloaded` with its payload; on failure it comes back
/// `Pending` with no payload. A worker never retries and never decides
/// whether a failed chunk is redone: that belongs to the coordinator alone.
pub fn process_fetch(chunk: Chunk, fetched: Option<Vec<u8>>) -> (r: ChunkResult)
    ensures
        r.chunk.id == chunk.id,
        r.chunk.start == chunk.start,
        r.chunk.end == chunk.end,
        fetched matches Some(d) ==> (r.chunk.status is Downloaded && r.data@ == d@),
        fetched is None ==> (r.chunk.status is Pending && r.data@ == Seq::<u8>::empty()),
{
    match fetched {
        Some(data) => ChunkResult {
            chunk: Chunk { id: chunk.id, start: chunk.start, end: chunk.end, status: Status::Downloaded },
            data,
        },
        None => ChunkResult { chunk: chunk.reset(), data: Vec::new() },
    }
}

} // verus!
