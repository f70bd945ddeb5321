use crate::chunk::{Chunk, ChunkResult, Status};
use crate::plan::{self, chunk_count, chunk_end, chunk_start, tiles, Policy};
use vstd::prelude::*;

verus! {

/// Concatenation of the first `k` payloads, in ascending id order.
pub open spec fn concat_up_to(payloads: Seq<Seq<u8>>, k: int) -> Seq<u8>
    decreases k,
{
    if k <= 0 {
        Seq::empty()
    } else {
        concat_up_to(payloads, k - 1) + payloads[k - 1]
    }
}

/// Replacing a payload at or above `k` leaves the concatenation of the
/// first `k` payloads unchanged.
pub proof fn lemma_concat_up_to_update_above(payloads: Seq<Seq<u8>>, id: int, p: Seq<u8>, k: int)
    requires
        0 <= k <= id < payloads.len(),
    ensures
        concat_up_to(payloads.update(id, p), k) == concat_up_to(payloads, k),
    decreases k,
{
    if k > 0 {
        lemma_concat_up_to_update_above(payloads, id, p, k - 1);
    }
}

/// Within the concatenation of the first `k` payloads, payload `i` occupies
/// exactly the slice that starts where the payloads before it end.
pub proof fn lemma_payload_position(payloads: Seq<Seq<u8>>, i: int, k: int)
    requires
        0 <= i < k <= payloads.len(),
    ensures
        concat_up_to(payloads, i).len() + payloads[i].len() <= concat_up_to(payloads, k).len(),
        concat_up_to(payloads, k).subrange(
            concat_up_to(payloads, i).len() as int,
            concat_up_to(payloads, i).len() + payloads[i].len() as int,
        ) == payloads[i],
    decreases k,
{
    let lo = concat_up_to(payloads, i).len() as int;
    let hi = lo + payloads[i].len();
    if k == i + 1 {
        assert(concat_up_to(payloads, k) == concat_up_to(payloads, i) + payloads[i]);
        assert(concat_up_to(payloads, k).subrange(lo, hi) =~= payloads[i]);
    } else {
        lemma_payload_position(payloads, i, k - 1);
        assert(concat_up_to(payloads, k) == concat_up_to(payloads, k - 1) + payloads[k - 1]);
        assert(concat_up_to(payloads, k).subrange(lo, hi) =~= concat_up_to(
            payloads,
            k - 1,
        ).subrange(lo, hi));
    }
}

/// Number of `Downloaded` entries among the first `k` chunks of the table.
pub open spec fn downloaded_up_to(table: Seq<Chunk>, k: int) -> int
    decreases k,
{
    if k <= 0 {
        0
    } else {
        downloaded_up_to(table, k - 1) + if table[k - 1].status is Downloaded {
            1int
        } else {
            0int
        }
    }
}

/// At most `k` of the first `k` chunks are downloaded.
pub proof fn lemma_downloaded_up_to_le(table: Seq<Chunk>, k: int)
    requires
        k >= 0,
    ensures
        0 <= downloaded_up_to(table, k) <= k,
    decreases k,
{
    if k > 0 {
        lemma_downloaded_up_to_le(table, k - 1);
    }
}

/// When every one of the first `k` chunks is downloaded, the count says so.
pub proof fn lemma_downloaded_up_to_full(table: Seq<Chunk>, k: int)
    requires
        k >= 0,
        forall|i: int| 0 <= i < k ==> (#[trigger] table[i]).status is Downloaded,
    ensures
        downloaded_up_to(table, k) == k,
    decreases k,
{
    if k > 0 {
        lemma_downloaded_up_to_full(table, k - 1);
    }
}

/// Conversely, a full count means every chunk is downloaded.
pub proof fn lemma_downloaded_up_to_all(table: Seq<Chunk>, k: int)
    requires
        k >= 0,
        downloaded_up_to(table, k) == k,
    ensures
        forall|i: int| 0 <= i < k ==> (#[trigger] table[i]).status is Downloaded,
    decreases k,
{
    if k > 0 {
        lemma_downloaded_up_to_le(table, k - 1);
        lemma_downloaded_up_to_all(table, k - 1);
    }
}

/// A table with no downloaded chunk counts zero.
pub proof fn lemma_downloaded_up_to_none(table: Seq<Chunk>, k: int)
    requires
        k >= 0,
        forall|i: int| 0 <= i < k ==> !((#[trigger] table[i]).status is Downloaded),
    ensures
        downloaded_up_to(table, k) == 0,
    decreases k,
{
    if k > 0 {
        lemma_downloaded_up_to_none(table, k - 1);
    }
}

/// Updating entry `i` changes the count by the difference the entry's status
/// makes, and only if `i` lies below `k`.
pub proof fn lemma_downloaded_up_to_update(table: Seq<Chunk>, i: int, c: Chunk, k: int)
    requires
        0 <= i < table.len(),
        0 <= k <= table.len(),
    ensures
        downloaded_up_to(table.update(i, c), k) == downloaded_up_to(table, k) + if i < k {
            (if c.status is Downloaded {
                1int
            } else {
                0int
            }) - (if table[i].status is Downloaded {
                1int
            } else {
                0int
            })
        } else {
            0int
        },
    decreases k,
{
    if k > 0 {
        lemma_downloaded_up_to_update(table, i, c, k - 1);
    }
}

/// The ghost state of the coordinator, as the contracts speak of it.
pub ghost struct CoordinatorView {
    /// Size in bytes of the whole resource.
    pub total: int,
    /// The authoritative chunk table, in id order.
    pub table: Seq<Chunk>,
    /// The next id eligible for merge: everything below it is already in the
    /// output.
    pub expected: int,
    /// How many chunks are currently `Downloaded`.
    pub ok: int,
    /// The merged output so far.
    pub output: Seq<u8>,
    /// For each id, the payload its (unique) successful result delivered;
    /// empty while the chunk is still pending.
    pub delivered: Seq<Seq<u8>>,
}

/// The single owner of the chunk table and of the output: it hands out
/// tasks, consumes worker results, re-queues failures, and merges completed
/// payloads into the output strictly in ascending id order. Workers only
/// ever see copies of chunks; nothing here is shared.
pub struct Coordinator {
    total_size: usize,
    chunks: Vec<Chunk>,
    staged: Vec<Vec<u8>>,
    expected_id: usize,
    ok_count: usize,
    output: Vec<u8>,
    delivered: Ghost<Seq<Seq<u8>>>,
}

impl View for Coordinator {
    type V = CoordinatorView;

    closed spec fn view(&self) -> CoordinatorView {
        CoordinatorView {
            total: self.total_size as int,
            table: self.chunks@,
            expected: self.expected_id as int,
            ok: self.ok_count as int,
            output: self.output@,
            delivered: self.delivered@,
        }
    }
}

impl Coordinator {
    /// Everything the contracts rely on: the table tiles the resource, the
    /// merge cursor sits right behind the first chunk that is not yet
    /// downloaded, everything below the cursor is downloaded, the output is
    /// exactly the concatenation of the delivered payloads below the cursor,
    /// and `ok` counts the downloaded chunks.
    pub open spec fn wf(self) -> bool {
        let v = self@;
        &&& tiles(v.table, v.total)
        &&& 0 <= v.expected <= v.table.len()
        &&& v.delivered.len() == v.table.len()
        &&& v.ok == downloaded_up_to(v.table, v.table.len() as int)
        &&& forall|i: int| 0 <= i < v.expected ==> (#[trigger] v.table[i]).status is Downloaded
        &&& v.output == concat_up_to(v.delivered, v.expected)
        &&& (v.expected < v.table.len() ==> !(v.table[v.expected].status is Downloaded))
    }

    /// The coordinator's full bookkeeping, except that the merge cursor may
    /// still lag behind downloaded chunks (`merge_ready` advances it): what
    /// `wf` says apart from the cursor being caught up, plus the staging
    /// area, which holds, for each downloaded chunk still waiting for its
    /// turn, exactly the payload its result delivered.
    closed spec fn pre_merge_inv(self) -> bool {
        let v = self@;
        &&& tiles(v.table, v.total)
        &&& 0 <= v.expected <= v.table.len()
        &&& v.delivered.len() == v.table.len()
        &&& v.ok == downloaded_up_to(v.table, v.table.len() as int)
        &&& forall|i: int| 0 <= i < v.expected ==> (#[trigger] v.table[i]).status is Downloaded
        &&& v.output == concat_up_to(v.delivered, v.expected)
        &&& self.staged@.len() == v.table.len()
        &&& forall|i: int|
            v.expected <= i < v.table.len() && v.table[i].status is Downloaded ==> (
            #[trigger] self.staged@[i])@ == v.delivered[i]
    }

    /// `pre_merge_inv`, with the merge cursor caught up: the chunk at the
    /// cursor, if any, is not yet downloaded. Established by the constructor
    /// and preserved by every method.
    pub closed spec fn inv(self) -> bool {
        &&& self.pre_merge_inv()
        &&& (self@.expected < self@.table.len() ==> !(self@.table[self@.expected].status
            is Downloaded))
    }

    /// Build the coordinator for a resource of `total_size` bytes: plan the
    /// chunks under `policy` (all `Pending`), place the merge cursor at id 0,
    /// and start from an empty output.
    pub fn new(total_size: usize, policy: Policy) -> (c: Coordinator)
        requires
            policy.valid(),
        ensures
            c.inv(),
            c.wf(),
            c@.total == total_size as int,
            c@.table.len() == chunk_count(total_size as int, policy),
            tiles(c@.table, c@.total),
            forall|i: int|
                0 <= i < c@.table.len() ==> {
                    &&& (#[trigger] c@.table[i]).start == chunk_start(total_size as int, policy, i)
                    &&& c@.table[i].end == chunk_end(total_size as int, policy, i)
                    &&& c@.table[i].status is Pending
                },
            c@.expected == 0,
            c@.ok == 0,
            c@.output == Seq::<u8>::empty(),
            c@.delivered.len() == c@.table.len(),
            forall|i: int| 0 <= i < c@.delivered.len() ==> c@.delivered[i] == Seq::<u8>::empty(),
    {
        let chunks = plan::plan(total_size, policy);
        let n = chunks.len();
        let mut staged: Vec<Vec<u8>> = Vec::new();
        let mut i: usize = 0;
        while i < n
            invariant
                i <= n,
                staged@.len() == i,
            decreases n - i,
        {
            staged.push(Vec::new());
            i = i + 1;
        }
        let c = Coordinator {
            total_size,
            chunks,
            staged,
            expected_id: 0,
            ok_count: 0,
            output: Vec::new(),
            delivered: Ghost(Seq::new(n as nat, |_i: int| Seq::<u8>::empty())),
        };
        proof {
            lemma_downloaded_up_to_none(c.chunks@, c.chunks@.len() as int);
            assert(c.wf());
            assert(c.pre_merge_inv());
            assert(c.inv());
        }
        c
    }

    /// Number of chunks in the table.
    pub fn num_chunks(&self) -> (n: usize)
        ensures
            n == self@.table.len(),
    {
        self.chunks.len()
    }

    /// The table entry with id `i` (a copy; the table itself never leaves
    /// the coordinator).
    pub fn chunk_at(&self, i: usize) -> (c: Chunk)
        requires
            i < self@.table.len(),
        ensures
            c == self@.table[i as int],
    {
        self.chunks[i]
    }

    /// The run is complete exactly when every chunk is downloaded.
    pub fn is_complete(&self) -> (r: bool)
        ensures
            r == (self@.ok == self@.table.len()),
    {
        self.ok_count == self.chunks.len()
    }

    /// Merge every staged payload the cursor is now allowed to reach: while
    /// the chunk at `expected` is downloaded, append its payload to the
    /// output and advance. This is what turns arbitrary completion order
    /// into a strictly ordered output stream.
    fn merge_ready(&mut self)
        requires
            old(self).pre_merge_inv(),
        ensures
            final(self).inv(),
            final(self)@.total == old(self)@.total,
            final(self)@.table == old(self)@.table,
            final(self)@.ok == old(self)@.ok,
            final(self)@.delivered == old(self)@.delivered,
            final(self)@.expected >= old(self)@.expected,
    {
        while self.expected_id < self.chunks.len() && self.chunks[self.expected_id].status
            == Status::Downloaded
            invariant
                self.pre_merge_inv(),
                self@.total == old(self)@.total,
                self@.table == old(self)@.table,
                self@.ok == old(self)@.ok,
                self@.delivered == old(self)@.delivered,
                self@.expected >= old(self)@.expected,
            decreases self.chunks@.len() - self.expected_id,
        {
            let ghost pre = *self;
            let eid = self.expected_id;
            let mut data: Vec<u8> = Vec::new();
            core::mem::swap(&mut data, &mut self.staged[eid]);
            proof {
                assert(data@ == pre@.delivered[eid as int]);
            }
            self.output.append(&mut data);
            self.expected_id = eid + 1;
            proof {
                assert(self@.output == concat_up_to(self@.delivered, eid + 1));
                assert(self.pre_merge_inv());
            }
        }
        proof {
            assert(self.inv());
        }
    }

    /// Consume one worker result. A successful result marks the chunk
    /// `Downloaded`, records its payload, and merges every payload the
    /// cursor can now reach; it is ignored if the chunk was already
    /// downloaded. A failed result changes nothing and hands back a fresh
    /// `Pending` copy of the table entry, which the caller must queue again:
    /// retry policy lives here and nowhere else.
    pub fn on_result(&mut self, res: ChunkResult) -> (requeue: Option<Chunk>)
        requires
            old(self).inv(),
            res.chunk.id < old(self)@.table.len(),
        ensures
            final(self).inv(),
            final(self).wf(),
            final(self)@.total == old(self)@.total,
            final(self)@.table.len() == old(self)@.table.len(),
            forall|i: int|
                0 <= i < old(self)@.table.len() && i != res.chunk.id ==> final(self)@.table[i]
                    == old(self)@.table[i],
            (res.chunk.status is Downloaded && old(self)@.table[res.chunk.id as int].status
                is Pending) ==> {
                &&& final(self)@.table == old(self)@.table.update(
                    res.chunk.id as int,
                    (Chunk {
                        status: Status::Downloaded,
                        ..old(self)@.table[res.chunk.id as int]
                    }),
                )
                &&& final(self)@.delivered == old(self)@.delivered.update(
                    res.chunk.id as int,
                    res.data@,
                )
                &&& final(self)@.ok == old(self)@.ok + 1
                &&& requeue is None
            },
            (res.chunk.status is Downloaded && old(self)@.table[res.chunk.id as int].status
                is Downloaded) ==> (final(self)@ == old(self)@ && requeue is None),
            !(res.chunk.status is Downloaded) ==> {
                &&& final(self)@ == old(self)@
                &&& requeue matches Some(c) && c == (Chunk {
                    status: Status::Pending,
                    ..old(self)@.table[res.chunk.id as int]
                })
            },
    {
        let ChunkResult { chunk, data } = res;
        let id = chunk.id;
        if chunk.status == Status::Downloaded {
            if self.chunks[id].status == Status::Downloaded {
                // A duplicate success: the table already has the payload.
                return None;
            }
            let ghost payload = data@;
            let mut entry = self.chunks[id];
            entry.status = Status::Downloaded;
            self.chunks[id] = entry;
            self.staged[id] = data;
            let table_len = self.chunks.len();
            proof {
                self.delivered@ = self.delivered@.update(id as int, payload);
                let n = old(self).chunks@.len() as int;
                assert(self.chunks@ == old(self).chunks@.update(id as int, entry));
                lemma_downloaded_up_to_update(old(self).chunks@, id as int, entry, n);
                lemma_downloaded_up_to_le(self.chunks@, n);
                assert(self.ok_count < table_len);
            }
            self.ok_count = self.ok_count + 1;
            proof {
                let v0 = old(self)@;
                let v1 = self@;
                let n = v0.table.len() as int;
                // The id cannot lie below the cursor: everything below it is
                // already downloaded, and this entry was still pending.
                assert(v0.expected <= id as int);
                lemma_concat_up_to_update_above(v0.delivered, id as int, payload, v0.expected);
                assert(v1.table == v0.table.update(id as int, entry));
                assert forall|i: int| 0 <= i < n implies (#[trigger] v1.table[i]).wf() by {
                    assert(v0.table[i].wf());
                }
                assert forall|i: int| 0 <= i < n implies (#[trigger] v1.table[i]).id == i by {
                    assert(v0.table[i].id == i);
                }
                assert forall|i: int|
                    #![trigger v1.table[i], v1.table[i + 1]]
                    0 <= i < n - 1 implies v1.table[i].end + 1 == v1.table[i + 1].start by {
                    assert(v0.table[i].end + 1 == v0.table[i + 1].start);
                }
                assert(tiles(v1.table, v1.total));
                assert(self.pre_merge_inv());
            }
            self.merge_ready();
            None
        } else {
            Some(self.chunks[id].reset())
        }
    }

    /// Final defensive pass, run after the poll loop: merge any remaining
    /// contiguous downloaded prefix. The invariant keeps the cursor caught
    /// up after every result, so when every chunk is downloaded the cursor
    /// stands at the end and the output is complete.
    pub fn finish(&mut self)
        requires
            old(self).inv(),
        ensures
            final(self).inv(),
            final(self).wf(),
            final(self)@.total == old(self)@.total,
            final(self)@.table == old(self)@.table,
            final(self)@.ok == old(self)@.ok,
            final(self)@.delivered == old(self)@.delivered,
            final(self)@.ok == final(self)@.table.len() ==> {
                &&& final(self)@.expected == final(self)@.table.len()
                &&& final(self)@.output == concat_up_to(
                    final(self)@.delivered,
                    final(self)@.table.len() as int,
                )
            },
    {
        self.merge_ready();
        proof {
            if self@.ok == self@.table.len() {
                lemma_complete_output_is_concat(*self);
            }
        }
    }

    /// Hand the merged output over, consuming the coordinator.
    pub fn into_output(self) -> (out: Vec<u8>)
        ensures
            out@ == self@.output,
    {
        self.output
    }
}

/// The ordered-merge guarantee: once every chunk is downloaded, the output
/// is exactly the concatenation, in ascending id order, of the payloads the
/// chunks were delivered with — whatever order the results arrived in, since
/// a well-formed coordinator satisfies this in every reachable state.
pub proof fn lemma_complete_output_is_concat(c: Coordinator)
    requires
        c.wf(),
        c@.ok == c@.table.len(),
    ensures
        c@.expected == c@.table.len(),
        c@.output == concat_up_to(c@.delivered, c@.table.len() as int),
{
    lemma_downloaded_up_to_all(c@.table, c@.table.len() as int);
}

/// When every delivered payload has exactly its chunk's length, the
/// payloads before chunk `i` together end right where chunk `i` starts, and
/// all of them together have the length of the whole resource.
pub proof fn lemma_concat_len_matches_starts(
    table: Seq<Chunk>,
    payloads: Seq<Seq<u8>>,
    total: int,
    i: int,
)
    requires
        tiles(table, total),
        payloads.len() == table.len(),
        0 <= i <= table.len(),
        forall|j: int|
            0 <= j < i ==> (#[trigger] payloads[j]).len() == table[j].spec_len(),
    ensures
        concat_up_to(payloads, i).len() == if i < table.len() {
            table[i].start as int
        } else {
            total
        },
    decreases i,
{
    if i > 0 {
        lemma_concat_len_matches_starts(table, payloads, total, i - 1);
        if i < table.len() {
            assert(table[i - 1].end + 1 == table[i].start);
        }
    }
}

/// A chunk that failed any number of times before succeeding is merged
/// exactly once, at its correct offset: in the complete output, the chunk's
/// own byte range `[start, end]` holds exactly the payload its one
/// successful result delivered (`on_result` records a payload only on that
/// success and leaves it untouched on every failure), and the output has no
/// room for anything else: its length is exactly the resource's.
pub proof fn lemma_chunk_merged_once_at_offset(c: Coordinator, i: int)
    requires
        c.wf(),
        c@.ok == c@.table.len(),
        0 <= i < c@.table.len(),
        forall|j: int|
            0 <= j < c@.table.len() ==> (#[trigger] c@.delivered[j]).len()
                == c@.table[j].spec_len(),
    ensures
        c@.output.len() == c@.total,
        c@.output.subrange(c@.table[i].start as int, c@.table[i].end + 1) == c@.delivered[i],
{
    let n = c@.table.len() as int;
    lemma_complete_output_is_concat(c);
    lemma_concat_len_matches_starts(c@.table, c@.delivered, c@.total, n);
    lemma_concat_len_matches_starts(c@.table, c@.delivered, c@.total, i);
    lemma_payload_position(c@.delivered, i, n);
}

} // verus!
