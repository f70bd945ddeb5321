use crate::chunk::{Chunk, Status};
use vstd::arithmetic::div_mod::lemma_fundamental_div_mod;
use vstd::arithmetic::mul::{lemma_mul_inequality, lemma_mul_is_distributive_add_other_way};
use vstd::prelude::*;

verus! {

/// How the resource is partitioned into chunks. Exactly one policy is active
/// per run.
#[derive(Clone, Copy, Debug, PartialEq, Eq, Structural)]
pub enum Policy {
    /// Divide the resource into exactly this many near-equal chunks (one per
    /// worker); the last chunk absorbs the remainder.
    WorkerCount(usize),
    /// Divide the resource into chunks of exactly this many bytes; the last
    /// chunk absorbs the remainder.
    ChunkSize(usize),
}

impl Policy {
    /// A policy must name a positive worker count or a positive chunk size.
    pub open spec fn valid(self) -> bool {
        match self {
            Policy::WorkerCount(k) => k >= 1,
            Policy::ChunkSize(s) => s >= 1,
        }
    }
}

/// How many chunks the plan for a resource of `total` bytes has. A zero-byte
/// resource has no chunks. Otherwise the fixed-size policy yields
/// `total / s` chunks (one covering everything when `total < s`), and the
/// fixed-count policy yields exactly `k` chunks (again collapsing to one
/// when there are fewer bytes than workers).
pub open spec fn chunk_count(total: int, policy: Policy) -> int {
    if total == 0 {
        0
    } else {
        match policy {
            Policy::WorkerCount(k) => if total / (k as int) == 0 {
                1
            } else {
                k as int
            },
            Policy::ChunkSize(s) => if total / (s as int) == 0 {
                1
            } else {
                total / (s as int)
            },
        }
    }
}

/// The size of every chunk except the last, which absorbs the remainder.
pub open spec fn nominal_size(total: int, policy: Policy) -> int {
    match policy {
        Policy::WorkerCount(k) => if total / (k as int) == 0 {
            total
        } else {
            total / (k as int)
        },
        Policy::ChunkSize(s) => if total / (s as int) == 0 {
            total
        } else {
            s as int
        },
    }
}

/// First byte offset of chunk `i`.
pub open spec fn chunk_start(total: int, policy: Policy, i: int) -> int {
    i * nominal_size(total, policy)
}

/// Last byte offset (inclusive) of chunk `i`.
pub open spec fn chunk_end(total: int, policy: Policy, i: int) -> int {
    if i == chunk_count(total, policy) - 1 {
        total - 1
    } else {
        (i + 1) * nominal_size(total, policy) - 1
    }
}

/// The ranges of `chunks` exactly tile `[0, total)`: the plan is empty only
/// for an empty resource, the first chunk starts at offset 0, consecutive
/// chunks meet with no gap and no overlap, the last chunk ends at
/// `total - 1`, every range is non-empty, and ids are dense in plan order.
pub open spec fn tiles(chunks: Seq<Chunk>, total: int) -> bool {
    &&& (chunks.len() == 0 <==> total == 0)
    &&& chunks.len() > 0 ==> chunks[0].start == 0
    &&& chunks.len() > 0 ==> chunks[chunks.len() - 1].end + 1 == total
    &&& forall|i: int| 0 <= i < chunks.len() ==> (#[trigger] chunks[i]).wf()
    &&& forall|i: int| 0 <= i < chunks.len() ==> (#[trigger] chunks[i]).id == i
    &&& forall|i: int, j: int|
        #![trigger chunks[i], chunks[j]]
        0 <= i && j == i + 1 && j < chunks.len() ==> chunks[i].end + 1 == chunks[j].start
}

/// For a non-empty resource the plan's arithmetic is well behaved: there is
/// at least one chunk, every chunk but the last covers at least one byte,
/// and the last chunk's start still lies within the resource.
proof fn lemma_plan_arithmetic(total: int, policy: Policy)
    requires
        policy.valid(),
        total >= 1,
    ensures
        chunk_count(total, policy) >= 1,
        nominal_size(total, policy) >= 1,
        (chunk_count(total, policy) - 1) * nominal_size(total, policy) <= total - 1,
{
    let n = chunk_count(total, policy);
    let sz = nominal_size(total, policy);
    match policy {
        Policy::WorkerCount(k) => {
            let ki = k as int;
            let q = total / ki;
            let r = total % ki;
            lemma_fundamental_div_mod(total, ki);
            if q == 0 {
                assert((n - 1) * sz == 0) by (nonlinear_arith)
                    requires
                        n == 1,
                ;
            } else {
                // total == ki * q + r with r >= 0, so (ki - 1) * q <= total - q.
                assert((ki - 1) * q <= total - 1) by (nonlinear_arith)
                    requires
                        total == ki * q + r,
                        r >= 0,
                        q >= 1,
                ;
            }
        },
        Policy::ChunkSize(s) => {
            let si = s as int;
            let q = total / si;
            let r = total % si;
            lemma_fundamental_div_mod(total, si);
            if q == 0 {
                assert((n - 1) * sz == 0) by (nonlinear_arith)
                    requires
                        n == 1,
                ;
            } else {
                // total == si * q + r with r >= 0, so (q - 1) * si <= total - si.
                assert((q - 1) * si <= total - 1) by (nonlinear_arith)
                    requires
                        total == si * q + r,
                        r >= 0,
                        si >= 1,
                ;
            }
        },
    }
}

/// Compute the ordered chunk plan for a resource of `total_size` bytes under
/// `policy`. The ranges exactly tile `[0, total_size)`, every chunk is
/// `Pending`, the chunk count follows the policy's arithmetic, and each
/// chunk's offsets follow the planning formulas.
pub fn plan(total_size: usize, policy: Policy) -> (chunks: Vec<Chunk>)
    requires
        policy.valid(),
    ensures
        chunks@.len() == chunk_count(total_size as int, policy),
        tiles(chunks@, total_size as int),
        forall|i: int|
            0 <= i < chunks@.len() ==> {
                &&& (#[trigger] chunks@[i]).id == i
                &&& chunks@[i].start == chunk_start(total_size as int, policy, i)
                &&& chunks@[i].end == chunk_end(total_size as int, policy, i)
                &&& chunks@[i].status == Status::Pending
            },
{
    let total = total_size;
    let ghost t = total as int;
    let (count, nominal): (usize, usize) = match policy {
        Policy::WorkerCount(k) => {
            let q = total / k;
            if q == 0 {
                (if total == 0 { 0 } else { 1 }, total)
            } else {
                (k, q)
            }
        },
        Policy::ChunkSize(s) => {
            let q = total / s;
            if q == 0 {
                (if total == 0 { 0 } else { 1 }, total)
            } else {
                (q, s)
            }
        },
    };
    assert(count == chunk_count(t, policy));
    assert(nominal == nominal_size(t, policy) || count == 0);
    proof {
        if count >= 1 {
            lemma_plan_arithmetic(t, policy);
        }
    }
    let mut chunks: Vec<Chunk> = Vec::new();
    let mut i: usize = 0;
    while i < count
        invariant
            i <= count,
            chunks@.len() == i,
            count >= 1 ==> total >= 1,
            count == chunk_count(t, policy),
            count >= 1 ==> nominal == nominal_size(t, policy),
            count >= 1 ==> nominal >= 1,
            count >= 1 ==> (count - 1) * nominal <= t - 1,
            t == total as int,
            forall|j: int|
                0 <= j < i ==> {
                    &&& (#[trigger] chunks@[j]).id == j
                    &&& chunks@[j].start == chunk_start(t, policy, j)
                    &&& chunks@[j].end == chunk_end(t, policy, j)
                    &&& chunks@[j].status == Status::Pending
                },
        decreases count - i,
    {
        proof {
            lemma_mul_inequality(i as int, count as int - 1, nominal as int);
        }
        let start = i * nominal;
        let end = if i == count - 1 {
            total - 1
        } else {
            proof {
                lemma_mul_is_distributive_add_other_way(nominal as int, i as int, 1);
                lemma_mul_inequality(i as int + 1, count as int - 1, nominal as int);
            }
            (i + 1) * nominal - 1
        };
        chunks.push(Chunk { id: i, start, end, status: Status::Pending });
        i = i + 1;
    }
    proof {
        lemma_formulas_tile(chunks@, t, policy);
    }
    chunks
}

/// A sequence of chunks whose offsets follow the planning formulas tiles
/// `[0, total)`.
#[verifier::rlimit(50)]
proof fn lemma_formulas_tile(chunks: Seq<Chunk>, total: int, policy: Policy)
    requires
        policy.valid(),
        total >= 0,
        total <= usize::MAX,
        chunks.len() == chunk_count(total, policy),
        forall|i: int|
            0 <= i < chunks.len() ==> {
                &&& (#[trigger] chunks[i]).id == i
                &&& chunks[i].start == chunk_start(total, policy, i)
                &&& chunks[i].end == chunk_end(total, policy, i)
            },
    ensures
        tiles(chunks, total),
{
    let count = chunks.len() as int;
    if count >= 1 {
        lemma_plan_arithmetic(total, policy);
        let nominal = nominal_size(total, policy);
        assert(0 * nominal == 0) by (nonlinear_arith);
        assert forall|j: int|
            0 <= j < count - 1 implies (#[trigger] chunks[j]).end + 1 == chunks[j + 1].start by {
            assert(chunks[j].end == chunk_end(total, policy, j));
            assert(chunks[j + 1].start == chunk_start(total, policy, j + 1));
        }
        assert forall|j: int| 0 <= j < count implies (#[trigger] chunks[j]).wf() by {
            if j < count - 1 {
                lemma_mul_is_distributive_add_other_way(nominal, j, 1);
                lemma_mul_inequality(j + 1, count - 1, nominal);
                lemma_mul_inequality(j, count - 1, nominal);
            } else {
                assert(chunks[j].end == total - 1);
            }
        }
    }
}

/// Every chunk of a tiling lies inside the resource: its range is non-empty
/// and ends before `total`.
pub proof fn lemma_tiles_end_bound(chunks: Seq<Chunk>, total: int, i: int)
    requires
        tiles(chunks, total),
        0 <= i < chunks.len(),
    ensures
        chunks[i].start <= chunks[i].end < total,
    decreases chunks.len() - i,
{
    assert(chunks[i].wf());
    if i == chunks.len() - 1 {
        assert(chunks[i].end + 1 == total);
    } else {
        lemma_tiles_end_bound(chunks, total, i + 1);
        assert(chunks[i].end + 1 == chunks[i + 1].start);
    }
}

} // verus!
