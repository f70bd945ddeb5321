use crate::channel::SharedChannel;
use crate::chunk::{Chunk, ChunkResult, Status};
use crate::coordinator::{
    concat_up_to, lemma_downloaded_up_to_all, lemma_downloaded_up_to_full,
    lemma_downloaded_up_to_le, Coordinator,
};
use crate::plan::{chunk_count, lemma_tiles_end_bound, tiles, Policy};
use crate::worker::process_fetch;
use vstd::prelude::*;

verus! {

/// How many entries of the task queue carry the chunk with this id.
pub open spec fn tasks_for(tq: Seq<Option<Chunk>>, id: int) -> int
    decreases tq.len(),
{
    if tq.len() == 0 {
        0
    } else {
        (if tq[0] matches Some(c) && c.id == id {
            1int
        } else {
            0int
        }) + tasks_for(tq.drop_first(), id)
    }
}

/// How many entries of the result queue carry the chunk with this id.
pub open spec fn results_for(rq: Seq<ChunkResult>, id: int) -> int
    decreases rq.len(),
{
    if rq.len() == 0 {
        0
    } else {
        (if rq[0].chunk.id == id {
            1int
        } else {
            0int
        }) + results_for(rq.drop_first(), id)
    }
}

/// Termination weight of the result queue: a failed result still causes one
/// re-queue and one more coordinator step, so it weighs more than a
/// successful one.
spec fn results_weight(rq: Seq<ChunkResult>) -> int
    decreases rq.len(),
{
    if rq.len() == 0 {
        0
    } else {
        (if rq[0].chunk.status is Downloaded {
            1int
        } else {
            3int
        }) + results_weight(rq.drop_first())
    }
}

/// Total failure budget left across all chunks.
spec fn sum_budget(s: Seq<usize>) -> int
    decreases s.len(),
{
    if s.len() == 0 {
        0
    } else {
        s[0] + sum_budget(s.drop_first())
    }
}

proof fn lemma_tasks_for_push(tq: Seq<Option<Chunk>>, x: Option<Chunk>, id: int)
    ensures
        tasks_for(tq.push(x), id) == tasks_for(tq, id) + (if x matches Some(c) && c.id == id {
            1int
        } else {
            0int
        }),
    decreases tq.len(),
{
    if tq.len() == 0 {
        assert(tq.push(x).drop_first() =~= tq);
    } else {
        assert(tq.push(x).drop_first() =~= tq.drop_first().push(x));
        lemma_tasks_for_push(tq.drop_first(), x, id);
    }
}

proof fn lemma_results_for_push(rq: Seq<ChunkResult>, x: ChunkResult, id: int)
    ensures
        results_for(rq.push(x), id) == results_for(rq, id) + (if x.chunk.id == id {
            1int
        } else {
            0int
        }),
    decreases rq.len(),
{
    if rq.len() == 0 {
        assert(rq.push(x).drop_first() =~= rq);
    } else {
        assert(rq.push(x).drop_first() =~= rq.drop_first().push(x));
        lemma_results_for_push(rq.drop_first(), x, id);
    }
}

proof fn lemma_results_weight_push(rq: Seq<ChunkResult>, x: ChunkResult)
    ensures
        results_weight(rq.push(x)) == results_weight(rq) + (if x.chunk.status is Downloaded {
            1int
        } else {
            3int
        }),
    decreases rq.len(),
{
    if rq.len() == 0 {
        assert(rq.push(x).drop_first() =~= rq);
    } else {
        assert(rq.push(x).drop_first() =~= rq.drop_first().push(x));
        lemma_results_weight_push(rq.drop_first(), x);
    }
}

proof fn lemma_results_weight_nonneg(rq: Seq<ChunkResult>)
    ensures
        results_weight(rq) >= 0,
    decreases rq.len(),
{
    if rq.len() > 0 {
        lemma_results_weight_nonneg(rq.drop_first());
    }
}

proof fn lemma_sum_budget_nonneg(s: Seq<usize>)
    ensures
        sum_budget(s) >= 0,
    decreases s.len(),
{
    if s.len() > 0 {
        lemma_sum_budget_nonneg(s.drop_first());
    }
}

proof fn lemma_sum_budget_update(s: Seq<usize>, i: int, v: usize)
    requires
        0 <= i < s.len(),
    ensures
        sum_budget(s.update(i, v)) == sum_budget(s) - s[i] + v,
    decreases s.len(),
{
    if i == 0 {
        assert(s.update(0, v).drop_first() =~= s.drop_first());
    } else {
        assert(s.update(i, v).drop_first() =~= s.drop_first().update(i - 1, v));
        lemma_sum_budget_update(s.drop_first(), i - 1, v);
    }
}

/// An entry in the task queue contributes to its id's count.
proof fn lemma_tasks_for_at(tq: Seq<Option<Chunk>>, k: int, id: int)
    requires
        0 <= k < tq.len(),
        tq[k] matches Some(c) && c.id == id,
    ensures
        tasks_for(tq, id) >= 1,
        forall|j: int| tasks_for(tq, j) >= 0,
    decreases k,
{
    assert forall|j: int| tasks_for(tq, j) >= 0 by {
        lemma_tasks_for_nonneg(tq, j);
    }
    if k > 0 {
        assert(tq.drop_first()[k - 1] == tq[k]);
        lemma_tasks_for_at(tq.drop_first(), k - 1, id);
    } else {
        lemma_tasks_for_nonneg(tq.drop_first(), id);
    }
}

proof fn lemma_tasks_for_nonneg(tq: Seq<Option<Chunk>>, id: int)
    ensures
        tasks_for(tq, id) >= 0,
    decreases tq.len(),
{
    if tq.len() > 0 {
        lemma_tasks_for_nonneg(tq.drop_first(), id);
    }
}

/// An entry in the result queue contributes to its id's count.
proof fn lemma_results_for_at(rq: Seq<ChunkResult>, k: int)
    requires
        0 <= k < rq.len(),
    ensures
        results_for(rq, rq[k].chunk.id as int) >= 1,
        forall|j: int| results_for(rq, j) >= 0,
    decreases k,
{
    assert forall|j: int| results_for(rq, j) >= 0 by {
        lemma_results_for_nonneg(rq, j);
    }
    if k > 0 {
        assert(rq.drop_first()[k - 1] == rq[k]);
        lemma_results_for_at(rq.drop_first(), k - 1);
    } else {
        lemma_results_for_nonneg(rq.drop_first(), rq[0].chunk.id as int);
    }
}

proof fn lemma_results_for_nonneg(rq: Seq<ChunkResult>, id: int)
    ensures
        results_for(rq, id) >= 0,
    decreases rq.len(),
{
    if rq.len() > 0 {
        lemma_results_for_nonneg(rq.drop_first(), id);
    }
}

/// When every payload is exactly its chunk's slice of the resource, their
/// ordered concatenation rebuilds the resource's prefix up to the last
/// chunk taken in.
proof fn lemma_concat_slices_is_prefix(
    table: Seq<Chunk>,
    payloads: Seq<Seq<u8>>,
    resource: Seq<u8>,
    k: int,
)
    requires
        tiles(table, resource.len() as int),
        payloads.len() == table.len(),
        0 <= k <= table.len(),
        forall|j: int|
            0 <= j < k ==> (#[trigger] payloads[j]) == resource.subrange(
                table[j].start as int,
                table[j].end + 1,
            ),
    ensures
        concat_up_to(payloads, k) == resource.subrange(
            0,
            if k == 0 {
                0int
            } else {
                table[k - 1].end + 1
            },
        ),
    decreases k,
{
    if k > 0 {
        lemma_concat_slices_is_prefix(table, payloads, resource, k - 1);
        lemma_tiles_end_bound(table, resource.len() as int, k - 1);
        let hi = table[k - 1].end + 1;
        let mid = table[k - 1].start as int;
        if k == 1 {
            assert(mid == 0);
        } else {
            assert(table[k - 2].end + 1 == table[k - 1].start);
        }
        assert(concat_up_to(payloads, k) == concat_up_to(payloads, k - 1) + payloads[k - 1]);
        assert(resource.subrange(0, mid) + resource.subrange(mid, hi) =~= resource.subrange(
            0,
            hi,
        ));
    }
}

/// One entry of the task queue is well formed against the table: a real
/// work item (never a stop signal while work is in flight), a fresh
/// `Pending` copy of a table entry that is itself still pending.
pub open spec fn task_entry_ok(t: Option<Chunk>, table: Seq<Chunk>) -> bool {
    t matches Some(c) && (c.id as int) < table.len() && table[c.id as int].status is Pending && c
        == (Chunk { status: Status::Pending, ..table[c.id as int] })
}

/// One entry of the result queue is well formed against the table and the
/// resource: it reports a still-pending table entry's own range, and a
/// successful report carries exactly that range's bytes.
pub open spec fn result_entry_ok(r: ChunkResult, table: Seq<Chunk>, resource: Seq<u8>) -> bool {
    &&& (r.chunk.id as int) < table.len()
    &&& table[r.chunk.id as int].status is Pending
    &&& r.chunk.start == table[r.chunk.id as int].start
    &&& r.chunk.end == table[r.chunk.id as int].end
    &&& (r.chunk.status is Downloaded ==> r.data@ == resource.subrange(
        r.chunk.start as int,
        r.chunk.end + 1,
    ))
}

/// Copy of the resource bytes in `[start, end]` (inclusive): what the
/// simulated transport returns for a successful ranged fetch.
fn copy_range(resource: &Vec<u8>, start: usize, end: usize) -> (out: Vec<u8>)
    requires
        start <= end < resource@.len(),
    ensures
        out@ == resource@.subrange(start as int, end + 1),
{
    let rlen = resource.len();
    let mut out: Vec<u8> = Vec::new();
    let mut j: usize = start;
    while j <= end
        invariant
            start <= j <= end + 1,
            end < rlen,
            rlen == resource@.len(),
            out@ == resource@.subrange(start as int, j as int),
        decreases end + 1 - j,
    {
        out.push(resource[j]);
        proof {
            assert(out@ =~= resource@.subrange(start as int, j + 1));
        }
        j = j + 1;
    }
    out
}

/// What one run of the simulated engine produced.
pub struct SimReport {
    /// The merged output file.
    pub output: Vec<u8>,
    /// For each worker, how many stop signals it observed before exiting.
    pub stops: Vec<usize>,
}

/// How many copies of chunk `id` are anywhere in flight: queued as a task
/// or waiting as a result.
pub open spec fn in_flight(tq: Seq<Option<Chunk>>, rq: Seq<ChunkResult>, id: int) -> int {
    tasks_for(tq, id) + results_for(rq, id)
}

/// The simulation's steady state: the coordinator is well formed, both
/// queues hold only well-formed entries, every pending chunk is in flight
/// exactly once, every downloaded chunk not at all, and every downloaded
/// chunk was delivered with exactly its slice of the resource.
pub open spec fn sim_inv(
    coord: Coordinator,
    tq: Seq<Option<Chunk>>,
    rq: Seq<ChunkResult>,
    rem: Seq<usize>,
    resource: Seq<u8>,
    n: int,
) -> bool {
    &&& coord.inv()
    &&& coord.wf()
    &&& coord@.total == resource.len() as int
    &&& coord@.table.len() == n
    &&& rem.len() == n
    &&& forall|k: int| 0 <= k < tq.len() ==> task_entry_ok(#[trigger] tq[k], coord@.table)
    &&& forall|k: int|
        0 <= k < rq.len() ==> result_entry_ok(#[trigger] rq[k], coord@.table, resource)
    &&& forall|id: int|
        0 <= id < n ==> #[trigger] in_flight(tq, rq, id) == (if coord@.table[id].status
            is Pending {
            1int
        } else {
            0int
        })
    &&& forall|id: int|
        0 <= id < n && (#[trigger] coord@.table[id]).status is Downloaded ==> coord@.delivered[id]
            == resource.subrange(coord@.table[id].start as int, coord@.table[id].end + 1)
}

/// Run the whole engine once, single-threaded, against a simulated
/// transport. The chunks for `resource` are planned under `policy` and all
/// queued; then, until every chunk is downloaded, either a worker takes the
/// next task — the simulated transport serves the exact bytes of the
/// requested range, except that chunk `id` still fails `fail_counts[id]`
/// more times — or the coordinator takes the next result, re-queueing
/// failures and merging in id order. Finally one stop signal per worker is
/// queued and each worker receives exactly one. Whatever the interleaving
/// and however often chunks failed first, the output equals the resource.
pub fn run_simulated(
    resource: &Vec<u8>,
    policy: Policy,
    num_workers: usize,
    fail_counts: &Vec<usize>,
) -> (r: SimReport)
    requires
        policy.valid(),
        num_workers >= 1,
        fail_counts@.len() == chunk_count(resource@.len() as int, policy),
    ensures
        r.output@ == resource@,
        r.stops@.len() == num_workers,
        forall|w: int| 0 <= w < num_workers ==> r.stops@[w] == 1,
{
    let total_size = resource.len();
    let mut coord = Coordinator::new(total_size, policy);
    let ghost n = coord@.table.len() as int;
    let n_chunks = coord.num_chunks();
    let mut task_chan: SharedChannel<Option<Chunk>> = SharedChannel::new("task");
    let mut result_chan: SharedChannel<ChunkResult> = SharedChannel::new("result");

    // The transport's remaining failure budget, one count per chunk.
    let mut remaining: Vec<usize> = Vec::new();
    let mut i: usize = 0;
    while i < n_chunks
        invariant
            i <= n_chunks,
            n_chunks == fail_counts@.len(),
            remaining@.len() == i,
        decreases n_chunks - i,
    {
        remaining.push(fail_counts[i]);
        i = i + 1;
    }

    // Queue every chunk as a task, in id order (any order would do).
    let mut i: usize = 0;
    while i < n_chunks
        invariant
            i <= n_chunks,
            coord.inv(),
            coord.wf(),
            coord@.total == resource@.len() as int,
            coord@.table.len() == n,
            n_chunks as int == n,
            remaining@.len() == n,
            result_chan@.len() == 0,
            forall|id: int| 0 <= id < n ==> (#[trigger] coord@.table[id]).status is Pending,
            forall|k: int|
                0 <= k < task_chan@.len() ==> task_entry_ok(#[trigger] task_chan@[k], coord@.table),
            forall|id: int|
                0 <= id < n ==> #[trigger] tasks_for(task_chan@, id) == (if id < i {
                    1int
                } else {
                    0int
                }),
        decreases n_chunks - i,
    {
        let c = coord.chunk_at(i);
        let ghost tq0 = task_chan@;
        task_chan.send(Some(c)).unwrap();
        proof {
            assert forall|id: int| 0 <= id < n implies #[trigger] tasks_for(task_chan@, id) == (
            if id < i + 1 {
                1int
            } else {
                0int
            }) by {
                lemma_tasks_for_push(tq0, Some(c), id);
            }
        }
        i = i + 1;
    }

    proof {
        assert forall|id: int|
            0 <= id < n implies #[trigger] in_flight(task_chan@, result_chan@, id) == (
        if coord@.table[id].status is Pending {
            1int
        } else {
            0int
        }) by {
            assert(results_for(result_chan@, id) == 0);
        }
        assert(sim_inv(coord, task_chan@, result_chan@, remaining@, resource@, n));
    }

    // The engine proper: drain tasks and results until every chunk is in.
    let mut done = false;
    while !done
        invariant
            sim_inv(coord, task_chan@, result_chan@, remaining@, resource@, n),
            done ==> coord@.ok == n,
        decreases 2 * sum_budget(remaining@) + 2 * task_chan@.len() + results_weight(
            result_chan@,
        ) + (if done {
            0int
        } else {
            1int
        }),
    {
        let ghost tq0 = task_chan@;
        let ghost rq0 = result_chan@;
        let ghost table0 = coord@.table;
        if coord.is_complete() {
            done = true;
            proof {
                lemma_sum_budget_nonneg(remaining@);
                lemma_results_weight_nonneg(result_chan@);
            }
        } else {
            match task_chan.try_recv() {
                Ok(task) => {
                    match task {
                        Some(chunk) => {
                            let id = chunk.id;
                            proof {
                                assert(task_entry_ok(tq0[0], coord@.table));
                                assert(in_flight(tq0, rq0, id as int) == 1);
                                lemma_tasks_for_nonneg(task_chan@, id as int);
                                lemma_results_for_nonneg(result_chan@, id as int);
                                assert(tasks_for(tq0, id as int) == 1 + tasks_for(
                                    task_chan@,
                                    id as int,
                                ));
                                assert(tasks_for(task_chan@, id as int) == 0);
                                assert(results_for(result_chan@, id as int) == 0);
                            }
                            let res: ChunkResult;
                            if remaining[id] > 0 {
                                // This attempt fails; one unit of budget burns.
                                let ghost rem0 = remaining@;
                                remaining[id] = remaining[id] - 1;
                                proof {
                                    lemma_sum_budget_update(rem0, id as int, remaining@[id as int]);
                                }
                                res = process_fetch(chunk, None);
                            } else {
                                proof {
                                    lemma_tiles_end_bound(coord@.table, coord@.total, id as int);
                                }
                                let data = copy_range(resource, chunk.start, chunk.end);
                                res = process_fetch(chunk, Some(data));
                            }
                            let ghost rq1 = result_chan@;
                            result_chan.send(res).unwrap();
                            proof {
                                lemma_results_weight_push(rq1, res);
                                lemma_sum_budget_nonneg(remaining@);
                                lemma_results_weight_nonneg(rq1);
                                assert forall|j: int|
                                    0 <= j < n implies #[trigger] in_flight(
                                    task_chan@,
                                    result_chan@,
                                    j,
                                ) == (if coord@.table[j].status is Pending {
                                    1int
                                } else {
                                    0int
                                }) by {
                                    assert(in_flight(tq0, rq0, j) == (if coord@.table[j].status
                                        is Pending {
                                        1int
                                    } else {
                                        0int
                                    }));
                                    lemma_results_for_push(rq1, res, j);
                                    assert(tasks_for(tq0, j) == (if tq0[0] matches Some(c) && c.id
                                        == j {
                                        1int
                                    } else {
                                        0int
                                    }) + tasks_for(task_chan@, j));
                                }
                                assert(sim_inv(
                                    coord,
                                    task_chan@,
                                    result_chan@,
                                    remaining@,
                                    resource@,
                                    n,
                                ));
                            }
                        },
                        None => {
                            proof {
                                assert(task_entry_ok(tq0[0], coord@.table));
                                assert(false);
                            }
                        },
                    }
                },
                Err(_) => {
                    match result_chan.try_recv() {
                        Ok(res) => {
                            let rchunk = res.chunk;
                            let id = rchunk.id;
                            let ghost rdata = res.data@;
                            proof {
                                assert(result_entry_ok(rq0[0], coord@.table, resource@));
                                assert(in_flight(tq0, rq0, id as int) == 1);
                                lemma_tasks_for_nonneg(task_chan@, id as int);
                                lemma_results_for_nonneg(result_chan@, id as int);
                                assert(results_for(rq0, id as int) == 1 + results_for(
                                    result_chan@,
                                    id as int,
                                ));
                                assert(tasks_for(task_chan@, id as int) == 0);
                                assert(results_for(result_chan@, id as int) == 0);
                            }
                            let requeue = coord.on_result(res);
                            match requeue {
                                Some(again) => {
                                    let ghost tq1 = task_chan@;
                                    task_chan.send(Some(again)).unwrap();
                                    proof {
                                        lemma_sum_budget_nonneg(remaining@);
                                        lemma_results_weight_nonneg(result_chan@);
                                        assert(results_weight(rq0) == (if rq0[0].chunk.status
                                            is Downloaded {
                                            1int
                                        } else {
                                            3int
                                        }) + results_weight(result_chan@));
                                        assert forall|j: int|
                                            0 <= j < n implies #[trigger] in_flight(
                                            task_chan@,
                                            result_chan@,
                                            j,
                                        ) == (if coord@.table[j].status is Pending {
                                            1int
                                        } else {
                                            0int
                                        }) by {
                                            assert(in_flight(tq0, rq0, j) == (
                                            if coord@.table[j].status is Pending {
                                                1int
                                            } else {
                                                0int
                                            }));
                                            lemma_tasks_for_push(tq1, Some(again), j);
                                            assert(results_for(rq0, j) == (if rq0[0].chunk.id == j {
                                                1int
                                            } else {
                                                0int
                                            }) + results_for(result_chan@, j));
                                        }
                                        assert(sim_inv(
                                            coord,
                                            task_chan@,
                                            result_chan@,
                                            remaining@,
                                            resource@,
                                            n,
                                        ));
                                    }
                                },
                                None => {
                                    proof {
                                        lemma_sum_budget_nonneg(remaining@);
                                        lemma_results_weight_nonneg(result_chan@);
                                        assert(results_weight(rq0) == (if rq0[0].chunk.status
                                            is Downloaded {
                                            1int
                                        } else {
                                            3int
                                        }) + results_weight(result_chan@));
                                        assert forall|j: int|
                                            0 <= j < n implies #[trigger] in_flight(
                                            task_chan@,
                                            result_chan@,
                                            j,
                                        ) == (if coord@.table[j].status is Pending {
                                            1int
                                        } else {
                                            0int
                                        }) by {
                                            assert(in_flight(tq0, rq0, j) == (if table0[j].status
                                                is Pending {
                                                1int
                                            } else {
                                                0int
                                            }));
                                            assert(results_for(rq0, j) == (if rq0[0].chunk.id == j {
                                                1int
                                            } else {
                                                0int
                                            }) + results_for(result_chan@, j));
                                        }
                                        if rchunk.status is Downloaded {
                                            assert(coord@.table == table0.update(
                                                id as int,
                                                (Chunk {
                                                    status: Status::Downloaded,
                                                    ..table0[id as int]
                                                }),
                                            ));
                                            assert forall|k: int|
                                                0 <= k < task_chan@.len() implies task_entry_ok(
                                                #[trigger] task_chan@[k],
                                                coord@.table,
                                            ) by {
                                                assert(task_entry_ok(task_chan@[k], table0));
                                                if (task_chan@[k]->0).id == id {
                                                    lemma_tasks_for_at(task_chan@, k, id as int);
                                                }
                                            }
                                            assert forall|k: int|
                                                0 <= k < result_chan@.len() implies result_entry_ok(
                                                #[trigger] result_chan@[k],
                                                coord@.table,
                                                resource@,
                                            ) by {
                                                assert(result_entry_ok(
                                                    result_chan@[k],
                                                    table0,
                                                    resource@,
                                                ));
                                                if result_chan@[k].chunk.id == id {
                                                    lemma_results_for_at(result_chan@, k);
                                                }
                                            }
                                        }
                                        assert(sim_inv(
                                            coord,
                                            task_chan@,
                                            result_chan@,
                                            remaining@,
                                            resource@,
                                            n,
                                        ));
                                    }
                                },
                            }
                        },
                        Err(_) => {
                            proof {
                                assert(tq0.len() == 0 && rq0.len() == 0);
                                assert(coord@.ok <= n) by {
                                    lemma_downloaded_up_to_le(coord@.table, n);
                                }
                                if (forall|id: int|
                                    0 <= id < n ==> (#[trigger] coord@.table[id]).status
                                        is Downloaded) {
                                    lemma_downloaded_up_to_full(coord@.table, n);
                                } else {
                                    let id = choose|id: int|
                                        0 <= id < n && !((#[trigger] coord@.table[id]).status
                                            is Downloaded);
                                    assert(in_flight(tq0, rq0, id) == 1);
                                }
                                assert(false);
                            }
                        },
                    }
                },
            }
        }
    }

    // Every chunk is in: the defensive tail merge finds nothing left over,
    // and the output now holds the whole resource.
    coord.finish();
    proof {
        lemma_downloaded_up_to_all(coord@.table, n);
        if task_chan@.len() > 0 {
            assert(task_entry_ok(task_chan@[0], coord@.table));
        }
        assert(task_chan@.len() == 0);
        lemma_concat_slices_is_prefix(coord@.table, coord@.delivered, resource@, n);
        if n == 0 {
            assert(resource@.len() == 0);
            assert(resource@.subrange(0, 0) =~= resource@);
        } else {
            assert(coord@.table[n - 1].end + 1 == resource@.len() as int);
            assert(resource@.subrange(0, resource@.len() as int) =~= resource@);
        }
    }

    // Shutdown: one stop signal per worker, and every worker receives
    // exactly one before exiting.
    let mut w: usize = 0;
    while w < num_workers
        invariant
            w <= num_workers,
            task_chan@.len() == w,
            forall|k: int| 0 <= k < w ==> (#[trigger] task_chan@[k]) is None,
        decreases num_workers - w,
    {
        task_chan.send(None).unwrap();
        w = w + 1;
    }
    let mut stops: Vec<usize> = Vec::new();
    let mut w: usize = 0;
    while w < num_workers
        invariant
            w <= num_workers,
            task_chan@.len() == num_workers - w,
            forall|k: int| 0 <= k < task_chan@.len() ==> (#[trigger] task_chan@[k]) is None,
            stops@.len() == w,
            forall|k: int| 0 <= k < w ==> (#[trigger] stops@[k]) == 1,
        decreases num_workers - w,
    {
        match task_chan.recv() {
            Ok(None) => {
                // This simulated worker observed its stop signal and exits.
                stops.push(1);
            },
            _ => {
                proof {
                    assert(false);
                }
                stops.push(0);
            },
        }
        w = w + 1;
    }

    SimReport { output: coord.into_output(), stops }
}

} // verus!
