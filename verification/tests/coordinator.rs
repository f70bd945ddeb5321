use chunkdl::chunk::{Chunk, ChunkResult, Status};
use chunkdl::coordinator::Coordinator;
use chunkdl::plan::Policy;
use chunkdl::worker::process_fetch;

fn resource(len: usize) -> Vec<u8> {
    (0..len).map(|i| (i % 251) as u8).collect()
}

fn success_for(c: Chunk, bytes: &[u8]) -> ChunkResult {
    process_fetch(c, Some(bytes[c.start..=c.end].to_vec()))
}

fn failure_for(c: Chunk) -> ChunkResult {
    process_fetch(c, None)
}

/// Drive the coordinator with successes in the given id order and hand the
/// merged output back.
fn drive(data: &[u8], policy: Policy, order: &[usize]) -> Vec<u8> {
    let mut coord = Coordinator::new(data.len(), policy);
    assert_eq!(coord.num_chunks(), order.len());
    for &id in order {
        let c = coord.chunk_at(id);
        let requeue = coord.on_result(success_for(c, data));
        assert!(requeue.is_none());
    }
    assert!(coord.is_complete());
    coord.finish();
    coord.into_output()
}

#[test]
fn merge_is_ordered_regardless_of_completion_order() {
    let data = resource(64);
    let policy = Policy::ChunkSize(8);
    let baseline = drive(&data, policy, &[0, 1, 2, 3, 4, 5, 6, 7]);
    assert_eq!(baseline, data);
    let shuffles: [[usize; 8]; 4] = [
        [7, 6, 5, 4, 3, 2, 1, 0],
        [3, 0, 7, 1, 6, 2, 5, 4],
        [1, 0, 3, 2, 5, 4, 7, 6],
        [4, 5, 6, 7, 0, 1, 2, 3],
    ];
    for order in shuffles {
        assert_eq!(drive(&data, policy, &order), baseline);
    }
}

#[test]
fn failed_chunk_is_requeued_then_merged_once_at_its_offset() {
    let data = resource(30);
    let mut coord = Coordinator::new(data.len(), Policy::ChunkSize(10));
    assert_eq!(coord.num_chunks(), 3);
    // Chunks 0 and 2 succeed straight away.
    let c0 = coord.chunk_at(0);
    let c2 = coord.chunk_at(2);
    assert!(coord.on_result(success_for(c0, &data)).is_none());
    assert!(coord.on_result(success_for(c2, &data)).is_none());
    // Chunk 1 fails twice: each failure hands back a pending copy to queue
    // again, and nothing is merged meanwhile.
    let mut c1 = coord.chunk_at(1);
    for _ in 0..2 {
        assert!(!coord.is_complete());
        let requeue = coord.on_result(failure_for(c1));
        let again = requeue.expect("a failed chunk must be handed back");
        assert_eq!(again.id, 1);
        assert_eq!(again.start, 10);
        assert_eq!(again.end, 19);
        assert_eq!(again.status, Status::Pending);
        c1 = again;
    }
    // The third attempt succeeds; only this final payload is merged.
    assert!(coord.on_result(success_for(c1, &data)).is_none());
    assert!(coord.is_complete());
    coord.finish();
    let out = coord.into_output();
    assert_eq!(out, data);
    assert_eq!(&out[10..20], &data[10..20]);
}

#[test]
fn duplicate_success_is_ignored() {
    let data = resource(8);
    let mut coord = Coordinator::new(data.len(), Policy::ChunkSize(8));
    assert_eq!(coord.num_chunks(), 1);
    let c0 = coord.chunk_at(0);
    assert!(coord.on_result(success_for(c0, &data)).is_none());
    assert!(coord.is_complete());
    // A second success for the same id changes nothing.
    let c0 = coord.chunk_at(0);
    assert!(coord.on_result(ChunkResult { chunk: c0, data: vec![9; 8] }).is_none());
    assert!(coord.is_complete());
    coord.finish();
    assert_eq!(coord.into_output(), data);
}

#[test]
fn zero_length_resource_completes_immediately() {
    let mut coord = Coordinator::new(0, Policy::ChunkSize(1024));
    assert_eq!(coord.num_chunks(), 0);
    assert!(coord.is_complete());
    coord.finish();
    assert_eq!(coord.into_output(), Vec::<u8>::new());
}

#[test]
fn process_fetch_builds_the_result() {
    let c = Chunk { id: 3, start: 12, end: 15, status: Status::Pending };
    assert_eq!(c.len(), 4);
    assert_eq!(c.reset().status, Status::Pending);
    let ok = process_fetch(c, Some(vec![1, 2, 3, 4]));
    assert_eq!(ok.chunk.id, 3);
    assert_eq!(ok.chunk.start, 12);
    assert_eq!(ok.chunk.end, 15);
    assert_eq!(ok.chunk.status, Status::Downloaded);
    assert_eq!(ok.data, vec![1, 2, 3, 4]);
    let failed = process_fetch(c, None);
    assert_eq!(failed.chunk.status, Status::Pending);
    assert_eq!(failed.chunk.id, 3);
    assert!(failed.data.is_empty());
}
