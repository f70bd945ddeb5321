use chunkdl::chunk::Status;
use chunkdl::plan::{plan, Policy};

#[test]
fn plan_fixed_size_exact_division() {
    // A 10 MiB resource cut into 2.5 MiB chunks: four equal ranges.
    let chunks = plan(10_485_760, Policy::ChunkSize(2_621_440));
    assert_eq!(chunks.len(), 4);
    let expected = [
        (0usize, 2_621_439usize),
        (2_621_440, 5_242_879),
        (5_242_880, 7_864_319),
        (7_864_320, 10_485_759),
    ];
    for (i, c) in chunks.iter().enumerate() {
        assert_eq!(c.id, i);
        assert_eq!(c.start, expected[i].0);
        assert_eq!(c.end, expected[i].1);
        assert_eq!(c.status, Status::Pending);
    }
}

#[test]
fn plan_fixed_size_last_chunk_absorbs_remainder() {
    let chunks = plan(10, Policy::ChunkSize(4));
    assert_eq!(chunks.len(), 2);
    assert_eq!((chunks[0].start, chunks[0].end), (0, 3));
    assert_eq!((chunks[1].start, chunks[1].end), (4, 9));
}

#[test]
fn plan_chunk_size_larger_than_resource() {
    let chunks = plan(5, Policy::ChunkSize(100));
    assert_eq!(chunks.len(), 1);
    assert_eq!((chunks[0].start, chunks[0].end), (0, 4));
}

#[test]
fn plan_worker_count_near_equal() {
    let chunks = plan(10, Policy::WorkerCount(4));
    assert_eq!(chunks.len(), 4);
    assert_eq!((chunks[0].start, chunks[0].end), (0, 1));
    assert_eq!((chunks[1].start, chunks[1].end), (2, 3));
    assert_eq!((chunks[2].start, chunks[2].end), (4, 5));
    assert_eq!((chunks[3].start, chunks[3].end), (6, 9));
}

#[test]
fn plan_more_workers_than_bytes() {
    let chunks = plan(3, Policy::WorkerCount(8));
    assert_eq!(chunks.len(), 1);
    assert_eq!((chunks[0].start, chunks[0].end), (0, 2));
}

#[test]
fn plan_zero_length_resource_has_no_chunks() {
    assert_eq!(plan(0, Policy::ChunkSize(1024)).len(), 0);
    assert_eq!(plan(0, Policy::WorkerCount(4)).len(), 0);
}

#[test]
fn plan_tiles_without_gaps_or_overlaps() {
    for total in [1usize, 2, 7, 100, 1023, 1024, 1025] {
        for policy in [Policy::ChunkSize(256), Policy::WorkerCount(3)] {
            let chunks = plan(total, policy);
            assert!(!chunks.is_empty());
            assert_eq!(chunks[0].start, 0);
            for w in chunks.windows(2) {
                assert_eq!(w[0].end + 1, w[1].start);
            }
            assert_eq!(chunks[chunks.len() - 1].end, total - 1);
        }
    }
}
