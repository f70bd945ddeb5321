use chunkdl::plan::Policy;
use chunkdl::sim::run_simulated;

fn resource(len: usize) -> Vec<u8> {
    (0..len).map(|i| (i % 251) as u8).collect()
}

#[test]
fn ten_mib_four_workers_with_one_failure() {
    // A 10 MiB resource, 4 workers, fixed 2.5 MiB chunks; chunk id 2 fails
    // once and then succeeds. The output must be byte-identical to the
    // whole resource.
    let data = resource(10 * 1024 * 1024);
    let fails = vec![0, 0, 1, 0];
    let report = run_simulated(&data, Policy::ChunkSize(2_621_440), 4, &fails);
    assert_eq!(report.output.len(), 10_485_760);
    assert_eq!(report.output, data);
    assert_eq!(report.stops, vec![1, 1, 1, 1]);
}

#[test]
fn zero_length_resource_completes_with_empty_output() {
    let data: Vec<u8> = Vec::new();
    let fails: Vec<usize> = Vec::new();
    let report = run_simulated(&data, Policy::ChunkSize(1024), 3, &fails);
    assert!(report.output.is_empty());
    assert_eq!(report.stops, vec![1, 1, 1]);
}

#[test]
fn single_worker_single_chunk_is_a_sequential_download() {
    let data = resource(4096);
    let fails = vec![0];
    let report = run_simulated(&data, Policy::ChunkSize(1 << 20), 1, &fails);
    assert_eq!(report.output, data);
    assert_eq!(report.stops, vec![1]);
}

#[test]
fn repeated_failures_only_delay_the_download() {
    let data = resource(1000);
    let fails = vec![2, 0, 5, 1];
    let report = run_simulated(&data, Policy::ChunkSize(250), 2, &fails);
    assert_eq!(report.output, data);
    assert_eq!(report.stops, vec![1, 1]);
}

#[test]
fn worker_count_policy_downloads_everything() {
    let data = resource(12345);
    let fails = vec![0, 1, 0, 2];
    let report = run_simulated(&data, Policy::WorkerCount(4), 4, &fails);
    assert_eq!(report.output, data);
    assert_eq!(report.stops, vec![1, 1, 1, 1]);
}
