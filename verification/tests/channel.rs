use chunkdl::channel::{ChannelError, SharedChannel};
use chunkdl::chunk::{Chunk, Status};

#[test]
fn channel_preserves_fifo_order() {
    let mut ch: SharedChannel<u32> = SharedChannel::new("test");
    ch.send(1).unwrap();
    ch.send(2).unwrap();
    ch.send(3).unwrap();
    assert_eq!(ch.recv().unwrap(), 1);
    assert_eq!(ch.recv().unwrap(), 2);
    assert_eq!(ch.try_recv().unwrap(), 3);
}

#[test]
fn channel_try_recv_reports_empty() {
    let mut ch: SharedChannel<u32> = SharedChannel::new("test");
    assert_eq!(ch.try_recv(), Err(ChannelError::Empty));
    ch.send(7).unwrap();
    assert_eq!(ch.try_recv(), Ok(7));
    assert_eq!(ch.try_recv(), Err(ChannelError::Empty));
}

#[test]
fn channel_recv_on_empty_reports_closed() {
    let mut ch: SharedChannel<String> = SharedChannel::new("test");
    assert_eq!(ch.recv(), Err(ChannelError::Closed));
}

#[test]
fn channel_keeps_its_name() {
    let ch: SharedChannel<u32> = SharedChannel::new("result");
    assert_eq!(ch.name(), "result");
}

#[test]
fn stop_signals_come_out_after_all_work_items() {
    // The stop-signal protocol: queue every work item first, then one stop
    // signal per worker; FIFO order means no receiver can see a stop signal
    // until all work items are taken.
    let mut ch: SharedChannel<Option<Chunk>> = SharedChannel::new("task");
    let n_tasks: usize = 5;
    let n_workers: usize = 3;
    for id in 0..n_tasks {
        let c = Chunk { id, start: id * 4, end: id * 4 + 3, status: Status::Pending };
        ch.send(Some(c)).unwrap();
    }
    for _ in 0..n_workers {
        ch.send(None).unwrap();
    }
    for id in 0..n_tasks {
        let got = ch.recv().unwrap();
        assert!(got.is_some());
        assert_eq!(got.unwrap().id, id);
    }
    for _ in 0..n_workers {
        assert!(ch.recv().unwrap().is_none());
    }
    assert_eq!(ch.recv(), Err(ChannelError::Closed));
}
