use dozer_core::errors::ExecutionError;
use dozer_core::executor::{join_results, ExecutorOperation, ExecutorOptions, WorkerState};
use dozer_core::node::PortHandle;
use dozer_core::source::{SourceAction, SourceEvent, SourceWorker};
use dozer_core::worker::{InputPort, NodeWorker, WorkerAction, WorkerEvent};

fn op(port: PortHandle, value: u32) -> WorkerEvent<u32> {
    WorkerEvent::Message { port, message: ExecutorOperation::Op(value) }
}

fn barrier(port: PortHandle, offset: u64) -> WorkerEvent<u32> {
    WorkerEvent::Message { port, message: ExecutorOperation::Commit { offset } }
}

fn marker(port: PortHandle) -> WorkerEvent<u32> {
    WorkerEvent::Message { port, message: ExecutorOperation::Terminate }
}

fn running(ports: &[PortHandle]) -> NodeWorker {
    let mut worker = NodeWorker::new(ports.to_vec()).unwrap();
    assert_eq!(worker.step::<u32>(WorkerEvent::InitDone { ok: true }), Ok(WorkerAction::Continue));
    assert_eq!(worker.step::<u32>(WorkerEvent::Start), Ok(WorkerAction::Continue));
    worker
}

fn port(handle: PortHandle, pending: Option<u64>, closed: bool, committed: u64) -> InputPort {
    InputPort { handle, pending, closed, committed }
}

#[test]
fn a_worker_needs_ports_and_each_only_once() {
    assert!(matches!(NodeWorker::new(Vec::new()), Err(ExecutionError::MissingInput)));
    assert!(matches!(NodeWorker::new(vec![1, 2, 1]), Err(ExecutionError::DuplicatePort(1))));
    assert!(matches!(NodeWorker::new(vec![1, 2, 3, 3, 2]), Err(ExecutionError::DuplicatePort(3))));
    assert!(matches!(NodeWorker::new(vec![5, 4, 4, 5]), Err(ExecutionError::DuplicatePort(4))));
    let worker = NodeWorker::new(vec![7, 3]).unwrap();
    assert_eq!(worker.state(), WorkerState::Uninitialized);
    assert_eq!(worker.ports(), &vec![port(7, None, false, 0), port(3, None, false, 0)]);
}

#[test]
fn a_worker_goes_through_its_states_in_order() {
    let mut worker = NodeWorker::new(vec![1]).unwrap();
    assert_eq!(worker.step::<u32>(WorkerEvent::Start), Err(ExecutionError::InvalidState));
    assert_eq!(worker.step(op(1, 5)), Err(ExecutionError::InvalidState));
    assert!(!worker.can_receive(1));
    assert_eq!(worker.step::<u32>(WorkerEvent::InitDone { ok: true }), Ok(WorkerAction::Continue));
    assert_eq!(worker.state(), WorkerState::Initialized);
    assert_eq!(
        worker.step::<u32>(WorkerEvent::InitDone { ok: true }),
        Err(ExecutionError::InvalidState)
    );
    assert_eq!(worker.step(op(1, 5)), Err(ExecutionError::InvalidState));
    assert_eq!(worker.step::<u32>(WorkerEvent::Start), Ok(WorkerAction::Continue));
    assert_eq!(worker.state(), WorkerState::Running);
    assert_eq!(worker.step::<u32>(WorkerEvent::Start), Err(ExecutionError::InvalidState));
    assert!(worker.can_receive(1));
    assert_eq!(worker.step(marker(1)), Ok(WorkerAction::Terminate { record: vec![(1, 0)] }));
    assert_eq!(worker.state(), WorkerState::Terminated { clean: true });
    assert_eq!(worker.step(op(1, 5)), Err(ExecutionError::InvalidState));
    assert_eq!(worker.step::<u32>(WorkerEvent::Failure), Err(ExecutionError::InvalidState));
}

#[test]
fn a_failure_ends_the_worker_with_an_error() {
    let mut worker = NodeWorker::new(vec![1]).unwrap();
    assert_eq!(worker.step::<u32>(WorkerEvent::InitDone { ok: false }), Ok(WorkerAction::Abort));
    assert_eq!(worker.state(), WorkerState::Terminated { clean: false });
    let mut worker = running(&[1, 2]);
    assert_eq!(worker.step(barrier(1, 4)), Ok(WorkerAction::Continue));
    assert_eq!(worker.step::<u32>(WorkerEvent::Failure), Ok(WorkerAction::Abort));
    assert_eq!(worker.state(), WorkerState::Terminated { clean: false });
    assert_eq!(worker.step(op(2, 1)), Err(ExecutionError::InvalidState));
}

#[test]
fn operations_are_handed_to_the_node_as_they_arrive() {
    let mut worker = running(&[1, 2]);
    assert_eq!(worker.step(op(1, 10)), Ok(WorkerAction::Process { port: 1, op: 10 }));
    assert_eq!(worker.step(op(2, 20)), Ok(WorkerAction::Process { port: 2, op: 20 }));
    assert_eq!(worker.step(op(2, 21)), Ok(WorkerAction::Process { port: 2, op: 21 }));
    assert_eq!(worker.step(op(1, 11)), Ok(WorkerAction::Process { port: 1, op: 11 }));
    assert_eq!(worker.state(), WorkerState::Running);
    assert_eq!(worker.step(op(3, 1)), Err(ExecutionError::InvalidPortHandle(3)));
}

#[test]
fn a_commit_waits_for_a_barrier_on_every_port() {
    let mut worker = running(&[1, 2, 3]);
    assert_eq!(worker.step(barrier(2, 8)), Ok(WorkerAction::Continue));
    assert_eq!(worker.state(), WorkerState::Draining);
    assert!(!worker.can_receive(2));
    assert!(worker.can_receive(1));
    // the port that holds a barrier takes nothing more; the others go on
    assert_eq!(worker.step(op(2, 1)), Err(ExecutionError::PortNotReadable(2)));
    assert_eq!(worker.step(barrier(2, 9)), Err(ExecutionError::PortNotReadable(2)));
    assert_eq!(worker.step(op(1, 1)), Ok(WorkerAction::Process { port: 1, op: 1 }));
    assert_eq!(worker.step(barrier(1, 5)), Ok(WorkerAction::Continue));
    assert_eq!(
        worker.ports(),
        &vec![port(1, Some(5), false, 0), port(2, Some(8), false, 0), port(3, None, false, 0)]
    );
    assert_eq!(
        worker.step(barrier(3, 6)),
        Ok(WorkerAction::Commit { record: vec![(1, 5), (2, 8), (3, 6)], barrier: 8 })
    );
    assert_eq!(worker.state(), WorkerState::Running);
    assert_eq!(
        worker.ports(),
        &vec![port(1, None, false, 5), port(2, None, false, 8), port(3, None, false, 6)]
    );
    assert!(worker.can_receive(2));
}

#[test]
fn a_closed_port_is_not_waited_for() {
    let mut worker = running(&[1, 2]);
    assert_eq!(
        worker.step(barrier(1, 3)).and_then(|_| worker.step(barrier(2, 4))),
        Ok(WorkerAction::Commit { record: vec![(1, 3), (2, 4)], barrier: 4 })
    );
    assert_eq!(worker.step(marker(1)), Ok(WorkerAction::Continue));
    assert_eq!(worker.state(), WorkerState::Draining);
    assert_eq!(worker.step(op(1, 1)), Err(ExecutionError::PortNotReadable(1)));
    assert_eq!(worker.step(op(2, 1)), Ok(WorkerAction::Process { port: 2, op: 1 }));
    // the open port alone decides; the closed port keeps what it had committed
    assert_eq!(
        worker.step(barrier(2, 9)),
        Ok(WorkerAction::Commit { record: vec![(1, 3), (2, 9)], barrier: 9 })
    );
    assert_eq!(worker.state(), WorkerState::Draining);
    assert_eq!(worker.step(marker(2)), Ok(WorkerAction::Terminate { record: vec![(1, 3), (2, 9)] }));
    assert_eq!(worker.state(), WorkerState::Terminated { clean: true });
}

#[test]
fn a_marker_on_the_last_port_without_a_barrier_releases_the_commit() {
    let mut worker = running(&[1, 2]);
    assert_eq!(worker.step(barrier(1, 7)), Ok(WorkerAction::Continue));
    // port 2 ends without a barrier: every open port now holds one
    assert_eq!(
        worker.step(marker(2)),
        Ok(WorkerAction::Commit { record: vec![(1, 7), (2, 0)], barrier: 7 })
    );
    assert_eq!(worker.state(), WorkerState::Draining);
    assert_eq!(worker.step(marker(1)), Ok(WorkerAction::Terminate { record: vec![(1, 7), (2, 0)] }));
}

#[test]
fn a_single_port_commits_every_barrier_at_once() {
    let mut worker = running(&[4]);
    assert_eq!(worker.step(op(4, 1)), Ok(WorkerAction::Process { port: 4, op: 1 }));
    assert_eq!(
        worker.step(barrier(4, 1)),
        Ok(WorkerAction::Commit { record: vec![(4, 1)], barrier: 1 })
    );
    assert_eq!(worker.state(), WorkerState::Running);
    assert_eq!(
        worker.step(barrier(4, 2)),
        Ok(WorkerAction::Commit { record: vec![(4, 2)], barrier: 2 })
    );
    assert_eq!(worker.step(marker(4)), Ok(WorkerAction::Terminate { record: vec![(4, 2)] }));
}

#[test]
fn default_options() {
    let options = ExecutorOptions::default();
    assert_eq!(options.commit_sz, 10_000);
    assert_eq!(options.channel_buffer_sz, 20_000);
    assert_eq!(options.commit_time_threshold_ms, 50);
}

fn options(commit_sz: u32, commit_time_threshold_ms: u64) -> ExecutorOptions {
    ExecutorOptions { commit_sz, channel_buffer_sz: 10, commit_time_threshold_ms }
}

fn started(options: ExecutorOptions) -> SourceWorker {
    let mut source = SourceWorker::new(options);
    assert_eq!(source.state(), WorkerState::Uninitialized);
    assert_eq!(source.step::<u8>(SourceEvent::InitDone { ok: true }), Ok(SourceAction::Continue));
    assert_eq!(source.step::<u8>(SourceEvent::Start), Ok(SourceAction::Continue));
    assert_eq!(source.state(), WorkerState::Running);
    source
}

fn produced(op: u8, offset: u64, elapsed_ms: u64) -> SourceEvent<u8> {
    SourceEvent::Produced { op, offset, elapsed_ms }
}

#[test]
fn a_source_sends_a_barrier_after_commit_sz_operations() {
    let mut source = started(options(3, 1000));
    assert_eq!(source.step(produced(b'a', 1, 0)), Ok(SourceAction::Forward { op: b'a', barrier: None }));
    assert_eq!(source.step(produced(b'b', 2, 0)), Ok(SourceAction::Forward { op: b'b', barrier: None }));
    assert_eq!((source.position(), source.committed()), (2, 0));
    assert_eq!(
        source.step(produced(b'c', 3, 0)),
        Ok(SourceAction::Forward { op: b'c', barrier: Some(3) })
    );
    assert_eq!((source.position(), source.committed()), (3, 3));
    assert_eq!(source.step(produced(b'd', 4, 0)), Ok(SourceAction::Forward { op: b'd', barrier: None }));
}

#[test]
fn a_source_sends_a_barrier_when_the_time_has_passed() {
    let mut source = started(options(100, 50));
    assert_eq!(source.step(produced(1, 10, 49)), Ok(SourceAction::Forward { op: 1, barrier: None }));
    assert_eq!(
        source.step(produced(2, 20, 50)),
        Ok(SourceAction::Forward { op: 2, barrier: Some(20) })
    );
    assert_eq!(source.step(produced(3, 30, 5)), Ok(SourceAction::Forward { op: 3, barrier: None }));
    assert_eq!(source.step::<u8>(SourceEvent::Idle { elapsed_ms: 49 }), Ok(SourceAction::Continue));
    assert_eq!(
        source.step::<u8>(SourceEvent::Idle { elapsed_ms: 50 }),
        Ok(SourceAction::Commit { offset: 30 })
    );
    // nothing is left to commit
    assert_eq!(source.step::<u8>(SourceEvent::Idle { elapsed_ms: 500 }), Ok(SourceAction::Continue));
}

#[test]
fn a_commit_size_of_zero_or_one_commits_every_operation() {
    for commit_sz in [0, 1] {
        let mut source = started(options(commit_sz, 1000));
        assert_eq!(
            source.step(produced(1, 1, 0)),
            Ok(SourceAction::Forward { op: 1, barrier: Some(1) })
        );
        assert_eq!(
            source.step(produced(2, 2, 0)),
            Ok(SourceAction::Forward { op: 2, barrier: Some(2) })
        );
    }
}

#[test]
fn a_source_that_ends_commits_what_it_has_sent() {
    let mut source = started(options(100, 1000));
    source.step(produced(1, 41, 0)).unwrap();
    source.step(produced(2, 42, 0)).unwrap();
    assert_eq!(
        source.step::<u8>(SourceEvent::Exhausted),
        Ok(SourceAction::Terminate { barrier: Some(42) })
    );
    assert_eq!(source.state(), WorkerState::Terminated { clean: true });
    assert_eq!((source.position(), source.committed()), (42, 42));
    assert_eq!(source.step(produced(3, 43, 0)), Err(ExecutionError::InvalidState));
    assert_eq!(source.step::<u8>(SourceEvent::StopRequested), Err(ExecutionError::InvalidState));

    let mut source = started(options(2, 1000));
    source.step(produced(1, 1, 0)).unwrap();
    source.step(produced(2, 2, 0)).unwrap();
    assert_eq!(
        source.step::<u8>(SourceEvent::StopRequested),
        Ok(SourceAction::Terminate { barrier: None })
    );
    assert_eq!((source.position(), source.committed()), (2, 2));
}

#[test]
fn a_source_can_be_stopped_before_it_starts_but_not_before_it_is_initialised() {
    let mut source = SourceWorker::new(ExecutorOptions::default());
    assert_eq!(source.step::<u8>(SourceEvent::StopRequested), Err(ExecutionError::InvalidState));
    assert_eq!(source.step::<u8>(SourceEvent::Exhausted), Err(ExecutionError::InvalidState));
    assert_eq!(source.step::<u8>(SourceEvent::Idle { elapsed_ms: 1 }), Err(ExecutionError::InvalidState));
    assert_eq!(source.step::<u8>(SourceEvent::Start), Err(ExecutionError::InvalidState));
    source.step::<u8>(SourceEvent::InitDone { ok: true }).unwrap();
    assert_eq!(source.step::<u8>(SourceEvent::Exhausted), Err(ExecutionError::InvalidState));
    assert_eq!(
        source.step::<u8>(SourceEvent::StopRequested),
        Ok(SourceAction::Terminate { barrier: None })
    );
    assert_eq!(source.state(), WorkerState::Terminated { clean: true });
}

#[test]
fn a_source_that_fails_ends_with_an_error() {
    let mut source = SourceWorker::new(ExecutorOptions::default());
    assert_eq!(source.step::<u8>(SourceEvent::InitDone { ok: false }), Ok(SourceAction::Abort));
    assert_eq!(source.state(), WorkerState::Terminated { clean: false });
    let mut source = started(ExecutorOptions::default());
    source.step(produced(1, 1, 0)).unwrap();
    assert_eq!(source.step::<u8>(SourceEvent::Failure), Ok(SourceAction::Abort));
    assert_eq!(source.state(), WorkerState::Terminated { clean: false });
    assert_eq!(source.step::<u8>(SourceEvent::Failure), Err(ExecutionError::InvalidState));
    assert_eq!((source.position(), source.committed()), (1, 0));
}

#[test]
fn a_run_fails_with_the_failure_of_the_worker_that_failed_first() {
    assert_eq!(join_results::<&str>(Vec::new()), Ok(()));
    assert_eq!(join_results::<&str>(vec![Ok(()), Ok(())]), Ok(()));
    assert_eq!(join_results(vec![Ok(()), Err("disk"), Err("closed"), Ok(())]), Err("disk"));
    assert_eq!(join_results(vec![Err("closed"), Err("disk")]), Err("closed"));
    assert_eq!(join_results(vec![Ok(()), Ok(()), Err("last")]), Err("last"));
}
