use std::collections::VecDeque;

use dozer_core::dag::{Dag, Endpoint};
use dozer_core::dag_metadata::{Consistency, DagMetadataManager, PortCommit, SourcePosition};
use dozer_core::executor::{ExecutorOperation, ExecutorOptions, WorkerState};
use dozer_core::node::{
    NodeHandle, NodeType, OutputPortDef, OutputPortDefOptions, PortHandle, DEFAULT_PORT_HANDLE,
};
use dozer_core::source::{SourceAction, SourceEvent, SourceWorker};
use dozer_core::worker::{NodeWorker, WorkerAction, WorkerEvent};

const GENERATOR_SOURCE_OUTPUT_PORT: PortHandle = 100;
const COUNTING_SINK_INPUT_PORT: PortHandle = 90;

type Message = ExecutorOperation<u64>;

/// A source that generates `count` operations, numbered from 1.
fn generator_source(stateful: bool) -> NodeType {
    NodeType::Source {
        output_ports: vec![OutputPortDef::new(
            GENERATOR_SOURCE_OUTPUT_PORT,
            OutputPortDefOptions::new(stateful, stateful, stateful),
        )],
    }
}

/// A processor that sends every operation on as it is.
fn noop_processor(input_ports: Vec<PortHandle>) -> NodeType {
    NodeType::Processor {
        input_ports,
        output_ports: vec![OutputPortDef::new(DEFAULT_PORT_HANDLE, OutputPortDefOptions::default())],
    }
}

/// A sink that counts what arrives.
fn counting_sink() -> NodeType {
    NodeType::Sink { input_ports: vec![COUNTING_SINK_INPUT_PORT] }
}

struct SourceRun {
    handle: NodeHandle,
    worker: SourceWorker,
    count: u64,
    produced: u64,
    stop: bool,
    data: Vec<usize>,
    all: Vec<usize>,
}

struct NodeRun {
    handle: NodeHandle,
    worker: NodeWorker,
    inputs: Vec<(usize, PortHandle)>,
    data: Vec<usize>,
    all: Vec<usize>,
    processed: u64,
    record: Vec<(PortHandle, u64)>,
}

/// Runs a graph on one thread: bounded queues stand for the connections, and
/// the workers of the library decide what every node does.
struct Run {
    capacity: usize,
    channels: Vec<VecDeque<Message>>,
    sources: Vec<SourceRun>,
    nodes: Vec<NodeRun>,
    positions: Vec<SourcePosition>,
}

impl Run {
    fn new(dag: &Dag, options: ExecutorOptions, counts: &[(NodeHandle, u64)]) -> Run {
        let mut sources = Vec::new();
        let mut nodes = Vec::new();
        for i in 0..dag.node_count() {
            let handle = dag.node_handle(i).unwrap().duplicate();
            let all = dag.outputs_of(&handle);
            match dag.node_kind(i).unwrap() {
                NodeType::Source { output_ports } => {
                    let count = counts.iter().find(|(h, _)| h.same(&handle)).unwrap().1;
                    let mut worker = SourceWorker::new(options);
                    worker.step::<u64>(SourceEvent::InitDone { ok: true }).unwrap();
                    worker.step::<u64>(SourceEvent::Start).unwrap();
                    let data = dag.outputs_on(&handle, output_ports[0].handle);
                    sources.push(SourceRun { handle, worker, count, produced: 0, stop: false, data, all });
                }
                NodeType::Processor { input_ports, .. } | NodeType::Sink { input_ports } => {
                    let mut worker = NodeWorker::new(input_ports.clone()).unwrap();
                    worker.step::<u64>(WorkerEvent::InitDone { ok: true }).unwrap();
                    worker.step::<u64>(WorkerEvent::Start).unwrap();
                    let inputs = dag
                        .inputs_of(&handle)
                        .into_iter()
                        .map(|edge| (edge, dag.edge(edge).unwrap().to.port))
                        .collect();
                    let data = dag.outputs_on(&handle, DEFAULT_PORT_HANDLE);
                    nodes.push(NodeRun { handle, worker, inputs, data, all, processed: 0, record: Vec::new() });
                }
            }
        }
        Run {
            capacity: options.channel_buffer_sz,
            channels: (0..dag.edge_count()).map(|_| VecDeque::new()).collect(),
            sources,
            nodes,
            positions: Vec::new(),
        }
    }

    fn has_room(&self, edges: &[usize]) -> bool {
        // room for an operation and the barrier that may follow it
        edges.iter().all(|edge| self.channels[*edge].len() + 2 <= self.capacity)
    }

    fn send(&mut self, edges: &[usize], message: Message) {
        for edge in edges {
            self.channels[*edge].push_back(message.clone());
        }
    }

    fn step_source(&mut self, s: usize) -> bool {
        if self.sources[s].worker.state() != WorkerState::Running {
            return false;
        }
        let all = self.sources[s].all.clone();
        if !self.has_room(&all) {
            return false;
        }
        let source = &mut self.sources[s];
        let event = if source.stop {
            SourceEvent::StopRequested
        } else if source.produced < source.count {
            source.produced += 1;
            SourceEvent::Produced { op: source.produced, offset: source.produced, elapsed_ms: 0 }
        } else {
            SourceEvent::Exhausted
        };
        let action = source.worker.step(event).unwrap();
        let handle = source.handle.duplicate();
        let data = source.data.clone();
        let mut barrier_sent = None;
        match action {
            SourceAction::Forward { op, barrier } => {
                self.send(&data, ExecutorOperation::Op(op));
                barrier_sent = barrier;
            }
            SourceAction::Commit { offset } => barrier_sent = Some(offset),
            SourceAction::Terminate { barrier } => {
                if let Some(offset) = barrier {
                    self.positions.push(SourcePosition { source: handle.duplicate(), offset });
                    self.send(&all, ExecutorOperation::Commit { offset });
                }
                self.send(&all, ExecutorOperation::Terminate);
            }
            SourceAction::Continue => {}
            SourceAction::Abort => panic!("a source failed"),
        }
        if let Some(offset) = barrier_sent {
            self.positions.push(SourcePosition { source: handle, offset });
            self.send(&all, ExecutorOperation::Commit { offset });
        }
        true
    }

    fn step_node(&mut self, n: usize) -> bool {
        let all = self.nodes[n].all.clone();
        if !self.has_room(&all) {
            return false;
        }
        let inputs = self.nodes[n].inputs.clone();
        let mut progressed = false;
        for (edge, port) in inputs {
            if self.channels[edge].is_empty() || !self.nodes[n].worker.can_receive(port) {
                continue;
            }
            let message = self.channels[edge].pop_front().unwrap();
            let action = self.nodes[n].worker.step(WorkerEvent::Message { port, message }).unwrap();
            let data = self.nodes[n].data.clone();
            match action {
                WorkerAction::Process { op, .. } => {
                    self.nodes[n].processed += 1;
                    self.send(&data, ExecutorOperation::Op(op));
                }
                WorkerAction::Commit { record, barrier } => {
                    self.nodes[n].record = record;
                    self.send(&all, ExecutorOperation::Commit { offset: barrier });
                }
                WorkerAction::Terminate { record } => {
                    self.nodes[n].record = record;
                    self.send(&all, ExecutorOperation::Terminate);
                }
                WorkerAction::Continue => {}
                WorkerAction::Abort => panic!("a node failed"),
            }
            progressed = true;
            break;
        }
        progressed
    }

    /// One turn for every worker; whether any of them did something.
    fn turn(&mut self) -> bool {
        let mut progressed = false;
        for s in 0..self.sources.len() {
            progressed |= self.step_source(s);
        }
        for n in 0..self.nodes.len() {
            progressed |= self.step_node(n);
        }
        progressed
    }

    fn stop(&mut self) {
        for source in self.sources.iter_mut() {
            source.stop = true;
        }
    }

    /// Runs until nothing moves; whether every worker has ended in order.
    fn join(&mut self) -> Result<(), String> {
        while self.turn() {}
        for source in &self.sources {
            if source.worker.state() != (WorkerState::Terminated { clean: true }) {
                return Err(format!("source {:?} has not ended", source.handle));
            }
        }
        for node in &self.nodes {
            if node.worker.state() != (WorkerState::Terminated { clean: true }) {
                return Err(format!("node {:?} has not ended", node.handle));
            }
        }
        if self.channels.iter().any(|channel| !channel.is_empty()) {
            return Err(String::from("messages are left on a connection"));
        }
        Ok(())
    }

    fn processed(&self, handle: &NodeHandle) -> u64 {
        self.nodes.iter().find(|node| node.handle.same(handle)).unwrap().processed
    }

    fn commits(&self) -> Vec<PortCommit> {
        let mut commits = Vec::new();
        for node in &self.nodes {
            for (port, offset) in &node.record {
                commits.push(PortCommit { node: node.handle.duplicate(), port: *port, offset: *offset });
            }
        }
        commits
    }
}

#[test]
fn test_run_dag() {
    let count: u64 = 1_000_000;

    let mut dag = Dag::new();

    let source_handle = NodeHandle::new(Some(1), 1.to_string());
    let proc_handle = NodeHandle::new(Some(1), 2.to_string());
    let sink_handle = NodeHandle::new(Some(1), 3.to_string());

    dag.add_node(generator_source(false), source_handle.clone()).unwrap();
    dag.add_node(noop_processor(vec![DEFAULT_PORT_HANDLE]), proc_handle.clone()).unwrap();
    dag.add_node(counting_sink(), sink_handle.clone()).unwrap();

    dag.connect(
        Endpoint::new(source_handle.clone(), GENERATOR_SOURCE_OUTPUT_PORT),
        Endpoint::new(proc_handle.clone(), DEFAULT_PORT_HANDLE),
    )
    .unwrap();

    dag.connect(
        Endpoint::new(proc_handle.clone(), DEFAULT_PORT_HANDLE),
        Endpoint::new(sink_handle.clone(), COUNTING_SINK_INPUT_PORT),
    )
    .unwrap();

    let mut executor = Run::new(&dag, ExecutorOptions::default(), &[(source_handle, count)]);
    assert!(executor.join().is_ok());
    assert_eq!(executor.processed(&proc_handle), count);
    assert_eq!(executor.processed(&sink_handle), count);
}

#[test]
fn test_run_dag_and_stop() {
    let count: u64 = 1_000_000;

    let mut dag = Dag::new();

    let source_handle = NodeHandle::new(None, 1.to_string());
    let proc_handle = NodeHandle::new(Some(1), 2.to_string());
    let sink_handle = NodeHandle::new(Some(1), 3.to_string());

    dag.add_node(generator_source(false), source_handle.clone()).unwrap();
    dag.add_node(noop_processor(vec![DEFAULT_PORT_HANDLE]), proc_handle.clone()).unwrap();
    dag.add_node(counting_sink(), sink_handle.clone()).unwrap();

    dag.connect(
        Endpoint::new(source_handle.clone(), GENERATOR_SOURCE_OUTPUT_PORT),
        Endpoint::new(proc_handle.clone(), DEFAULT_PORT_HANDLE),
    )
    .unwrap();

    dag.connect(
        Endpoint::new(proc_handle, DEFAULT_PORT_HANDLE),
        Endpoint::new(sink_handle.clone(), COUNTING_SINK_INPUT_PORT),
    )
    .unwrap();

    let mut executor =
        Run::new(&dag, ExecutorOptions::default(), &[(source_handle.clone(), count)]);

    for _ in 0..1000 {
        executor.turn();
    }
    executor.stop();
    assert!(executor.join().is_ok());
    assert_eq!(executor.processed(&sink_handle), 1000);

    let positions = executor.positions.clone();
    let r = DagMetadataManager::new(&dag, positions, executor.commits());
    let c = r.get_checkpoint_consistency();
    assert_eq!(c.len(), 1);
    assert!(c[0].0.same(&source_handle));
    assert!(matches!(c[0].1, Consistency::FullyConsistent(_)));
    assert_eq!(r.classify(&source_handle), Ok(Consistency::FullyConsistent(1000)));
}

fn two_sources(stateful: bool) {
    let count: u64 = 50_000;

    let mut dag = Dag::new();

    let source1_handle = NodeHandle::new(None, 1.to_string());
    let source2_handle = NodeHandle::new(None, 2.to_string());

    let proc_handle = NodeHandle::new(Some(1), 1.to_string());
    let sink_handle = NodeHandle::new(Some(1), 2.to_string());

    dag.add_node(generator_source(stateful), source1_handle.clone()).unwrap();
    dag.add_node(generator_source(stateful), source2_handle.clone()).unwrap();
    dag.add_node(noop_processor(vec![1, 2]), proc_handle.clone()).unwrap();
    dag.add_node(counting_sink(), sink_handle.clone()).unwrap();

    dag.connect(
        Endpoint::new(source1_handle.clone(), GENERATOR_SOURCE_OUTPUT_PORT),
        Endpoint::new(proc_handle.clone(), 1),
    )
    .unwrap();

    dag.connect(
        Endpoint::new(source2_handle.clone(), GENERATOR_SOURCE_OUTPUT_PORT),
        Endpoint::new(proc_handle.clone(), 2),
    )
    .unwrap();

    dag.connect(
        Endpoint::new(proc_handle, DEFAULT_PORT_HANDLE),
        Endpoint::new(sink_handle.clone(), COUNTING_SINK_INPUT_PORT),
    )
    .unwrap();

    let mut executor = Run::new(
        &dag,
        ExecutorOptions::default(),
        &[(source1_handle.clone(), count), (source2_handle.clone(), count)],
    );
    assert!(executor.join().is_ok());
    assert_eq!(executor.processed(&sink_handle), count * 2);

    let positions = executor.positions.clone();
    let manager = DagMetadataManager::new(&dag, positions, executor.commits());
    assert_eq!(manager.classify(&source1_handle), Ok(Consistency::FullyConsistent(count)));
    assert_eq!(manager.classify(&source2_handle), Ok(Consistency::FullyConsistent(count)));
}

#[test]
fn test_run_dag_2_sources_stateless() {
    two_sources(false);
}

#[test]
fn test_run_dag_2_sources_stateful() {
    two_sources(true);
}

#[test]
fn no_operation_is_lost_for_any_count() {
    for count in [0u64, 1, 2, 9, 10, 11, 99, 100, 1234] {
        let mut dag = Dag::new();
        let source = NodeHandle::new(None, "s".to_string());
        let processor = NodeHandle::new(None, "p".to_string());
        let sink = NodeHandle::new(None, "k".to_string());
        dag.add_node(generator_source(false), source.clone()).unwrap();
        dag.add_node(noop_processor(vec![DEFAULT_PORT_HANDLE]), processor.clone()).unwrap();
        dag.add_node(counting_sink(), sink.clone()).unwrap();
        dag.connect(
            Endpoint::new(source.clone(), GENERATOR_SOURCE_OUTPUT_PORT),
            Endpoint::new(processor.clone(), DEFAULT_PORT_HANDLE),
        )
        .unwrap();
        dag.connect(
            Endpoint::new(processor, DEFAULT_PORT_HANDLE),
            Endpoint::new(sink.clone(), COUNTING_SINK_INPUT_PORT),
        )
        .unwrap();
        // small queues and frequent barriers, so that senders have to wait
        let options = ExecutorOptions { commit_sz: 10, channel_buffer_sz: 4, commit_time_threshold_ms: 50 };
        let mut run = Run::new(&dag, options, &[(source.clone(), count)]);
        assert_eq!(run.join(), Ok(()));
        assert_eq!(run.processed(&sink), count);
        let positions = run.positions.clone();
        let manager = DagMetadataManager::new(&dag, positions, run.commits());
        assert_eq!(manager.classify(&source), Ok(Consistency::FullyConsistent(count)));
    }
}

#[test]
fn a_fan_out_delivers_every_operation_to_every_sink() {
    let mut dag = Dag::new();
    let source = NodeHandle::new(None, "s".to_string());
    let first = NodeHandle::new(None, "k1".to_string());
    let second = NodeHandle::new(None, "k2".to_string());
    dag.add_node(generator_source(false), source.clone()).unwrap();
    dag.add_node(counting_sink(), first.clone()).unwrap();
    dag.add_node(counting_sink(), second.clone()).unwrap();
    for sink in [&first, &second] {
        dag.connect(
            Endpoint::new(source.clone(), GENERATOR_SOURCE_OUTPUT_PORT),
            Endpoint::new(sink.clone(), COUNTING_SINK_INPUT_PORT),
        )
        .unwrap();
    }
    let mut run = Run::new(&dag, ExecutorOptions::default(), &[(source, 500)]);
    assert_eq!(run.join(), Ok(()));
    assert_eq!(run.processed(&first), 500);
    assert_eq!(run.processed(&second), 500);
}
