use dozer_core::dag::{Dag, Endpoint};
use dozer_core::dag_metadata::{Consistency, DagMetadataManager, PortCommit, SourcePosition};
use dozer_core::errors::ExecutionError;
use dozer_core::node::{NodeHandle, NodeType, OutputPortDef, OutputPortDefOptions, PortHandle};

fn h(id: &str) -> NodeHandle {
    NodeHandle::new(None, id.to_string())
}

fn outs(ports: &[PortHandle]) -> Vec<OutputPortDef> {
    ports.iter().map(|port| OutputPortDef::new(*port, OutputPortDefOptions::default())).collect()
}

fn link(dag: &mut Dag, from: (&str, PortHandle), to: (&str, PortHandle)) {
    dag.connect(Endpoint::new(h(from.0), from.1), Endpoint::new(h(to.0), to.1)).unwrap();
}

fn position(source: &str, offset: u64) -> SourcePosition {
    SourcePosition { source: h(source), offset }
}

fn commit(node: &str, port: PortHandle, offset: u64) -> PortCommit {
    PortCommit { node: h(node), port, offset }
}

/// s1 -> join.1, s2 -> join.2, join -> k; and a source s3 on its own, and s4 -> k2
fn graph() -> Dag {
    let mut dag = Dag::new();
    dag.add_node(NodeType::Source { output_ports: outs(&[0]) }, h("s1")).unwrap();
    dag.add_node(NodeType::Sink { input_ports: vec![0] }, h("k")).unwrap();
    dag.add_node(NodeType::Source { output_ports: outs(&[0]) }, h("s2")).unwrap();
    dag.add_node(
        NodeType::Processor { input_ports: vec![1, 2], output_ports: outs(&[0]) },
        h("join"),
    )
    .unwrap();
    dag.add_node(NodeType::Source { output_ports: outs(&[0]) }, h("s3")).unwrap();
    dag.add_node(NodeType::Source { output_ports: outs(&[0]) }, h("s4")).unwrap();
    dag.add_node(NodeType::Sink { input_ports: vec![0] }, h("k2")).unwrap();
    link(&mut dag, ("join", 0), ("k", 0));
    link(&mut dag, ("s1", 0), ("join", 1));
    link(&mut dag, ("s2", 0), ("join", 2));
    link(&mut dag, ("s4", 0), ("k2", 0));
    dag
}

#[test]
fn every_source_is_classified_in_the_order_of_registration() {
    let dag = graph();
    let manager = DagMetadataManager::new(&dag, Vec::new(), Vec::new());
    let verdicts = manager.get_checkpoint_consistency();
    assert_eq!(
        verdicts,
        vec![
            (h("s1"), Consistency::FullyConsistent(0)),
            (h("s2"), Consistency::FullyConsistent(0)),
            (h("s3"), Consistency::FullyConsistent(0)),
            (h("s4"), Consistency::FullyConsistent(0)),
        ]
    );
}

#[test]
fn a_source_is_fully_consistent_once_everything_downstream_has_caught_up() {
    let dag = graph();
    let positions = vec![position("s1", 10), position("s2", 7)];
    let commits = vec![commit("join", 1, 10), commit("join", 2, 7), commit("k", 0, 10)];
    let manager = DagMetadataManager::new(&dag, positions, commits);
    assert_eq!(manager.classify(&h("s1")), Ok(Consistency::FullyConsistent(10)));
    assert_eq!(manager.classify(&h("s2")), Ok(Consistency::FullyConsistent(7)));
    assert_eq!(manager.classify(&h("s3")), Ok(Consistency::FullyConsistent(0)));
}

#[test]
fn a_commit_beyond_the_position_is_caught_up() {
    let dag = graph();
    let manager =
        DagMetadataManager::new(&dag, vec![position("s4", 5)], vec![commit("k2", 0, 6)]);
    assert_eq!(manager.classify(&h("s4")), Ok(Consistency::FullyConsistent(5)));
}

#[test]
fn a_trailing_port_makes_the_source_partially_consistent() {
    let dag = graph();
    let positions = vec![position("s1", 10), position("s2", 7)];
    let commits = vec![commit("join", 1, 10), commit("join", 2, 7), commit("k", 0, 8)];
    let manager = DagMetadataManager::new(&dag, positions, commits);
    // for s1 the sink trails; the lowest commit of a port that s1 feeds is 8
    assert_eq!(
        manager.classify(&h("s1")),
        Ok(Consistency::PartiallyConsistent(8, vec![h("k")]))
    );
    // for s2 nothing trails: 7 has been committed everywhere
    assert_eq!(manager.classify(&h("s2")), Ok(Consistency::FullyConsistent(7)));
}

#[test]
fn lagging_nodes_come_in_the_order_of_registration_each_once() {
    let dag = graph();
    let positions = vec![position("s1", 10)];
    let commits = vec![commit("join", 1, 3), commit("k", 0, 2)];
    let manager = DagMetadataManager::new(&dag, positions, commits);
    // k was registered before join
    assert_eq!(
        manager.classify(&h("s1")),
        Ok(Consistency::PartiallyConsistent(2, vec![h("k"), h("join")]))
    );
}

#[test]
fn only_the_ports_that_a_source_feeds_count() {
    let dag = graph();
    let positions = vec![position("s1", 10), position("s2", 20)];
    // port 2 of join is fed by s2 only, and trails s2 only
    let commits = vec![commit("join", 1, 10), commit("join", 2, 4), commit("k", 0, 10)];
    let manager = DagMetadataManager::new(&dag, positions, commits);
    assert_eq!(manager.classify(&h("s1")), Ok(Consistency::FullyConsistent(10)));
    assert_eq!(
        manager.classify(&h("s2")),
        Ok(Consistency::PartiallyConsistent(4, vec![h("k"), h("join")]))
    );
}

#[test]
fn a_port_without_a_record_has_committed_nothing() {
    let dag = graph();
    let manager = DagMetadataManager::new(&dag, vec![position("s4", 1)], Vec::new());
    assert_eq!(manager.port_commit(&h("k2"), 0), 0);
    assert_eq!(manager.source_position(&h("s3")), 0);
    assert_eq!(
        manager.classify(&h("s4")),
        Ok(Consistency::PartiallyConsistent(0, vec![h("k2")]))
    );
}

#[test]
fn the_last_record_counts() {
    let dag = graph();
    let positions = vec![position("s4", 1), position("s1", 9), position("s4", 5)];
    let commits = vec![commit("k2", 0, 1), commit("k2", 1, 77), commit("k2", 0, 5)];
    let manager = DagMetadataManager::new(&dag, positions, commits);
    assert_eq!(manager.source_position(&h("s4")), 5);
    assert_eq!(manager.source_position(&h("s1")), 9);
    assert_eq!(manager.port_commit(&h("k2"), 0), 5);
    assert_eq!(manager.port_commit(&h("k2"), 1), 77);
    assert_eq!(manager.port_commit(&h("k2"), 2), 0);
    assert_eq!(manager.classify(&h("s4")), Ok(Consistency::FullyConsistent(5)));
}

#[test]
fn only_sources_are_classified() {
    let dag = graph();
    let manager = DagMetadataManager::new(&dag, Vec::new(), Vec::new());
    assert_eq!(manager.classify(&h("k")), Err(ExecutionError::InvalidNodeHandle(h("k"))));
    assert_eq!(manager.classify(&h("join")), Err(ExecutionError::InvalidNodeHandle(h("join"))));
    assert_eq!(manager.classify(&h("nobody")), Err(ExecutionError::InvalidNodeHandle(h("nobody"))));
    let empty = Dag::new();
    let manager = DagMetadataManager::new(&empty, Vec::new(), Vec::new());
    assert_eq!(manager.get_checkpoint_consistency(), Vec::new());
}
