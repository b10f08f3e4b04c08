use crate::dag::{place, reaches, Dag, EdgeView};
use crate::errors::{ExecutionError, ExecutionErrorView};
use crate::node::{NodeHandle, NodeId, PortHandle};
use vstd::prelude::*;

verus! {

/// The read position that a source had durably emitted when it last
/// committed.
#[derive(Debug, Clone, PartialEq, Eq)]
pub struct SourcePosition {
    pub source: NodeHandle,
    pub offset: u64,
}

/// The highest upstream offset that a commit of a node reflects for one of
/// its input ports.
#[derive(Debug, Clone, PartialEq, Eq)]
pub struct PortCommit {
    pub node: NodeHandle,
    pub port: PortHandle,
    pub offset: u64,
}

/// The position on record for each source, where a later record of a source
/// replaces an earlier one.
pub open spec fn positions_of(records: Seq<SourcePosition>) -> Map<NodeId, u64>
    decreases records.len(),
{
    if records.len() == 0 {
        Map::empty()
    } else {
        positions_of(records.drop_last()).insert(records.last().source@, records.last().offset)
    }
}

/// The offset on record for each input port, where a later record of a port
/// replaces an earlier one.
pub open spec fn commits_of(records: Seq<PortCommit>) -> Map<(NodeId, PortHandle), u64>
    decreases records.len(),
{
    if records.len() == 0 {
        Map::empty()
    } else {
        commits_of(records.drop_last()).insert(
            (records.last().node@, records.last().port),
            records.last().offset,
        )
    }
}

/// The offset on record under `key`, and 0 where nothing was ever recorded.
pub open spec fn recorded<K>(records: Map<K, u64>, key: K) -> u64 {
    if records.dom().contains(key) {
        records[key]
    } else {
        0
    }
}

/// Whether the checkpointed state downstream of a source has caught up with
/// the source.
#[derive(Debug, Clone, PartialEq, Eq)]
pub enum Consistency {
    /// Every input port that the source feeds has committed the source's
    /// position, which is the offset given.
    FullyConsistent(u64),
    /// Some input port that the source feeds trails the source's position.
    /// The offset is the lowest that any port fed by the source has
    /// committed; the handles are those of the nodes with a trailing port, in
    /// the order of their registration.
    PartiallyConsistent(u64, Vec<NodeHandle>),
}

/// A classification as a mathematical value.
pub ghost enum ConsistencyView {
    FullyConsistent(u64),
    PartiallyConsistent(u64, Seq<NodeId>),
}

impl View for Consistency {
    type V = ConsistencyView;

    open spec fn view(&self) -> ConsistencyView {
        match self {
            Consistency::FullyConsistent(offset) => ConsistencyView::FullyConsistent(*offset),
            Consistency::PartiallyConsistent(offset, lagging) => {
                ConsistencyView::PartiallyConsistent(
                    *offset,
                    lagging@.map_values(|handle: NodeHandle| handle@),
                )
            },
        }
    }
}

/// Reads the checkpoints that the nodes of a graph left behind and says, for
/// each source, whether everything downstream of it has caught up.
///
/// The records are handed over as values; the manager reads nothing
/// by itself. It is meant for the time after a run, when no node changes its
/// records any more.
pub struct DagMetadataManager<'a> {
    dag: &'a Dag,
    positions: Vec<SourcePosition>,
    commits: Vec<PortCommit>,
}

impl<'a> DagMetadataManager<'a> {
    /// The graph whose checkpoints are read.
    pub closed spec fn dag(&self) -> Dag {
        *self.dag
    }

    /// The position on record for each source.
    pub closed spec fn positions(&self) -> Map<NodeId, u64> {
        positions_of(self.positions@)
    }

    /// The offset on record for each input port.
    pub closed spec fn commits(&self) -> Map<(NodeId, PortHandle), u64> {
        commits_of(self.commits@)
    }

    /// The invariant of a manager: its graph holds its own.
    pub open spec fn wf(&self) -> bool {
        self.dag().wf()
    }

    /// The last position that `source` durably emitted.
    pub open spec fn position(&self, source: NodeId) -> u64 {
        recorded(self.positions(), source)
    }

    /// The offset that the node at the end of `edge` has committed for the
    /// port at which `edge` arrives.
    pub open spec fn committed(&self, edge: EdgeView) -> u64 {
        recorded(self.commits(), (edge.to.node, edge.to.port))
    }

    /// Whether `edge` carries what `source` emits, directly or after other
    /// nodes have passed it on.
    pub open spec fn carries(&self, source: NodeId, edge: EdgeView) -> bool {
        reaches(self.dag().edges(), source, edge.from.node)
    }

    /// Whether the port at the end of `edge` is fed by `source` and has
    /// committed less than the source has emitted.
    pub open spec fn trails(&self, source: NodeId, edge: EdgeView) -> bool {
        self.carries(source, edge) && self.committed(edge) < self.position(source)
    }

    /// Whether no port that `source` feeds trails it.
    pub open spec fn caught_up(&self, source: NodeId) -> bool {
        forall|i: int|
            0 <= i < self.dag().edges().len() ==> !self.trails(
                source,
                #[trigger] self.dag().edges()[i],
            )
    }

    /// Whether `offset` is the lowest offset committed by a port that
    /// `source` feeds.
    pub open spec fn lowest_commit(&self, source: NodeId, offset: u64) -> bool {
        &&& exists|i: int|
            0 <= i < self.dag().edges().len() && self.carries(
                source,
                #[trigger] self.dag().edges()[i],
            ) && self.committed(self.dag().edges()[i]) == offset
        &&& forall|i: int|
            0 <= i < self.dag().edges().len() && self.carries(
                source,
                #[trigger] self.dag().edges()[i],
            ) ==> self.committed(self.dag().edges()[i]) >= offset
    }

    /// Whether the node `id` has a port that trails `source`.
    pub open spec fn lags(&self, source: NodeId, id: NodeId) -> bool {
        exists|i: int|
            0 <= i < self.dag().edges().len() && self.trails(
                source,
                #[trigger] self.dag().edges()[i],
            ) && self.dag().edges()[i].to.node == id
    }

    /// Whether `nodes` lists exactly the nodes for which `wanted` holds, in
    /// the order of their registration.
    pub open spec fn lists(&self, nodes: Seq<NodeId>, wanted: spec_fn(NodeId) -> bool) -> bool {
        &&& forall|k: int| 0 <= k < nodes.len() ==> self.dag().has_node(#[trigger] nodes[k])
        &&& forall|id: NodeId| #[trigger]
            nodes.contains(id) <==> self.dag().has_node(id) && wanted(id)
        &&& forall|a: int, b: int|
            0 <= a < b < nodes.len() ==> place(self.dag().handles(), #[trigger] nodes[a])
                < place(self.dag().handles(), #[trigger] nodes[b])
    }

    /// Whether `verdict` is the classification of `source`.
    pub open spec fn classifies(&self, source: NodeId, verdict: ConsistencyView) -> bool {
        match verdict {
            ConsistencyView::FullyConsistent(offset) => {
                &&& self.caught_up(source)
                &&& offset == self.position(source)
            },
            ConsistencyView::PartiallyConsistent(offset, lagging) => {
                &&& !self.caught_up(source)
                &&& self.lowest_commit(source, offset)
                &&& self.lists(lagging, |id: NodeId| self.lags(source, id))
            },
        }
    }

    /// A manager for the records that the nodes of `dag` left behind. Where
    /// a source or a port has several records, the last one counts; where it
    /// has none, its offset is 0.
    pub fn new(dag: &'a Dag, positions: Vec<SourcePosition>, commits: Vec<PortCommit>) -> (r:
        Self)
        requires
            dag.wf(),
        ensures
            r.wf(),
            r.dag() == *dag,
            r.positions() == positions_of(positions@),
            r.commits() == commits_of(commits@),
    {
        DagMetadataManager { dag, positions, commits }
    }

    /// The last position that `source` durably emitted.
    pub fn source_position(&self, source: &NodeHandle) -> (r: u64)
        ensures
            r == self.position(source@),
    {
        let mut i: usize = self.positions.len();
        assert(self.positions@.subrange(0, i as int) == self.positions@);
        while i > 0
            invariant
                i <= self.positions@.len(),
                recorded(positions_of(self.positions@), source@) == recorded(
                    positions_of(self.positions@.subrange(0, i as int)),
                    source@,
                ),
            decreases i,
        {
            i = i - 1;
            assert(self.positions@.subrange(0, i + 1).drop_last() == self.positions@.subrange(
                0,
                i as int,
            ));
            if self.positions[i].source.same(source) {
                return self.positions[i].offset;
            }
        }
        assert(self.positions@.subrange(0, 0) == Seq::<SourcePosition>::empty());
        0
    }

    /// The offset that `node` has committed for its input port `port`.
    pub fn port_commit(&self, node: &NodeHandle, port: PortHandle) -> (r: u64)
        ensures
            r == recorded(self.commits(), (node@, port)),
    {
        let mut i: usize = self.commits.len();
        assert(self.commits@.subrange(0, i as int) == self.commits@);
        while i > 0
            invariant
                i <= self.commits@.len(),
                recorded(commits_of(self.commits@), (node@, port)) == recorded(
                    commits_of(self.commits@.subrange(0, i as int)),
                    (node@, port),
                ),
            decreases i,
        {
            i = i - 1;
            assert(self.commits@.subrange(0, i + 1).drop_last() == self.commits@.subrange(
                0,
                i as int,
            ));
            if self.commits[i].port == port && self.commits[i].node.same(node) {
                return self.commits[i].offset;
            }
        }
        assert(self.commits@.subrange(0, 0) == Seq::<PortCommit>::empty());
        0
    }

    /// Whether one of the first `count` connections arrives at the node `id`
    /// with a port that trails `source`.
    spec fn lags_within(&self, source: NodeId, id: NodeId, count: int) -> bool {
        exists|i: int|
            0 <= i < count && i < self.dag().edges().len() && self.trails(
                source,
                #[trigger] self.dag().edges()[i],
            ) && self.dag().edges()[i].to.node == id
    }

    /// What is known of the lowest commit after the first `count` connections.
    spec fn lowest_within(&self, source: NodeId, lowest: Option<u64>, count: int) -> bool {
        match lowest {
            None => forall|i: int|
                0 <= i < count ==> !self.carries(source, #[trigger] self.dag().edges()[i]),
            Some(offset) => {
                &&& exists|i: int|
                    0 <= i < count && self.carries(source, #[trigger] self.dag().edges()[i])
                        && self.committed(self.dag().edges()[i]) == offset
                &&& forall|i: int|
                    0 <= i < count && self.carries(source, #[trigger] self.dag().edges()[i])
                        ==> self.committed(self.dag().edges()[i]) >= offset
            },
        }
    }

    /// The classification of the source at place `s` of the graph.
    fn classify_at(&self, s: usize) -> (r: Consistency)
        requires
            self.wf(),
            s < self.dag().handles().len(),
        ensures
            self.classifies(self.dag().handles()[s as int], r@),
    {
        let dag = self.dag;
        let n = dag.node_count();
        let m = dag.edge_count();
        let ghost source = dag.handles()[s as int];
        let ghost edges = dag.edges();
        let ghost handles = dag.handles();
        let position = match dag.node_handle(s) {
            Some(handle) => self.source_position(handle),
            None => 0,
        };
        let marked = match dag.reachable_from(s) {
            Some(marked) => marked,
            None => Vec::new(),
        };
        let mut lag: Vec<bool> = Vec::new();
        while lag.len() < n
            invariant
                lag@.len() <= n,
                forall|j: int| 0 <= j < lag@.len() ==> !lag@[j],
            decreases n - lag@.len(),
        {
            lag.push(false);
        }
        let mut lowest: Option<u64> = None;
        let mut l: usize = 0;
        while l < m
            invariant
                self.wf(),
                dag == self.dag,
                *dag == self.dag(),
                edges == dag.edges(),
                handles == dag.handles(),
                n == handles.len(),
                m == edges.len(),
                s < n,
                source == handles[s as int],
                position == self.position(source),
                marked@.len() == n,
                forall|i: int|
                    0 <= i < n ==> #[trigger] marked@[i] == reaches(edges, source, handles[i]),
                l <= m,
                lag@.len() == n,
                forall|j: int|
                    0 <= j < n ==> #[trigger] lag@[j] == self.lags_within(
                        source,
                        handles[j],
                        l as int,
                    ),
                self.lowest_within(source, lowest, l as int),
            decreases m - l,
        {
            let ghost edge = edges[l as int];
            let ghost before = lag@;
            let mut to_lags = false;
            let mut to_index: usize = 0;
            match dag.edge_nodes(l) {
                Some((from, to)) => {
                    to_index = to;
                    if marked[from] {
                        let committed = match dag.edge(l) {
                            Some(edge) => self.port_commit(&edge.to.node, edge.to.port),
                            None => 0,
                        };
                        lowest =
                        match lowest {
                            Some(offset) if offset <= committed => Some(offset),
                            _ => Some(committed),
                        };
                        if committed < position {
                            lag.set(to, true);
                            to_lags = true;
                        }
                    }
                },
                None => {},
            }
            proof {
                assert(to_lags == self.trails(source, edge));
                assert(edge.to.node == handles[to_index as int]);
                assert forall|j: int| 0 <= j < n implies #[trigger] lag@[j] == self.lags_within(
                    source,
                    handles[j],
                    l + 1,
                ) by {
                    let id = handles[j];
                    if self.lags_within(source, id, l as int) {
                        assert(self.lags_within(source, id, l + 1));
                    }
                    if j == to_index && to_lags {
                        assert(self.lags_within(source, id, l + 1));
                    }
                    if self.lags_within(source, id, l + 1) && !self.lags_within(
                        source,
                        id,
                        l as int,
                    ) {
                        let i = choose|i: int|
                            0 <= i < l + 1 && i < edges.len() && self.trails(
                                source,
                                #[trigger] edges[i],
                            ) && edges[i].to.node == id;
                        assert(i == l);
                        assert(handles[j] == handles[to_index as int]);
                        assert(j == to_index);
                    }
                }
            }
            l = l + 1;
        }
        let mut lagging: Vec<NodeHandle> = Vec::new();
        let mut j: usize = 0;
        while j < n
            invariant
                self.wf(),
                dag == self.dag,
                *dag == self.dag(),
                handles == dag.handles(),
                n == handles.len(),
                lag@.len() == n,
                j <= n,
                forall|k: int|
                    0 <= k < lagging@.len() ==> {
                        let id = (#[trigger] lagging@[k])@;
                        &&& dag.has_node(id)
                        &&& 0 <= place(handles, id) < j
                        &&& lag@[place(handles, id)]
                    },
                forall|i: int|
                    0 <= i < j && lag@[i] ==> exists|k: int|
                        0 <= k < lagging@.len() && (#[trigger] lagging@[k])@ == handles[i],
                forall|a: int, b: int|
                    0 <= a < b < lagging@.len() ==> place(handles, (#[trigger] lagging@[a])@)
                        < place(handles, (#[trigger] lagging@[b])@),
            decreases n - j,
        {
            if lag[j] {
                proof {
                    dag.lemma_place(j as int);
                }
                let ghost earlier = lagging@;
                match dag.node_handle(j) {
                    Some(handle) => {
                        lagging.push(handle.duplicate());
                    },
                    None => {},
                }
                proof {
                    assert(lagging@.len() == earlier.len() + 1);
                    assert(lagging@[earlier.len() as int]@ == handles[j as int]);
                    assert forall|i: int| 0 <= i < j + 1 && lag@[i] implies exists|k: int|
                        0 <= k < lagging@.len() && (#[trigger] lagging@[k])@ == handles[i] by {
                        if i < j {
                            let k = choose|k: int|
                                0 <= k < earlier.len() && (#[trigger] earlier[k])@ == handles[i];
                            assert(lagging@[k] == earlier[k]);
                        } else {
                            assert(lagging@[earlier.len() as int]@ == handles[i]);
                        }
                    }
                }
            }
            j = j + 1;
        }
        let ghost ids = lagging@.map_values(|handle: NodeHandle| handle@);
        proof {
            assert forall|id: NodeId| #[trigger]
                ids.contains(id) <==> dag.has_node(id) && self.lags(source, id) by {
                if ids.contains(id) {
                    let k = choose|k: int| 0 <= k < ids.len() && ids[k] == id;
                    assert(lagging@[k]@ == id);
                    let p = place(handles, id);
                    assert(lag@[p]);
                    assert(self.lags_within(source, handles[p], m as int));
                }
                if dag.has_node(id) && self.lags(source, id) {
                    let p = choose|p: int| 0 <= p < handles.len() && handles[p] == id;
                    assert(self.lags_within(source, handles[p], m as int));
                    assert(lag@[p]);
                    let k = choose|k: int|
                        0 <= k < lagging@.len() && (#[trigger] lagging@[k])@ == handles[p];
                    assert(ids[k] == id);
                }
            }
            assert forall|k: int| 0 <= k < ids.len() implies dag.has_node(#[trigger] ids[k]) by {
                assert(ids[k] == lagging@[k]@);
            }
            assert forall|a: int, b: int| 0 <= a < b < ids.len() implies place(
                handles,
                #[trigger] ids[a],
            ) < place(handles, #[trigger] ids[b]) by {
                assert(ids[a] == lagging@[a]@);
                assert(ids[b] == lagging@[b]@);
            }
            assert(self.lists(ids, |id: NodeId| self.lags(source, id)));
            if self.caught_up(source) {
                if ids.len() > 0 {
                    assert(ids.contains(ids[0]));
                    assert(self.lags(source, ids[0]));
                }
            } else {
                let i = choose|i: int|
                    0 <= i < edges.len() && self.trails(source, #[trigger] edges[i]);
                let id = edges[i].to.node;
                assert(dag.declares(edges[i]));
                assert(self.lags(source, id));
                assert(ids.contains(id));
            }
        }
        if lagging.len() == 0 {
            Consistency::FullyConsistent(position)
        } else {
            match lowest {
                Some(offset) => Consistency::PartiallyConsistent(offset, lagging),
                None => Consistency::PartiallyConsistent(position, lagging),
            }
        }
    }

    /// The classification of one source.
    ///
    /// Fails exactly if `source` is not the handle of a source of the graph.
    pub fn classify(&self, source: &NodeHandle) -> (r: Result<Consistency, ExecutionError>)
        requires
            self.wf(),
        ensures
            match r {
                Ok(verdict) => {
                    &&& self.dag().has_node(source@)
                    &&& self.dag().kind_of(source@) is Source
                    &&& self.classifies(source@, verdict@)
                },
                Err(e) => {
                    &&& !(self.dag().has_node(source@) && self.dag().kind_of(source@) is Source)
                    &&& e@ == ExecutionErrorView::InvalidNodeHandle(source@)
                },
            },
    {
        match self.dag.index_of(source) {
            Some(s) => {
                proof {
                    self.dag().lemma_place(s as int);
                }
                let is_source = match self.dag.node_kind(s) {
                    Some(kind) => kind.is_source(),
                    None => false,
                };
                if is_source {
                    Ok(self.classify_at(s))
                } else {
                    Err(ExecutionError::InvalidNodeHandle(source.duplicate()))
                }
            },
            None => Err(ExecutionError::InvalidNodeHandle(source.duplicate())),
        }
    }

    /// The classification of every source of the graph, in the order in
    /// which the sources were registered. No source is left out.
    pub fn get_checkpoint_consistency(&self) -> (r: Vec<(NodeHandle, Consistency)>)
        requires
            self.wf(),
        ensures
            self.lists(
                r@.map_values(|entry: (NodeHandle, Consistency)| entry.0@),
                |id: NodeId| self.dag().kind_of(id) is Source,
            ),
            forall|k: int|
                0 <= k < r@.len() ==> self.classifies((#[trigger] r@[k]).0@, r@[k].1@),
    {
        let dag = self.dag;
        let n = dag.node_count();
        let ghost handles = dag.handles();
        let mut verdicts: Vec<(NodeHandle, Consistency)> = Vec::new();
        let mut j: usize = 0;
        while j < n
            invariant
                self.wf(),
                dag == self.dag,
                *dag == self.dag(),
                handles == dag.handles(),
                n == handles.len(),
                j <= n,
                forall|k: int|
                    0 <= k < verdicts@.len() ==> {
                        let id = (#[trigger] verdicts@[k]).0@;
                        &&& dag.has_node(id)
                        &&& 0 <= place(handles, id) < j
                        &&& dag.kind_of(id) is Source
                        &&& self.classifies(id, verdicts@[k].1@)
                    },
                forall|i: int|
                    0 <= i < j && dag.kinds()[i] is Source ==> exists|k: int|
                        0 <= k < verdicts@.len() && (#[trigger] verdicts@[k]).0@ == handles[i],
                forall|a: int, b: int|
                    0 <= a < b < verdicts@.len() ==> place(handles, (#[trigger] verdicts@[a]).0@)
                        < place(handles, (#[trigger] verdicts@[b]).0@),
            decreases n - j,
        {
            let is_source = match dag.node_kind(j) {
                Some(kind) => kind.is_source(),
                None => false,
            };
            if is_source {
                proof {
                    dag.lemma_place(j as int);
                }
                let ghost earlier = verdicts@;
                match dag.node_handle(j) {
                    Some(handle) => {
                        let verdict = self.classify_at(j);
                        verdicts.push((handle.duplicate(), verdict));
                    },
                    None => {},
                }
                proof {
                    assert(verdicts@.len() == earlier.len() + 1);
                    assert(verdicts@[earlier.len() as int].0@ == handles[j as int]);
                    assert forall|i: int|
                        0 <= i < j + 1 && dag.kinds()[i] is Source implies exists|k: int|
                        0 <= k < verdicts@.len() && (#[trigger] verdicts@[k]).0@ == handles[i] by {
                        if i < j {
                            let k = choose|k: int|
                                0 <= k < earlier.len() && (#[trigger] earlier[k]).0@ == handles[i];
                            assert(verdicts@[k] == earlier[k]);
                        } else {
                            assert(verdicts@[earlier.len() as int].0@ == handles[i]);
                        }
                    }
                }
            }
            j = j + 1;
        }
        proof {
            let ids = verdicts@.map_values(|entry: (NodeHandle, Consistency)| entry.0@);
            assert forall|id: NodeId| #[trigger]
                ids.contains(id) <==> dag.has_node(id) && dag.kind_of(id) is Source by {
                if ids.contains(id) {
                    let k = choose|k: int| 0 <= k < ids.len() && ids[k] == id;
                    assert(verdicts@[k].0@ == id);
                }
                if dag.has_node(id) && dag.kind_of(id) is Source {
                    let p = choose|p: int| 0 <= p < handles.len() && handles[p] == id;
                    dag.lemma_place(p);
                    let k = choose|k: int|
                        0 <= k < verdicts@.len() && (#[trigger] verdicts@[k]).0@ == handles[p];
                    assert(ids[k] == id);
                }
            }
            assert forall|k: int| 0 <= k < ids.len() implies dag.has_node(#[trigger] ids[k]) by {
                assert(ids[k] == verdicts@[k].0@);
            }
            assert forall|a: int, b: int| 0 <= a < b < ids.len() implies place(
                handles,
                #[trigger] ids[a],
            ) < place(handles, #[trigger] ids[b]) by {
                assert(ids[a] == verdicts@[a].0@);
                assert(ids[b] == verdicts@[b].0@);
            }
        }
        verdicts
    }

    /// Where every port that a source feeds has committed the position of
    /// the source or more, the source is fully consistent at its position.
    pub proof fn caught_up_is_fully_consistent(&self, source: NodeId, verdict: ConsistencyView)
        requires
            self.classifies(source, verdict),
            forall|i: int|
                0 <= i < self.dag().edges().len() && self.carries(
                    source,
                    #[trigger] self.dag().edges()[i],
                ) ==> self.committed(self.dag().edges()[i]) >= self.position(source),
        ensures
            verdict == ConsistencyView::FullyConsistent(self.position(source)),
    {
    }

    /// A fully consistent source is classified with its own position, a
    /// partially consistent one with a lower offset and with at least one
    /// lagging node.
    pub proof fn verdict_is_bounded(&self, source: NodeId, verdict: ConsistencyView)
        requires
            self.wf(),
            self.classifies(source, verdict),
        ensures
            match verdict {
                ConsistencyView::FullyConsistent(offset) => offset == self.position(source),
                ConsistencyView::PartiallyConsistent(offset, lagging) => offset < self.position(
                    source,
                ) && lagging.len() > 0,
            },
    {
        match verdict {
            ConsistencyView::FullyConsistent(_) => {},
            ConsistencyView::PartiallyConsistent(offset, lagging) => {
                let i = choose|i: int|
                    0 <= i < self.dag().edges().len() && self.trails(
                        source,
                        #[trigger] self.dag().edges()[i],
                    );
                let id = self.dag().edges()[i].to.node;
                assert(self.lags(source, id));
                assert(self.dag().declares(self.dag().edges()[i]));
                assert(lagging.contains(id));
            },
        }
    }
}

} // verus!
