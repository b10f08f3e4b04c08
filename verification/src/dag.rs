use crate::errors::{ExecutionError, ExecutionErrorView};
use crate::node::{NodeHandle, NodeId, NodeType, PortHandle};
use vstd::prelude::*;

verus! {

/// One side of a connection: a port of a node.
#[derive(Debug, Clone, PartialEq, Eq)]
pub struct Endpoint {
    pub node: NodeHandle,
    pub port: PortHandle,
}

/// An endpoint as a mathematical value.
pub ghost struct EndpointView {
    pub node: NodeId,
    pub port: PortHandle,
}

impl View for Endpoint {
    type V = EndpointView;

    open spec fn view(&self) -> EndpointView {
        EndpointView { node: self.node@, port: self.port }
    }
}

impl Endpoint {
    /// The port `port` of the node `node`.
    pub fn new(node: NodeHandle, port: PortHandle) -> (r: Self)
        ensures
            r@ == (EndpointView { node: node@, port }),
    {
        Endpoint { node, port }
    }
}

/// A connection from an output port of one node to an input port of another.
#[derive(Debug, Clone, PartialEq, Eq)]
pub struct Edge {
    pub from: Endpoint,
    pub to: Endpoint,
}

/// A connection as a mathematical value.
pub ghost struct EdgeView {
    pub from: EndpointView,
    pub to: EndpointView,
}

impl View for Edge {
    type V = EdgeView;

    open spec fn view(&self) -> EdgeView {
        EdgeView { from: self.from@, to: self.to@ }
    }
}

impl Edge {
    /// The connection from `from` to `to`.
    pub fn new(from: Endpoint, to: Endpoint) -> (r: Self)
        ensures
            r@ == (EdgeView { from: from@, to: to@ }),
    {
        Edge { from, to }
    }
}

/// Whether some connection leads from node `a` to node `b`.
pub open spec fn linked(edges: Seq<EdgeView>, a: NodeId, b: NodeId) -> bool {
    exists|i: int|
        0 <= i < edges.len() && (#[trigger] edges[i]).from.node == a && edges[i].to.node == b
}

/// Whether `path` is a walk along connections: at least one node, and a
/// connection from each node to the next.
pub open spec fn is_path(edges: Seq<EdgeView>, path: Seq<NodeId>) -> bool {
    &&& path.len() >= 1
    &&& forall|k: int| 0 <= k < path.len() - 1 ==> linked(edges, #[trigger] path[k], path[k + 1])
}

/// Whether records that leave `a` can arrive at `b`: `b` is `a` itself or
/// lies downstream of it.
pub open spec fn reaches(edges: Seq<EdgeView>, a: NodeId, b: NodeId) -> bool {
    exists|path: Seq<NodeId>| #[trigger] is_path(edges, path) && path[0] == a && path.last() == b
}

/// No connection closes a cycle: the node a connection leads to never
/// reaches the node it comes from.
pub open spec fn acyclic(edges: Seq<EdgeView>) -> bool {
    forall|a: NodeId, b: NodeId| #[trigger] linked(edges, a, b) ==> !reaches(edges, b, a)
}

/// Every node reaches itself.
pub proof fn lemma_reaches_itself(edges: Seq<EdgeView>, a: NodeId)
    ensures
        reaches(edges, a, a),
{
    assert(is_path(edges, seq![a]));
}

/// What reaches a node reaches the nodes that it is connected to.
pub proof fn lemma_reaches_next(edges: Seq<EdgeView>, a: NodeId, b: NodeId, c: NodeId)
    requires
        reaches(edges, a, b),
        linked(edges, b, c),
    ensures
        reaches(edges, a, c),
{
    let path = choose|path: Seq<NodeId>|
        #[trigger] is_path(edges, path) && path[0] == a && path.last() == b;
    let longer = path.push(c);
    assert forall|k: int| 0 <= k < longer.len() - 1 implies linked(
        edges,
        #[trigger] longer[k],
        longer[k + 1],
    ) by {
        if k < path.len() - 1 {
            assert(linked(edges, path[k], path[k + 1]));
        }
    }
    assert(is_path(edges, longer));
}

/// What reaches a node reaches what the node reaches.
pub proof fn lemma_reaches_transitive(edges: Seq<EdgeView>, a: NodeId, b: NodeId, c: NodeId)
    requires
        reaches(edges, a, b),
        reaches(edges, b, c),
    ensures
        reaches(edges, a, c),
{
    let first = choose|path: Seq<NodeId>|
        #[trigger] is_path(edges, path) && path[0] == a && path.last() == b;
    let second = choose|path: Seq<NodeId>|
        #[trigger] is_path(edges, path) && path[0] == b && path.last() == c;
    let whole = first + second.drop_first();
    assert forall|k: int| 0 <= k < whole.len() - 1 implies linked(
        edges,
        #[trigger] whole[k],
        whole[k + 1],
    ) by {
        if k < first.len() - 1 {
            assert(linked(edges, first[k], first[k + 1]));
        } else {
            let j = k - (first.len() - 1);
            assert(linked(edges, second[j], second[j + 1]));
        }
    }
    assert(is_path(edges, whole));
}

/// A walk along the connections and one more either avoids the new
/// connection, or passes from its start to where the new connection begins
/// and from where that ends to its own end, along the old connections.
pub proof fn lemma_path_with_new_edge(edges: Seq<EdgeView>, edge: EdgeView, path: Seq<NodeId>)
    requires
        is_path(edges.push(edge), path),
    ensures
        reaches(edges, path[0], path.last()) || (reaches(edges, path[0], edge.from.node)
            && reaches(edges, edge.to.node, path.last())),
    decreases path.len(),
{
    if path.len() == 1 {
        lemma_reaches_itself(edges, path[0]);
    } else {
        let shorter = path.drop_last();
        let wider = edges.push(edge);
        assert forall|k: int| 0 <= k < shorter.len() - 1 implies linked(
            wider,
            #[trigger] shorter[k],
            shorter[k + 1],
        ) by {
            assert(linked(wider, path[k], path[k + 1]));
        }
        lemma_path_with_new_edge(edges, edge, shorter);
        let k = path.len() - 2;
        assert(linked(wider, path[k], path[k + 1]));
        let i = choose|i: int|
            0 <= i < wider.len() && (#[trigger] wider[i]).from.node == path[k] && wider[i].to.node
                == path[k + 1];
        if i < edges.len() {
            assert(edges[i] == wider[i]);
            assert(linked(edges, shorter.last(), path.last()));
            if reaches(edges, path[0], shorter.last()) {
                lemma_reaches_next(edges, path[0], shorter.last(), path.last());
            } else {
                lemma_reaches_next(edges, edge.to.node, shorter.last(), path.last());
            }
        } else {
            lemma_reaches_itself(edges, edge.to.node);
            if !reaches(edges, path[0], shorter.last()) {
                assert(reaches(edges, path[0], edge.from.node));
            }
        }
    }
}

/// A connection that does not lead back to where it comes from keeps the
/// graph free of cycles.
pub proof fn lemma_new_edge_keeps_acyclic(edges: Seq<EdgeView>, edge: EdgeView)
    requires
        acyclic(edges),
        !reaches(edges, edge.to.node, edge.from.node),
    ensures
        acyclic(edges.push(edge)),
{
    let wider = edges.push(edge);
    assert forall|a: NodeId, b: NodeId| #[trigger] linked(wider, a, b) implies !reaches(
        wider,
        b,
        a,
    ) by {
        if reaches(wider, b, a) {
            let path = choose|path: Seq<NodeId>|
                #[trigger] is_path(wider, path) && path[0] == b && path.last() == a;
            lemma_path_with_new_edge(edges, edge, path);
            let i = choose|i: int|
                0 <= i < wider.len() && (#[trigger] wider[i]).from.node == a && wider[i].to.node
                    == b;
            if i < edges.len() {
                assert(edges[i] == wider[i]);
                assert(linked(edges, a, b));
                if !reaches(edges, b, a) {
                    lemma_reaches_next(edges, edge.to.node, a, b);
                    lemma_reaches_transitive(edges, edge.to.node, b, edge.from.node);
                }
            } else {
                if !reaches(edges, b, a) {
                    lemma_reaches_transitive(edges, edge.to.node, a, edge.from.node);
                }
            }
        }
    }
}

/// In a graph without cycles two nodes that reach each other are one node.
pub proof fn lemma_no_return(edges: Seq<EdgeView>, a: NodeId, b: NodeId)
    requires
        acyclic(edges),
        reaches(edges, a, b),
        reaches(edges, b, a),
    ensures
        a == b,
{
    if a != b {
        let path = choose|path: Seq<NodeId>|
            #[trigger] is_path(edges, path) && path[0] == a && path.last() == b;
        let before = path.drop_last();
        let c = before.last();
        assert forall|k: int| 0 <= k < before.len() - 1 implies linked(
            edges,
            #[trigger] before[k],
            before[k + 1],
        ) by {
            assert(linked(edges, path[k], path[k + 1]));
        }
        assert(is_path(edges, before));
        assert(before[0] == a);
        let k = path.len() - 2;
        assert(linked(edges, path[k], path[k + 1]));
        assert(linked(edges, c, b));
        lemma_reaches_transitive(edges, b, a, c);
    }
}

/// The place of `id` among `handles`, where it occurs.
pub open spec fn place(handles: Seq<NodeId>, id: NodeId) -> int {
    choose|i: int| 0 <= i < handles.len() && handles[i] == id
}

/// How many entries are not marked.
spec fn count_unmarked(marked: Seq<bool>) -> nat
    decreases marked.len(),
{
    if marked.len() == 0 {
        0
    } else {
        count_unmarked(marked.drop_last()) + if marked.last() {
            0nat
        } else {
            1nat
        }
    }
}

proof fn lemma_marking_counts(marked: Seq<bool>, i: int)
    requires
        0 <= i < marked.len(),
        !marked[i],
    ensures
        count_unmarked(marked.update(i, true)) + 1 == count_unmarked(marked),
    decreases marked.len(),
{
    if i == marked.len() - 1 {
        assert(marked.update(i, true).drop_last() == marked.drop_last());
    } else {
        lemma_marking_counts(marked.drop_last(), i);
        assert(marked.update(i, true).drop_last() == marked.drop_last().update(i, true));
    }
}

/// Marking more leaves fewer unmarked.
proof fn lemma_fewer_unmarked(fewer: Seq<bool>, more: Seq<bool>, j: int)
    requires
        fewer.len() == more.len(),
        forall|i: int| 0 <= i < fewer.len() && fewer[i] ==> more[i],
        0 <= j < more.len(),
        more[j],
        !fewer[j],
    ensures
        count_unmarked(more) < count_unmarked(fewer),
    decreases more.len(),
{
    if j == more.len() - 1 {
        lemma_no_more_unmarked(fewer.drop_last(), more.drop_last());
    } else {
        lemma_fewer_unmarked(fewer.drop_last(), more.drop_last(), j);
    }
}

proof fn lemma_no_more_unmarked(fewer: Seq<bool>, more: Seq<bool>)
    requires
        fewer.len() == more.len(),
        forall|i: int| 0 <= i < fewer.len() && fewer[i] ==> more[i],
    ensures
        count_unmarked(more) <= count_unmarked(fewer) <= fewer.len(),
    decreases more.len(),
{
    if more.len() > 0 {
        lemma_no_more_unmarked(fewer.drop_last(), more.drop_last());
    }
}

struct Node {
    handle: NodeHandle,
    kind: NodeType,
}

struct Link {
    edge: Edge,
    from_index: usize,
    to_index: usize,
}

/// A directed graph of nodes and the connections between their ports.
///
/// Every connection joins an output port that its first node declares to an
/// input port that its second node declares, and the connections never form
/// a cycle: both are checked when a connection is made.
pub struct Dag {
    nodes: Vec<Node>,
    links: Vec<Link>,
}

impl Dag {
    /// The handles of the nodes, in the order of their registration.
    pub closed spec fn handles(&self) -> Seq<NodeId> {
        self.nodes@.map_values(|node: Node| node.handle@)
    }

    /// The kind and ports of each node, in the order of `handles`.
    pub closed spec fn kinds(&self) -> Seq<NodeType> {
        self.nodes@.map_values(|node: Node| node.kind)
    }

    /// The connections, in the order in which they were made.
    pub closed spec fn edges(&self) -> Seq<EdgeView> {
        self.links@.map_values(|link: Link| link.edge@)
    }

    /// Whether a node with this handle is registered.
    pub open spec fn has_node(&self, id: NodeId) -> bool {
        self.handles().contains(id)
    }

    /// The kind and ports of the node with this handle.
    pub open spec fn kind_of(&self, id: NodeId) -> NodeType {
        self.kinds()[place(self.handles(), id)]
    }

    /// Whether both ends of `edge` are ports that their nodes declare.
    pub open spec fn declares(&self, edge: EdgeView) -> bool {
        &&& self.has_node(edge.from.node)
        &&& self.kind_of(edge.from.node).declares_output(edge.from.port)
        &&& self.has_node(edge.to.node)
        &&& self.kind_of(edge.to.node).declares_input(edge.to.port)
    }

    /// Each connection remembers the places of its two nodes.
    pub closed spec fn links_index_nodes(&self) -> bool {
        forall|l: int|
            0 <= l < self.links@.len() ==> {
                let link = #[trigger] self.links@[l];
                &&& link.from_index < self.nodes@.len()
                &&& self.nodes@[link.from_index as int].handle@ == link.edge.from.node@
                &&& link.to_index < self.nodes@.len()
                &&& self.nodes@[link.to_index as int].handle@ == link.edge.to.node@
            }
    }

    /// The invariant of a graph: no handle is used twice, every connection
    /// joins declared ports, and no connection closes a cycle.
    pub open spec fn wf(&self) -> bool {
        &&& self.links_index_nodes()
        &&& self.handles().no_duplicates()
        &&& self.kinds().len() == self.handles().len()
        &&& forall|i: int| 0 <= i < self.edges().len() ==> self.declares(#[trigger] self.edges()[i])
        &&& acyclic(self.edges())
    }

    /// Why `connect` refuses a connection between two endpoints, or `None`
    /// where it makes the connection. The first reason that applies is given.
    pub open spec fn refusal(&self, from: EndpointView, to: EndpointView) -> Option<
        ExecutionErrorView,
    > {
        if !self.has_node(from.node) {
            Some(ExecutionErrorView::InvalidNodeHandle(from.node))
        } else if !self.has_node(to.node) {
            Some(ExecutionErrorView::InvalidNodeHandle(to.node))
        } else if !self.kind_of(from.node).declares_output(from.port) {
            Some(ExecutionErrorView::InvalidPortHandle(from.port))
        } else if !self.kind_of(to.node).declares_input(to.port) {
            Some(ExecutionErrorView::InvalidPortHandle(to.port))
        } else if reaches(self.edges(), to.node, from.node) {
            Some(ExecutionErrorView::WouldCycle)
        } else {
            None
        }
    }

    /// Where no handle is used twice, each handle has one place.
    pub proof fn lemma_place(&self, i: int)
        requires
            self.handles().no_duplicates(),
            0 <= i < self.handles().len(),
        ensures
            place(self.handles(), self.handles()[i]) == i,
            self.has_node(self.handles()[i]),
    {
    }

    /// An empty graph.
    pub fn new() -> (r: Self)
        ensures
            r.wf(),
            r.handles() == Seq::<NodeId>::empty(),
            r.kinds() == Seq::<NodeType>::empty(),
            r.edges() == Seq::<EdgeView>::empty(),
    {
        let r = Dag { nodes: Vec::new(), links: Vec::new() };
        assert forall|a: NodeId, b: NodeId| #[trigger] linked(r.edges(), a, b) implies !reaches(
            r.edges(),
            b,
            a,
        ) by {}
        r
    }

    /// The place of the node with this handle in the order of registration,
    /// if it is registered.
    pub fn index_of(&self, handle: &NodeHandle) -> (r: Option<usize>)
        ensures
            match r {
                Some(i) => {
                    &&& i < self.handles().len()
                    &&& self.handles()[i as int] == handle@
                    &&& forall|j: int| 0 <= j < i ==> self.handles()[j] != handle@
                },
                None => !self.has_node(handle@),
            },
    {
        let mut i: usize = 0;
        while i < self.nodes.len()
            invariant
                i <= self.nodes@.len(),
                forall|j: int| 0 <= j < i ==> self.handles()[j] != handle@,
            decreases self.nodes@.len() - i,
        {
            if self.nodes[i].handle.same(handle) {
                return Some(i);
            }
            i = i + 1;
        }
        None
    }

    /// Registers a node under `handle`. Fails, and changes nothing, if the
    /// handle is already used.
    pub fn add_node(&mut self, node_type: NodeType, handle: NodeHandle) -> (r: Result<
        (),
        ExecutionError,
    >)
        requires
            old(self).wf(),
        ensures
            final(self).wf(),
            final(self).edges() == old(self).edges(),
            match r {
                Ok(_) => {
                    &&& !old(self).has_node(handle@)
                    &&& final(self).handles() == old(self).handles().push(handle@)
                    &&& final(self).kinds() == old(self).kinds().push(node_type)
                },
                Err(e) => {
                    &&& old(self).has_node(handle@)
                    &&& e@ == ExecutionErrorView::DuplicateNode(handle@)
                    &&& final(self).handles() == old(self).handles()
                    &&& final(self).kinds() == old(self).kinds()
                },
            },
    {
        if self.index_of(&handle).is_some() {
            return Err(ExecutionError::DuplicateNode(handle));
        }
        let ghost before = *self;
        let ghost id = handle@;
        self.nodes.push(Node { handle, kind: node_type });
        proof {
            assert(self.handles() == before.handles().push(id));
            assert(self.kinds() == before.kinds().push(node_type));
            assert(self.edges() == before.edges());
            assert forall|i: int| 0 <= i < self.edges().len() implies self.declares(
                #[trigger] self.edges()[i],
            ) by {
                let edge = self.edges()[i];
                assert(before.declares(before.edges()[i]));
                assert(self.handles().drop_last() == before.handles());
                assert(self.kinds().drop_last() == before.kinds());
                before.lemma_kept(*self, edge.from.node);
                before.lemma_kept(*self, edge.to.node);
            }
        }
        Ok(())
    }

    /// A node that is registered keeps its kind when another is registered.
    proof fn lemma_kept(&self, after: Dag, id: NodeId)
        requires
            self.has_node(id),
            self.kinds().len() == self.handles().len(),
            after.handles().no_duplicates(),
            after.handles().drop_last() == self.handles(),
            after.kinds().drop_last() == self.kinds(),
            after.handles().len() == self.handles().len() + 1,
            after.kinds().len() == after.handles().len(),
        ensures
            after.has_node(id),
            after.kind_of(id) == self.kind_of(id),
    {
        let i = place(self.handles(), id);
        assert(after.handles()[i] == after.handles().drop_last()[i]);
        assert(after.kinds()[i] == after.kinds().drop_last()[i]);
        let j = place(after.handles(), id);
        assert(i == j);
    }

    /// Where every connection out of a marked node leads to a marked node,
    /// every node on a walk that starts at a marked node is marked.
    proof fn lemma_closed_marks(&self, marked: Seq<bool>, path: Seq<NodeId>, k: int)
        requires
            self.wf(),
            marked.len() == self.handles().len(),
            forall|l: int|
                0 <= l < self.links@.len() && marked[(#[trigger] self.links@[l]).from_index as int]
                    ==> marked[self.links@[l].to_index as int],
            is_path(self.edges(), path),
            exists|j: int| 0 <= j < marked.len() && marked[j] && self.handles()[j] == path[0],
            0 <= k < path.len(),
        ensures
            exists|j: int|
                0 <= j < marked.len() && marked[j] && #[trigger] self.handles()[j] == path[k],
        decreases k,
    {
        if k > 0 {
            self.lemma_closed_marks(marked, path, k - 1);
            let j = choose|j: int|
                0 <= j < marked.len() && marked[j] && #[trigger] self.handles()[j] == path[k - 1];
            assert(linked(self.edges(), path[k - 1], path[k - 1 + 1]));
            let l = choose|l: int|
                0 <= l < self.edges().len() && (#[trigger] self.edges()[l]).from.node == path[k
                    - 1] && self.edges()[l].to.node == path[k];
            let link = self.links@[l];
            assert(self.handles()[link.from_index as int] == self.handles()[j]);
            assert(link.from_index == j);
            assert(self.handles()[link.to_index as int] == path[k]);
        } else {
            let j = choose|j: int|
                0 <= j < marked.len() && marked[j] && self.handles()[j] == path[0];
            assert(self.handles()[j] == path[0]);
        }
    }

    /// For each node, in the order of registration, whether the node at
    /// place `start` reaches it: whether it is that node or lies downstream
    /// of it. `None` if there is no node at that place.
    pub fn reachable_from(&self, start: usize) -> (r: Option<Vec<bool>>)
        requires
            self.wf(),
        ensures
            match r {
                Some(marked) => {
                    &&& start < self.handles().len()
                    &&& marked@.len() == self.handles().len()
                    &&& forall|i: int|
                        0 <= i < marked@.len() ==> #[trigger] marked@[i] == reaches(
                            self.edges(),
                            self.handles()[start as int],
                            self.handles()[i],
                        )
                },
                None => start >= self.handles().len(),
            },
    {
        if start < self.nodes.len() {
            Some(self.mark_reachable(start))
        } else {
            None
        }
    }

    fn mark_reachable(&self, start: usize) -> (marked: Vec<bool>)
        requires
            self.wf(),
            start < self.handles().len(),
        ensures
            marked@.len() == self.handles().len(),
            forall|i: int|
                0 <= i < marked@.len() ==> #[trigger] marked@[i] == reaches(
                    self.edges(),
                    self.handles()[start as int],
                    self.handles()[i],
                ),
    {
        let n = self.nodes.len();
        let ghost origin = self.handles()[start as int];
        let mut marked: Vec<bool> = Vec::new();
        while marked.len() < n
            invariant
                marked@.len() <= n,
                forall|i: int| 0 <= i < marked@.len() ==> !marked@[i],
            decreases n - marked@.len(),
        {
            marked.push(false);
        }
        marked.set(start, true);
        proof {
            lemma_reaches_itself(self.edges(), origin);
        }
        let mut changed = true;
        while changed
            invariant
                self.wf(),
                n == self.nodes@.len(),
                start < n,
                origin == self.handles()[start as int],
                marked@.len() == n,
                marked@[start as int],
                forall|i: int|
                    0 <= i < n && #[trigger] marked@[i] ==> reaches(
                        self.edges(),
                        origin,
                        self.handles()[i],
                    ),
                !changed ==> forall|l: int|
                    0 <= l < self.links@.len() && marked@[(
                    #[trigger] self.links@[l]).from_index as int]
                        ==> marked@[self.links@[l].to_index as int],
            decreases
                    count_unmarked(marked@) + if changed {
                        1nat
                    } else {
                        0nat
                    },
        {
            changed = false;
            let ghost before = count_unmarked(marked@);
            let mut l: usize = 0;
            while l < self.links.len()
                invariant
                    self.wf(),
                    n == self.nodes@.len(),
                    start < n,
                    origin == self.handles()[start as int],
                    marked@.len() == n,
                    marked@[start as int],
                    l <= self.links@.len(),
                    forall|i: int|
                        0 <= i < n && #[trigger] marked@[i] ==> reaches(
                            self.edges(),
                            origin,
                            self.handles()[i],
                        ),
                    !changed ==> forall|m: int|
                        0 <= m < l && marked@[(#[trigger] self.links@[m]).from_index as int]
                            ==> marked@[self.links@[m].to_index as int],
                    !changed ==> count_unmarked(marked@) == before,
                    changed ==> count_unmarked(marked@) < before,
                decreases self.links@.len() - l,
            {
                let from = self.links[l].from_index;
                let to = self.links[l].to_index;
                if marked[from] && !marked[to] {
                    proof {
                        lemma_marking_counts(marked@, to as int);
                        let edge = self.edges()[l as int];
                        assert(edge.from.node == self.handles()[from as int]);
                        assert(edge.to.node == self.handles()[to as int]);
                        lemma_reaches_next(
                            self.edges(),
                            origin,
                            self.handles()[from as int],
                            self.handles()[to as int],
                        );
                    }
                    marked.set(to, true);
                    changed = true;
                }
                l = l + 1;
            }
        }
        proof {
            assert forall|i: int| 0 <= i < marked@.len() implies #[trigger] marked@[i] == reaches(
                self.edges(),
                origin,
                self.handles()[i],
            ) by {
                if reaches(self.edges(), origin, self.handles()[i]) {
                    let path = choose|path: Seq<NodeId>|
                        #[trigger] is_path(self.edges(), path) && path[0] == origin && path.last()
                            == self.handles()[i];
                    assert(marked@[start as int] && self.handles()[start as int] == path[0]);
                    self.lemma_closed_marks(marked@, path, path.len() - 1);
                    let j = choose|j: int|
                        0 <= j < marked@.len() && marked@[j] && #[trigger] self.handles()[j]
                            == path[path.len() - 1];
                    assert(j == i);
                }
            }
        }
        marked
    }

    /// Connects an output port of one node to an input port of another.
    ///
    /// Fails, and changes nothing, if either node is not registered, if
    /// either port is not declared by its node for that direction, or if the
    /// connection would close a cycle; `refusal` says which error is given.
    pub fn connect(&mut self, from: Endpoint, to: Endpoint) -> (r: Result<(), ExecutionError>)
        requires
            old(self).wf(),
        ensures
            final(self).wf(),
            final(self).handles() == old(self).handles(),
            final(self).kinds() == old(self).kinds(),
            match r {
                Ok(_) => {
                    &&& old(self).refusal(from@, to@) is None
                    &&& final(self).edges() == old(self).edges().push(
                        EdgeView { from: from@, to: to@ },
                    )
                },
                Err(e) => {
                    &&& old(self).refusal(from@, to@) == Some(e@)
                    &&& final(self).edges() == old(self).edges()
                },
            },
    {
        let from_index = match self.index_of(&from.node) {
            Some(i) => i,
            None => {
                return Err(ExecutionError::InvalidNodeHandle(from.node));
            },
        };
        let to_index = match self.index_of(&to.node) {
            Some(i) => i,
            None => {
                return Err(ExecutionError::InvalidNodeHandle(to.node));
            },
        };
        proof {
            self.lemma_place(from_index as int);
            self.lemma_place(to_index as int);
        }
        if !self.nodes[from_index].kind.has_output_port(from.port) {
            return Err(ExecutionError::InvalidPortHandle(from.port));
        }
        if !self.nodes[to_index].kind.has_input_port(to.port) {
            return Err(ExecutionError::InvalidPortHandle(to.port));
        }
        let downstream = self.mark_reachable(to_index);
        if downstream[from_index] {
            return Err(ExecutionError::WouldCycle);
        }
        let ghost before = *self;
        let ghost edge = EdgeView { from: from@, to: to@ };
        self.links.push(Link { edge: Edge { from, to }, from_index, to_index });
        proof {
            assert(self.edges() == before.edges().push(edge));
            assert(self.handles() == before.handles());
            assert(self.kinds() == before.kinds());
            lemma_new_edge_keeps_acyclic(before.edges(), edge);
            assert forall|i: int| 0 <= i < self.edges().len() implies self.declares(
                #[trigger] self.edges()[i],
            ) by {
                if i < before.edges().len() {
                    assert(before.declares(before.edges()[i]));
                }
            }
        }
        Ok(())
    }

    /// The number of registered nodes.
    pub fn node_count(&self) -> (n: usize)
        ensures
            n == self.handles().len(),
    {
        self.nodes.len()
    }

    /// The number of connections.
    pub fn edge_count(&self) -> (n: usize)
        ensures
            n == self.edges().len(),
    {
        self.links.len()
    }

    /// The handle of the `i`-th node in the order of registration.
    pub fn node_handle(&self, i: usize) -> (r: Option<&NodeHandle>)
        ensures
            match r {
                Some(handle) => i < self.handles().len() && handle@ == self.handles()[i as int],
                None => i >= self.handles().len(),
            },
    {
        if i < self.nodes.len() {
            Some(&self.nodes[i].handle)
        } else {
            None
        }
    }

    /// The kind and ports of the `i`-th node in the order of registration.
    pub fn node_kind(&self, i: usize) -> (r: Option<&NodeType>)
        ensures
            match r {
                Some(kind) => i < self.kinds().len() && *kind == self.kinds()[i as int],
                None => i >= self.kinds().len(),
            },
    {
        if i < self.nodes.len() {
            Some(&self.nodes[i].kind)
        } else {
            None
        }
    }

    /// The kind and ports of the node with this handle, if it is registered.
    pub fn node_type(&self, handle: &NodeHandle) -> (r: Option<&NodeType>)
        requires
            self.wf(),
        ensures
            match r {
                Some(kind) => self.has_node(handle@) && *kind == self.kind_of(handle@),
                None => !self.has_node(handle@),
            },
    {
        match self.index_of(handle) {
            Some(i) => {
                proof {
                    self.lemma_place(i as int);
                }
                Some(&self.nodes[i].kind)
            },
            None => None,
        }
    }

    /// The `i`-th connection in the order in which they were made.
    pub fn edge(&self, i: usize) -> (r: Option<&Edge>)
        ensures
            match r {
                Some(edge) => i < self.edges().len() && edge@ == self.edges()[i as int],
                None => i >= self.edges().len(),
            },
    {
        if i < self.links.len() {
            Some(&self.links[i].edge)
        } else {
            None
        }
    }

    /// The places, in the order of registration, of the node that the
    /// `i`-th connection comes from and of the node that it leads to.
    pub fn edge_nodes(&self, i: usize) -> (r: Option<(usize, usize)>)
        requires
            self.wf(),
        ensures
            match r {
                Some((from, to)) => {
                    &&& i < self.edges().len()
                    &&& from < self.handles().len()
                    &&& to < self.handles().len()
                    &&& self.handles()[from as int] == self.edges()[i as int].from.node
                    &&& self.handles()[to as int] == self.edges()[i as int].to.node
                },
                None => i >= self.edges().len(),
            },
    {
        if i < self.links.len() {
            Some((self.links[i].from_index, self.links[i].to_index))
        } else {
            None
        }
    }

    /// A connection between two registered nodes to or from a port that its
    /// node does not declare is refused, with that port as the error,
    /// whether or not it would close a cycle.
    pub proof fn undeclared_port_is_refused(&self, from: EndpointView, to: EndpointView)
        requires
            self.has_node(from.node),
            self.has_node(to.node),
            !self.kind_of(from.node).declares_output(from.port) || !self.kind_of(
                to.node,
            ).declares_input(to.port),
        ensures
            self.refusal(from, to) == Some(ExecutionErrorView::InvalidPortHandle(from.port))
                || self.refusal(from, to) == Some(ExecutionErrorView::InvalidPortHandle(to.port)),
    {
    }

    /// A connection that would close a cycle is refused: one that leads to
    /// its own origin, or to a node from which the origin can be reached.
    pub proof fn cycle_is_refused(&self, from: EndpointView, to: EndpointView)
        requires
            reaches(self.edges(), to.node, from.node),
        ensures
            self.refusal(from, to) is Some,
            self.has_node(from.node) && self.has_node(to.node) && self.kind_of(
                from.node,
            ).declares_output(from.port) && self.kind_of(to.node).declares_input(to.port)
                ==> self.refusal(from, to) == Some(ExecutionErrorView::WouldCycle),
    {
    }

    /// In a graph that holds its invariant no node lies downstream of
    /// itself: a walk over one or more connections never ends where it began.
    pub proof fn no_walk_returns(&self, path: Seq<NodeId>)
        requires
            self.wf(),
            is_path(self.edges(), path),
            path.len() >= 2,
        ensures
            path[0] != path.last(),
    {
        if path[0] == path.last() {
            let rest = path.drop_first();
            assert forall|k: int| 0 <= k < rest.len() - 1 implies linked(
                self.edges(),
                #[trigger] rest[k],
                rest[k + 1],
            ) by {
                assert(linked(self.edges(), path[k + 1], path[k + 1 + 1]));
            }
            assert(is_path(self.edges(), rest));
            assert(linked(self.edges(), path[0int], path[0int + 1]));
            assert(rest[0] == path[1] && rest.last() == path[0]);
        }
    }

    /// Whether `found` gives the places of exactly the connections for
    /// which `wanted` holds, in the order in which they were made.
    pub open spec fn lists_edges(&self, found: Seq<usize>, wanted: spec_fn(EdgeView) -> bool) -> bool {
        &&& forall|k: int|
            0 <= k < found.len() ==> (#[trigger] found[k]) < self.edges().len() && wanted(
                self.edges()[found[k] as int],
            )
        &&& forall|i: int|
            0 <= i < self.edges().len() && wanted(#[trigger] self.edges()[i]) ==> found.contains(
                i as usize,
            )
        &&& forall|a: int, b: int| 0 <= a < b < found.len() ==> found[a] < found[b]
    }

    /// The connections on which a node sends what it emits on `port`: every
    /// connection that starts at that port and no other, each once. What a
    /// node emits on a port goes to all of them.
    pub fn outputs_on(&self, node: &NodeHandle, port: PortHandle) -> (r: Vec<usize>)
        ensures
            self.lists_edges(
                r@,
                |edge: EdgeView| edge.from == (EndpointView { node: node@, port }),
            ),
    {
        self.select(node, Some(port), true)
    }

    /// The connections that start at any port of a node: those on which it
    /// sends barriers and the termination marker.
    pub fn outputs_of(&self, node: &NodeHandle) -> (r: Vec<usize>)
        ensures
            self.lists_edges(r@, |edge: EdgeView| edge.from.node == node@),
    {
        self.select(node, None, true)
    }

    /// The connections that arrive at any port of a node.
    pub fn inputs_of(&self, node: &NodeHandle) -> (r: Vec<usize>)
        ensures
            self.lists_edges(r@, |edge: EdgeView| edge.to.node == node@),
    {
        self.select(node, None, false)
    }

    fn select(&self, node: &NodeHandle, port: Option<PortHandle>, outgoing: bool) -> (r: Vec<
        usize,
    >)
        ensures
            self.lists_edges(r@, |edge: EdgeView| at_end(edge, node@, port, outgoing)),
    {
        let mut found: Vec<usize> = Vec::new();
        let mut i: usize = 0;
        while i < self.links.len()
            invariant
                i <= self.links@.len(),
                forall|k: int|
                    0 <= k < found@.len() ==> (#[trigger] found@[k]) < i && at_end(
                        self.edges()[found@[k] as int],
                        node@,
                        port,
                        outgoing,
                    ),
                forall|j: int|
                    0 <= j < i && at_end(#[trigger] self.edges()[j], node@, port, outgoing)
                        ==> found@.contains(j as usize),
                forall|a: int, b: int| 0 <= a < b < found@.len() ==> found@[a] < found@[b],
            decreases self.links@.len() - i,
        {
            let end = if outgoing {
                &self.links[i].edge.from
            } else {
                &self.links[i].edge.to
            };
            let on_port = match port {
                Some(wanted) => end.port == wanted,
                None => true,
            };
            if on_port && end.node.same(node) {
                let ghost earlier = found@;
                found.push(i);
                proof {
                    assert(found@[earlier.len() as int] == i);
                    assert forall|j: int|
                        0 <= j < i + 1 && at_end(
                            #[trigger] self.edges()[j],
                            node@,
                            port,
                            outgoing,
                        ) implies found@.contains(j as usize) by {
                        if j < i {
                            assert(earlier.contains(j as usize));
                            let k = choose|k: int| 0 <= k < earlier.len() && earlier[k] == j as usize;
                            assert(found@[k] == j as usize);
                        }
                    }
                }
            }
            i = i + 1;
        }
        found
    }
}

/// Whether the connection starts (if `outgoing`) or arrives at the node, and
/// at the port where one is given.
pub open spec fn at_end(
    edge: EdgeView,
    node: NodeId,
    port: Option<PortHandle>,
    outgoing: bool,
) -> bool {
    let end = if outgoing {
        edge.from
    } else {
        edge.to
    };
    end.node == node && (port matches Some(wanted) ==> end.port == wanted)
}

impl Dag {
    /// For each node, whether the node at place `v` reaches it.
    pub open spec fn reach_row(&self, v: int) -> Seq<bool> {
        Seq::new(
            self.handles().len(),
            |i: int| reaches(self.edges(), self.handles()[v], self.handles()[i]),
        )
    }

    /// Whether `order` is an order in which the nodes can be set up one
    /// after the other: it names the place of every node once, and no node
    /// comes before a node that reaches it. So every node comes after all
    /// the nodes upstream of it.
    pub open spec fn is_topological(&self, order: Seq<usize>) -> bool {
        &&& order.len() == self.handles().len()
        &&& forall|k: int| 0 <= k < order.len() ==> (#[trigger] order[k]) < self.handles().len()
        &&& forall|place: usize| place < self.handles().len() ==> #[trigger] order.contains(place)
        &&& forall|a: int, b: int|
            0 <= a < b < order.len() ==> (#[trigger] order[a]) != (#[trigger] order[b])
        &&& forall|a: int, b: int|
            0 <= a < b < order.len() ==> !reaches(
                self.edges(),
                self.handles()[(#[trigger] order[b]) as int],
                self.handles()[(#[trigger] order[a]) as int],
            )
    }

    /// A node that lies downstream of another reaches fewer nodes.
    proof fn lemma_height_grows(&self, x: int, y: int)
        requires
            self.wf(),
            0 <= x < self.handles().len(),
            0 <= y < self.handles().len(),
            x != y,
            reaches(self.edges(), self.handles()[x], self.handles()[y]),
        ensures
            count_unmarked(self.reach_row(x)) < count_unmarked(self.reach_row(y)),
    {
        let edges = self.edges();
        let handles = self.handles();
        assert forall|i: int|
            0 <= i < handles.len() && self.reach_row(y)[i] implies self.reach_row(x)[i] by {
            lemma_reaches_transitive(edges, handles[x], handles[y], handles[i]);
        }
        lemma_reaches_itself(edges, handles[x]);
        if reaches(edges, handles[y], handles[x]) {
            lemma_no_return(edges, handles[x], handles[y]);
        }
        lemma_fewer_unmarked(self.reach_row(y), self.reach_row(x), x);
    }

    /// For each node, how many nodes it does not reach.
    fn heights(&self) -> (r: Vec<usize>)
        requires
            self.wf(),
        ensures
            r@.len() == self.handles().len(),
            forall|v: int|
                0 <= v < r@.len() ==> #[trigger] r@[v] == count_unmarked(self.reach_row(v))
                    && r@[v] < r@.len(),
    {
        let n = self.nodes.len();
        let mut heights: Vec<usize> = Vec::new();
        let mut v: usize = 0;
        while v < n
            invariant
                self.wf(),
                n == self.handles().len(),
                v <= n,
                heights@.len() == v,
                forall|u: int|
                    0 <= u < v ==> #[trigger] heights@[u] == count_unmarked(self.reach_row(u))
                        && heights@[u] < n,
            decreases n - v,
        {
            let marked = self.mark_reachable(v);
            let mut unmarked: usize = 0;
            let mut i: usize = 0;
            while i < n
                invariant
                    i <= n,
                    n == marked@.len(),
                    unmarked == count_unmarked(marked@.subrange(0, i as int)),
                    unmarked <= i,
                decreases n - i,
            {
                assert(marked@.subrange(0, i + 1).drop_last() == marked@.subrange(0, i as int));
                if !marked[i] {
                    unmarked = unmarked + 1;
                }
                i = i + 1;
            }
            proof {
                assert(marked@.subrange(0, n as int) == marked@);
                assert(marked@ == self.reach_row(v as int));
                lemma_reaches_itself(self.edges(), self.handles()[v as int]);
                let none = Seq::new(n as nat, |i: int| false);
                lemma_fewer_unmarked(none, marked@, v as int);
                lemma_no_more_unmarked(none, none);
            }
            heights.push(unmarked);
            v = v + 1;
        }
        heights
    }

    /// An order in which the nodes can be set up one after the other, so
    /// that what a node needs from the nodes upstream of it is there when
    /// its turn comes. Sources come first.
    pub fn topological_order(&self) -> (r: Vec<usize>)
        requires
            self.wf(),
        ensures
            self.is_topological(r@),
    {
        let n = self.nodes.len();
        let heights = self.heights();
        let mut order: Vec<usize> = Vec::new();
        let mut h: usize = 0;
        while h < n
            invariant
                n == self.handles().len(),
                heights@.len() == n,
                h <= n,
                forall|k: int| 0 <= k < order@.len() ==> (#[trigger] order@[k]) < n,
                forall|k: int|
                    0 <= k < order@.len() ==> heights@[(#[trigger] order@[k]) as int] < h,
                forall|a: int, b: int|
                    0 <= a < b < order@.len() ==> sorts_before(
                        heights@,
                        #[trigger] order@[a],
                        #[trigger] order@[b],
                    ),
                forall|j: int| 0 <= j < n && #[trigger] heights@[j] < h ==> order@.contains(j as usize),
            decreases n - h,
        {
            let mut i: usize = 0;
            while i < n
                invariant
                    n == self.handles().len(),
                    heights@.len() == n,
                    h < n,
                    i <= n,
                    forall|k: int| 0 <= k < order@.len() ==> (#[trigger] order@[k]) < n,
                    forall|k: int|
                        0 <= k < order@.len() ==> heights@[(#[trigger] order@[k]) as int] < h || (
                        heights@[order@[k] as int] == h && order@[k] < i),
                    forall|a: int, b: int|
                        0 <= a < b < order@.len() ==> sorts_before(
                            heights@,
                            #[trigger] order@[a],
                            #[trigger] order@[b],
                        ),
                    forall|j: int|
                        0 <= j < n && (#[trigger] heights@[j] < h || (heights@[j] == h && j < i))
                            ==> order@.contains(j as usize),
                decreases n - i,
            {
                if heights[i] == h {
                    let ghost earlier = order@;
                    order.push(i);
                    proof {
                        assert(order@[earlier.len() as int] == i);
                        assert forall|j: int|
                            0 <= j < n && (#[trigger] heights@[j] < h || (heights@[j] == h && j < i
                                + 1)) implies order@.contains(j as usize) by {
                            if j != i {
                                assert(earlier.contains(j as usize));
                                let k = choose|k: int|
                                    0 <= k < earlier.len() && earlier[k] == j as usize;
                                assert(order@[k] == j as usize);
                            }
                        }
                    }
                }
                i = i + 1;
            }
            h = h + 1;
        }
        proof {
            let ints = order@.map_values(|place: usize| place as int);
            assert forall|a: int, b: int| 0 <= a < ints.len() && 0 <= b < ints.len() && a
                != b implies ints[a] != ints[b] by {
                if a < b {
                    assert(sorts_before(heights@, order@[a], order@[b]));
                } else {
                    assert(sorts_before(heights@, order@[b], order@[a]));
                }
            }
            assert forall|j: int| ints.to_set().contains(j) <==> 0 <= j < n by {
                if ints.to_set().contains(j) {
                    let k = choose|k: int| 0 <= k < ints.len() && ints[k] == j;
                    assert(order@[k] < n);
                }
                if 0 <= j < n {
                    assert(heights@[j] < n);
                    assert(order@.contains(j as usize));
                    let k = choose|k: int| 0 <= k < order@.len() && order@[k] == j as usize;
                    assert(ints[k] == j);
                }
            }
            assert forall|place: usize| place < n implies #[trigger] order@.contains(place) by {
                assert(heights@[place as int] < n);
            }
            assert(ints.to_set() =~= vstd::set_lib::set_int_range(0, n as int));
            vstd::set_lib::lemma_int_range(0, n as int);
            ints.unique_seq_to_set();
            assert forall|a: int, b: int| 0 <= a < b < order@.len() implies !reaches(
                self.edges(),
                self.handles()[(#[trigger] order@[b]) as int],
                self.handles()[(#[trigger] order@[a]) as int],
            ) by {
                let x = order@[b] as int;
                let y = order@[a] as int;
                assert(sorts_before(heights@, order@[a], order@[b]));
                if reaches(self.edges(), self.handles()[x], self.handles()[y]) {
                    self.lemma_height_grows(x, y);
                }
            }
        }
        order
    }
}

impl Dag {
    /// Whether the `l`-th connection arrives at this input port.
    pub open spec fn arrives(&self, l: int, node: NodeId, port: PortHandle) -> bool {
        0 <= l < self.edges().len() && self.edges()[l].to == (EndpointView { node, port })
    }

    /// Whether some connection arrives at this input port.
    pub open spec fn fed(&self, node: NodeId, port: PortHandle) -> bool {
        exists|l: int| #[trigger] self.arrives(l, node, port)
    }

    /// Whether one connection, and only one, arrives at this input port.
    pub open spec fn fed_once(&self, node: NodeId, port: PortHandle) -> bool {
        exists|l: int|
            #[trigger] self.arrives(l, node, port) && forall|m: int| #[trigger]
                self.arrives(m, node, port) ==> m == l
    }

    /// Whether one connection, and only one, arrives at the `k`-th input
    /// port of the `i`-th node.
    pub open spec fn input_ready(&self, i: int, k: int) -> bool {
        self.fed_once(self.handles()[i], self.kinds()[i].input_ports()[k])
    }

    /// Which error `validate` gives for an input port that is not fed once.
    pub open spec fn input_error(&self, i: int, k: int) -> ExecutionErrorView {
        let node = self.handles()[i];
        let port = self.kinds()[i].input_ports()[k];
        if self.fed(node, port) {
            ExecutionErrorView::AmbiguousNodeInput { node, port }
        } else {
            ExecutionErrorView::MissingNodeInput { node, port }
        }
    }

    /// Whether one connection, and only one, arrives at every input port
    /// that a node declares.
    pub open spec fn all_inputs_ready(&self) -> bool {
        forall|i: int, k: int|
            0 <= i < self.handles().len() && 0 <= k < self.kinds()[i].input_ports().len()
                ==> #[trigger] self.input_ready(i, k)
    }

    /// Whether the `k`-th input port of the `i`-th node is the first of
    /// which that does not hold, going through the nodes in the order of
    /// registration and through the ports of a node in the order of
    /// declaration.
    pub open spec fn first_unready(&self, i: int, k: int) -> bool {
        &&& 0 <= i < self.handles().len()
        &&& 0 <= k < self.kinds()[i].input_ports().len()
        &&& !self.input_ready(i, k)
        &&& forall|j: int, m: int|
            0 <= j < self.handles().len() && 0 <= m < self.kinds()[j].input_ports().len() && (j
                < i || (j == i && m < k)) ==> #[trigger] self.input_ready(j, m)
    }

    /// Checks that the graph can be run: one connection, and only one,
    /// arrives at every input port that a node declares, so that each port
    /// has one stream of messages with one order.
    ///
    /// Fails with the first input port of which that does not hold, going
    /// through the nodes in the order of registration and through the ports
    /// of a node in the order of declaration: with `MissingNodeInput` where
    /// no connection arrives, with `AmbiguousNodeInput` where several do.
    pub fn validate(&self) -> (r: Result<(), ExecutionError>)
        requires
            self.wf(),
        ensures
            match r {
                Ok(_) => self.all_inputs_ready(),
                Err(e) => exists|i: int, k: int|
                    #[trigger] self.first_unready(i, k) && e@ == self.input_error(i, k),
            },
    {
        let mut i: usize = 0;
        while i < self.nodes.len()
            invariant
                i <= self.nodes@.len(),
                forall|j: int, m: int|
                    0 <= j < i && 0 <= m < self.kinds()[j].input_ports().len()
                        ==> #[trigger] self.input_ready(j, m),
            decreases self.nodes@.len() - i,
        {
            let ports = self.nodes[i].kind.get_input_ports();
            let mut k: usize = 0;
            while k < ports.len()
                invariant
                    i < self.nodes@.len(),
                    ports@ == self.kinds()[i as int].input_ports(),
                    k <= ports@.len(),
                    forall|j: int, m: int|
                        0 <= j < self.handles().len() && 0 <= m
                            < self.kinds()[j].input_ports().len() && (j < i || (j == i && m < k))
                            ==> #[trigger] self.input_ready(j, m),
                decreases ports@.len() - k,
            {
                match self.check_input(i, ports[k], Ghost(k as int)) {
                    Ok(_) => {},
                    Err(error) => {
                        assert(self.first_unready(i as int, k as int));
                        return Err(error);
                    },
                }
                k = k + 1;
            }
            i = i + 1;
        }
        Ok(())
    }

    /// Checks that one connection, and only one, arrives at the input port
    /// `port` of the `i`-th node, which is its `k`-th.
    fn check_input(&self, i: usize, port: PortHandle, Ghost(k): Ghost<int>) -> (r: Result<
        usize,
        ExecutionError,
    >)
        requires
            i < self.handles().len(),
            0 <= k < self.kinds()[i as int].input_ports().len(),
            port == self.kinds()[i as int].input_ports()[k],
        ensures
            match r {
                Ok(l) => self.input_ready(i as int, k) && self.arrives(
                    l as int,
                    self.handles()[i as int],
                    port,
                ),
                Err(e) => !self.input_ready(i as int, k) && e@ == self.input_error(i as int, k),
            },
    {
        let arriving = self.select(&self.nodes[i].handle, Some(port), false);
        let count = self.links.len();
        let ghost node = self.handles()[i as int];
        proof {
            assert forall|l: int| self.arrives(l, node, port) implies arriving@.contains(
                l as usize,
            ) by {
                assert(at_end(self.edges()[l], node, Some(port), false));
            }
            assert forall|n: int| 0 <= n < arriving@.len() implies self.arrives(
                arriving@[n] as int,
                node,
                port,
            ) by {
                assert(at_end(self.edges()[arriving@[n] as int], node, Some(port), false));
            }
        }
        if arriving.len() == 0 {
            let error = ExecutionError::MissingNodeInput {
                node: self.nodes[i].handle.duplicate(),
                port,
            };
            proof {
                if self.fed(node, port) {
                    let l = choose|l: int| #[trigger] self.arrives(l, node, port);
                    assert(arriving@.contains(l as usize));
                }
                if self.fed_once(node, port) {
                    let l = choose|l: int|
                        #[trigger] self.arrives(l, node, port) && forall|m: int| #[trigger]
                            self.arrives(m, node, port) ==> m == l;
                    assert(self.fed(node, port));
                }
            }
            return Err(error);
        }
        if arriving.len() > 1 {
            let error = ExecutionError::AmbiguousNodeInput {
                node: self.nodes[i].handle.duplicate(),
                port,
            };
            proof {
                assert(self.arrives(arriving@[0] as int, node, port));
                assert(self.arrives(arriving@[1] as int, node, port));
                assert(arriving@[0] < arriving@[1]);
                assert(self.fed(node, port));
            }
            return Err(error);
        }
        proof {
            let l = arriving@[0] as int;
            assert(self.arrives(l, node, port));
            assert forall|m: int| #[trigger] self.arrives(m, node, port) implies m == l by {
                assert(0 <= m < count);
                assert(arriving@.contains(m as usize));
                let n = choose|n: int| 0 <= n < arriving@.len() && arriving@[n] == m as usize;
                assert(n == 0);
                assert(arriving@[0] as int == m);
            }
        }
        Ok(arriving[0])
    }
}

/// Where an input port of a node gets its messages from.
#[derive(Debug, Clone, Copy, PartialEq, Eq)]
pub struct InputPlan {
    /// The input port.
    pub port: PortHandle,
    /// The place of the one connection that arrives at it.
    pub connection: usize,
    /// The place of the node that the connection comes from.
    pub from_node: usize,
    /// The output port of that node at which the connection starts.
    pub from_port: PortHandle,
}

/// One step of setting a graph up: a node, and for each of its input ports
/// where the port gets its messages from.
#[derive(Debug, Clone, PartialEq, Eq)]
pub struct NodePlan {
    /// The place of the node.
    pub node: usize,
    /// One entry for each input port that the node declares, in the order
    /// of declaration.
    pub inputs: Vec<InputPlan>,
}

impl Dag {
    /// Whether `input` says where the input port `port` of the node at
    /// place `node` gets its messages from.
    pub open spec fn feeds(&self, input: InputPlan, node: int, port: PortHandle) -> bool {
        &&& input.port == port
        &&& self.arrives(input.connection as int, self.handles()[node], port)
        &&& input.from_node < self.handles().len()
        &&& self.edges()[input.connection as int].from == (EndpointView {
            node: self.handles()[input.from_node as int],
            port: input.from_port,
        })
    }

    /// Whether `step` names a node and says of each of its input ports, in
    /// the order of declaration, where it gets its messages from.
    pub open spec fn is_step(&self, step: NodePlan) -> bool {
        &&& step.node < self.handles().len()
        &&& step.inputs@.len() == self.kinds()[step.node as int].input_ports().len()
        &&& forall|k: int|
            0 <= k < step.inputs@.len() ==> self.feeds(
                #[trigger] step.inputs@[k],
                step.node as int,
                self.kinds()[step.node as int].input_ports()[k],
            )
    }

    /// Whether `plan` sets the graph up: it has one step for each node, in
    /// a topological order, and every input of a step comes from a node
    /// of an earlier step, so that what the node needs to know of its
    /// inputs, such as their schemas, has been worked out when its turn
    /// comes.
    pub open spec fn is_plan(&self, plan: Seq<NodePlan>) -> bool {
        &&& self.is_topological(plan.map_values(|step: NodePlan| step.node))
        &&& forall|s: int| 0 <= s < plan.len() ==> self.is_step(#[trigger] plan[s])
        &&& forall|s: int, k: int|
            0 <= s < plan.len() && 0 <= k < plan[s].inputs@.len() ==> comes_earlier(
                plan,
                s,
                (#[trigger] plan[s].inputs@[k]).from_node,
            )
    }

    /// The node that a connection comes from stands before the node that
    /// it arrives at in every topological order.
    proof fn lemma_feeder_comes_earlier(&self, order: Seq<usize>, s: int, l: int, from: usize)
        requires
            self.wf(),
            self.is_topological(order),
            0 <= s < order.len(),
            0 <= l < self.edges().len(),
            from < self.handles().len(),
            self.edges()[l].from.node == self.handles()[from as int],
            self.edges()[l].to.node == self.handles()[order[s] as int],
        ensures
            exists|j: int| 0 <= j < s && order[j] == from,
    {
        let edges = self.edges();
        let a = self.handles()[from as int];
        let b = self.handles()[order[s] as int];
        assert(linked(edges, a, b));
        lemma_reaches_itself(edges, a);
        lemma_reaches_next(edges, a, a, b);
        lemma_reaches_itself(edges, b);
        assert(order.contains(from));
        let j = choose|j: int| 0 <= j < order.len() && order[j] == from;
        if j == s {
            assert(a == b);
        }
        if j > s {
            assert(!reaches(edges, self.handles()[order[j] as int], self.handles()[order[s] as int]));
        }
    }

    /// Plans how the graph is set up for a run: checks it as `validate`
    /// does, and puts the nodes in an order in which each comes after the
    /// nodes that feed it, with the one feeder of each of its input ports.
    pub fn plan(&self) -> (r: Result<Vec<NodePlan>, ExecutionError>)
        requires
            self.wf(),
        ensures
            match r {
                Ok(plan) => self.all_inputs_ready() && self.is_plan(plan@),
                Err(e) => exists|i: int, k: int|
                    #[trigger] self.first_unready(i, k) && e@ == self.input_error(i, k),
            },
    {
        match self.validate() {
            Ok(_) => {},
            Err(error) => {
                return Err(error);
            },
        }
        let order = self.topological_order();
        let mut plan: Vec<NodePlan> = Vec::new();
        let mut s: usize = 0;
        while s < order.len()
            invariant
                self.wf(),
                self.all_inputs_ready(),
                self.is_topological(order@),
                s <= order@.len(),
                plan@.len() == s,
                forall|t: int| 0 <= t < s ==> (#[trigger] plan@[t]).node == order@[t],
                forall|t: int| 0 <= t < s ==> self.is_step(#[trigger] plan@[t]),
                forall|t: int, k: int|
                    0 <= t < s && 0 <= k < plan@[t].inputs@.len() ==> stands_before(
                        order@,
                        t,
                        (#[trigger] plan@[t].inputs@[k]).from_node,
                    ),
            decreases order@.len() - s,
        {
            let place = order[s];
            let ports = self.nodes[place].kind.get_input_ports();
            let mut inputs: Vec<InputPlan> = Vec::new();
            let mut k: usize = 0;
            while k < ports.len()
                invariant
                    self.wf(),
                    self.all_inputs_ready(),
                    self.is_topological(order@),
                    s < order@.len(),
                    place == order@[s as int],
                    place < self.handles().len(),
                    ports@ == self.kinds()[place as int].input_ports(),
                    k <= ports@.len(),
                    inputs@.len() == k,
                    forall|m: int|
                        0 <= m < k ==> self.feeds(#[trigger] inputs@[m], place as int, ports@[m]),
                    forall|m: int|
                        0 <= m < k ==> stands_before(
                            order@,
                            s as int,
                            (#[trigger] inputs@[m]).from_node,
                        ),
                decreases ports@.len() - k,
            {
                match self.check_input(place, ports[k], Ghost(k as int)) {
                    Ok(l) => {
                        let input = InputPlan {
                            port: ports[k],
                            connection: l,
                            from_node: self.links[l].from_index,
                            from_port: self.links[l].edge.from.port,
                        };
                        proof {
                            assert(self.edges()[l as int] == self.links@[l as int].edge@);
                            self.lemma_feeder_comes_earlier(
                                order@,
                                s as int,
                                l as int,
                                input.from_node,
                            );
                        }
                        inputs.push(input);
                    },
                    Err(error) => {
                        proof {
                            assert(self.input_ready(place as int, k as int));
                        }
                        return Err(error);
                    },
                }
                k = k + 1;
            }
            let ghost before = plan@;
            plan.push(NodePlan { node: place, inputs });
            proof {
                assert forall|t: int, k: int|
                    0 <= t < s + 1 && 0 <= k < plan@[t].inputs@.len() implies stands_before(
                    order@,
                    t,
                    (#[trigger] plan@[t].inputs@[k]).from_node,
                ) by {
                    if t < s {
                        assert(plan@[t] == before[t]);
                    }
                }
            }
            s = s + 1;
        }
        proof {
            assert(plan@.map_values(|step: NodePlan| step.node) == order@);
            assert forall|t: int, k: int|
                0 <= t < plan@.len() && 0 <= k < plan@[t].inputs@.len() implies comes_earlier(
                plan@,
                t,
                (#[trigger] plan@[t].inputs@[k]).from_node,
            ) by {
                let from = plan@[t].inputs@[k].from_node;
                assert(stands_before(order@, t, from));
                let j = choose|j: int| 0 <= j < t && order@[j] == from;
                assert(plan@[j].node == from);
            }
        }
        Ok(plan)
    }
}

/// Whether the node at place `node` stands before the `t`-th place of `order`.
spec fn stands_before(order: Seq<usize>, t: int, node: usize) -> bool {
    exists|j: int| 0 <= j < t && order[j] == node
}

/// Whether a step before the `s`-th is the step of the node at place `node`.
pub open spec fn comes_earlier(plan: Seq<NodePlan>, s: int, node: usize) -> bool {
    exists|j: int| 0 <= j < s && (#[trigger] plan[j]).node == node
}

/// Whether the node at place `a` comes before the node at place `b`: it
/// reaches more nodes, or as many and was registered earlier.
spec fn sorts_before(heights: Seq<usize>, a: usize, b: usize) -> bool {
    heights[a as int] < heights[b as int] || (heights[a as int] == heights[b as int] && a < b)
}

} // verus!
