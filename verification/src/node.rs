use vstd::prelude::*;

verus! {

/// Identifies one input or output port of a node.
pub type PortHandle = u16;

/// The port of a node that has a single input or a single output.
pub const DEFAULT_PORT_HANDLE: PortHandle = 0xffff;

/// Identifies a node: an optional namespace, such as a shard, and an
/// identifier local to it. Two handles name the same node exactly if both
/// parts agree.
#[derive(Debug, Clone, PartialEq, Eq, Hash)]
pub struct NodeHandle {
    pub ns: Option<u16>,
    pub id: String,
}

/// A node handle as a mathematical value.
pub ghost struct NodeId {
    pub ns: Option<u16>,
    pub id: Seq<char>,
}

impl View for NodeHandle {
    type V = NodeId;

    open spec fn view(&self) -> NodeId {
        NodeId { ns: self.ns, id: self.id@ }
    }
}

impl NodeHandle {
    /// The handle of the node `id` in the namespace `ns`.
    pub fn new(ns: Option<u16>, id: String) -> (r: Self)
        ensures
            r@ == (NodeId { ns, id: id@ }),
    {
        NodeHandle { ns, id }
    }

    /// Whether two handles name the same node.
    pub fn same(&self, other: &NodeHandle) -> (r: bool)
        ensures
            r == (self@ == other@),
    {
        let same_ns = match (self.ns, other.ns) {
            (Some(a), Some(b)) => a == b,
            (None, None) => true,
            _ => false,
        };
        same_ns && self.id == other.id
    }

    /// A second handle for the same node.
    pub fn duplicate(&self) -> (r: Self)
        ensures
            r@ == self@,
    {
        NodeHandle { ns: self.ns, id: self.id.clone() }
    }
}

/// What an output port keeps besides forwarding: whether the node retains the
/// records it has sent, so that later updates and deletes can be answered
/// with the old record.
#[derive(Debug, Clone, Copy, PartialEq, Eq, Structural)]
pub struct OutputPortDefOptions {
    pub stateful: bool,
    pub retrieve_old_record_for_updates: bool,
    pub retrieve_old_record_for_deletes: bool,
}

impl OutputPortDefOptions {
    /// Options with each of the three choices as given.
    pub fn new(
        stateful: bool,
        retrieve_old_record_for_updates: bool,
        retrieve_old_record_for_deletes: bool,
    ) -> (r: Self)
        ensures
            r == (OutputPortDefOptions {
                stateful,
                retrieve_old_record_for_updates,
                retrieve_old_record_for_deletes,
            }),
    {
        OutputPortDefOptions {
            stateful,
            retrieve_old_record_for_updates,
            retrieve_old_record_for_deletes,
        }
    }
}

impl Default for OutputPortDefOptions {
    /// A port that keeps nothing.
    fn default() -> (r: Self)
        ensures
            r == (OutputPortDefOptions {
                stateful: false,
                retrieve_old_record_for_updates: false,
                retrieve_old_record_for_deletes: false,
            }),
    {
        OutputPortDefOptions {
            stateful: false,
            retrieve_old_record_for_updates: false,
            retrieve_old_record_for_deletes: false,
        }
    }
}

/// One output port as a node declares it.
#[derive(Debug, Clone, Copy, PartialEq, Eq, Structural)]
pub struct OutputPortDef {
    pub handle: PortHandle,
    pub options: OutputPortDefOptions,
}

impl OutputPortDef {
    /// The output port `handle` with `options`.
    pub fn new(handle: PortHandle, options: OutputPortDefOptions) -> (r: Self)
        ensures
            r == (OutputPortDef { handle, options }),
    {
        OutputPortDef { handle, options }
    }
}

/// Whether one of the declared output ports has the handle `port`.
pub open spec fn lists_port(ports: Seq<OutputPortDef>, port: PortHandle) -> bool {
    exists|i: int| 0 <= i < ports.len() && (#[trigger] ports[i]).handle == port
}

/// The kind of a node together with the ports that it declares. Ports are
/// declared, never inferred from the connections made.
#[derive(Debug, Clone)]
pub enum NodeType {
    /// Produces records: output ports only.
    Source { output_ports: Vec<OutputPortDef> },
    /// Transforms records: input and output ports.
    Processor { input_ports: Vec<PortHandle>, output_ports: Vec<OutputPortDef> },
    /// Consumes records: input ports only.
    Sink { input_ports: Vec<PortHandle> },
}

impl NodeType {
    /// The input ports that the node declares, in the order of declaration.
    pub open spec fn input_ports(&self) -> Seq<PortHandle> {
        match self {
            NodeType::Source { .. } => Seq::empty(),
            NodeType::Processor { input_ports, .. } => input_ports@,
            NodeType::Sink { input_ports } => input_ports@,
        }
    }

    /// The output ports that the node declares, in the order of declaration.
    pub open spec fn output_ports(&self) -> Seq<OutputPortDef> {
        match self {
            NodeType::Source { output_ports } => output_ports@,
            NodeType::Processor { output_ports, .. } => output_ports@,
            NodeType::Sink { .. } => Seq::empty(),
        }
    }

    /// Whether the node declares `port` as an input port.
    pub open spec fn declares_input(&self, port: PortHandle) -> bool {
        self.input_ports().contains(port)
    }

    /// Whether the node declares `port` as an output port.
    pub open spec fn declares_output(&self, port: PortHandle) -> bool {
        lists_port(self.output_ports(), port)
    }

    /// The input ports that the node declares, in the order of declaration.
    pub fn get_input_ports(&self) -> (r: Vec<PortHandle>)
        ensures
            r@ == self.input_ports(),
    {
        match self {
            NodeType::Source { .. } => Vec::new(),
            NodeType::Processor { input_ports, .. } => copy_ports(input_ports),
            NodeType::Sink { input_ports } => copy_ports(input_ports),
        }
    }

    /// The output ports that the node declares, in the order of declaration.
    pub fn get_output_ports(&self) -> (r: Vec<OutputPortDef>)
        ensures
            r@ == self.output_ports(),
    {
        match self {
            NodeType::Source { output_ports } => copy_ports(output_ports),
            NodeType::Processor { output_ports, .. } => copy_ports(output_ports),
            NodeType::Sink { .. } => Vec::new(),
        }
    }

    /// Whether the node is a source.
    pub fn is_source(&self) -> (r: bool)
        ensures
            r == (self is Source),
    {
        match self {
            NodeType::Source { .. } => true,
            _ => false,
        }
    }

    /// Whether the node declares `port` as an input port.
    pub fn has_input_port(&self, port: PortHandle) -> (r: bool)
        ensures
            r == self.declares_input(port),
    {
        match self {
            NodeType::Source { .. } => false,
            NodeType::Processor { input_ports, .. } => contains_port(input_ports, port),
            NodeType::Sink { input_ports } => contains_port(input_ports, port),
        }
    }

    /// Whether the node declares `port` as an output port.
    pub fn has_output_port(&self, port: PortHandle) -> (r: bool)
        ensures
            r == self.declares_output(port),
    {
        match self {
            NodeType::Source { output_ports } => contains_output_port(output_ports, port),
            NodeType::Processor { output_ports, .. } => contains_output_port(output_ports, port),
            NodeType::Sink { .. } => false,
        }
    }
}

fn copy_ports<T: Copy>(ports: &Vec<T>) -> (r: Vec<T>)
    ensures
        r@ == ports@,
{
    let mut copy: Vec<T> = Vec::new();
    let mut i: usize = 0;
    while i < ports.len()
        invariant
            i <= ports.len(),
            copy@ == ports@.subrange(0, i as int),
        decreases ports.len() - i,
    {
        copy.push(ports[i]);
        assert(copy@ == ports@.subrange(0, i + 1));
        i = i + 1;
    }
    assert(ports@.subrange(0, ports.len() as int) == ports@);
    copy
}

fn contains_port(ports: &Vec<PortHandle>, port: PortHandle) -> (r: bool)
    ensures
        r == ports@.contains(port),
{
    let mut i: usize = 0;
    while i < ports.len()
        invariant
            i <= ports.len(),
            forall|j: int| 0 <= j < i ==> ports@[j] != port,
        decreases ports.len() - i,
    {
        if ports[i] == port {
            return true;
        }
        i = i + 1;
    }
    false
}

fn contains_output_port(ports: &Vec<OutputPortDef>, port: PortHandle) -> (r: bool)
    ensures
        r == lists_port(ports@, port),
{
    let mut i: usize = 0;
    while i < ports.len()
        invariant
            i <= ports.len(),
            forall|j: int| 0 <= j < i ==> (#[trigger] ports@[j]).handle != port,
        decreases ports.len() - i,
    {
        if ports[i].handle == port {
            return true;
        }
        i = i + 1;
    }
    false
}

} // verus!
