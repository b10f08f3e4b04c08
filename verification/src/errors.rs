use crate::node::{NodeHandle, NodeId, PortHandle};
use vstd::prelude::*;

verus! {

/// A failure reported by the storage engine, carried as the engine's own message.
#[derive(Debug, Clone, PartialEq, Eq)]
pub struct EngineError {
    pub message: String,
}

/// Why an operation on a typed map failed.
#[derive(Debug, Clone, PartialEq, Eq)]
pub enum StorageError {
    /// The storage engine failed; nothing is known about its contents beyond
    /// what earlier successful operations established.
    Engine(EngineError),
    /// A key or a value has no encoding.
    SerializationError,
    /// Stored bytes are not the encoding of any value of the expected type.
    DeserializationError,
}

impl StorageError {
    /// Wraps a failure of the storage engine.
    pub fn from_engine(error: EngineError) -> (r: Self)
        ensures
            r == StorageError::Engine(error),
    {
        StorageError::Engine(error)
    }

    /// A one-line description of the failure.
    pub fn describe(&self) -> (r: &'static str)
        ensures
            r@ == (match self {
                StorageError::Engine(_) => "storage engine error"@,
                StorageError::SerializationError => "serialization error"@,
                StorageError::DeserializationError => "deserialization error"@,
            }),
    {
        match self {
            StorageError::Engine(_) => "storage engine error",
            StorageError::SerializationError => "serialization error",
            StorageError::DeserializationError => "deserialization error",
        }
    }
}

/// Why building or running a graph failed.
#[derive(Debug, Clone, PartialEq, Eq)]
pub enum ExecutionError {
    /// No node of the graph has this handle.
    InvalidNodeHandle(NodeHandle),
    /// The node does not declare this port, or not for this direction.
    InvalidPortHandle(PortHandle),
    /// The connection would close a cycle.
    WouldCycle,
    /// A node with this handle is already registered.
    DuplicateNode(NodeHandle),
    /// No connection arrives at this input port of this node.
    MissingNodeInput { node: NodeHandle, port: PortHandle },
    /// More than one connection arrives at this input port of this node.
    AmbiguousNodeInput { node: NodeHandle, port: PortHandle },
    /// A worker was given an input port twice.
    DuplicatePort(PortHandle),
    /// A worker was given no input port.
    MissingInput,
    /// A message arrived on a port that is closed or that holds a barrier
    /// until the other ports have caught up.
    PortNotReadable(PortHandle),
    /// The event cannot happen in the state that the worker is in.
    InvalidState,
}

/// An execution error as a mathematical value.
pub ghost enum ExecutionErrorView {
    InvalidNodeHandle(NodeId),
    InvalidPortHandle(PortHandle),
    WouldCycle,
    DuplicateNode(NodeId),
    MissingNodeInput { node: NodeId, port: PortHandle },
    AmbiguousNodeInput { node: NodeId, port: PortHandle },
    DuplicatePort(PortHandle),
    MissingInput,
    PortNotReadable(PortHandle),
    InvalidState,
}

impl View for ExecutionError {
    type V = ExecutionErrorView;

    open spec fn view(&self) -> ExecutionErrorView {
        match self {
            ExecutionError::InvalidNodeHandle(handle) => ExecutionErrorView::InvalidNodeHandle(
                handle@,
            ),
            ExecutionError::InvalidPortHandle(port) => ExecutionErrorView::InvalidPortHandle(
                *port,
            ),
            ExecutionError::WouldCycle => ExecutionErrorView::WouldCycle,
            ExecutionError::DuplicateNode(handle) => ExecutionErrorView::DuplicateNode(handle@),
            ExecutionError::MissingNodeInput { node, port } => {
                ExecutionErrorView::MissingNodeInput { node: node@, port: *port }
            },
            ExecutionError::AmbiguousNodeInput { node, port } => {
                ExecutionErrorView::AmbiguousNodeInput { node: node@, port: *port }
            },
            ExecutionError::DuplicatePort(port) => ExecutionErrorView::DuplicatePort(*port),
            ExecutionError::MissingInput => ExecutionErrorView::MissingInput,
            ExecutionError::PortNotReadable(port) => ExecutionErrorView::PortNotReadable(*port),
            ExecutionError::InvalidState => ExecutionErrorView::InvalidState,
        }
    }
}

} // verus!
