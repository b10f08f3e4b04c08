use crate::errors::{ExecutionError, ExecutionErrorView};
use crate::executor::{ExecutorOperation, WorkerState};
use crate::node::PortHandle;
use vstd::prelude::*;

verus! {

/// The input port of a worker, with what the worker knows of it.
#[derive(Debug, Clone, Copy, PartialEq, Eq)]
pub struct InputPort {
    pub handle: PortHandle,
    /// The barrier that arrived on the port since the last commit.
    pub pending: Option<u64>,
    /// Whether the termination marker has arrived on the port.
    pub closed: bool,
    /// The offset that the last commit reflects for the port.
    pub committed: u64,
}

/// What happens to a worker.
#[derive(Debug, Clone, PartialEq, Eq)]
pub enum WorkerEvent<T> {
    /// The node's initialisation has returned, successfully or not.
    InitDone { ok: bool },
    /// The worker is told to begin receiving.
    Start,
    /// A message arrived on an input port.
    Message { port: PortHandle, message: ExecutorOperation<T> },
    /// The node failed while processing or committing, or a connection broke.
    Failure,
}

/// What a worker is to do after an event.
#[derive(Debug, Clone, PartialEq, Eq)]
pub enum WorkerAction<T> {
    /// Go on: there is nothing to do for this event.
    Continue,
    /// Hand the operation to the node.
    Process { port: PortHandle, op: T },
    /// Commit the node's transaction together with `record`, the offset
    /// reflected for each input port, then send a barrier with the offset
    /// `barrier` on every output port.
    Commit { record: Vec<(PortHandle, u64)>, barrier: u64 },
    /// Commit what is pending together with `record`, send the termination
    /// marker on every output port, and exit.
    Terminate { record: Vec<(PortHandle, u64)> },
    /// Exit with an error; the connections close behind the worker.
    Abort,
}

/// An action as a mathematical value.
pub ghost enum WorkerActionView<T> {
    Continue,
    Process { port: PortHandle, op: T },
    Commit { record: Seq<(PortHandle, u64)>, barrier: u64 },
    Terminate { record: Seq<(PortHandle, u64)> },
    Abort,
}

impl<T> View for WorkerAction<T> {
    type V = WorkerActionView<T>;

    open spec fn view(&self) -> WorkerActionView<T> {
        match self {
            WorkerAction::Continue => WorkerActionView::Continue,
            WorkerAction::Process { port, op } => WorkerActionView::Process {
                port: *port,
                op: *op,
            },
            WorkerAction::Commit { record, barrier } => WorkerActionView::Commit {
                record: record@,
                barrier: *barrier,
            },
            WorkerAction::Terminate { record } => WorkerActionView::Terminate { record: record@ },
            WorkerAction::Abort => WorkerActionView::Abort,
        }
    }
}

/// Whether messages may be taken from the port: it is open and holds no
/// barrier.
pub open spec fn readable(port: InputPort) -> bool {
    !port.closed && port.pending is None
}

/// The place of the port with this handle, or -1 where there is none.
pub open spec fn port_place(ports: Seq<InputPort>, handle: PortHandle) -> int
    decreases ports.len(),
{
    if ports.len() == 0 {
        -1
    } else if ports.last().handle == handle {
        ports.len() - 1
    } else {
        port_place(ports.drop_last(), handle)
    }
}

/// Whether the termination marker has arrived on every port.
pub open spec fn all_closed(ports: Seq<InputPort>) -> bool {
    forall|i: int| 0 <= i < ports.len() ==> (#[trigger] ports[i]).closed
}

/// Whether the termination marker has arrived on some port.
pub open spec fn any_closed(ports: Seq<InputPort>) -> bool {
    exists|i: int| 0 <= i < ports.len() && (#[trigger] ports[i]).closed
}

/// Whether a barrier has arrived on every port that is still open.
pub open spec fn aligned(ports: Seq<InputPort>) -> bool {
    forall|i: int| 0 <= i < ports.len() && !(#[trigger] ports[i]).closed ==> ports[i].pending is Some
}

/// The highest offset among the barriers that the ports hold, and 0 where
/// they hold none.
pub open spec fn highest_pending(ports: Seq<InputPort>) -> u64
    decreases ports.len(),
{
    if ports.len() == 0 {
        0
    } else {
        let rest = highest_pending(ports.drop_last());
        match ports.last().pending {
            Some(offset) if offset > rest => offset,
            _ => rest,
        }
    }
}

/// A port after a commit: the barrier that it held is reflected.
pub open spec fn commit_port(port: InputPort) -> InputPort {
    InputPort {
        handle: port.handle,
        pending: None,
        closed: port.closed,
        committed: match port.pending {
            Some(offset) => offset,
            None => port.committed,
        },
    }
}

/// The offset that the last commit reflects for each port.
pub open spec fn record_of(ports: Seq<InputPort>) -> Seq<(PortHandle, u64)> {
    ports.map_values(|port: InputPort| (port.handle, port.committed))
}

/// A worker as a mathematical value.
pub ghost struct WorkerView {
    pub ports: Seq<InputPort>,
    pub state: WorkerState,
}

impl WorkerView {
    /// Whether the worker is receiving.
    pub open spec fn live(self) -> bool {
        self.state is Running || self.state is Draining
    }

    /// The worker after a barrier or a termination marker has been noted on
    /// one of its ports, and what it is to do.
    ///
    /// Once the marker has arrived on every port the worker commits and
    /// exits. Once every open port holds a barrier the worker commits and
    /// passes on the highest offset. Until then it waits.
    pub open spec fn settle<T>(self) -> (WorkerView, WorkerActionView<T>) {
        if all_closed(self.ports) {
            (
                WorkerView { ports: self.ports, state: WorkerState::Terminated { clean: true } },
                WorkerActionView::Terminate { record: record_of(self.ports) },
            )
        } else if aligned(self.ports) {
            let ports = self.ports.map_values(|port: InputPort| commit_port(port));
            (
                WorkerView {
                    ports,
                    state: if any_closed(ports) {
                        WorkerState::Draining
                    } else {
                        WorkerState::Running
                    },
                },
                WorkerActionView::Commit {
                    record: record_of(ports),
                    barrier: highest_pending(self.ports),
                },
            )
        } else {
            (
                WorkerView { ports: self.ports, state: WorkerState::Draining },
                WorkerActionView::Continue,
            )
        }
    }

    /// The worker after a message on the port at place `i`, and what it is
    /// to do.
    pub open spec fn receive<T>(self, i: int, message: ExecutorOperation<T>) -> (
        WorkerView,
        WorkerActionView<T>,
    ) {
        let port = self.ports[i];
        match message {
            ExecutorOperation::Op(op) => (
                self,
                WorkerActionView::Process { port: port.handle, op },
            ),
            ExecutorOperation::Commit { offset } => WorkerView {
                ports: self.ports.update(
                    i,
                    InputPort {
                        handle: port.handle,
                        pending: Some(offset),
                        closed: port.closed,
                        committed: port.committed,
                    },
                ),
                state: self.state,
            }.settle(),
            ExecutorOperation::Terminate => WorkerView {
                ports: self.ports.update(
                    i,
                    InputPort {
                        handle: port.handle,
                        pending: port.pending,
                        closed: true,
                        committed: port.committed,
                    },
                ),
                state: self.state,
            }.settle(),
        }
    }

    /// The worker after `event`, and what it is to do; or the error with
    /// which the event is refused, and then the worker is unchanged.
    ///
    /// An event is refused if it cannot happen in the state of the worker:
    /// an initialisation that is not the first, a start before the
    /// initialisation or after the start, a message or a failure outside
    /// the time in which the worker receives. A message is refused on a
    /// port that the worker does not have, and on a port that is closed or
    /// holds a barrier.
    pub open spec fn next<T>(self, event: WorkerEvent<T>) -> Result<
        (WorkerView, WorkerActionView<T>),
        ExecutionErrorView,
    > {
        match event {
            WorkerEvent::InitDone { ok } => if self.state is Uninitialized {
                if ok {
                    Ok(
                        (
                            WorkerView { ports: self.ports, state: WorkerState::Initialized },
                            WorkerActionView::Continue,
                        ),
                    )
                } else {
                    Ok(
                        (
                            WorkerView {
                                ports: self.ports,
                                state: WorkerState::Terminated { clean: false },
                            },
                            WorkerActionView::Abort,
                        ),
                    )
                }
            } else {
                Err(ExecutionErrorView::InvalidState)
            },
            WorkerEvent::Start => if self.state is Initialized {
                Ok(
                    (
                        WorkerView { ports: self.ports, state: WorkerState::Running },
                        WorkerActionView::Continue,
                    ),
                )
            } else {
                Err(ExecutionErrorView::InvalidState)
            },
            WorkerEvent::Failure => if self.state is Terminated {
                Err(ExecutionErrorView::InvalidState)
            } else {
                Ok(
                    (
                        WorkerView {
                            ports: self.ports,
                            state: WorkerState::Terminated { clean: false },
                        },
                        WorkerActionView::Abort,
                    ),
                )
            },
            WorkerEvent::Message { port, message } => {
                let i = port_place(self.ports, port);
                if !self.live() {
                    Err(ExecutionErrorView::InvalidState)
                } else if i < 0 {
                    Err(ExecutionErrorView::InvalidPortHandle(port))
                } else if !readable(self.ports[i]) {
                    Err(ExecutionErrorView::PortNotReadable(port))
                } else {
                    Ok(self.receive(i, message))
                }
            },
        }
    }

    /// The invariant of a worker: it has a port, no port twice, a closed
    /// port holds no barrier, and the state says what the ports say.
    pub open spec fn wf(self) -> bool {
        &&& self.ports.len() > 0
        &&& forall|i: int, j: int|
            0 <= i < j < self.ports.len() ==> (#[trigger] self.ports[i]).handle != (
            #[trigger] self.ports[j]).handle
        &&& forall|i: int|
            0 <= i < self.ports.len() && (#[trigger] self.ports[i]).closed
                ==> self.ports[i].pending is None
        &&& !aligned(self.ports) || all_closed(self.ports)
        &&& self.state is Running ==> forall|i: int|
            0 <= i < self.ports.len() ==> readable(#[trigger] self.ports[i])
        &&& self.state is Uninitialized || self.state is Initialized ==> forall|i: int|
            0 <= i < self.ports.len() ==> readable(#[trigger] self.ports[i])
        &&& self.state matches WorkerState::Terminated { clean } ==> (clean ==> all_closed(
            self.ports,
        ))
        &&& self.live() ==> !all_closed(self.ports)
    }
}

/// How many of the events are arrivals of an operation.
pub open spec fn operations_arriving<T>(events: Seq<WorkerEvent<T>>) -> nat
    decreases events.len(),
{
    if events.len() == 0 {
        0
    } else {
        operations_arriving(events.drop_last()) + if events.last() matches WorkerEvent::Message {
            message: ExecutorOperation::Op(_),
            ..
        } {
            1nat
        } else {
            0nat
        }
    }
}

/// How many of the actions hand an operation to the node.
pub open spec fn operations_processed<T>(actions: Seq<WorkerActionView<T>>) -> nat
    decreases actions.len(),
{
    if actions.len() == 0 {
        0
    } else {
        operations_processed(actions.drop_last()) + if actions.last() is Process {
            1nat
        } else {
            0nat
        }
    }
}

/// A port on which nothing has arrived yet.
pub open spec fn fresh_port(handle: PortHandle) -> InputPort {
    InputPort { handle, pending: None, closed: false, committed: 0 }
}

/// The place of the first handle that occurs a second time, or -1 where
/// none does: the least place whose handle also stands at an earlier place.
pub open spec fn first_repeat(handles: Seq<PortHandle>) -> int
    decreases handles.len(),
{
    if handles.len() == 0 {
        -1
    } else {
        let earlier = first_repeat(handles.drop_last());
        if earlier >= 0 {
            earlier
        } else if handles.drop_last().contains(handles.last()) {
            handles.len() - 1
        } else {
            -1
        }
    }
}

proof fn lemma_no_repeat(handles: Seq<PortHandle>)
    requires
        first_repeat(handles) < 0,
    ensures
        handles.no_duplicates(),
    decreases handles.len(),
{
    if handles.len() > 0 {
        lemma_no_repeat(handles.drop_last());
        assert forall|i: int, j: int| 0 <= i < handles.len() && 0 <= j < handles.len() && i
            != j implies handles[i] != handles[j] by {
            if i < handles.len() - 1 && j < handles.len() - 1 {
                assert(handles.drop_last()[i] != handles.drop_last()[j]);
            } else if i < handles.len() - 1 {
                assert(handles.drop_last()[i] == handles[i]);
            } else {
                assert(handles.drop_last()[j] == handles[j]);
            }
        }
    }
}

proof fn lemma_port_place(ports: Seq<InputPort>, handle: PortHandle)
    ensures
        -1 <= port_place(ports, handle) < ports.len(),
        port_place(ports, handle) >= 0 ==> ports[port_place(ports, handle)].handle == handle,
        port_place(ports, handle) < 0 ==> forall|i: int|
            0 <= i < ports.len() ==> (#[trigger] ports[i]).handle != handle,
    decreases ports.len(),
{
    if ports.len() > 0 && ports.last().handle != handle {
        lemma_port_place(ports.drop_last(), handle);
        assert forall|i: int|
            port_place(ports, handle) < 0 && 0 <= i < ports.len() implies (
        #[trigger] ports[i]).handle != handle by {
            if i < ports.len() - 1 {
                assert(ports.drop_last()[i] == ports[i]);
            }
        }
    }
}

/// The part of a worker that decides: it is told what happens and says what
/// is to be done, and keeps for each input port what has arrived on it.
///
/// The worker holds back a port on which a barrier has arrived until a
/// barrier has arrived on every other open port; only then does it commit.
/// Nothing that follows a barrier on one port is reflected in the commit
/// that the barrier belongs to.
pub struct NodeWorker {
    inputs: Vec<InputPort>,
    state: WorkerState,
}

impl View for NodeWorker {
    type V = WorkerView;

    closed spec fn view(&self) -> WorkerView {
        WorkerView { ports: self.inputs@, state: self.state }
    }
}

impl NodeWorker {
    /// A worker for a node with these input ports, not yet initialised.
    ///
    /// Fails with `MissingInput` if there is no port, and with
    /// `DuplicatePort` if a port is given twice; the port named is the
    /// first that repeats an earlier one.
    pub fn new(input_ports: Vec<PortHandle>) -> (r: Result<Self, ExecutionError>)
        ensures
            match r {
                Ok(worker) => {
                    &&& input_ports@.len() > 0
                    &&& first_repeat(input_ports@) < 0
                    &&& worker@.wf()
                    &&& worker@.state is Uninitialized
                    &&& worker@.ports == input_ports@.map_values(
                        |handle: PortHandle| fresh_port(handle),
                    )
                },
                Err(e) => if input_ports@.len() == 0 {
                    e@ == ExecutionErrorView::MissingInput
                } else {
                    &&& first_repeat(input_ports@) >= 0
                    &&& e@ == ExecutionErrorView::DuplicatePort(
                        input_ports@[first_repeat(input_ports@)],
                    )
                },
            },
    {
        if input_ports.len() == 0 {
            return Err(ExecutionError::MissingInput);
        }
        let mut inputs: Vec<InputPort> = Vec::new();
        let mut i: usize = 0;
        while i < input_ports.len()
            invariant
                i <= input_ports@.len(),
                inputs@.len() == i,
                first_repeat(input_ports@.subrange(0, i as int)) < 0,
                forall|j: int|
                    0 <= j < i ==> #[trigger] inputs@[j] == fresh_port(input_ports@[j]),
            decreases input_ports@.len() - i,
        {
            let handle = input_ports[i];
            let ghost prefix = input_ports@.subrange(0, i as int);
            let ghost longer = input_ports@.subrange(0, i + 1);
            let mut j: usize = 0;
            let mut repeated = false;
            while j < i
                invariant
                    j <= i < input_ports@.len(),
                    handle == input_ports@[i as int],
                    repeated == exists|k: int| 0 <= k < j && input_ports@[k] == handle,
                decreases i - j,
            {
                if input_ports[j] == handle {
                    repeated = true;
                }
                j = j + 1;
            }
            proof {
                assert(longer.drop_last() == prefix);
                assert(longer.last() == handle);
                if repeated {
                    let k = choose|k: int| 0 <= k < i && input_ports@[k] == handle;
                    assert(prefix[k] == handle);
                    assert(first_repeat(longer) == i);
                    lemma_first_repeat_extends(input_ports@, i + 1);
                } else {
                    if prefix.contains(handle) {
                        let k = choose|k: int| 0 <= k < prefix.len() && prefix[k] == handle;
                        assert(input_ports@[k] == handle);
                    }
                }
            }
            if repeated {
                return Err(ExecutionError::DuplicatePort(handle));
            }
            inputs.push(InputPort { handle, pending: None, closed: false, committed: 0 });
            i = i + 1;
        }
        proof {
            assert(input_ports@.subrange(0, i as int) == input_ports@);
            lemma_no_repeat(input_ports@);
            assert(inputs@ == input_ports@.map_values(|handle: PortHandle| fresh_port(handle)));
            assert(!inputs@[0].closed);
            assert(inputs@[0].pending is None);
        }
        Ok(NodeWorker { inputs, state: WorkerState::Uninitialized })
    }

    /// Where the worker stands in its life.
    pub fn state(&self) -> (r: WorkerState)
        ensures
            r == self@.state,
    {
        self.state
    }

    /// What the worker knows of its input ports, in the order in which they
    /// were given.
    pub fn ports(&self) -> (r: &Vec<InputPort>)
        ensures
            r@ == self@.ports,
    {
        &self.inputs
    }

    /// Whether a message may be taken from `port` now: the worker is
    /// receiving, has the port, and the port is open and holds no barrier.
    pub fn can_receive(&self, port: PortHandle) -> (r: bool)
        ensures
            r == (self@.live() && port_place(self@.ports, port) >= 0 && readable(
                self@.ports[port_place(self@.ports, port)],
            )),
    {
        let live = match self.state {
            WorkerState::Running => true,
            WorkerState::Draining => true,
            _ => false,
        };
        match self.find_port(port) {
            Some(i) => live && !self.inputs[i].closed && self.inputs[i].pending.is_none(),
            None => false,
        }
    }

    fn find_port(&self, handle: PortHandle) -> (r: Option<usize>)
        ensures
            match r {
                Some(i) => i == port_place(self@.ports, handle) && i < self@.ports.len(),
                None => port_place(self@.ports, handle) < 0,
            },
    {
        let mut i: usize = self.inputs.len();
        assert(self.inputs@.subrange(0, i as int) == self.inputs@);
        while i > 0
            invariant
                i <= self.inputs@.len(),
                port_place(self.inputs@, handle) == port_place(
                    self.inputs@.subrange(0, i as int),
                    handle,
                ),
            decreases i,
        {
            i = i - 1;
            assert(self.inputs@.subrange(0, i + 1).drop_last() == self.inputs@.subrange(
                0,
                i as int,
            ));
            if self.inputs[i].handle == handle {
                return Some(i);
            }
        }
        None
    }
}

impl NodeWorker {
    /// Takes note of an event and says what is to be done.
    ///
    /// `WorkerView::next` says for every state and event what the new
    /// state and the action are, and which events are refused. A refused
    /// event changes nothing.
    pub fn step<T>(&mut self, event: WorkerEvent<T>) -> (r: Result<
        WorkerAction<T>,
        ExecutionError,
    >)
        requires
            old(self)@.wf(),
        ensures
            final(self)@.wf(),
            match r {
                Ok(action) => old(self)@.next(event) == Ok::<
                    (WorkerView, WorkerActionView<T>),
                    ExecutionErrorView,
                >((final(self)@, action@)),
                Err(e) => {
                    &&& old(self)@.next(event) == Err::<
                        (WorkerView, WorkerActionView<T>),
                        ExecutionErrorView,
                    >(e@)
                    &&& final(self)@ == old(self)@
                },
            },
    {
        match event {
            WorkerEvent::InitDone { ok } => match self.state {
                WorkerState::Uninitialized => {
                    if ok {
                        self.state = WorkerState::Initialized;
                        Ok(WorkerAction::Continue)
                    } else {
                        self.state = WorkerState::Terminated { clean: false };
                        Ok(WorkerAction::Abort)
                    }
                },
                _ => Err(ExecutionError::InvalidState),
            },
            WorkerEvent::Start => match self.state {
                WorkerState::Initialized => {
                    assert(readable(self@.ports[0]));
                    self.state = WorkerState::Running;
                    Ok(WorkerAction::Continue)
                },
                _ => Err(ExecutionError::InvalidState),
            },
            WorkerEvent::Failure => match self.state {
                WorkerState::Terminated { .. } => Err(ExecutionError::InvalidState),
                _ => {
                    self.state = WorkerState::Terminated { clean: false };
                    Ok(WorkerAction::Abort)
                },
            },
            WorkerEvent::Message { port, message } => {
                let live = match self.state {
                    WorkerState::Running => true,
                    WorkerState::Draining => true,
                    _ => false,
                };
                if !live {
                    return Err(ExecutionError::InvalidState);
                }
                let i = match self.find_port(port) {
                    Some(i) => i,
                    None => {
                        return Err(ExecutionError::InvalidPortHandle(port));
                    },
                };
                let at = self.inputs[i];
                if at.closed || at.pending.is_some() {
                    return Err(ExecutionError::PortNotReadable(port));
                }
                proof {
                    lemma_port_place(self@.ports, port);
                }
                match message {
                    ExecutorOperation::Op(op) => Ok(WorkerAction::Process { port, op }),
                    ExecutorOperation::Commit { offset } => {
                        self.inputs.set(
                            i,
                            InputPort {
                                handle: at.handle,
                                pending: Some(offset),
                                closed: at.closed,
                                committed: at.committed,
                            },
                        );
                        Ok(self.settle(i))
                    },
                    ExecutorOperation::Terminate => {
                        self.inputs.set(
                            i,
                            InputPort {
                                handle: at.handle,
                                pending: at.pending,
                                closed: true,
                                committed: at.committed,
                            },
                        );
                        Ok(self.settle(i))
                    },
                }
            },
        }
    }

    /// Decides what follows once a barrier or the termination marker has
    /// been noted on the port at place `changed`.
    fn settle<T>(&mut self, changed: usize) -> (action: WorkerAction<T>)
        requires
            old(self)@.live(),
            old(self)@.ports.len() > 0,
            changed < old(self)@.ports.len(),
            forall|i: int, j: int|
                0 <= i < j < old(self)@.ports.len() ==> (#[trigger] old(self)@.ports[i]).handle
                    != (#[trigger] old(self)@.ports[j]).handle,
            forall|i: int|
                0 <= i < old(self)@.ports.len() && (#[trigger] old(self)@.ports[i]).closed
                    ==> old(self)@.ports[i].pending is None,
        ensures
            final(self)@.wf(),
            old(self)@.settle::<T>() == (final(self)@, action@),
    {
        let n = self.inputs.len();
        let ghost before = self.inputs@;
        let mut every_closed = true;
        let mut some_closed = false;
        let mut every_open_holds = true;
        let mut highest: u64 = 0;
        let mut i: usize = 0;
        while i < n
            invariant
                i <= n,
                n == self.inputs@.len(),
                self.inputs@ == before,
                every_closed == all_closed(before.subrange(0, i as int)),
                some_closed == any_closed(before.subrange(0, i as int)),
                every_open_holds == aligned(before.subrange(0, i as int)),
                highest == highest_pending(before.subrange(0, i as int)),
            decreases n - i,
        {
            let at = self.inputs[i];
            proof {
                let shorter = before.subrange(0, i as int);
                let longer = before.subrange(0, i + 1);
                assert(longer.drop_last() == shorter);
                assert(longer[i as int] == before[i as int]);
                assert forall|k: int| 0 <= k < shorter.len() implies shorter[k] == longer[k] by {}
                if all_closed(longer) {
                    assert forall|k: int| 0 <= k < shorter.len() implies (
                    #[trigger] shorter[k]).closed by {
                        assert(longer[k].closed);
                    }
                }
                if all_closed(shorter) && at.closed {
                    assert forall|k: int| 0 <= k < longer.len() implies (
                    #[trigger] longer[k]).closed by {
                        if k < i {
                            assert(shorter[k].closed);
                        }
                    }
                }
                if any_closed(shorter) {
                    let k = choose|k: int| 0 <= k < shorter.len() && (#[trigger] shorter[k]).closed;
                    assert(longer[k].closed);
                }
                if any_closed(longer) && !at.closed {
                    let k = choose|k: int| 0 <= k < longer.len() && (#[trigger] longer[k]).closed;
                    assert(shorter[k].closed);
                }
                if aligned(longer) {
                    assert forall|k: int|
                        0 <= k < shorter.len() && !(#[trigger] shorter[k]).closed implies shorter[k].pending is Some by {
                        assert(!longer[k].closed);
                    }
                }
                if aligned(shorter) && (at.closed || at.pending is Some) {
                    assert forall|k: int|
                        0 <= k < longer.len() && !(#[trigger] longer[k]).closed implies longer[k].pending is Some by {
                        if k < i {
                            assert(!shorter[k].closed);
                        }
                    }
                }
            }
            if at.closed {
                some_closed = true;
            } else {
                every_closed = false;
                if at.pending.is_none() {
                    every_open_holds = false;
                }
            }
            match at.pending {
                Some(offset) => {
                    if offset > highest {
                        highest = offset;
                    }
                },
                None => {},
            }
            i = i + 1;
        }
        assert(before.subrange(0, n as int) == before);
        if every_closed {
            self.state = WorkerState::Terminated { clean: true };
            let record = self.record();
            return WorkerAction::Terminate { record };
        }
        if !every_open_holds {
            self.state = WorkerState::Draining;
            return WorkerAction::Continue;
        }
        let mut j: usize = 0;
        while j < n
            invariant
                j <= n,
                n == self.inputs@.len(),
                n == before.len(),
                forall|k: int| 0 <= k < j ==> #[trigger] self.inputs@[k] == commit_port(before[k]),
                forall|k: int| j <= k < n ==> #[trigger] self.inputs@[k] == before[k],
            decreases n - j,
        {
            let at = self.inputs[j];
            self.inputs.set(
                j,
                InputPort {
                    handle: at.handle,
                    pending: None,
                    closed: at.closed,
                    committed: match at.pending {
                        Some(offset) => offset,
                        None => at.committed,
                    },
                },
            );
            j = j + 1;
        }
        let ghost after = before.map_values(|port: InputPort| commit_port(port));
        proof {
            assert(self.inputs@ == after);
            if any_closed(before) {
                let k = choose|k: int| 0 <= k < before.len() && (#[trigger] before[k]).closed;
                assert(after[k].closed);
            }
            if any_closed(after) {
                let k = choose|k: int| 0 <= k < after.len() && (#[trigger] after[k]).closed;
                assert(before[k].closed);
            }
            let open = choose|k: int| 0 <= k < before.len() && !(#[trigger] before[k]).closed;
            assert(!after[open].closed && after[open].pending is None);
        }
        self.state =
        if some_closed {
            WorkerState::Draining
        } else {
            WorkerState::Running
        };
        let record = self.record();
        WorkerAction::Commit { record, barrier: highest }
    }

    /// The offset that the last commit reflects for each port.
    fn record(&self) -> (r: Vec<(PortHandle, u64)>)
        ensures
            r@ == record_of(self@.ports),
    {
        let mut record: Vec<(PortHandle, u64)> = Vec::new();
        let mut i: usize = 0;
        while i < self.inputs.len()
            invariant
                i <= self.inputs@.len(),
                record@.len() == i,
                forall|k: int|
                    0 <= k < i ==> #[trigger] record@[k] == (
                        self.inputs@[k].handle,
                        self.inputs@[k].committed,
                    ),
            decreases self.inputs@.len() - i,
        {
            record.push((self.inputs[i].handle, self.inputs[i].committed));
            i = i + 1;
        }
        assert(record@ == record_of(self.inputs@));
        record
    }
}

impl WorkerView {
    /// The worker after a sequence of events and the actions that it asked
    /// for, one for each event, or `None` where one of the events is refused.
    pub open spec fn run<T>(self, events: Seq<WorkerEvent<T>>) -> Option<
        (WorkerView, Seq<WorkerActionView<T>>),
    >
        decreases events.len(),
    {
        if events.len() == 0 {
            Some((self, Seq::empty()))
        } else {
            match self.run(events.drop_last()) {
                Some((worker, actions)) => match worker.next(events.last()) {
                    Ok((after, action)) => Some((after, actions.push(action))),
                    Err(_) => None,
                },
                None => None,
            }
        }
    }

    /// An event keeps the invariant of the worker.
    pub proof fn next_keeps_wf<T>(self, event: WorkerEvent<T>)
        requires
            self.wf(),
        ensures
            self.next(event) matches Ok((after, _)) ==> after.wf(),
    {
        match event {
            WorkerEvent::Start => {
                if self.state is Initialized {
                    assert(readable(self.ports[0]));
                }
            },
            WorkerEvent::Message { port, message } => {
                lemma_port_place(self.ports, port);
                let i = port_place(self.ports, port);
                if self.live() && i >= 0 && readable(self.ports[i]) {
                    match message {
                        ExecutorOperation::Op(_) => {},
                        ExecutorOperation::Commit { offset } => {
                            let noted = WorkerView {
                                ports: self.ports.update(
                                    i,
                                    InputPort {
                                        handle: self.ports[i].handle,
                                        pending: Some(offset),
                                        closed: self.ports[i].closed,
                                        committed: self.ports[i].committed,
                                    },
                                ),
                                state: self.state,
                            };
                            noted.lemma_settle_keeps_wf::<T>(i);
                        },
                        ExecutorOperation::Terminate => {
                            let noted = WorkerView {
                                ports: self.ports.update(
                                    i,
                                    InputPort {
                                        handle: self.ports[i].handle,
                                        pending: self.ports[i].pending,
                                        closed: true,
                                        committed: self.ports[i].committed,
                                    },
                                ),
                                state: self.state,
                            };
                            noted.lemma_settle_keeps_wf::<T>(i);
                        },
                    }
                }
            },
            _ => {},
        }
    }

    proof fn lemma_settle_keeps_wf<T>(self, changed: int)
        requires
            self.ports.len() > 0,
            forall|i: int, j: int|
                0 <= i < j < self.ports.len() ==> (#[trigger] self.ports[i]).handle != (
                #[trigger] self.ports[j]).handle,
            forall|i: int|
                0 <= i < self.ports.len() && (#[trigger] self.ports[i]).closed
                    ==> self.ports[i].pending is None,
        ensures
            self.settle::<T>().0.wf(),
    {
        if !all_closed(self.ports) && aligned(self.ports) {
            let after = self.ports.map_values(|port: InputPort| commit_port(port));
            let open = choose|k: int| 0 <= k < self.ports.len() && !(#[trigger] self.ports[k]).closed;
            assert(!after[open].closed && after[open].pending is None);
            if !any_closed(after) {
                assert forall|i: int| 0 <= i < after.len() implies readable(
                    #[trigger] after[i],
                ) by {}
            }
        }
    }

    /// A worker that receives hands every operation to its node as it
    /// arrives, whatever the state of the other ports, and is not changed
    /// by that.
    pub proof fn operation_is_processed<T>(self, port: PortHandle, op: T)
        requires
            self.live(),
            port_place(self.ports, port) >= 0,
            readable(self.ports[port_place(self.ports, port)]),
        ensures
            self.next(WorkerEvent::Message { port, message: ExecutorOperation::Op(op) }) == Ok::<
                (WorkerView, WorkerActionView<T>),
                ExecutionErrorView,
            >((self, WorkerActionView::Process { port, op })),
    {
        lemma_port_place(self.ports, port);
    }

    /// Over any sequence of events of which none is refused, in whatever
    /// order the ports deliver, the worker asks for one action per event,
    /// and the action for an event is to process an operation exactly if
    /// the event is the arrival of that operation, on that port: no
    /// operation is dropped, repeated or made up.
    pub proof fn every_operation_is_processed_once<T>(self, events: Seq<WorkerEvent<T>>, i: int)
        requires
            self.run(events) is Some,
            0 <= i < events.len(),
        ensures
            self.run(events).unwrap().1.len() == events.len(),
            forall|port: PortHandle, op: T|
                events[i] == (WorkerEvent::Message { port, message: ExecutorOperation::Op(op) })
                    <==> self.run(events).unwrap().1[i] == (WorkerActionView::Process {
                    port,
                    op,
                }),
        decreases events.len(),
    {
        let earlier = events.drop_last();
        let (worker, actions) = self.run(earlier).unwrap();
        if earlier.len() > 0 {
            self.every_operation_is_processed_once(earlier, 0);
        }
        if i < earlier.len() {
            self.every_operation_is_processed_once(earlier, i);
        } else {
            match events.last() {
                WorkerEvent::Message { port, message } => {
                    lemma_port_place(worker.ports, port);
                },
                _ => {},
            }
        }
    }

    /// Over any sequence of events of which none is refused, the worker
    /// hands as many operations to its node as arrive, however the
    /// arrivals on its ports are interleaved.
    pub proof fn as_many_processed_as_arrive<T>(self, events: Seq<WorkerEvent<T>>)
        requires
            self.run(events) is Some,
        ensures
            operations_processed(self.run(events).unwrap().1) == operations_arriving(events),
        decreases events.len(),
    {
        if events.len() > 0 {
            let earlier = events.drop_last();
            let (worker, actions) = self.run(earlier).unwrap();
            self.as_many_processed_as_arrive(earlier);
            let action = worker.next(events.last())->Ok_0.1;
            assert(self.run(events).unwrap().1.drop_last() == actions);
            assert(self.run(events).unwrap().1.last() == action);
            match events.last() {
                WorkerEvent::Message { port, message } => {
                    lemma_port_place(worker.ports, port);
                },
                _ => {},
            }
        }
    }

    /// A commit waits for every port: the worker asks for a commit only
    /// when a barrier or the termination marker arrives and, with it, every
    /// port that is still open holds a barrier. The commit reflects for
    /// each open port the barrier that it held, leaves the closed ports as
    /// they were, and passes on the highest of the offsets.
    pub proof fn commit_waits_for_every_port<T>(self, event: WorkerEvent<T>)
        requires
            self.wf(),
            self.next(event) matches Ok((_, WorkerActionView::Commit { .. })),
        ensures
            event matches WorkerEvent::Message { port, message } && !(message is Op) && ({
                let i = port_place(self.ports, port);
                let (after, action) = self.next(event)->Ok_0;
                &&& 0 <= i < self.ports.len()
                &&& after.ports.len() == self.ports.len()
                &&& forall|k: int|
                    0 <= k < self.ports.len() && k != i && !(#[trigger] self.ports[k]).closed
                        ==> self.ports[k].pending is Some && after.ports[k].committed
                        == self.ports[k].pending.unwrap()
                &&& forall|k: int|
                    0 <= k < self.ports.len() && (#[trigger] self.ports[k]).closed
                        ==> after.ports[k].committed == self.ports[k].committed
                &&& message matches ExecutorOperation::Commit { offset } ==> after.ports[i].committed
                    == offset
                &&& forall|k: int|
                    0 <= k < after.ports.len() ==> (#[trigger] after.ports[k]).pending is None
                &&& action matches WorkerActionView::Commit { record, barrier } && {
                    &&& record == record_of(after.ports)
                    &&& forall|k: int|
                        0 <= k < self.ports.len() && k != i && !(#[trigger] self.ports[k]).closed
                            ==> barrier >= self.ports[k].pending.unwrap()
                    &&& message matches ExecutorOperation::Commit { offset } ==> barrier >= offset
                    &&& message == (ExecutorOperation::<T>::Commit { offset: barrier }) || exists|
                        k: int,
                    |
                        0 <= k < self.ports.len() && k != i && (#[trigger] self.ports[k]).pending
                            == Some(barrier)
                }
            }),
    {
        match event {
            WorkerEvent::Message { port, message } => {
                lemma_port_place(self.ports, port);
                let i = port_place(self.ports, port);
                let at = self.ports[i];
                match message {
                    ExecutorOperation::Op(_) => {},
                    ExecutorOperation::Commit { offset } => {
                        let noted = self.ports.update(
                            i,
                            InputPort {
                                handle: at.handle,
                                pending: Some(offset),
                                closed: at.closed,
                                committed: at.committed,
                            },
                        );
                        assert forall|k: int|
                            0 <= k < self.ports.len() && k != i && !(
                            #[trigger] self.ports[k]).closed implies self.ports[k].pending is Some by {
                            assert(noted[k] == self.ports[k]);
                        }
                        lemma_highest_pending(noted);
                        assert(noted[i].pending == Some(offset));
                        let top = choose|k: int|
                            0 <= k < noted.len() && (#[trigger] noted[k]).pending == Some(
                                highest_pending(noted),
                            );
                        if top != i {
                            assert(self.ports[top] == noted[top]);
                        }
                        assert forall|k: int|
                            0 <= k < self.ports.len() && k != i && !(
                            #[trigger] self.ports[k]).closed implies highest_pending(noted)
                            >= self.ports[k].pending.unwrap() by {
                            assert(noted[k] == self.ports[k]);
                        }
                    },
                    ExecutorOperation::Terminate => {
                        let noted = self.ports.update(
                            i,
                            InputPort {
                                handle: at.handle,
                                pending: at.pending,
                                closed: true,
                                committed: at.committed,
                            },
                        );
                        assert forall|k: int|
                            0 <= k < self.ports.len() && k != i && !(
                            #[trigger] self.ports[k]).closed implies self.ports[k].pending is Some by {
                            assert(noted[k] == self.ports[k]);
                        }
                        lemma_highest_pending(noted);
                        let open = choose|k: int|
                            0 <= k < noted.len() && !(#[trigger] noted[k]).closed;
                        assert(noted[open].pending is Some);
                        let top = choose|k: int|
                            0 <= k < noted.len() && (#[trigger] noted[k]).pending == Some(
                                highest_pending(noted),
                            );
                        assert(top != i);
                        assert(self.ports[top] == noted[top]);
                        assert forall|k: int|
                            0 <= k < self.ports.len() && k != i && !(
                            #[trigger] self.ports[k]).closed implies highest_pending(noted)
                            >= self.ports[k].pending.unwrap() by {
                            assert(noted[k] == self.ports[k]);
                        }
                    },
                }
            },
            _ => {},
        }
    }

    /// A worker with a single input port passes every message on as it
    /// arrives: a barrier is committed at once, with its own offset, and
    /// the termination marker ends the worker.
    pub proof fn single_port_passes_on<T>(self, message: ExecutorOperation<T>)
        requires
            self.wf(),
            self.live(),
            self.ports.len() == 1,
        ensures
            ({
                let port = self.ports[0].handle;
                let committed = self.ports[0].committed;
                let outcome = self.next(WorkerEvent::Message { port, message });
                match message {
                    ExecutorOperation::Op(op) => outcome == Ok::<
                        (WorkerView, WorkerActionView<T>),
                        ExecutionErrorView,
                    >((self, WorkerActionView::Process { port, op })),
                    ExecutorOperation::Commit { offset } => outcome matches Ok((after, action))
                        && action == (WorkerActionView::<T>::Commit {
                        record: seq![(port, offset)],
                        barrier: offset,
                    }) && after.state is Running && after.ports == seq![
                        InputPort { handle: port, pending: None, closed: false, committed: offset },
                    ],
                    ExecutorOperation::Terminate => outcome matches Ok((after, action)) && action
                        == (WorkerActionView::<T>::Terminate { record: seq![(port, committed)] })
                        && after.state == (WorkerState::Terminated { clean: true }) && after.ports
                        == seq![InputPort { handle: port, pending: None, closed: true, committed }],
                }
            }),
    {
        let port = self.ports[0].handle;
        reveal_with_fuel(port_place, 2);
        reveal_with_fuel(highest_pending, 2);
        assert(self.ports.drop_last().len() == 0);
        assert(port_place(self.ports, port) == 0);
        assert(!all_closed(self.ports));
        assert(!self.ports[0].closed);
        if self.ports[0].pending is Some {
            assert(aligned(self.ports));
        }
        match message {
            ExecutorOperation::Op(op) => {},
            ExecutorOperation::Commit { offset } => {
                let noted = self.ports.update(
                    0,
                    InputPort {
                        handle: port,
                        pending: Some(offset),
                        closed: false,
                        committed: self.ports[0].committed,
                    },
                );
                assert(!noted[0].closed);
                assert(aligned(noted));
                assert(noted.drop_last().len() == 0);
                let after = noted.map_values(|port: InputPort| commit_port(port));
                assert(after == seq![
                    InputPort { handle: port, pending: None, closed: false, committed: offset },
                ]);
                assert(record_of(after) == seq![(port, offset)]);
                assert(!any_closed(after));
            },
            ExecutorOperation::Terminate => {
                let noted = self.ports.update(
                    0,
                    InputPort {
                        handle: port,
                        pending: None,
                        closed: true,
                        committed: self.ports[0].committed,
                    },
                );
                assert(noted[0].closed);
                assert(all_closed(noted));
                assert(noted == seq![
                    InputPort {
                        handle: port,
                        pending: None,
                        closed: true,
                        committed: self.ports[0].committed,
                    },
                ]);
                assert(record_of(noted) == seq![(port, self.ports[0].committed)]);
            },
        }
    }
}

/// The highest offset among the barriers held is none of them exceeded, and
/// is one of them where any is held.
proof fn lemma_highest_pending(ports: Seq<InputPort>)
    ensures
        forall|k: int|
            0 <= k < ports.len() && (#[trigger] ports[k]).pending is Some ==> highest_pending(ports)
                >= ports[k].pending.unwrap(),
        (exists|k: int| 0 <= k < ports.len() && (#[trigger] ports[k]).pending is Some)
            ==> exists|k: int|
            0 <= k < ports.len() && (#[trigger] ports[k]).pending == Some(highest_pending(ports)),
        (forall|k: int| 0 <= k < ports.len() ==> (#[trigger] ports[k]).pending is None)
            ==> highest_pending(ports) == 0,
    decreases ports.len(),
{
    if ports.len() > 0 {
        let rest = ports.drop_last();
        let last = ports.len() - 1;
        lemma_highest_pending(rest);
        assert(ports[last] == ports.last());
        assert forall|k: int| 0 <= k < rest.len() implies rest[k] == ports[k] by {}
        assert forall|k: int|
            0 <= k < ports.len() && (#[trigger] ports[k]).pending is Some implies highest_pending(
            ports,
        ) >= ports[k].pending.unwrap() by {
            if k < rest.len() {
                assert(rest[k] == ports[k]);
            }
        }
        if forall|k: int| 0 <= k < ports.len() ==> (#[trigger] ports[k]).pending is None {
            assert forall|k: int| 0 <= k < rest.len() implies (#[trigger] rest[k]).pending is None by {
                assert(ports[k].pending is None);
            }
        }
        if exists|k: int| 0 <= k < ports.len() && (#[trigger] ports[k]).pending is Some {
            if ports.last().pending == Some(highest_pending(ports)) {
                assert(ports[last].pending == Some(highest_pending(ports)));
            } else if exists|k: int| 0 <= k < rest.len() && (#[trigger] rest[k]).pending is Some {
                let top = choose|k: int|
                    0 <= k < rest.len() && (#[trigger] rest[k]).pending == Some(
                        highest_pending(rest),
                    );
                assert(ports[top] == rest[top]);
                assert(ports[top].pending == Some(highest_pending(ports)));
            } else {
                let any = choose|k: int| 0 <= k < ports.len() && (#[trigger] ports[k]).pending is Some;
                if any < rest.len() {
                    assert(rest[any].pending is Some);
                }
                assert(any == last);
                assert forall|k: int| 0 <= k < rest.len() implies (#[trigger] rest[k]).pending is None by {
                    if rest[k].pending is Some {
                        assert(rest[k].pending is Some);
                    }
                }
                assert(highest_pending(rest) == 0);
                assert(ports[last].pending == Some(highest_pending(ports)));
            }
        }
    }
}

/// A repeat among the first handles is the first repeat of all.
proof fn lemma_first_repeat_extends(handles: Seq<PortHandle>, count: int)
    requires
        0 <= count <= handles.len(),
        first_repeat(handles.subrange(0, count)) >= 0,
    ensures
        first_repeat(handles) == first_repeat(handles.subrange(0, count)),
    decreases handles.len() - count,
{
    if count < handles.len() {
        let shorter = handles.subrange(0, count);
        let longer = handles.subrange(0, count + 1);
        assert(longer.drop_last() == shorter);
        lemma_first_repeat_extends(handles, count + 1);
    } else {
        assert(handles.subrange(0, count) == handles);
    }
}

} // verus!
