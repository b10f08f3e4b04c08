use crate::errors::{ExecutionError, ExecutionErrorView};
use crate::executor::{ExecutorOptions, WorkerState};
use vstd::prelude::*;

verus! {

/// What happens to the worker of a source.
#[derive(Debug, Clone, PartialEq, Eq)]
pub enum SourceEvent<T> {
    /// The source's initialisation has returned, successfully or not.
    InitDone { ok: bool },
    /// The worker is told to begin pulling.
    Start,
    /// The source produced an operation at the read position `offset`,
    /// `elapsed_ms` milliseconds after the last barrier.
    Produced { op: T, offset: u64, elapsed_ms: u64 },
    /// The source has nothing to produce right now, `elapsed_ms`
    /// milliseconds after the last barrier.
    Idle { elapsed_ms: u64 },
    /// The source has nothing more to produce.
    Exhausted,
    /// The run is being stopped.
    StopRequested,
    /// The source failed, or a connection broke.
    Failure,
}

/// What the worker of a source is to send, on every output port, after an
/// event.
#[derive(Debug, Clone, PartialEq, Eq)]
pub enum SourceAction<T> {
    /// Nothing.
    Continue,
    /// The operation; then, where `barrier` is given, a barrier with that
    /// offset, which the source also records as its durable position.
    Forward { op: T, barrier: Option<u64> },
    /// A barrier with this offset, which the source also records.
    Commit { offset: u64 },
    /// Where `barrier` is given, a last barrier with that offset, recorded
    /// as before; then the termination marker. Then the worker exits.
    Terminate { barrier: Option<u64> },
    /// Nothing; the worker exits with an error.
    Abort,
}

/// How many of the events are operations that the source produced.
pub open spec fn operations_produced<T>(events: Seq<SourceEvent<T>>) -> nat
    decreases events.len(),
{
    if events.len() == 0 {
        0
    } else {
        operations_produced(events.drop_last()) + if events.last() is Produced {
            1nat
        } else {
            0nat
        }
    }
}

/// How many of the actions send an operation.
pub open spec fn operations_sent<T>(actions: Seq<SourceAction<T>>) -> nat
    decreases actions.len(),
{
    if actions.len() == 0 {
        0
    } else {
        operations_sent(actions.drop_last()) + if actions.last() is Forward {
            1nat
        } else {
            0nat
        }
    }
}

/// The worker of a source as a mathematical value.
pub ghost struct SourceView {
    pub state: WorkerState,
    pub options: ExecutorOptions,
    /// The read position of the last operation sent.
    pub position: u64,
    /// The offset of the last barrier sent.
    pub committed: u64,
    /// How many operations were sent after the last barrier.
    pub uncommitted: u32,
}

impl SourceView {
    /// Whether a barrier is due after one more operation.
    pub open spec fn due_after_operation(self, elapsed_ms: u64) -> bool {
        self.uncommitted + 1 >= self.options.commit_sz || elapsed_ms
            >= self.options.commit_time_threshold_ms
    }

    /// Whether a barrier is due while the source is idle.
    pub open spec fn due_when_idle(self, elapsed_ms: u64) -> bool {
        self.uncommitted > 0 && elapsed_ms >= self.options.commit_time_threshold_ms
    }

    /// The last barrier of a source that ends: its position, unless the
    /// last barrier sent already carries it.
    pub open spec fn last_barrier(self) -> Option<u64> {
        if self.uncommitted > 0 {
            Some(self.position)
        } else {
            None
        }
    }

    /// The worker after `event`, and what it is to send; or the error with
    /// which the event is refused, and then the worker is unchanged.
    ///
    /// An operation is always sent on. A barrier follows it once
    /// `commit_sz` operations have gone without one, or once the time
    /// threshold has passed; an idle source sends a barrier once the time
    /// threshold has passed over operations that have none. A source that
    /// ends sends a last barrier for the operations that have none, and the
    /// termination marker.
    pub open spec fn next<T>(self, event: SourceEvent<T>) -> Result<
        (SourceView, SourceAction<T>),
        ExecutionErrorView,
    > {
        match event {
            SourceEvent::InitDone { ok } => if self.state is Uninitialized {
                if ok {
                    Ok((self.with_state(WorkerState::Initialized), SourceAction::Continue))
                } else {
                    Ok(
                        (
                            self.with_state(WorkerState::Terminated { clean: false }),
                            SourceAction::Abort,
                        ),
                    )
                }
            } else {
                Err(ExecutionErrorView::InvalidState)
            },
            SourceEvent::Start => if self.state is Initialized {
                Ok((self.with_state(WorkerState::Running), SourceAction::Continue))
            } else {
                Err(ExecutionErrorView::InvalidState)
            },
            SourceEvent::Failure => if self.state is Terminated {
                Err(ExecutionErrorView::InvalidState)
            } else {
                Ok(
                    (
                        self.with_state(WorkerState::Terminated { clean: false }),
                        SourceAction::Abort,
                    ),
                )
            },
            SourceEvent::Produced { op, offset, elapsed_ms } => if self.state is Running {
                if self.due_after_operation(elapsed_ms) {
                    Ok(
                        (
                            SourceView {
                                state: self.state,
                                options: self.options,
                                position: offset,
                                committed: offset,
                                uncommitted: 0,
                            },
                            SourceAction::Forward { op, barrier: Some(offset) },
                        ),
                    )
                } else {
                    Ok(
                        (
                            SourceView {
                                state: self.state,
                                options: self.options,
                                position: offset,
                                committed: self.committed,
                                uncommitted: (self.uncommitted + 1) as u32,
                            },
                            SourceAction::Forward { op, barrier: None },
                        ),
                    )
                }
            } else {
                Err(ExecutionErrorView::InvalidState)
            },
            SourceEvent::Idle { elapsed_ms } => if self.state is Running {
                if self.due_when_idle(elapsed_ms) {
                    Ok((self.all_committed(), SourceAction::Commit { offset: self.position }))
                } else {
                    Ok((self, SourceAction::Continue))
                }
            } else {
                Err(ExecutionErrorView::InvalidState)
            },
            SourceEvent::Exhausted => if self.state is Running {
                Ok(
                    (
                        self.all_committed().with_state(WorkerState::Terminated { clean: true }),
                        SourceAction::Terminate { barrier: self.last_barrier() },
                    ),
                )
            } else {
                Err(ExecutionErrorView::InvalidState)
            },
            SourceEvent::StopRequested => if self.state is Running || self.state is Initialized {
                Ok(
                    (
                        self.all_committed().with_state(WorkerState::Terminated { clean: true }),
                        SourceAction::Terminate { barrier: self.last_barrier() },
                    ),
                )
            } else {
                Err(ExecutionErrorView::InvalidState)
            },
        }
    }

    /// The worker in another state, with everything else as it is.
    pub open spec fn with_state(self, state: WorkerState) -> SourceView {
        SourceView {
            state,
            options: self.options,
            position: self.position,
            committed: self.committed,
            uncommitted: self.uncommitted,
        }
    }

    /// The worker once a barrier with its position has been sent.
    pub open spec fn all_committed(self) -> SourceView {
        SourceView {
            state: self.state,
            options: self.options,
            position: self.position,
            committed: self.position,
            uncommitted: 0,
        }
    }

    /// The invariant of the worker of a source: the operations sent after
    /// the last barrier are fewer than `commit_sz`, and where there are
    /// none the last barrier carries the position.
    pub open spec fn wf(self) -> bool {
        &&& self.uncommitted == 0 || self.uncommitted < self.options.commit_sz
        &&& self.uncommitted == 0 ==> self.committed == self.position
    }

    /// An event keeps the invariant.
    pub proof fn next_keeps_wf<T>(self, event: SourceEvent<T>)
        requires
            self.wf(),
        ensures
            self.next(event) matches Ok((after, _)) ==> after.wf(),
    {
    }

    /// The worker after a sequence of events and what it sent, event by
    /// event, or `None` where one of the events is refused.
    pub open spec fn run<T>(self, events: Seq<SourceEvent<T>>) -> Option<
        (SourceView, Seq<SourceAction<T>>),
    >
        decreases events.len(),
    {
        if events.len() == 0 {
            Some((self, Seq::empty()))
        } else {
            match self.run(events.drop_last()) {
                Some((worker, actions)) => match worker.next(events.last()) {
                    Ok((after, action)) => Some((after, actions.push(action))),
                    Err(_) => None,
                },
                None => None,
            }
        }
    }

    /// A source sends every operation that it produces, once and in the
    /// order of production, and sends no other.
    pub proof fn every_operation_is_sent_once<T>(self, events: Seq<SourceEvent<T>>, i: int)
        requires
            self.run(events) is Some,
            0 <= i < events.len(),
        ensures
            self.run(events).unwrap().1.len() == events.len(),
            match events[i] {
                SourceEvent::Produced { op, .. } => self.run(events).unwrap().1[i]
                    matches SourceAction::Forward { op: sent, .. } && sent == op,
                _ => !(self.run(events).unwrap().1[i] is Forward),
            },
        decreases events.len(),
    {
        let earlier = events.drop_last();
        let (worker, actions) = self.run(earlier).unwrap();
        assert(worker.next(events.last()) is Ok);
        if earlier.len() > 0 {
            self.every_operation_is_sent_once(earlier, 0);
        }
        if i < earlier.len() {
            self.every_operation_is_sent_once(earlier, i);
        }
    }

    /// Over any sequence of events of which none is refused, a source sends
    /// as many operations as it produces.
    pub proof fn as_many_sent_as_produced<T>(self, events: Seq<SourceEvent<T>>)
        requires
            self.run(events) is Some,
        ensures
            operations_sent(self.run(events).unwrap().1) == operations_produced(events),
        decreases events.len(),
    {
        if events.len() > 0 {
            let earlier = events.drop_last();
            let (worker, actions) = self.run(earlier).unwrap();
            self.as_many_sent_as_produced(earlier);
            let action = worker.next(events.last())->Ok_0.1;
            assert(self.run(events).unwrap().1.drop_last() == actions);
            assert(self.run(events).unwrap().1.last() == action);
        }
    }

    /// A source that has ended in order has sent a barrier with its last
    /// position: nothing that it sent is left without a barrier.
    pub proof fn clean_end_is_committed<T>(self, events: Seq<SourceEvent<T>>)
        requires
            self.wf(),
            !(self.state is Terminated),
            self.run(events) matches Some((after, _)) && after.state == (WorkerState::Terminated {
                clean: true,
            }),
        ensures
            ({
                let after = self.run(events).unwrap().0;
                after.committed == after.position && after.uncommitted == 0
            }),
        decreases events.len(),
    {
        if events.len() > 0 {
            let earlier = events.drop_last();
            let (worker, actions) = self.run(earlier).unwrap();
            self.lemma_run_keeps_wf(earlier);
            if worker.state == (WorkerState::Terminated { clean: true }) {
                self.clean_end_is_committed(earlier);
            }
        }
    }

    proof fn lemma_run_keeps_wf<T>(self, events: Seq<SourceEvent<T>>)
        requires
            self.wf(),
            self.run(events) is Some,
        ensures
            self.run(events).unwrap().0.wf(),
        decreases events.len(),
    {
        if events.len() > 0 {
            let earlier = events.drop_last();
            self.lemma_run_keeps_wf(earlier);
            self.run(earlier).unwrap().0.next_keeps_wf(events.last());
        }
    }
}

/// The part of the worker of a source that decides when barriers are sent
/// and how the source ends.
pub struct SourceWorker {
    state: WorkerState,
    options: ExecutorOptions,
    position: u64,
    committed: u64,
    uncommitted: u32,
}

impl View for SourceWorker {
    type V = SourceView;

    closed spec fn view(&self) -> SourceView {
        SourceView {
            state: self.state,
            options: self.options,
            position: self.position,
            committed: self.committed,
            uncommitted: self.uncommitted,
        }
    }
}

impl SourceWorker {
    /// A worker for a source that has sent nothing yet, not initialised.
    pub fn new(options: ExecutorOptions) -> (r: Self)
        ensures
            r@.wf(),
            r@ == (SourceView {
                state: WorkerState::Uninitialized,
                options,
                position: 0,
                committed: 0,
                uncommitted: 0,
            }),
    {
        SourceWorker {
            state: WorkerState::Uninitialized,
            options,
            position: 0,
            committed: 0,
            uncommitted: 0,
        }
    }

    /// Where the worker stands in its life.
    pub fn state(&self) -> (r: WorkerState)
        ensures
            r == self@.state,
    {
        self.state
    }

    /// The read position of the last operation sent.
    pub fn position(&self) -> (r: u64)
        ensures
            r == self@.position,
    {
        self.position
    }

    /// The offset of the last barrier sent.
    pub fn committed(&self) -> (r: u64)
        ensures
            r == self@.committed,
    {
        self.committed
    }

    /// Takes note of an event and says what is to be sent.
    ///
    /// `SourceView::next` says for every state and event what the new
    /// state and the action are, and which events are refused. A refused
    /// event changes nothing.
    pub fn step<T>(&mut self, event: SourceEvent<T>) -> (r: Result<
        SourceAction<T>,
        ExecutionError,
    >)
        requires
            old(self)@.wf(),
        ensures
            final(self)@.wf(),
            match r {
                Ok(action) => old(self)@.next(event) == Ok::<
                    (SourceView, SourceAction<T>),
                    ExecutionErrorView,
                >((final(self)@, action)),
                Err(e) => {
                    &&& old(self)@.next(event) == Err::<
                        (SourceView, SourceAction<T>),
                        ExecutionErrorView,
                    >(e@)
                    &&& final(self)@ == old(self)@
                },
            },
    {
        match event {
            SourceEvent::InitDone { ok } => match self.state {
                WorkerState::Uninitialized => {
                    if ok {
                        self.state = WorkerState::Initialized;
                        Ok(SourceAction::Continue)
                    } else {
                        self.state = WorkerState::Terminated { clean: false };
                        Ok(SourceAction::Abort)
                    }
                },
                _ => Err(ExecutionError::InvalidState),
            },
            SourceEvent::Start => match self.state {
                WorkerState::Initialized => {
                    self.state = WorkerState::Running;
                    Ok(SourceAction::Continue)
                },
                _ => Err(ExecutionError::InvalidState),
            },
            SourceEvent::Failure => match self.state {
                WorkerState::Terminated { .. } => Err(ExecutionError::InvalidState),
                _ => {
                    self.state = WorkerState::Terminated { clean: false };
                    Ok(SourceAction::Abort)
                },
            },
            SourceEvent::Produced { op, offset, elapsed_ms } => match self.state {
                WorkerState::Running => {
                    self.position = offset;
                    if self.uncommitted >= self.options.commit_sz || self.uncommitted + 1
                        >= self.options.commit_sz || elapsed_ms
                        >= self.options.commit_time_threshold_ms {
                        self.committed = offset;
                        self.uncommitted = 0;
                        Ok(SourceAction::Forward { op, barrier: Some(offset) })
                    } else {
                        self.uncommitted = self.uncommitted + 1;
                        Ok(SourceAction::Forward { op, barrier: None })
                    }
                },
                _ => Err(ExecutionError::InvalidState),
            },
            SourceEvent::Idle { elapsed_ms } => match self.state {
                WorkerState::Running => {
                    if self.uncommitted > 0 && elapsed_ms >= self.options.commit_time_threshold_ms {
                        self.committed = self.position;
                        self.uncommitted = 0;
                        Ok(SourceAction::Commit { offset: self.position })
                    } else {
                        Ok(SourceAction::Continue)
                    }
                },
                _ => Err(ExecutionError::InvalidState),
            },
            SourceEvent::Exhausted => match self.state {
                WorkerState::Running => Ok(self.end()),
                _ => Err(ExecutionError::InvalidState),
            },
            SourceEvent::StopRequested => match self.state {
                WorkerState::Running => Ok(self.end()),
                WorkerState::Initialized => Ok(self.end()),
                _ => Err(ExecutionError::InvalidState),
            },
        }
    }

    fn end<T>(&mut self) -> (action: SourceAction<T>)
        requires
            old(self)@.wf(),
        ensures
            final(self)@ == old(self)@.all_committed().with_state(
                WorkerState::Terminated { clean: true },
            ),
            action == (SourceAction::<T>::Terminate { barrier: old(self)@.last_barrier() }),
    {
        let barrier = if self.uncommitted > 0 {
            Some(self.position)
        } else {
            None
        };
        self.committed = self.position;
        self.uncommitted = 0;
        self.state = WorkerState::Terminated { clean: true };
        SourceAction::Terminate { barrier }
    }
}

} // verus!
