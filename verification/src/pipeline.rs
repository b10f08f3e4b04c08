use crate::executor::{ExecutorOperation, WorkerState};
use crate::source::{operations_produced, SourceAction, SourceEvent, SourceView};
use crate::worker::{
    operations_arriving, operations_processed, InputPort, WorkerActionView, WorkerEvent,
    WorkerView,
};
use crate::node::PortHandle;
use vstd::prelude::*;

verus! {

/// What a source puts on each of its connections for one action, in order.
pub open spec fn source_output<T>(action: SourceAction<T>) -> Seq<ExecutorOperation<T>> {
    match action {
        SourceAction::Forward { op, barrier: Some(offset) } => seq![
            ExecutorOperation::Op(op),
            ExecutorOperation::Commit { offset },
        ],
        SourceAction::Forward { op, barrier: None } => seq![ExecutorOperation::Op(op)],
        SourceAction::Commit { offset } => seq![ExecutorOperation::Commit { offset }],
        SourceAction::Terminate { barrier: Some(offset) } => seq![
            ExecutorOperation::Commit { offset },
            ExecutorOperation::Terminate,
        ],
        SourceAction::Terminate { barrier: None } => seq![ExecutorOperation::Terminate],
        SourceAction::Continue => Seq::empty(),
        SourceAction::Abort => Seq::empty(),
    }
}

/// What a source puts on each of its connections over a sequence of actions.
pub open spec fn source_stream<T>(actions: Seq<SourceAction<T>>) -> Seq<ExecutorOperation<T>>
    decreases actions.len(),
{
    if actions.len() == 0 {
        Seq::empty()
    } else {
        source_stream(actions.drop_last()) + source_output(actions.last())
    }
}

/// What a node that sends every operation on as it is puts on its
/// connection for one action.
pub open spec fn relay_output<T>(action: WorkerActionView<T>) -> Seq<ExecutorOperation<T>> {
    match action {
        WorkerActionView::Process { op, .. } => seq![ExecutorOperation::Op(op)],
        WorkerActionView::Commit { barrier, .. } => seq![
            ExecutorOperation::Commit { offset: barrier },
        ],
        WorkerActionView::Terminate { .. } => seq![ExecutorOperation::Terminate],
        WorkerActionView::Continue => Seq::empty(),
        WorkerActionView::Abort => Seq::empty(),
    }
}

/// What such a node puts on its connection over a sequence of actions.
pub open spec fn relay_stream<T>(actions: Seq<WorkerActionView<T>>) -> Seq<ExecutorOperation<T>>
    decreases actions.len(),
{
    if actions.len() == 0 {
        Seq::empty()
    } else {
        relay_stream(actions.drop_last()) + relay_output(actions.last())
    }
}

/// The events at a worker when the messages of `stream` arrive on `port`.
pub open spec fn arrivals<T>(port: PortHandle, stream: Seq<ExecutorOperation<T>>) -> Seq<
    WorkerEvent<T>,
> {
    stream.map_values(|message: ExecutorOperation<T>| WorkerEvent::Message { port, message })
}

/// How many operations the stream holds.
pub open spec fn operations_in<T>(stream: Seq<ExecutorOperation<T>>) -> nat
    decreases stream.len(),
{
    if stream.len() == 0 {
        0
    } else {
        operations_in(stream.drop_last()) + if stream.last() is Op {
            1nat
        } else {
            0nat
        }
    }
}

/// The offset of the last barrier in the stream, or `fallback` where it
/// holds none.
pub open spec fn last_barrier<T>(stream: Seq<ExecutorOperation<T>>, fallback: u64) -> u64
    decreases stream.len(),
{
    if stream.len() == 0 {
        fallback
    } else {
        match stream.last() {
            ExecutorOperation::Commit { offset } => offset,
            _ => last_barrier(stream.drop_last(), fallback),
        }
    }
}

/// Whether the stream has not ended: it holds no termination marker.
pub open spec fn unended<T>(stream: Seq<ExecutorOperation<T>>) -> bool {
    forall|i: int| 0 <= i < stream.len() ==> !(#[trigger] stream[i] is Terminate)
}

/// A worker with the one input port `port` that receives, with `committed`
/// as the offset of its last commit.
pub open spec fn relay(port: PortHandle, committed: u64) -> WorkerView {
    WorkerView {
        ports: seq![InputPort { handle: port, pending: None, closed: false, committed }],
        state: WorkerState::Running,
    }
}

/// That worker after the termination marker.
pub open spec fn ended_relay(port: PortHandle, committed: u64) -> WorkerView {
    WorkerView {
        ports: seq![InputPort { handle: port, pending: None, closed: true, committed }],
        state: WorkerState::Terminated { clean: true },
    }
}

proof fn lemma_relay_wf(port: PortHandle, committed: u64)
    ensures
        relay(port, committed).wf(),
        relay(port, committed).live(),
{
    let worker = relay(port, committed);
    assert(!worker.ports[0].closed);
    assert(worker.ports[0].pending is None);
}

/// A worker with one input port whose node sends every operation on as it
/// is passes on, message for message, a stream that has not ended, commits
/// every barrier of it, and hands every operation of it to its node.
pub proof fn relay_passes_stream_on<T>(
    port: PortHandle,
    committed: u64,
    stream: Seq<ExecutorOperation<T>>,
)
    requires
        unended(stream),
    ensures
        relay(port, committed).run(arrivals(port, stream)) matches Some((after, actions)) && {
            &&& after == relay(port, last_barrier(stream, committed))
            &&& relay_stream(actions) == stream
            &&& operations_processed(actions) == operations_in(stream)
        },
    decreases stream.len(),
{
    let worker = relay(port, committed);
    let events = arrivals(port, stream);
    if stream.len() > 0 {
        let shorter = stream.drop_last();
        let message = stream.last();
        assert(unended(shorter)) by {
            assert forall|i: int| 0 <= i < shorter.len() implies !(
            #[trigger] shorter[i] is Terminate) by {
                assert(stream[i] == shorter[i]);
            }
        }
        relay_passes_stream_on(port, committed, shorter);
        assert(events.drop_last() == arrivals(port, shorter));
        assert(events.last() == (WorkerEvent::Message { port, message }));
        let (before, actions) = worker.run(arrivals(port, shorter)).unwrap();
        lemma_relay_wf(port, last_barrier(shorter, committed));
        before.single_port_passes_on(message);
        assert(!(stream[stream.len() - 1] is Terminate));
        let (after, action) = before.next(events.last())->Ok_0;
        let grown = actions.push(action);
        assert(grown.drop_last() == actions);
        assert(relay_stream(grown) == relay_stream(actions) + relay_output(action));
        assert(relay_output(action) == seq![message]);
        assert(shorter + seq![message] == stream);
        assert(operations_processed(grown) == operations_processed(actions) + if action is Process {
            1nat
        } else {
            0nat
        });
    } else {
        assert(events == Seq::<WorkerEvent<T>>::empty());
    }
}

/// Such a worker passes on the termination marker after the stream, and
/// ends in order with the last barrier of the stream committed.
pub proof fn relay_passes_end_on<T>(
    port: PortHandle,
    committed: u64,
    stream: Seq<ExecutorOperation<T>>,
)
    requires
        unended(stream),
    ensures
        ({
            let whole = stream.push(ExecutorOperation::Terminate);
            relay(port, committed).run(arrivals(port, whole)) matches Some((after, actions)) && {
                &&& after == ended_relay(port, last_barrier(stream, committed))
                &&& relay_stream(actions) == whole
                &&& operations_processed(actions) == operations_in(stream)
            }
        }),
{
    let worker = relay(port, committed);
    let whole = stream.push(ExecutorOperation::<T>::Terminate);
    let events = arrivals(port, whole);
    relay_passes_stream_on(port, committed, stream);
    assert(whole.drop_last() == stream);
    assert(events.drop_last() == arrivals(port, stream));
    assert(events.last() == (WorkerEvent::Message { port, message: ExecutorOperation::<T>::Terminate }));
    let (before, actions) = worker.run(arrivals(port, stream)).unwrap();
    lemma_relay_wf(port, last_barrier(stream, committed));
    before.single_port_passes_on(ExecutorOperation::<T>::Terminate);
    let (after, action) = before.next(events.last())->Ok_0;
    let grown = actions.push(action);
    assert(grown.drop_last() == actions);
    assert(relay_stream(grown) == relay_stream(actions) + relay_output(action));
}

proof fn lemma_one_more<T>(stream: Seq<ExecutorOperation<T>>, message: ExecutorOperation<T>, fallback: u64)
    ensures
        operations_in(stream.push(message)) == operations_in(stream) + if message is Op {
            1nat
        } else {
            0nat
        },
        last_barrier(stream.push(message), fallback) == (match message {
            ExecutorOperation::Commit { offset } => offset,
            _ => last_barrier(stream, fallback),
        }),
        unended(stream.push(message)) == (unended(stream) && !(message is Terminate)),
{
    let longer = stream.push(message);
    assert(longer.drop_last() == stream);
    if unended(longer) {
        assert forall|i: int| 0 <= i < stream.len() implies !(#[trigger] stream[i] is Terminate) by {
            assert(longer[i] == stream[i]);
        }
        assert(longer[stream.len() as int] == message);
    }
}

/// What a source has sent when it has not ended, and when it has ended in
/// order: as many operations as it produced, barriers of which the last
/// carries what the source holds as committed, and the termination marker
/// at the end and nowhere else, after a barrier with the last position.
pub proof fn source_stream_ends_committed<T>(source: SourceView, events: Seq<SourceEvent<T>>)
    requires
        source.wf(),
        !(source.state is Terminated),
        source.run(events) is Some,
    ensures
        ({
            let (after, actions) = source.run(events).unwrap();
            let stream = source_stream(actions);
            &&& after.wf()
            &&& !(after.state is Terminated) ==> {
                &&& unended(stream)
                &&& last_barrier(stream, source.committed) == after.committed
                &&& operations_in(stream) == operations_produced(events)
            }
            &&& after.state == (WorkerState::Terminated { clean: true }) ==> {
                &&& stream.len() > 0
                &&& stream.last() is Terminate
                &&& unended(stream.drop_last())
                &&& last_barrier(stream.drop_last(), source.committed) == after.position
                &&& operations_in(stream.drop_last()) == operations_produced(events)
            }
        }),
    decreases events.len(),
{
    if events.len() > 0 {
        let earlier = events.drop_last();
        let event = events.last();
        let (before, sent) = source.run(earlier).unwrap();
        source_stream_ends_committed(source, earlier);
        before.next_keeps_wf(event);
        let (after, action) = before.next(event)->Ok_0;
        let actions = sent.push(action);
        assert(actions.drop_last() == sent);
        let old_stream = source_stream(sent);
        let stream = source_stream(actions);
        assert(stream == old_stream + source_output(action));
        let c = source.committed;
        match action {
            SourceAction::Forward { op, barrier: Some(offset) } => {
                let one = old_stream.push(ExecutorOperation::Op(op));
                lemma_one_more(old_stream, ExecutorOperation::Op(op), c);
                lemma_one_more(one, ExecutorOperation::Commit { offset }, c);
                assert(stream == one.push(ExecutorOperation::Commit { offset }));
            },
            SourceAction::Forward { op, barrier: None } => {
                lemma_one_more(old_stream, ExecutorOperation::Op(op), c);
                assert(stream == old_stream.push(ExecutorOperation::Op(op)));
            },
            SourceAction::Commit { offset } => {
                lemma_one_more(old_stream, ExecutorOperation::Commit { offset }, c);
                assert(stream == old_stream.push(ExecutorOperation::Commit { offset }));
            },
            SourceAction::Terminate { barrier: Some(offset) } => {
                let one = old_stream.push(ExecutorOperation::Commit { offset });
                lemma_one_more(old_stream, ExecutorOperation::Commit { offset }, c);
                assert(stream == one.push(ExecutorOperation::Terminate));
                assert(stream.drop_last() == one);
            },
            SourceAction::Terminate { barrier: None } => {
                assert(stream == old_stream.push(ExecutorOperation::Terminate));
                assert(stream.drop_last() == old_stream);
            },
            SourceAction::Continue => {
                assert(stream == old_stream);
            },
            SourceAction::Abort => {
                assert(stream == old_stream);
            },
        }
    }
}

/// A path from a source through a node that sends every operation on as it
/// is into a node that counts, each with one input port, where every
/// connection delivers in the order of sending: once the source has ended
/// in order and the path has drained, the counting node has been handed as
/// many operations as the source produced, both nodes have ended in order,
/// and both have committed the last position of the source.
pub proof fn drained_path_is_caught_up<T>(
    source: SourceView,
    events: Seq<SourceEvent<T>>,
    first: PortHandle,
    second: PortHandle,
)
    requires
        source.wf(),
        !(source.state is Terminated),
        source.run(events) matches Some((ended, _)) && ended.state == (WorkerState::Terminated {
            clean: true,
        }),
    ensures
        ({
            let (ended, sent) = source.run(events).unwrap();
            let stream = source_stream(sent);
            let committed = source.committed;
            relay(first, committed).run(arrivals(first, stream)) matches Some(
                (passing, passed),
            ) && {
                &&& relay_stream(passed) == stream
                &&& passing == ended_relay(first, ended.position)
                &&& operations_processed(passed) == operations_produced(events)
                &&& relay(second, committed).run(arrivals(second, relay_stream(passed)))
                    matches Some((counting, counted)) && {
                    &&& counting == ended_relay(second, ended.position)
                    &&& operations_processed(counted) == operations_produced(events)
                }
            }
        }),
{
    let (ended, sent) = source.run(events).unwrap();
    let stream = source_stream(sent);
    source_stream_ends_committed(source, events);
    let body = stream.drop_last();
    assert(body.push(ExecutorOperation::Terminate) == stream);
    relay_passes_end_on(first, source.committed, body);
    relay_passes_end_on(second, source.committed, body);
}

/// The messages among `events` that arrive on `port`, in their order.
pub open spec fn on_port<T>(events: Seq<WorkerEvent<T>>, port: PortHandle) -> Seq<
    ExecutorOperation<T>,
>
    decreases events.len(),
{
    if events.len() == 0 {
        Seq::empty()
    } else {
        let earlier = on_port(events.drop_last(), port);
        match events.last() {
            WorkerEvent::Message { port: at, message } if at == port => earlier.push(message),
            _ => earlier,
        }
    }
}

/// Whether every event is the arrival of a message on one of two ports.
pub open spec fn arrive_on<T>(events: Seq<WorkerEvent<T>>, left: PortHandle, right: PortHandle) -> bool {
    forall|i: int|
        0 <= i < events.len() ==> (#[trigger] events[i] matches WorkerEvent::Message { port, .. }
            && (port == left || port == right))
}

proof fn lemma_operations_by_port<T>(events: Seq<WorkerEvent<T>>, left: PortHandle, right: PortHandle)
    requires
        left != right,
        arrive_on(events, left, right),
    ensures
        operations_arriving(events) == operations_in(on_port(events, left)) + operations_in(
            on_port(events, right),
        ),
    decreases events.len(),
{
    if events.len() > 0 {
        let earlier = events.drop_last();
        assert(arrive_on(earlier, left, right)) by {
            assert forall|i: int| 0 <= i < earlier.len() implies (
            #[trigger] earlier[i] matches WorkerEvent::Message { port, .. } && (port == left || port
                == right)) by {
                assert(events[i] == earlier[i]);
            }
        }
        lemma_operations_by_port(earlier, left, right);
        assert(events[events.len() - 1] == events.last());
        match events.last() {
            WorkerEvent::Message { port, message } => {
                lemma_one_more(on_port(earlier, port), message, 0);
            },
            _ => {},
        }
    }
}

/// What a node that sends every operation on as it is, with any number of
/// input ports, has sent when it has not ended and when it has ended in
/// order: as many operations as it was handed, and the termination marker
/// at the end and nowhere else.
pub proof fn relay_stream_ends_once<T>(worker: WorkerView, events: Seq<WorkerEvent<T>>)
    requires
        worker.wf(),
        !(worker.state is Terminated),
        worker.run(events) is Some,
    ensures
        ({
            let (after, actions) = worker.run(events).unwrap();
            let stream = relay_stream(actions);
            &&& after.wf()
            &&& !(after.state is Terminated) ==> {
                &&& unended(stream)
                &&& operations_in(stream) == operations_processed(actions)
            }
            &&& after.state == (WorkerState::Terminated { clean: true }) ==> {
                &&& stream.len() > 0
                &&& stream.last() is Terminate
                &&& unended(stream.drop_last())
                &&& operations_in(stream.drop_last()) == operations_processed(actions)
            }
        }),
    decreases events.len(),
{
    if events.len() > 0 {
        let earlier = events.drop_last();
        let event = events.last();
        let (before, done) = worker.run(earlier).unwrap();
        relay_stream_ends_once(worker, earlier);
        before.next_keeps_wf(event);
        let (after, action) = before.next(event)->Ok_0;
        let actions = done.push(action);
        assert(actions.drop_last() == done);
        let old_stream = relay_stream(done);
        let stream = relay_stream(actions);
        assert(stream == old_stream + relay_output(action));
        match action {
            WorkerActionView::Process { op, .. } => {
                lemma_one_more(old_stream, ExecutorOperation::Op(op), 0);
                assert(stream == old_stream.push(ExecutorOperation::Op(op)));
            },
            WorkerActionView::Commit { barrier, .. } => {
                lemma_one_more(old_stream, ExecutorOperation::Commit { offset: barrier }, 0);
                assert(stream == old_stream.push(ExecutorOperation::Commit { offset: barrier }));
            },
            WorkerActionView::Terminate { .. } => {
                assert(stream == old_stream.push(ExecutorOperation::Terminate));
                assert(stream.drop_last() == old_stream);
            },
            WorkerActionView::Continue => {
                assert(stream == old_stream);
            },
            WorkerActionView::Abort => {
                assert(stream == old_stream);
            },
        }
    }
}

/// Two sources into the two input ports of a node that sends every
/// operation on as it is, and from there into a node that counts, where
/// every connection delivers in the order of sending: in whatever order
/// the messages of the two sources reach the first node, once both sources
/// have ended in order and everything has drained, the counting node has
/// been handed as many operations as both sources produced together, and
/// has ended in order.
pub proof fn fan_in_counts_both<T>(
    one: SourceView,
    one_events: Seq<SourceEvent<T>>,
    other: SourceView,
    other_events: Seq<SourceEvent<T>>,
    join: WorkerView,
    events: Seq<WorkerEvent<T>>,
    left: PortHandle,
    right: PortHandle,
    out: PortHandle,
    committed: u64,
)
    requires
        one.wf(),
        !(one.state is Terminated),
        one.run(one_events) matches Some((ended, _)) && ended.state == (WorkerState::Terminated {
            clean: true,
        }),
        other.wf(),
        !(other.state is Terminated),
        other.run(other_events) matches Some((ended, _)) && ended.state == (
        WorkerState::Terminated { clean: true }),
        join.wf(),
        join.live(),
        left != right,
        arrive_on(events, left, right),
        on_port(events, left) == source_stream(one.run(one_events).unwrap().1),
        on_port(events, right) == source_stream(other.run(other_events).unwrap().1),
        join.run(events) matches Some((after, _)) && after.state == (WorkerState::Terminated {
            clean: true,
        }),
    ensures
        ({
            let joined = join.run(events).unwrap().1;
            &&& operations_processed(joined) == operations_produced(one_events)
                + operations_produced(other_events)
            &&& relay(out, committed).run(arrivals(out, relay_stream(joined))) matches Some(
                (counting, counted),
            ) && {
                &&& counting.state == (WorkerState::Terminated { clean: true })
                &&& operations_processed(counted) == operations_produced(one_events)
                    + operations_produced(other_events)
            }
        }),
{
    let joined = join.run(events).unwrap().1;
    let stream = relay_stream(joined);
    relay_stream_ends_once(join, events);
    join.as_many_processed_as_arrive(events);
    lemma_operations_by_port(events, left, right);
    source_stream_ends_committed(one, one_events);
    source_stream_ends_committed(other, other_events);
    let one_stream = source_stream(one.run(one_events).unwrap().1);
    let other_stream = source_stream(other.run(other_events).unwrap().1);
    lemma_one_more(one_stream.drop_last(), one_stream.last(), 0);
    lemma_one_more(other_stream.drop_last(), other_stream.last(), 0);
    assert(one_stream.drop_last().push(one_stream.last()) == one_stream);
    assert(other_stream.drop_last().push(other_stream.last()) == other_stream);
    let body = stream.drop_last();
    assert(body.push(ExecutorOperation::Terminate) == stream);
    relay_passes_end_on(out, committed, body);
}

} // verus!
