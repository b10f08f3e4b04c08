use vstd::prelude::*;

verus! {

/// What travels over a connection: a record mutation, or one of the two
/// control messages. All three keep the order in which they were sent.
#[derive(Debug, Clone, PartialEq, Eq)]
pub enum ExecutorOperation<T> {
    /// One record mutation.
    Op(T),
    /// A checkpoint barrier with the read position of the source it stems from.
    Commit { offset: u64 },
    /// The termination marker: nothing follows it.
    Terminate,
}

/// Where a worker stands in its life.
#[derive(Debug, Clone, Copy, PartialEq, Eq)]
pub enum WorkerState {
    /// The node has not been initialised.
    Uninitialized,
    /// The node is initialised and waits to be started.
    Initialized,
    /// Every port is open and none holds a barrier.
    Running,
    /// A port holds a barrier or is closed; the worker waits for the others.
    Draining,
    /// The worker has exited: `clean` after the termination marker arrived
    /// on every port, not `clean` after a failure.
    Terminated { clean: bool },
}

/// How a graph is run.
#[derive(Debug, Clone, Copy, PartialEq, Eq)]
pub struct ExecutorOptions {
    /// A source emits a barrier once this many operations have followed the
    /// last one.
    pub commit_sz: u32,
    /// How many messages a connection holds before sending blocks.
    pub channel_buffer_sz: usize,
    /// A source emits a barrier once operations have waited this many
    /// milliseconds for one.
    pub commit_time_threshold_ms: u64,
}

impl Default for ExecutorOptions {
    fn default() -> (r: Self)
        ensures
            r == (ExecutorOptions {
                commit_sz: 10_000,
                channel_buffer_sz: 20_000,
                commit_time_threshold_ms: 50,
            }),
    {
        ExecutorOptions { commit_sz: 10_000, channel_buffer_sz: 20_000, commit_time_threshold_ms: 50 }
    }
}

/// The place of the first failure among the results, or the number of
/// results where none is a failure.
pub open spec fn first_failure<E>(results: Seq<Result<(), E>>) -> int
    decreases results.len(),
{
    if results.len() == 0 {
        0
    } else if results[0] is Err {
        0
    } else {
        1 + first_failure(results.drop_first())
    }
}

/// The result of a run from the results of its workers, in the order in
/// which the workers ended: the failure of the worker that failed first,
/// for the failures of the others follow from it; success where no worker
/// failed.
pub fn join_results<E>(results: Vec<Result<(), E>>) -> (r: Result<(), E>)
    ensures
        match r {
            Ok(_) => first_failure(results@) == results@.len(),
            Err(e) => 0 <= first_failure(results@) < results@.len() && results@[first_failure(
                results@,
            )] == Err::<(), E>(e),
        },
{
    let mut results = results;
    let ghost all = results@;
    let ghost mut at: int = all.len() as int;
    let mut kept: Result<(), E> = Ok(());
    while results.len() > 0
        invariant
            results@ == all.subrange(0, results@.len() as int),
            results@.len() <= at <= all.len(),
            forall|i: int| results@.len() <= i < at ==> all[i] is Ok,
            match kept {
                Ok(_) => at == all.len(),
                Err(e) => at < all.len() && all[at] == Err::<(), E>(e),
            },
        decreases results@.len(),
    {
        let last = results.pop();
        proof {
            assert(results@ == all.subrange(0, results@.len() as int));
        }
        match last {
            Some(Err(e)) => {
                proof {
                    at = results@.len() as int;
                }
                kept = Err(e);
            },
            _ => {},
        }
    }
    proof {
        lemma_first_failure(all, at);
    }
    kept
}

/// The first failure stands where a failure stands after successes only.
proof fn lemma_first_failure<E>(results: Seq<Result<(), E>>, at: int)
    requires
        0 <= at <= results.len(),
        forall|i: int| 0 <= i < at ==> results[i] is Ok,
        at < results.len() ==> results[at] is Err,
    ensures
        first_failure(results) == at,
    decreases results.len(),
{
    if results.len() > 0 && at > 0 {
        let rest = results.drop_first();
        assert forall|i: int| 0 <= i < at - 1 implies rest[i] is Ok by {
            assert(rest[i] == results[i + 1]);
        }
        lemma_first_failure(rest, at - 1);
    }
}

} // verus!
