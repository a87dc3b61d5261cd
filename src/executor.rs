use vstd::prelude::*;
use std::collections::VecDeque;
use crate::task::{JoinError, JoinPoll};

verus! {

/// The pool a task runs on.
#[derive(PartialEq, Eq, Structural, Clone, Copy, Debug)]
pub enum Pool {
    /// Suspendable tasks, multiplexed on the worker threads.
    Cooperative,
    /// Long synchronous work, on threads of its own.
    Blocking,
}

/// What one poll of a task (or one run of a blocking body) ended with.
pub enum PollOutcome<T> {
    /// The task reached an await point and registered its wake callback.
    Pending,
    Ready(T),
    /// The task's body panicked.
    Panicked,
}

/// Where a task is in its life.
pub enum AsyncState<T> {
    /// Waiting in its pool's queue for a thread.
    Queued,
    /// Being polled on thread `slot` of its pool.
    Polling(usize),
    /// Waiting for its wake callback; it holds no thread.
    Suspended,
    Ready(T),
    Failed,
    /// Cancelled, or finished with nobody left to take the outcome; nothing is kept.
    Dropped,
    /// The outcome was handed to the joiner.
    Joined,
}

/// One task of an executor.
pub struct TaskRecord<T> {
    pub pool: Pool,
    pub state: AsyncState<T>,
    /// The wake callback fired while the task was being polled.
    pub woken: bool,
    /// The join handle was dropped without joining.
    pub handle_dropped: bool,
}

/// Worker-pool sizes of an executor.
pub struct ExecutorConfig {
    workers: usize,
    blocking_threads: usize,
}

/// Why a configuration was refused.
#[derive(PartialEq, Eq, Structural, Clone, Copy, Debug)]
pub enum ConfigError {
    NoWorkers,
    NoBlockingThreads,
}

/// Blocking threads when nothing else is asked for.
pub const DEFAULT_BLOCKING_THREADS: usize = 512;

impl ExecutorConfig {
    pub closed spec fn spec_workers(&self) -> nat {
        self.workers as nat
    }

    pub closed spec fn spec_blocking_threads(&self) -> nat {
        self.blocking_threads as nat
    }

    /// Both pools must have at least one thread.
    pub open spec fn valid(&self) -> bool {
        self.spec_workers() >= 1 && self.spec_blocking_threads() >= 1
    }

    /// A configuration with the given pool sizes.
    pub fn new(workers: usize, blocking_threads: usize) -> (r: Result<ExecutorConfig, ConfigError>)
        ensures
            workers == 0 ==> r == Err::<ExecutorConfig, ConfigError>(ConfigError::NoWorkers),
            workers > 0 && blocking_threads == 0 ==> r == Err::<ExecutorConfig, ConfigError>(
                ConfigError::NoBlockingThreads,
            ),
            workers > 0 && blocking_threads > 0 ==> r is Ok && r->Ok_0.spec_workers() == workers
                && r->Ok_0.spec_blocking_threads() == blocking_threads,
    {
        if workers == 0 {
            Err(ConfigError::NoWorkers)
        } else if blocking_threads == 0 {
            Err(ConfigError::NoBlockingThreads)
        } else {
            Ok(ExecutorConfig { workers, blocking_threads })
        }
    }

    /// One worker per unit of host parallelism (at least one), and the default
    /// number of blocking threads.
    pub fn for_host(parallelism: usize) -> (r: ExecutorConfig)
        ensures
            r.valid(),
            r.spec_workers() == if parallelism == 0 { 1 } else { parallelism },
            r.spec_blocking_threads() == DEFAULT_BLOCKING_THREADS,
    {
        let workers = if parallelism == 0 { 1 } else { parallelism };
        ExecutorConfig { workers, blocking_threads: DEFAULT_BLOCKING_THREADS }
    }

    /// A single worker: cooperative tasks run one at a time on one thread.
    pub fn single_worker() -> (r: ExecutorConfig)
        ensures
            r.valid(),
            r.spec_workers() == 1,
            r.spec_blocking_threads() == DEFAULT_BLOCKING_THREADS,
    {
        ExecutorConfig { workers: 1, blocking_threads: DEFAULT_BLOCKING_THREADS }
    }

    pub fn workers(&self) -> (r: usize)
        ensures
            r == self.spec_workers(),
    {
        self.workers
    }

    pub fn blocking_threads(&self) -> (r: usize)
        ensures
            r == self.spec_blocking_threads(),
    {
        self.blocking_threads
    }
}

/// The abstract state of an executor.
pub struct ExecView<T> {
    pub tasks: Seq<TaskRecord<T>>,
    /// The ready queue of cooperative tasks.
    pub ready: Seq<usize>,
    /// The queue of blocking tasks waiting for a blocking thread.
    pub blocking: Seq<usize>,
    /// What each worker thread is polling.
    pub workers: Seq<Option<usize>>,
    /// What each blocking thread is running.
    pub blockers: Seq<Option<usize>>,
}

pub open spec fn queue_of<T>(v: ExecView<T>, pool: Pool) -> Seq<usize> {
    match pool {
        Pool::Cooperative => v.ready,
        Pool::Blocking => v.blocking,
    }
}

pub open spec fn slots_of<T>(v: ExecView<T>, pool: Pool) -> Seq<Option<usize>> {
    match pool {
        Pool::Cooperative => v.workers,
        Pool::Blocking => v.blockers,
    }
}

/// `v` with the queue and threads of `pool` replaced.
pub open spec fn with_pool<T>(
    v: ExecView<T>,
    pool: Pool,
    queue: Seq<usize>,
    slots: Seq<Option<usize>>,
) -> ExecView<T> {
    match pool {
        Pool::Cooperative => ExecView { ready: queue, workers: slots, ..v },
        Pool::Blocking => ExecView { blocking: queue, blockers: slots, ..v },
    }
}

/// The other pool.
pub open spec fn other(pool: Pool) -> Pool {
    match pool {
        Pool::Cooperative => Pool::Blocking,
        Pool::Blocking => Pool::Cooperative,
    }
}

/// Each queue holds only tasks of its pool; every queued task of the pool is in
/// it; each thread polls a task of its pool that knows it is there, and back.
pub open spec fn pool_wf<T>(v: ExecView<T>, pool: Pool) -> bool {
    let q = queue_of(v, pool);
    let s = slots_of(v, pool);
    &&& forall|i: int|
        0 <= i < q.len() ==> #[trigger] q[i] < v.tasks.len() && v.tasks[q[i] as int].pool == pool
    &&& forall|id: int|
        0 <= id < v.tasks.len() && #[trigger] v.tasks[id].pool == pool && v.tasks[id].state is Queued
            ==> q.contains(id as usize)
    &&& forall|w: int|
        0 <= w < s.len() && #[trigger] s[w] is Some ==> {
            let id = s[w]->Some_0;
            &&& id < v.tasks.len()
            &&& v.tasks[id as int].pool == pool
            &&& v.tasks[id as int].state == AsyncState::<T>::Polling(w as usize)
        }
    &&& forall|id: int|
        0 <= id < v.tasks.len() && #[trigger] v.tasks[id].pool == pool
            && v.tasks[id].state is Polling ==> {
            let w = v.tasks[id].state->Polling_0;
            &&& w < s.len()
            &&& s[w as int] == Some(id as usize)
        }
}

/// A dropped handle leaves a cooperative task only while its current poll ends,
/// and a blocking one only until it finishes; blocking bodies never suspend.
pub open spec fn record_wf<T>(r: TaskRecord<T>) -> bool {
    &&& r.handle_dropped && r.pool == Pool::Cooperative ==> r.state is Polling || r.state is Dropped
    &&& r.handle_dropped && r.pool == Pool::Blocking ==> r.state is Queued || r.state is Polling
        || r.state is Dropped
    &&& r.pool == Pool::Blocking ==> !(r.state is Suspended)
    &&& r.woken ==> r.state is Polling
}

pub open spec fn exec_wf<T>(v: ExecView<T>) -> bool {
    &&& 1 <= v.workers.len() <= usize::MAX
    &&& 1 <= v.blockers.len() <= usize::MAX
    &&& v.tasks.len() < usize::MAX
    &&& pool_wf(v, Pool::Cooperative)
    &&& pool_wf(v, Pool::Blocking)
    &&& forall|id: int| 0 <= id < v.tasks.len() ==> record_wf(#[trigger] v.tasks[id])
}

/// Some thread of `pool` is idle.
pub open spec fn has_free_slot<T>(v: ExecView<T>, pool: Pool) -> bool {
    exists|w: int| 0 <= w < slots_of(v, pool).len() && #[trigger] slots_of(v, pool)[w] is None
}

/// Some task of `pool` is waiting in its queue.
pub open spec fn has_queued<T>(v: ExecView<T>, pool: Pool) -> bool {
    exists|id: int|
        0 <= id < v.tasks.len() && #[trigger] v.tasks[id].pool == pool && v.tasks[id].state is Queued
}

/// Spawning a task on `pool`: it is queued at the back of that pool's queue.
pub open spec fn spawn_step<T>(v: ExecView<T>, pool: Pool) -> ExecView<T> {
    let id = v.tasks.len() as usize;
    let r = TaskRecord { pool, state: AsyncState::Queued, woken: false, handle_dropped: false };
    with_pool(
        ExecView { tasks: v.tasks.push(r), ..v },
        pool,
        queue_of(v, pool).push(id),
        slots_of(v, pool),
    )
}

/// Handing the first queued task of `pool` to its first idle thread. Entries of
/// tasks no longer queued (cancelled while waiting) are skipped and discarded.
/// Nothing is taken from the queue while no thread is idle.
pub open spec fn dispatched<T>(
    o: ExecView<T>,
    n: ExecView<T>,
    pool: Pool,
    r: Option<(usize, usize)>,
) -> bool {
    let q = queue_of(o, pool);
    let s = slots_of(o, pool);
    match r {
        None => {
            &&& !has_free_slot(o, pool) || !has_queued(o, pool)
            &&& n.tasks == o.tasks
            &&& slots_of(n, pool) == s
            &&& exists|j: int|
                0 <= j <= q.len() && queue_of(n, pool) == q.subrange(j, q.len() as int)
                    && forall|i: int| 0 <= i < j ==> !(o.tasks[#[trigger] q[i] as int].state is Queued)
            &&& n == with_pool(o, pool, queue_of(n, pool), s)
        },
        Some((w, id)) => {
            &&& w < s.len()
            &&& s[w as int] is None
            &&& forall|u: int| 0 <= u < w ==> #[trigger] s[u] is Some
            &&& id < o.tasks.len()
            &&& o.tasks[id as int].state is Queued
            &&& exists|j: int|
                0 <= j < q.len() && q[j] == id && queue_of(n, pool) == q.subrange(
                    j + 1,
                    q.len() as int,
                ) && forall|i: int|
                    0 <= i < j ==> !(o.tasks[#[trigger] q[i] as int].state is Queued)
            &&& n == with_pool(
                ExecView {
                    tasks: o.tasks.update(
                        id as int,
                        TaskRecord { state: AsyncState::Polling(w), ..o.tasks[id as int] },
                    ),
                    ..o
                },
                pool,
                queue_of(n, pool),
                s.update(w as int, Some(id)),
            )
        },
    }
}

/// The state a task enters when its poll on thread `w` of `pool` ends with `outcome`.
pub open spec fn state_after_poll<T>(r: TaskRecord<T>, outcome: PollOutcome<T>) -> AsyncState<T> {
    if r.handle_dropped {
        AsyncState::Dropped
    } else {
        match outcome {
            PollOutcome::Pending => if r.woken {
                AsyncState::Queued
            } else {
                AsyncState::Suspended
            },
            PollOutcome::Ready(x) => AsyncState::Ready(x),
            PollOutcome::Panicked => AsyncState::Failed,
        }
    }
}

/// The poll on thread `w` of `pool` ended with `outcome`: the thread is idle
/// again; a task that was woken meanwhile goes straight back to the queue.
pub open spec fn finish_step<T>(
    v: ExecView<T>,
    pool: Pool,
    w: usize,
    outcome: PollOutcome<T>,
) -> ExecView<T> {
    let id = slots_of(v, pool)[w as int]->Some_0;
    let r = v.tasks[id as int];
    let st = state_after_poll(r, outcome);
    with_pool(
        ExecView {
            tasks: v.tasks.update(id as int, TaskRecord { state: st, woken: false, ..r }),
            ..v
        },
        pool,
        if st is Queued { queue_of(v, pool).push(id) } else { queue_of(v, pool) },
        slots_of(v, pool).update(w as int, None),
    )
}

/// The wake callback of task `id` fired: a suspended task is queued again; one
/// being polled is marked so that it is queued again when the poll ends.
pub open spec fn wake_step<T>(v: ExecView<T>, id: usize) -> ExecView<T> {
    let r = v.tasks[id as int];
    match r.state {
        AsyncState::Suspended => ExecView {
            tasks: v.tasks.update(id as int, TaskRecord { state: AsyncState::Queued, ..r }),
            ready: v.ready.push(id),
            ..v
        },
        AsyncState::Polling(_) => ExecView {
            tasks: v.tasks.update(id as int, TaskRecord { woken: true, ..r }),
            ..v
        },
        _ => v,
    }
}

/// The join handle of task `id` was dropped. A cooperative task that is not
/// being polled is cancelled at once, and one that is, when its poll ends. A
/// blocking task runs on, detached. An outcome nobody can take is discarded.
pub open spec fn drop_handle_step<T>(v: ExecView<T>, id: usize) -> ExecView<T> {
    let r = v.tasks[id as int];
    let st = match r.state {
        AsyncState::Queued => if r.pool == Pool::Cooperative {
            AsyncState::Dropped
        } else {
            AsyncState::Queued
        },
        AsyncState::Suspended => AsyncState::Dropped,
        AsyncState::Ready(_) => AsyncState::Dropped,
        AsyncState::Failed => AsyncState::Dropped,
        _ => r.state,
    };
    ExecView {
        tasks: v.tasks.update(id as int, TaskRecord { state: st, handle_dropped: true, ..r }),
        ..v
    }
}

/// What joining task `id` hands back: its value once, `TaskFailure` if it
/// panicked, `AlreadyJoined` after that, and `Waiting` before it finishes.
pub open spec fn join_result<T>(r: TaskRecord<T>) -> JoinPoll<T> {
    match r.state {
        AsyncState::Ready(x) => JoinPoll::Done(Ok(x)),
        AsyncState::Failed => JoinPoll::Done(Err(JoinError::TaskFailure)),
        AsyncState::Joined => JoinPoll::Done(Err(JoinError::AlreadyJoined)),
        _ => JoinPoll::Waiting,
    }
}

pub open spec fn join_step<T>(v: ExecView<T>, id: usize) -> ExecView<T> {
    let r = v.tasks[id as int];
    match r.state {
        AsyncState::Ready(_) => ExecView {
            tasks: v.tasks.update(id as int, TaskRecord { state: AsyncState::Joined, ..r }),
            ..v
        },
        AsyncState::Failed => ExecView {
            tasks: v.tasks.update(id as int, TaskRecord { state: AsyncState::Joined, ..r }),
            ..v
        },
        _ => v,
    }
}

pub proof fn lemma_spawn_wf<T>(v: ExecView<T>, pool: Pool)
    requires
        exec_wf(v),
        v.tasks.len() + 1 < usize::MAX,
    ensures
        exec_wf(spawn_step(v, pool)),
{
    let n = spawn_step(v, pool);
    let id = v.tasks.len() as usize;
    assert forall|p: Pool| #![auto] p == Pool::Cooperative || p == Pool::Blocking implies pool_wf(n, p) by {
        let q = queue_of(n, p);
        let oq = queue_of(v, p);
        assert forall|i: int| 0 <= i < oq.len() implies #[trigger] n.tasks[oq[i] as int] == v.tasks[oq[i] as int] by {}
        assert forall|x: int|
            0 <= x < n.tasks.len() && #[trigger] n.tasks[x].pool == p && n.tasks[x].state is Queued
                implies q.contains(x as usize) by {
            if x < v.tasks.len() {
                assert(v.tasks[x] == n.tasks[x]);
                assert(oq.contains(x as usize));
                let i = choose|i: int| 0 <= i < oq.len() && oq[i] == x as usize;
                if p == pool {
                    assert(q[i] == x as usize);
                } else {
                    assert(q == oq);
                }
            } else {
                assert(p == pool);
                assert(q[q.len() - 1] == id);
            }
        }
        assert forall|w: int| 0 <= w < slots_of(n, p).len() && #[trigger] slots_of(n, p)[w] is Some implies {
            let x = slots_of(n, p)[w]->Some_0;
            &&& x < n.tasks.len()
            &&& n.tasks[x as int].pool == p
            &&& n.tasks[x as int].state == AsyncState::<T>::Polling(w as usize)
        } by {
            assert(slots_of(n, p)[w] == slots_of(v, p)[w]);
        }
        assert forall|x: int|
            0 <= x < n.tasks.len() && #[trigger] n.tasks[x].pool == p
                && n.tasks[x].state is Polling implies {
                let w = n.tasks[x].state->Polling_0;
                &&& w < slots_of(n, p).len()
                &&& slots_of(n, p)[w as int] == Some(x as usize)
            } by {
            assert(x < v.tasks.len());
            assert(v.tasks[x] == n.tasks[x]);
        }
    }
    assert(pool_wf(n, Pool::Cooperative));
    assert(pool_wf(n, Pool::Blocking));
    assert forall|x: int| 0 <= x < n.tasks.len() implies record_wf(#[trigger] n.tasks[x]) by {
        if x < v.tasks.len() {
            assert(v.tasks[x] == n.tasks[x]);
        }
    }
}

pub proof fn lemma_dispatch_none_wf<T>(o: ExecView<T>, n: ExecView<T>, pool: Pool)
    requires
        exec_wf(o),
        dispatched(o, n, pool, None),
    ensures
        exec_wf(n),
{
    let q = queue_of(o, pool);
    let nq = queue_of(n, pool);
    let op = other(pool);
    assert(pool == Pool::Cooperative || pool == Pool::Blocking);
    assert(queue_of(n, op) == queue_of(o, op));
    assert(slots_of(n, op) == slots_of(o, op));
    let j = choose|j: int|
        0 <= j <= q.len() && nq == q.subrange(j, q.len() as int)
            && forall|i: int| 0 <= i < j ==> !(o.tasks[#[trigger] q[i] as int].state is Queued);
    assert forall|x: int|
        0 <= x < n.tasks.len() && #[trigger] n.tasks[x].pool == pool && n.tasks[x].state is Queued
            implies nq.contains(x as usize) by {
        assert(q.contains(x as usize));
        let i = choose|i: int| 0 <= i < q.len() && q[i] == x as usize;
        assert(nq[i - j] == x as usize);
    }
    assert(pool_wf(n, pool));
    assert(pool_wf(n, op));
    assert(pool_wf(n, Pool::Cooperative) && pool_wf(n, Pool::Blocking));
}

#[verifier::rlimit(40)]
pub proof fn lemma_dispatch_some_wf<T>(o: ExecView<T>, n: ExecView<T>, pool: Pool, w: usize, id: usize)
    requires
        exec_wf(o),
        dispatched(o, n, pool, Some((w, id))),
    ensures
        exec_wf(n),
{
    let q = queue_of(o, pool);
    let nq = queue_of(n, pool);
    let op = other(pool);
    assert(pool == Pool::Cooperative || pool == Pool::Blocking);
    assert(queue_of(n, op) == queue_of(o, op));
    assert(slots_of(n, op) == slots_of(o, op));
    let j = choose|j: int|
        0 <= j < q.len() && q[j] == id && nq == q.subrange(j + 1, q.len() as int) && forall|i: int|
            0 <= i < j ==> !(o.tasks[#[trigger] q[i] as int].state is Queued);
    assert(o.tasks[id as int].pool == pool) by {
        assert(q[j] < o.tasks.len() && o.tasks[q[j] as int].pool == pool);
    }
    let ns = slots_of(n, pool);
    assert(ns == slots_of(o, pool).update(w as int, Some(id)));
    assert forall|x: int|
        0 <= x < n.tasks.len() && #[trigger] n.tasks[x].pool == pool && n.tasks[x].state is Queued
            implies nq.contains(x as usize) by {
        assert(x != id);
        assert(o.tasks[x] == n.tasks[x]);
        assert(q.contains(x as usize));
        let i = choose|i: int| 0 <= i < q.len() && q[i] == x as usize;
        assert(nq[i - j - 1] == x as usize);
    }
    assert forall|i: int| 0 <= i < nq.len() implies #[trigger] nq[i] < n.tasks.len()
        && n.tasks[nq[i] as int].pool == pool by {
        assert(nq[i] == q[i + j + 1]);
    }
    assert forall|u: int| 0 <= u < ns.len() && #[trigger] ns[u] is Some implies {
        let x = ns[u]->Some_0;
        &&& x < n.tasks.len()
        &&& n.tasks[x as int].pool == pool
        &&& n.tasks[x as int].state == AsyncState::<T>::Polling(u as usize)
    } by {
        if u != w {
            let x = ns[u]->Some_0;
            assert(slots_of(o, pool)[u] is Some);
            assert(x != id);
        }
    }
    assert forall|x: int|
        0 <= x < n.tasks.len() && #[trigger] n.tasks[x].pool == pool
            && n.tasks[x].state is Polling implies {
            let u = n.tasks[x].state->Polling_0;
            &&& u < ns.len()
            &&& ns[u as int] == Some(x as usize)
        } by {
        if x != id {
            assert(o.tasks[x] == n.tasks[x]);
            let u = o.tasks[x].state->Polling_0;
            assert(slots_of(o, pool)[u as int] == Some(x as usize));
            assert(u != w);
        }
    }
    assert(pool_wf(n, pool));
    assert forall|x: int|
        0 <= x < n.tasks.len() && #[trigger] n.tasks[x].pool == op && n.tasks[x].state is Queued
            implies queue_of(n, op).contains(x as usize) by {
        assert(o.tasks[x] == n.tasks[x]);
    }
    assert forall|x: int|
        0 <= x < n.tasks.len() && #[trigger] n.tasks[x].pool == op
            && n.tasks[x].state is Polling implies {
            let u = n.tasks[x].state->Polling_0;
            &&& u < slots_of(n, op).len()
            &&& slots_of(n, op)[u as int] == Some(x as usize)
        } by {
        assert(o.tasks[x] == n.tasks[x]);
    }
    assert forall|u: int| 0 <= u < slots_of(n, op).len() && #[trigger] slots_of(n, op)[u] is Some implies {
        let x = slots_of(n, op)[u]->Some_0;
        &&& x < n.tasks.len()
        &&& n.tasks[x as int].pool == op
        &&& n.tasks[x as int].state == AsyncState::<T>::Polling(u as usize)
    } by {
        let x = slots_of(n, op)[u]->Some_0;
        assert(slots_of(o, op)[u] is Some);
        assert(x != id);
    }
    assert forall|i: int| 0 <= i < queue_of(n, op).len() implies #[trigger] queue_of(n, op)[i] < n.tasks.len()
        && n.tasks[queue_of(n, op)[i] as int].pool == op by {
        assert(queue_of(o, op)[i] != id);
    }
    assert(pool_wf(n, op));
    assert forall|x: int| 0 <= x < n.tasks.len() implies record_wf(#[trigger] n.tasks[x]) by {
        assert(record_wf(o.tasks[x]));
    }
    assert(pool_wf(n, Pool::Cooperative) && pool_wf(n, Pool::Blocking));
}

pub proof fn lemma_dispatch_wf<T>(o: ExecView<T>, n: ExecView<T>, pool: Pool, r: Option<(usize, usize)>)
    requires
        exec_wf(o),
        dispatched(o, n, pool, r),
    ensures
        exec_wf(n),
{
    match r {
        None => lemma_dispatch_none_wf(o, n, pool),
        Some((w, id)) => lemma_dispatch_some_wf(o, n, pool, w, id),
    }
}

/// Facts shared by the steps that change one task's record and nothing but,
/// possibly, one thread slot and one queue entry of its own pool.
pub proof fn lemma_other_tasks_kept<T>(o: ExecView<T>, n: ExecView<T>, id: usize)
    requires
        exec_wf(o),
        id < o.tasks.len(),
        n.tasks.len() == o.tasks.len(),
        forall|x: int| 0 <= x < o.tasks.len() && x != id ==> #[trigger] n.tasks[x] == o.tasks[x],
        n.tasks[id as int].pool == o.tasks[id as int].pool,
        record_wf(n.tasks[id as int]),
    ensures
        forall|x: int| 0 <= x < n.tasks.len() ==> record_wf(#[trigger] n.tasks[x]),
{
    assert forall|x: int| 0 <= x < n.tasks.len() implies record_wf(#[trigger] n.tasks[x]) by {
        if x != id {
            assert(record_wf(o.tasks[x]));
        }
    }
}

#[verifier::rlimit(40)]
pub proof fn lemma_finish_wf<T>(v: ExecView<T>, pool: Pool, w: usize, outcome: PollOutcome<T>)
    requires
        exec_wf(v),
        w < slots_of(v, pool).len(),
        slots_of(v, pool)[w as int] is Some,
        pool == Pool::Blocking ==> !(outcome is Pending),
    ensures
        exec_wf(finish_step(v, pool, w, outcome)),
{
    let n = finish_step(v, pool, w, outcome);
    let id = slots_of(v, pool)[w as int]->Some_0;
    let r = v.tasks[id as int];
    let st = state_after_poll(r, outcome);
    let op = other(pool);
    assert(pool == Pool::Cooperative || pool == Pool::Blocking);
    assert(r.pool == pool && r.state == AsyncState::<T>::Polling(w));
    assert(record_wf(r));
    lemma_other_tasks_kept(v, n, id);
    let q = queue_of(v, pool);
    let nq = queue_of(n, pool);
    let ns = slots_of(n, pool);
    assert forall|x: int|
        0 <= x < n.tasks.len() && #[trigger] n.tasks[x].pool == pool && n.tasks[x].state is Queued
            implies nq.contains(x as usize) by {
        if x == id {
            assert(nq[nq.len() - 1] == id);
        } else {
            assert(q.contains(x as usize));
            let i = choose|i: int| 0 <= i < q.len() && q[i] == x as usize;
            assert(nq[i] == x as usize);
        }
    }
    assert forall|i: int| 0 <= i < nq.len() implies #[trigger] nq[i] < n.tasks.len()
        && n.tasks[nq[i] as int].pool == pool by {
        if i < q.len() {
            assert(nq[i] == q[i]);
        }
    }
    assert forall|u: int| 0 <= u < ns.len() && #[trigger] ns[u] is Some implies {
        let x = ns[u]->Some_0;
        &&& x < n.tasks.len()
        &&& n.tasks[x as int].pool == pool
        &&& n.tasks[x as int].state == AsyncState::<T>::Polling(u as usize)
    } by {
        assert(u != w);
        assert(slots_of(v, pool)[u] is Some);
        let x = ns[u]->Some_0;
        assert(x != id);
    }
    assert forall|x: int|
        0 <= x < n.tasks.len() && #[trigger] n.tasks[x].pool == pool
            && n.tasks[x].state is Polling implies {
            let u = n.tasks[x].state->Polling_0;
            &&& u < ns.len()
            &&& ns[u as int] == Some(x as usize)
        } by {
        assert(x != id);
        let u = v.tasks[x].state->Polling_0;
        assert(slots_of(v, pool)[u as int] == Some(x as usize));
    }
    assert(pool_wf(n, pool));
    assert forall|x: int|
        0 <= x < n.tasks.len() && #[trigger] n.tasks[x].pool == op && n.tasks[x].state is Queued
            implies queue_of(n, op).contains(x as usize) by {
        assert(x != id);
    }
    assert forall|x: int|
        0 <= x < n.tasks.len() && #[trigger] n.tasks[x].pool == op
            && n.tasks[x].state is Polling implies {
            let u = n.tasks[x].state->Polling_0;
            &&& u < slots_of(n, op).len()
            &&& slots_of(n, op)[u as int] == Some(x as usize)
        } by {
        assert(x != id);
    }
    assert forall|u: int| 0 <= u < slots_of(n, op).len() && #[trigger] slots_of(n, op)[u] is Some implies {
        let x = slots_of(n, op)[u]->Some_0;
        &&& x < n.tasks.len()
        &&& n.tasks[x as int].pool == op
        &&& n.tasks[x as int].state == AsyncState::<T>::Polling(u as usize)
    } by {
        assert(slots_of(v, op)[u] is Some);
    }
    assert forall|i: int| 0 <= i < queue_of(n, op).len() implies #[trigger] queue_of(n, op)[i] < n.tasks.len()
        && n.tasks[queue_of(n, op)[i] as int].pool == op by {
        assert(queue_of(v, op)[i] != id);
    }
    assert(pool_wf(n, op));
    assert(pool_wf(n, Pool::Cooperative) && pool_wf(n, Pool::Blocking));
}

/// Steps that change one task's record, keeping its pool and its being queued
/// or polled, and touch no queue or thread, keep the invariant.
pub proof fn lemma_record_only_wf<T>(v: ExecView<T>, n: ExecView<T>, id: usize)
    requires
        exec_wf(v),
        id < v.tasks.len(),
        n == (ExecView { tasks: v.tasks.update(id as int, n.tasks[id as int]), ..v }),
        n.tasks[id as int].pool == v.tasks[id as int].pool,
        n.tasks[id as int].state is Queued <==> v.tasks[id as int].state is Queued,
        n.tasks[id as int].state is Polling ==> n.tasks[id as int].state == v.tasks[id as int].state,
        v.tasks[id as int].state is Polling ==> n.tasks[id as int].state == v.tasks[id as int].state,
        record_wf(n.tasks[id as int]),
    ensures
        exec_wf(n),
{
    lemma_other_tasks_kept(v, n, id);
    assert forall|p: Pool| #![auto] p == Pool::Cooperative || p == Pool::Blocking implies pool_wf(n, p) by {
        assert forall|x: int|
            0 <= x < n.tasks.len() && #[trigger] n.tasks[x].pool == p && n.tasks[x].state is Queued
                implies queue_of(n, p).contains(x as usize) by {
            assert(v.tasks[x].pool == p && v.tasks[x].state is Queued);
        }
        assert forall|x: int|
            0 <= x < n.tasks.len() && #[trigger] n.tasks[x].pool == p
                && n.tasks[x].state is Polling implies {
                let u = n.tasks[x].state->Polling_0;
                &&& u < slots_of(n, p).len()
                &&& slots_of(n, p)[u as int] == Some(x as usize)
            } by {
            assert(v.tasks[x].pool == p && v.tasks[x].state is Polling);
        }
        assert forall|u: int| 0 <= u < slots_of(n, p).len() && #[trigger] slots_of(n, p)[u] is Some implies {
            let x = slots_of(n, p)[u]->Some_0;
            &&& x < n.tasks.len()
            &&& n.tasks[x as int].pool == p
            &&& n.tasks[x as int].state == AsyncState::<T>::Polling(u as usize)
        } by {
            assert(slots_of(v, p)[u] is Some);
        }
        assert forall|i: int| 0 <= i < queue_of(n, p).len() implies #[trigger] queue_of(n, p)[i] < n.tasks.len()
            && n.tasks[queue_of(n, p)[i] as int].pool == p by {
            assert(queue_of(v, p)[i] < v.tasks.len());
        }
    }
    assert(pool_wf(n, Pool::Cooperative) && pool_wf(n, Pool::Blocking));
}

pub proof fn lemma_wake_wf<T>(v: ExecView<T>, id: usize)
    requires
        exec_wf(v),
        id < v.tasks.len(),
    ensures
        exec_wf(wake_step(v, id)),
{
    let r = v.tasks[id as int];
    let n = wake_step(v, id);
    assert(record_wf(r));
    match r.state {
        AsyncState::Suspended => {
            assert(r.pool == Pool::Cooperative);
            lemma_other_tasks_kept(v, n, id);
            let q = v.ready;
            assert forall|x: int|
                0 <= x < n.tasks.len() && #[trigger] n.tasks[x].pool == Pool::Cooperative
                    && n.tasks[x].state is Queued implies n.ready.contains(x as usize) by {
                if x == id {
                    assert(n.ready[n.ready.len() - 1] == id);
                } else {
                    assert(q.contains(x as usize));
                    let i = choose|i: int| 0 <= i < q.len() && q[i] == x as usize;
                    assert(n.ready[i] == x as usize);
                }
            }
            assert forall|i: int| 0 <= i < n.ready.len() implies #[trigger] n.ready[i] < n.tasks.len()
                && n.tasks[n.ready[i] as int].pool == Pool::Cooperative by {
                if i < q.len() {
                    assert(n.ready[i] == q[i]);
                }
            }
            assert forall|u: int| 0 <= u < n.workers.len() && #[trigger] n.workers[u] is Some implies {
                let x = n.workers[u]->Some_0;
                &&& x < n.tasks.len()
                &&& n.tasks[x as int].pool == Pool::Cooperative
                &&& n.tasks[x as int].state == AsyncState::<T>::Polling(u as usize)
            } by {
                assert(v.workers[u] is Some);
            }
            assert forall|x: int|
                0 <= x < n.tasks.len() && #[trigger] n.tasks[x].pool == Pool::Cooperative
                    && n.tasks[x].state is Polling implies {
                    let u = n.tasks[x].state->Polling_0;
                    &&& u < n.workers.len()
                    &&& n.workers[u as int] == Some(x as usize)
                } by {
                assert(x != id);
            }
            assert(pool_wf(n, Pool::Cooperative));
            assert forall|x: int|
                0 <= x < n.tasks.len() && #[trigger] n.tasks[x].pool == Pool::Blocking
                    && n.tasks[x].state is Queued implies n.blocking.contains(x as usize) by {
                assert(x != id);
            }
            assert forall|x: int|
                0 <= x < n.tasks.len() && #[trigger] n.tasks[x].pool == Pool::Blocking
                    && n.tasks[x].state is Polling implies {
                    let u = n.tasks[x].state->Polling_0;
                    &&& u < n.blockers.len()
                    &&& n.blockers[u as int] == Some(x as usize)
                } by {
                assert(x != id);
            }
            assert forall|u: int| 0 <= u < n.blockers.len() && #[trigger] n.blockers[u] is Some implies {
                let x = n.blockers[u]->Some_0;
                &&& x < n.tasks.len()
                &&& n.tasks[x as int].pool == Pool::Blocking
                &&& n.tasks[x as int].state == AsyncState::<T>::Polling(u as usize)
            } by {
                assert(v.blockers[u] is Some);
            }
            assert forall|i: int| 0 <= i < n.blocking.len() implies #[trigger] n.blocking[i] < n.tasks.len()
                && n.tasks[n.blocking[i] as int].pool == Pool::Blocking by {
                assert(v.blocking[i] != id);
            }
            assert(pool_wf(n, Pool::Blocking));
        },
        AsyncState::Polling(_) => {
            lemma_record_only_wf(v, n, id);
        },
        _ => {},
    }
}

pub proof fn lemma_drop_handle_wf<T>(v: ExecView<T>, id: usize)
    requires
        exec_wf(v),
        id < v.tasks.len(),
        !v.tasks[id as int].handle_dropped,
        !(v.tasks[id as int].state is Joined),
    ensures
        exec_wf(drop_handle_step(v, id)),
{
    let r = v.tasks[id as int];
    assert(record_wf(r));
    let n = drop_handle_step(v, id);
    assert(n == (ExecView { tasks: v.tasks.update(id as int, n.tasks[id as int]), ..v }));
    if r.state is Queued && r.pool == Pool::Cooperative {
        // A cancelled task may still have an entry in the ready queue; dispatch skips it.
        lemma_other_tasks_kept(v, n, id);
        assert forall|p: Pool| #![auto] p == Pool::Cooperative || p == Pool::Blocking implies pool_wf(n, p) by {
            assert forall|x: int|
                0 <= x < n.tasks.len() && #[trigger] n.tasks[x].pool == p && n.tasks[x].state is Queued
                    implies queue_of(n, p).contains(x as usize) by {
                assert(x != id);
                assert(v.tasks[x].pool == p && v.tasks[x].state is Queued);
            }
            assert forall|x: int|
                0 <= x < n.tasks.len() && #[trigger] n.tasks[x].pool == p
                    && n.tasks[x].state is Polling implies {
                    let u = n.tasks[x].state->Polling_0;
                    &&& u < slots_of(n, p).len()
                    &&& slots_of(n, p)[u as int] == Some(x as usize)
                } by {
                assert(v.tasks[x].pool == p && v.tasks[x].state is Polling);
            }
            assert forall|u: int| 0 <= u < slots_of(n, p).len() && #[trigger] slots_of(n, p)[u] is Some implies {
                let x = slots_of(n, p)[u]->Some_0;
                &&& x < n.tasks.len()
                &&& n.tasks[x as int].pool == p
                &&& n.tasks[x as int].state == AsyncState::<T>::Polling(u as usize)
            } by {
                assert(slots_of(v, p)[u] is Some);
            }
            assert forall|i: int| 0 <= i < queue_of(n, p).len() implies #[trigger] queue_of(n, p)[i] < n.tasks.len()
                && n.tasks[queue_of(n, p)[i] as int].pool == p by {
                assert(queue_of(v, p)[i] < v.tasks.len());
            }
        }
        assert(pool_wf(n, Pool::Cooperative) && pool_wf(n, Pool::Blocking));
    } else {
        lemma_record_only_wf(v, n, id);
    }
}

pub proof fn lemma_join_wf<T>(v: ExecView<T>, id: usize)
    requires
        exec_wf(v),
        id < v.tasks.len(),
        !v.tasks[id as int].handle_dropped,
    ensures
        exec_wf(join_step(v, id)),
{
    let n = join_step(v, id);
    if n != v {
        lemma_record_only_wf(v, n, id);
    }
}

/// The state after the handle of task `id` is dropped and, when the task was being
/// polled, that poll has ended with `outcome`.
pub open spec fn after_cancel<T>(v: ExecView<T>, id: usize, outcome: PollOutcome<T>) -> ExecView<T> {
    let c = drop_handle_step(v, id);
    match c.tasks[id as int].state {
        AsyncState::Polling(w) => finish_step(c, Pool::Cooperative, w, outcome),
        _ => c,
    }
}

/// Dropping the join handle of a cooperative task before it is ready cancels it
/// without harm to the executor: once a poll that may be running ends, the task
/// is gone and no worker holds it; every worker that was idle still is, and the
/// one that was polling it is idle again. A task spawned afterwards is handed to
/// a worker by the next dispatch, whenever a worker was idle or the cancelled task
/// held one.
pub proof fn lemma_dropped_handle_frees_worker<T>(
    v: ExecView<T>,
    id: usize,
    outcome: PollOutcome<T>,
    n: ExecView<T>,
    r: Option<(usize, usize)>,
)
    requires
        exec_wf(v),
        v.tasks.len() + 2 < usize::MAX,
        id < v.tasks.len(),
        v.tasks[id as int].pool == Pool::Cooperative,
        !v.tasks[id as int].handle_dropped,
        v.tasks[id as int].state is Queued || v.tasks[id as int].state is Polling
            || v.tasks[id as int].state is Suspended,
    ensures
        exec_wf(after_cancel(v, id, outcome)),
        after_cancel(v, id, outcome).tasks[id as int].state is Dropped,
        forall|u: int|
            0 <= u < v.workers.len() ==> #[trigger] after_cancel(v, id, outcome).workers[u] != Some(id),
        forall|u: int|
            0 <= u < v.workers.len() && #[trigger] v.workers[u] is None ==> after_cancel(
                v,
                id,
                outcome,
            ).workers[u] is None,
        v.tasks[id as int].state is Polling ==> after_cancel(v, id, outcome).workers[v.tasks[id as int].state->Polling_0 as int] is None,
        (has_free_slot(v, Pool::Cooperative) || v.tasks[id as int].state is Polling) && dispatched(
            spawn_step(after_cancel(v, id, outcome), Pool::Cooperative),
            n,
            Pool::Cooperative,
            r,
        ) ==> r is Some,
{
    let c = drop_handle_step(v, id);
    lemma_drop_handle_wf(v, id);
    let e = after_cancel(v, id, outcome);
    assert(c.workers == v.workers);
    match c.tasks[id as int].state {
        AsyncState::Polling(w) => {
            assert(v.workers[w as int] == Some(id));
            lemma_finish_wf(c, Pool::Cooperative, w, outcome);
            assert(e.workers == v.workers.update(w as int, None));
            assert forall|u: int| 0 <= u < v.workers.len() implies #[trigger] e.workers[u] != Some(id) by {
                if u != w {
                    if v.workers[u] == Some(id) {
                        assert(v.tasks[id as int].state == AsyncState::<T>::Polling(u as usize));
                    }
                }
            }
        },
        _ => {
            assert forall|u: int| 0 <= u < v.workers.len() implies #[trigger] e.workers[u] != Some(id) by {
                if v.workers[u] == Some(id) {
                    assert(v.tasks[id as int].state == AsyncState::<T>::Polling(u as usize));
                }
            }
        },
    }
    let sp = spawn_step(e, Pool::Cooperative);
    lemma_spawn_wf(e, Pool::Cooperative);
    let nid = e.tasks.len();
    assert(sp.tasks[nid as int].pool == Pool::Cooperative && sp.tasks[nid as int].state is Queued);
    assert(has_queued(sp, Pool::Cooperative));
    if has_free_slot(v, Pool::Cooperative) {
        let u = choose|u: int| 0 <= u < v.workers.len() && #[trigger] slots_of(v, Pool::Cooperative)[u] is None;
        assert(slots_of(sp, Pool::Cooperative)[u] is None);
        assert(has_free_slot(sp, Pool::Cooperative));
    } else if v.tasks[id as int].state is Polling {
        let w = v.tasks[id as int].state->Polling_0;
        assert(slots_of(sp, Pool::Cooperative)[w as int] is None);
        assert(has_free_slot(sp, Pool::Cooperative));
    }
}

/// Blocking work never takes a worker. Workers only ever poll cooperative tasks;
/// spawning, dispatching or finishing blocking work leaves the workers, the ready
/// queue and every cooperative task as they were; and while a worker is idle and a
/// cooperative task waits, a dispatch of the cooperative pool runs it, however busy
/// the blocking pool is.
pub proof fn lemma_blocking_work_never_starves_workers<T>(
    v: ExecView<T>,
    n: ExecView<T>,
    r: Option<(usize, usize)>,
    b: usize,
    outcome: PollOutcome<T>,
)
    requires
        exec_wf(v),
    ensures
        forall|w: int|
            0 <= w < v.workers.len() && #[trigger] v.workers[w] is Some ==> v.tasks[v.workers[w]->Some_0 as int].pool
                == Pool::Cooperative,
        spawn_step(v, Pool::Blocking).workers == v.workers,
        spawn_step(v, Pool::Blocking).ready == v.ready,
        forall|x: int|
            0 <= x < v.tasks.len() ==> #[trigger] spawn_step(v, Pool::Blocking).tasks[x] == v.tasks[x],
        dispatched(v, n, Pool::Blocking, r) ==> n.workers == v.workers && n.ready == v.ready
            && forall|x: int|
            0 <= x < v.tasks.len() && #[trigger] v.tasks[x].pool == Pool::Cooperative ==> n.tasks[x]
                == v.tasks[x],
        b < v.blockers.len() && v.blockers[b as int] is Some ==> finish_step(v, Pool::Blocking, b, outcome).workers
            == v.workers && finish_step(v, Pool::Blocking, b, outcome).ready == v.ready && forall|x: int|
            0 <= x < v.tasks.len() && #[trigger] v.tasks[x].pool == Pool::Cooperative ==> finish_step(
                v,
                Pool::Blocking,
                b,
                outcome,
            ).tasks[x] == v.tasks[x],
        has_free_slot(v, Pool::Cooperative) && has_queued(v, Pool::Cooperative) && dispatched(
            v,
            n,
            Pool::Cooperative,
            r,
        ) ==> r is Some,
{
    if dispatched(v, n, Pool::Blocking, r) {
        if let Some((w, id)) = r {
            let q = v.blocking;
            let j = choose|j: int|
                0 <= j < q.len() && q[j] == id && queue_of(n, Pool::Blocking) == q.subrange(j + 1, q.len() as int)
                    && forall|i: int| 0 <= i < j ==> !(v.tasks[#[trigger] q[i] as int].state is Queued);
            assert(v.tasks[q[j] as int].pool == Pool::Blocking);
        }
    }
    if b < v.blockers.len() && v.blockers[b as int] is Some {
        let id = v.blockers[b as int]->Some_0;
        assert(v.tasks[id as int].pool == Pool::Blocking);
    }
}

/// A pool of worker threads polling cooperative tasks from a ready queue, beside a
/// pool of blocking threads for long synchronous work.
pub struct Executor<T> {
    tasks: Vec<TaskRecord<T>>,
    ready: VecDeque<usize>,
    blocking: VecDeque<usize>,
    workers: Vec<Option<usize>>,
    blockers: Vec<Option<usize>>,
}

impl<T> View for Executor<T> {
    type V = ExecView<T>;

    closed spec fn view(&self) -> ExecView<T> {
        ExecView {
            tasks: self.tasks@,
            ready: self.ready@,
            blocking: self.blocking@,
            workers: self.workers@,
            blockers: self.blockers@,
        }
    }
}

impl<T> Executor<T> {
    pub open spec fn wf(&self) -> bool {
        exec_wf(self@)
    }

    /// An executor with idle pools of the configured sizes and no task.
    pub fn new(config: &ExecutorConfig) -> (r: Executor<T>)
        requires
            config.valid(),
        ensures
            r.wf(),
            r@.tasks.len() == 0,
            r@.ready.len() == 0,
            r@.blocking.len() == 0,
            r@.workers == Seq::new(config.spec_workers(), |i: int| None::<usize>),
            r@.blockers == Seq::new(config.spec_blocking_threads(), |i: int| None::<usize>),
    {
        let mut workers: Vec<Option<usize>> = Vec::new();
        let mut i: usize = 0;
        while i < config.workers
            invariant
                0 <= i <= config.spec_workers(),
                workers@ =~= Seq::new(i as nat, |j: int| None::<usize>),
            decreases config.spec_workers() - i,
        {
            workers.push(None);
            i = i + 1;
        }
        let mut blockers: Vec<Option<usize>> = Vec::new();
        let mut k: usize = 0;
        while k < config.blocking_threads
            invariant
                0 <= k <= config.spec_blocking_threads(),
                blockers@ =~= Seq::new(k as nat, |j: int| None::<usize>),
            decreases config.spec_blocking_threads() - k,
        {
            blockers.push(None);
            k = k + 1;
        }
        Executor {
            tasks: Vec::new(),
            ready: VecDeque::new(),
            blocking: VecDeque::new(),
            workers,
            blockers,
        }
    }

    /// Whether task `id` is gone: cancelled, or finished with nobody to take
    /// its outcome. Whatever it still holds can be released.
    pub fn is_dropped(&self, id: usize) -> (r: bool)
        requires
            id < self@.tasks.len(),
        ensures
            r == (self@.tasks[id as int].state is Dropped),
    {
        match self.tasks[id].state {
            AsyncState::Dropped => true,
            _ => false,
        }
    }

    /// Number of tasks spawned so far.
    pub fn task_count(&self) -> (r: usize)
        ensures
            r == self@.tasks.len(),
    {
        self.tasks.len()
    }

    /// Spawns a task on `pool` and returns its handle; it waits in that pool's queue.
    pub fn spawn_on(&mut self, pool: Pool) -> (id: usize)
        requires
            old(self).wf(),
            old(self)@.tasks.len() + 1 < usize::MAX,
        ensures
            final(self).wf(),
            id == old(self)@.tasks.len(),
            final(self)@ == spawn_step(old(self)@, pool),
    {
        proof {
            lemma_spawn_wf(self@, pool);
        }
        let id = self.tasks.len();
        self.tasks.push(TaskRecord { pool, state: AsyncState::Queued, woken: false, handle_dropped: false });
        match pool {
            Pool::Cooperative => self.ready.push_back(id),
            Pool::Blocking => self.blocking.push_back(id),
        }
        id
    }

    fn slot_count(&self, pool: Pool) -> (r: usize)
        ensures
            r == slots_of(self@, pool).len(),
    {
        match pool {
            Pool::Cooperative => self.workers.len(),
            Pool::Blocking => self.blockers.len(),
        }
    }

    fn slot(&self, pool: Pool, w: usize) -> (r: Option<usize>)
        requires
            w < slots_of(self@, pool).len(),
        ensures
            r == slots_of(self@, pool)[w as int],
    {
        match pool {
            Pool::Cooperative => self.workers[w],
            Pool::Blocking => self.blockers[w],
        }
    }

    fn set_slot(&mut self, pool: Pool, w: usize, value: Option<usize>)
        requires
            w < slots_of(old(self)@, pool).len(),
        ensures
            final(self)@ == with_pool(
                old(self)@,
                pool,
                queue_of(old(self)@, pool),
                slots_of(old(self)@, pool).update(w as int, value),
            ),
    {
        match pool {
            Pool::Cooperative => self.workers.set(w, value),
            Pool::Blocking => self.blockers.set(w, value),
        }
    }

    fn pop_queue(&mut self, pool: Pool) -> (r: Option<usize>)
        ensures
            queue_of(old(self)@, pool).len() == 0 ==> r is None && final(self)@ == old(self)@,
            queue_of(old(self)@, pool).len() > 0 ==> r == Some(queue_of(old(self)@, pool)[0])
                && final(self)@ == with_pool(
                old(self)@,
                pool,
                queue_of(old(self)@, pool).drop_first(),
                slots_of(old(self)@, pool),
            ),
    {
        let r = match pool {
            Pool::Cooperative => self.ready.pop_front(),
            Pool::Blocking => self.blocking.pop_front(),
        };
        proof {
            if queue_of(old(self)@, pool).len() > 0 {
                assert(queue_of(self@, pool) =~= queue_of(old(self)@, pool).drop_first());
            }
        }
        r
    }

    fn push_queue(&mut self, pool: Pool, id: usize)
        ensures
            final(self)@ == with_pool(
                old(self)@,
                pool,
                queue_of(old(self)@, pool).push(id),
                slots_of(old(self)@, pool),
            ),
    {
        match pool {
            Pool::Cooperative => self.ready.push_back(id),
            Pool::Blocking => self.blocking.push_back(id),
        }
    }

    fn first_free_slot(&self, pool: Pool) -> (r: Option<usize>)
        ensures
            r is None ==> !has_free_slot(self@, pool),
            r is Some ==> r->Some_0 < slots_of(self@, pool).len() && slots_of(self@, pool)[r->Some_0 as int] is None
                && forall|u: int| 0 <= u < r->Some_0 ==> #[trigger] slots_of(self@, pool)[u] is Some,
    {
        let n = self.slot_count(pool);
        let mut w: usize = 0;
        while w < n
            invariant
                n == slots_of(self@, pool).len(),
                0 <= w <= n,
                forall|u: int| 0 <= u < w ==> #[trigger] slots_of(self@, pool)[u] is Some,
            decreases n - w,
        {
            if self.slot(pool, w).is_none() {
                return Some(w);
            }
            w = w + 1;
        }
        None
    }

    /// Hands the first queued task of `pool` to the first idle thread of that
    /// pool, and says which thread polls which task; `None` when no thread is
    /// idle or no task waits. The other pool is left as it is.
    pub fn dispatch(&mut self, pool: Pool) -> (r: Option<(usize, usize)>)
        requires
            old(self).wf(),
        ensures
            final(self).wf(),
            dispatched(old(self)@, final(self)@, pool, r),
    {
        let ghost o = self@;
        let w = match self.first_free_slot(pool) {
            Some(w) => w,
            None => {
                proof {
                    assert(queue_of(o, pool).subrange(0, queue_of(o, pool).len() as int) =~= queue_of(o, pool));
                    assert(o == with_pool(o, pool, queue_of(o, pool), slots_of(o, pool)));
                }
                return None;
            },
        };
        let ghost q = queue_of(o, pool);
        let ghost mut j: int = 0;
        proof {
            assert(q.subrange(0, q.len() as int) =~= q);
            assert(o == with_pool(o, pool, q, slots_of(o, pool)));
        }
        loop
            invariant
                o == old(self)@,
                exec_wf(o),
                q == queue_of(o, pool),
                w < slots_of(o, pool).len(),
                slots_of(o, pool)[w as int] is None,
                forall|u: int| 0 <= u < w ==> #[trigger] slots_of(o, pool)[u] is Some,
                0 <= j <= q.len(),
                self@ == with_pool(o, pool, q.subrange(j, q.len() as int), slots_of(o, pool)),
                forall|i: int| 0 <= i < j ==> !(o.tasks[#[trigger] q[i] as int].state is Queued),
            decreases q.len() - j,
        {
            let ghost before = self@;
            assert(queue_of(before, pool) == q.subrange(j, q.len() as int));
            match self.pop_queue(pool) {
                None => {
                    proof {
                        if has_queued(o, pool) {
                            let x = choose|x: int|
                                0 <= x < o.tasks.len() && #[trigger] o.tasks[x].pool == pool
                                    && o.tasks[x].state is Queued;
                            assert(q.contains(x as usize));
                            let i = choose|i: int| 0 <= i < q.len() && q[i] == x as usize;
                            assert(!(o.tasks[q[i] as int].state is Queued));
                        }
                        assert(self@ == with_pool(o, pool, queue_of(self@, pool), slots_of(o, pool)));
                    }
                    return None;
                },
                Some(id) => {
                    proof {
                        assert(id == q[j]);
                        assert(q.subrange(j, q.len() as int).drop_first() =~= q.subrange(j + 1, q.len() as int));
                    }
                    let queued = match self.tasks[id].state {
                        AsyncState::Queued => true,
                        _ => false,
                    };
                    if queued {
                        let ghost mid = self@;
                        self.set_slot(pool, w, Some(id));
                        let rec = self.tasks.remove(id);
                        self.tasks.insert(id, TaskRecord { state: AsyncState::Polling(w), ..rec });
                        proof {
                            assert(self@.tasks =~= o.tasks.update(
                                id as int,
                                TaskRecord { state: AsyncState::Polling(w), ..o.tasks[id as int] },
                            ));
                            assert(dispatched(o, self@, pool, Some((w, id))));
                            lemma_dispatch_wf(o, self@, pool, Some((w, id)));
                        }
                        return Some((w, id));
                    }
                    proof {
                        j = j + 1;
                    }
                },
            }
        }
    }

    /// The thread `w` of `pool` ended its poll of the task it held, with
    /// `outcome`; the thread is idle again. A blocking body runs to its end, so
    /// it never ends pending.
    pub fn finish_poll(&mut self, pool: Pool, w: usize, outcome: PollOutcome<T>)
        requires
            old(self).wf(),
            w < slots_of(old(self)@, pool).len(),
            slots_of(old(self)@, pool)[w as int] is Some,
            pool == Pool::Blocking ==> !(outcome is Pending),
        ensures
            final(self).wf(),
            final(self)@ == finish_step(old(self)@, pool, w, outcome),
    {
        proof {
            lemma_finish_wf(self@, pool, w, outcome);
        }
        let ghost o = self@;
        let id = match self.slot(pool, w) {
            Some(id) => id,
            None => {
                proof {
                    assert(false);
                }
                0
            },
        };
        let rec = self.tasks.remove(id);
        let st = if rec.handle_dropped {
            AsyncState::Dropped
        } else {
            match outcome {
                PollOutcome::Pending => if rec.woken {
                    AsyncState::Queued
                } else {
                    AsyncState::Suspended
                },
                PollOutcome::Ready(x) => AsyncState::Ready(x),
                PollOutcome::Panicked => AsyncState::Failed,
            }
        };
        let requeue = match st {
            AsyncState::Queued => true,
            _ => false,
        };
        self.tasks.insert(id, TaskRecord { state: st, woken: false, ..rec });
        proof {
            assert(self@.tasks =~= o.tasks.update(
                id as int,
                TaskRecord { state: state_after_poll(o.tasks[id as int], outcome), woken: false, ..o.tasks[id as int] },
            ));
        }
        self.set_slot(pool, w, None);
        if requeue {
            self.push_queue(pool, id);
        }
    }

    /// The wake callback of task `id` fired.
    pub fn wake(&mut self, id: usize)
        requires
            old(self).wf(),
            id < old(self)@.tasks.len(),
        ensures
            final(self).wf(),
            final(self)@ == wake_step(old(self)@, id),
    {
        proof {
            lemma_wake_wf(self@, id);
        }
        let ghost o = self@;
        let rec = self.tasks.remove(id);
        match rec.state {
            AsyncState::Suspended => {
                self.tasks.insert(id, TaskRecord { state: AsyncState::Queued, ..rec });
                self.ready.push_back(id);
            },
            AsyncState::Polling(w) => {
                self.tasks.insert(id, TaskRecord { woken: true, ..rec });
            },
            _ => {
                self.tasks.insert(id, rec);
            },
        }
        proof {
            assert(self@.tasks =~= wake_step(o, id).tasks);
        }
    }

    /// The join handle of task `id` is dropped without joining.
    pub fn drop_handle(&mut self, id: usize)
        requires
            old(self).wf(),
            id < old(self)@.tasks.len(),
            !old(self)@.tasks[id as int].handle_dropped,
            !(old(self)@.tasks[id as int].state is Joined),
        ensures
            final(self).wf(),
            final(self)@ == drop_handle_step(old(self)@, id),
    {
        proof {
            lemma_drop_handle_wf(self@, id);
        }
        let ghost o = self@;
        let rec = self.tasks.remove(id);
        let st = match rec.state {
            AsyncState::Queued => match rec.pool {
                Pool::Cooperative => AsyncState::Dropped,
                Pool::Blocking => AsyncState::Queued,
            },
            AsyncState::Suspended => AsyncState::Dropped,
            AsyncState::Ready(_) => AsyncState::Dropped,
            AsyncState::Failed => AsyncState::Dropped,
            AsyncState::Polling(w) => AsyncState::Polling(w),
            AsyncState::Dropped => AsyncState::Dropped,
            AsyncState::Joined => AsyncState::Joined,
        };
        self.tasks.insert(id, TaskRecord { state: st, handle_dropped: true, ..rec });
        proof {
            assert(self@.tasks =~= drop_handle_step(o, id).tasks);
        }
    }

    /// Joins task `id`: its value once, `TaskFailure` if it panicked,
    /// `AlreadyJoined` on any later join, and `Waiting` before it finishes.
    pub fn join(&mut self, id: usize) -> (r: JoinPoll<T>)
        requires
            old(self).wf(),
            id < old(self)@.tasks.len(),
            !old(self)@.tasks[id as int].handle_dropped,
        ensures
            final(self).wf(),
            r == join_result(old(self)@.tasks[id as int]),
            final(self)@ == join_step(old(self)@, id),
    {
        proof {
            lemma_join_wf(self@, id);
        }
        let ghost o = self@;
        let rec = self.tasks.remove(id);
        let (r, st) = match rec.state {
            AsyncState::Ready(x) => (JoinPoll::Done(Ok(x)), AsyncState::Joined),
            AsyncState::Failed => (JoinPoll::Done(Err(JoinError::TaskFailure)), AsyncState::Joined),
            AsyncState::Joined => (JoinPoll::Done(Err(JoinError::AlreadyJoined)), AsyncState::Joined),
            AsyncState::Queued => (JoinPoll::Waiting, AsyncState::Queued),
            AsyncState::Polling(w) => (JoinPoll::Waiting, AsyncState::Polling(w)),
            AsyncState::Suspended => (JoinPoll::Waiting, AsyncState::Suspended),
            AsyncState::Dropped => (JoinPoll::Waiting, AsyncState::Dropped),
        };
        self.tasks.insert(id, TaskRecord { state: st, ..rec });
        proof {
            assert(self@.tasks =~= join_step(o, id).tasks);
        }
        r
    }

    /// Spawns a cooperative task.
    pub fn spawn(&mut self) -> (id: usize)
        requires
            old(self).wf(),
            old(self)@.tasks.len() + 1 < usize::MAX,
        ensures
            final(self).wf(),
            id == old(self)@.tasks.len(),
            final(self)@ == spawn_step(old(self)@, Pool::Cooperative),
    {
        self.spawn_on(Pool::Cooperative)
    }

    /// Spawns long synchronous work on the blocking pool.
    pub fn spawn_blocking(&mut self) -> (id: usize)
        requires
            old(self).wf(),
            old(self)@.tasks.len() + 1 < usize::MAX,
        ensures
            final(self).wf(),
            id == old(self)@.tasks.len(),
            final(self)@ == spawn_step(old(self)@, Pool::Blocking),
    {
        self.spawn_on(Pool::Blocking)
    }
}

} // verus!
