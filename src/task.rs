use vstd::prelude::*;

verus! {

/// Why joining a task gave no value.
#[derive(PartialEq, Eq, Structural, Clone, Copy, Debug)]
pub enum JoinError {
    /// The task's body panicked; the failure is reported to whoever joins it.
    TaskFailure,
    /// The handle was already consumed by an earlier join.
    AlreadyJoined,
}

/// Where a task is in its life.
pub enum TaskState<T> {
    /// Spawned and running; a task starts as soon as it is spawned.
    Running,
    Completed(T),
    Panicked,
    /// The outcome was handed to the joiner and is gone.
    Joined,
    /// The handle was dropped while the task ran: it runs on, and nobody joins it.
    Detached,
    /// A detached task finished; its outcome, value or panic, was discarded unobserved.
    Discarded,
}

/// What a join attempt found.
pub enum JoinPoll<T> {
    /// The task has not finished: the joiner keeps waiting.
    Waiting,
    /// The task's outcome, handed over once.
    Done(Result<T, JoinError>),
}

/// Whether a task has reached a terminal outcome that a join can hand over.
pub open spec fn is_finished<T>(s: TaskState<T>) -> bool {
    s is Completed || s is Panicked
}

/// What joining a task in state `s` hands back.
pub open spec fn join_poll_of<T>(s: TaskState<T>) -> JoinPoll<T> {
    match s {
        TaskState::Completed(v) => JoinPoll::Done(Ok(v)),
        TaskState::Panicked => JoinPoll::Done(Err(JoinError::TaskFailure)),
        TaskState::Joined => JoinPoll::Done(Err(JoinError::AlreadyJoined)),
        _ => JoinPoll::Waiting,
    }
}

/// The state a task is left in after a join attempt.
pub open spec fn after_join<T>(s: TaskState<T>) -> TaskState<T> {
    match s {
        TaskState::Completed(_) => TaskState::Joined,
        TaskState::Panicked => TaskState::Joined,
        _ => s,
    }
}

/// Joins the task whose state is `s`, leaving the state after the join.
pub fn join_state<T>(s: TaskState<T>) -> (r: (JoinPoll<T>, TaskState<T>))
    ensures
        r.0 == join_poll_of(s),
        r.1 == after_join(s),
{
    match s {
        TaskState::Completed(v) => (JoinPoll::Done(Ok(v)), TaskState::Joined),
        TaskState::Panicked => (JoinPoll::Done(Err(JoinError::TaskFailure)), TaskState::Joined),
        TaskState::Joined => (JoinPoll::Done(Err(JoinError::AlreadyJoined)), TaskState::Joined),
        TaskState::Running => (JoinPoll::Waiting, TaskState::Running),
        TaskState::Detached => (JoinPoll::Waiting, TaskState::Detached),
        TaskState::Discarded => (JoinPoll::Waiting, TaskState::Discarded),
    }
}

/// The tasks spawned by one spawner, indexed by the handle each spawn returned.
pub struct TaskSpawner<T> {
    tasks: Vec<TaskState<T>>,
}

/// Whether `order` names every index below `n` exactly once.
pub open spec fn is_permutation(order: Seq<usize>, n: nat) -> bool {
    &&& order.len() == n
    &&& forall|k: int| 0 <= k < order.len() ==> order[k] < n
    &&& forall|i: usize| i < n ==> #[trigger] order.contains(i)
    &&& forall|j: int, k: int| 0 <= j < k < order.len() ==> order[j] != order[k]
}

impl<T> View for TaskSpawner<T> {
    type V = Seq<TaskState<T>>;

    closed spec fn view(&self) -> Seq<TaskState<T>> {
        self.tasks@
    }
}

impl<T> TaskSpawner<T> {
    /// A spawner with no tasks.
    pub fn new() -> (r: TaskSpawner<T>)
        ensures
            r@ == Seq::<TaskState<T>>::empty(),
    {
        TaskSpawner { tasks: Vec::new() }
    }

    /// Number of tasks spawned so far.
    pub fn len(&self) -> (r: usize)
        ensures
            r == self@.len(),
    {
        self.tasks.len()
    }

    /// Spawns a task, which starts running at once; returns its handle.
    pub fn spawn(&mut self) -> (id: usize)
        requires
            old(self)@.len() < usize::MAX,
        ensures
            id == old(self)@.len(),
            final(self)@ == old(self)@.push(TaskState::Running),
    {
        let id = self.tasks.len();
        self.tasks.push(TaskState::Running);
        id
    }

    fn replace(&mut self, id: usize, s: TaskState<T>) -> (r: TaskState<T>)
        requires
            id < old(self)@.len(),
        ensures
            r == old(self)@[id as int],
            final(self)@ == old(self)@.update(id as int, s),
    {
        let r = self.tasks.remove(id);
        self.tasks.insert(id, s);
        proof {
            assert(self.tasks@ =~= old(self)@.update(id as int, s));
        }
        r
    }

    /// Records that the running task `id` returned `value`; a detached task's
    /// value is discarded.
    pub fn complete(&mut self, id: usize, value: T)
        requires
            id < old(self)@.len(),
            old(self)@[id as int] is Running || old(self)@[id as int] is Detached,
        ensures
            old(self)@[id as int] is Running ==> final(self)@ == old(self)@.update(
                id as int,
                TaskState::Completed(value),
            ),
            old(self)@[id as int] is Detached ==> final(self)@ == old(self)@.update(
                id as int,
                TaskState::Discarded,
            ),
    {
        let detached = match self.tasks[id] {
            TaskState::Detached => true,
            _ => false,
        };
        if detached {
            let _ = self.replace(id, TaskState::Discarded);
        } else {
            let _ = self.replace(id, TaskState::Completed(value));
        }
    }

    /// Records that the running task `id` panicked. The failure is kept for the
    /// joiner; a detached task's failure is discarded unobserved.
    pub fn fail(&mut self, id: usize)
        requires
            id < old(self)@.len(),
            old(self)@[id as int] is Running || old(self)@[id as int] is Detached,
        ensures
            old(self)@[id as int] is Running ==> final(self)@ == old(self)@.update(
                id as int,
                TaskState::Panicked,
            ),
            old(self)@[id as int] is Detached ==> final(self)@ == old(self)@.update(
                id as int,
                TaskState::Discarded,
            ),
    {
        let detached = match self.tasks[id] {
            TaskState::Detached => true,
            _ => false,
        };
        if detached {
            let _ = self.replace(id, TaskState::Discarded);
        } else {
            let _ = self.replace(id, TaskState::Panicked);
        }
    }

    /// Drops the handle of task `id` without joining. A running task is
    /// detached: it runs to its end and its outcome is discarded. A finished
    /// task's outcome is discarded at once. There is no way to cancel it.
    pub fn detach(&mut self, id: usize)
        requires
            id < old(self)@.len(),
            old(self)@[id as int] is Running || is_finished(old(self)@[id as int]),
        ensures
            old(self)@[id as int] is Running ==> final(self)@ == old(self)@.update(
                id as int,
                TaskState::Detached,
            ),
            is_finished(old(self)@[id as int]) ==> final(self)@ == old(self)@.update(
                id as int,
                TaskState::Discarded,
            ),
    {
        let running = match self.tasks[id] {
            TaskState::Running => true,
            _ => false,
        };
        if running {
            let _ = self.replace(id, TaskState::Detached);
        } else {
            let _ = self.replace(id, TaskState::Discarded);
        }
    }

    /// Joins the task `id`: its value once, `TaskFailure` if it panicked,
    /// `AlreadyJoined` on any later join, and `Waiting` while it runs.
    pub fn join(&mut self, id: usize) -> (r: JoinPoll<T>)
        requires
            id < old(self)@.len(),
            !(old(self)@[id as int] is Detached),
            !(old(self)@[id as int] is Discarded),
        ensures
            r == join_poll_of(old(self)@[id as int]),
            final(self)@ == old(self)@.update(id as int, after_join(old(self)@[id as int])),
    {
        let s = self.replace(id, TaskState::Joined);
        let (r, rest) = join_state(s);
        let _ = self.replace(id, rest);
        proof {
            assert(self@ =~= old(self)@.update(id as int, after_join(old(self)@[id as int])));
        }
        r
    }

    /// Joins every task, in the order `order` gives, once all have finished.
    pub fn join_all(&mut self, order: &Vec<usize>) -> (r: Vec<Result<T, JoinError>>)
        requires
            is_permutation(order@, old(self)@.len()),
            forall|i: int| 0 <= i < old(self)@.len() ==> is_finished(#[trigger] old(self)@[i]),
        ensures
            r@.len() == order@.len(),
            forall|k: int|
                0 <= k < order@.len() ==> join_poll_of(old(self)@[order@[k] as int])
                    == JoinPoll::Done(#[trigger] r@[k]),
            final(self)@.len() == old(self)@.len(),
            forall|i: int| 0 <= i < old(self)@.len() ==> #[trigger] final(self)@[i] is Joined,
    {
        let mut out: Vec<Result<T, JoinError>> = Vec::new();
        let mut k: usize = 0;
        while k < order.len()
            invariant
                is_permutation(order@, old(self)@.len()),
                forall|i: int| 0 <= i < old(self)@.len() ==> is_finished(#[trigger] old(self)@[i]),
                0 <= k <= order@.len(),
                out@.len() == k,
                self@.len() == old(self)@.len(),
                forall|j: int|
                    0 <= j < k ==> join_poll_of(old(self)@[order@[j] as int])
                        == JoinPoll::Done(#[trigger] out@[j]),
                forall|i: int|
                    0 <= i < self@.len() && (exists|j: int| 0 <= j < k && order@[j] == i)
                        ==> #[trigger] self@[i] is Joined,
                forall|i: int|
                    0 <= i < self@.len() && !(exists|j: int| 0 <= j < k && order@[j] == i)
                        ==> #[trigger] self@[i] == old(self)@[i],
            decreases order@.len() - k,
        {
            let id = order[k];
            let r = self.join(id);
            match r {
                JoinPoll::Done(res) => {
                    out.push(res);
                },
                JoinPoll::Waiting => {
                    proof {
                        assert(false);
                    }
                },
            }
            k = k + 1;
        }
        proof {
            assert forall|i: int| 0 <= i < old(self)@.len() implies #[trigger] self@[i] is Joined by {
                assert(order@.contains(i as usize));
            }
        }
        out
    }
}

/// A handle hands over its task's outcome once: every join after the one that
/// found the task finished reports `AlreadyJoined`, and leaves it so.
pub proof fn lemma_second_join_fails<T>(s: TaskState<T>)
    requires
        is_finished(s),
    ensures
        join_poll_of(s) is Done,
        join_poll_of(after_join(s)) == JoinPoll::<T>::Done(Err(JoinError::AlreadyJoined)),
        after_join(after_join(s)) == after_join(s),
{
}

/// The values that a sequence of join results carries, in order.
pub open spec fn joined_values<T>(results: Seq<Result<T, JoinError>>) -> Seq<T> {
    results.map_values(|r: Result<T, JoinError>| r->Ok_0)
}

/// Joining every handle of tasks that completed with `values`, in any order,
/// gives no failure and hands back exactly those values: each one once, as many
/// as there were tasks, whatever the order in which they were joined or finished.
pub proof fn lemma_join_all_yields_every_value<T>(
    values: Seq<T>,
    order: Seq<usize>,
    results: Seq<Result<T, JoinError>>,
)
    requires
        values.len() <= usize::MAX,
        is_permutation(order, values.len()),
        results.len() == order.len(),
        forall|k: int|
            0 <= k < order.len() ==> join_poll_of(TaskState::Completed(values[order[k] as int]))
                == JoinPoll::Done(#[trigger] results[k]),
    ensures
        results.len() == values.len(),
        forall|k: int| 0 <= k < results.len() ==> #[trigger] results[k] is Ok,
        joined_values(results).to_set() == values.to_set(),
{
    let got = joined_values(results);
    assert forall|k: int| 0 <= k < results.len() implies #[trigger] results[k] is Ok
        && got[k] == values[order[k] as int] by {
        assert(join_poll_of(TaskState::Completed(values[order[k] as int])) == JoinPoll::Done(
            results[k],
        ));
    }
    assert forall|v: T| got.to_set().contains(v) implies values.to_set().contains(v) by {
        let k = choose|k: int| 0 <= k < got.len() && got[k] == v;
        assert(values[order[k] as int] == v);
    }
    assert forall|v: T| values.to_set().contains(v) implies got.to_set().contains(v) by {
        let i = choose|i: int| 0 <= i < values.len() && values[i] == v;
        assert(order.contains(i as usize));
        let k = choose|k: int| 0 <= k < order.len() && order[k] == i as usize;
        assert(results[k] is Ok);
        assert(got[k] == v);
    }
    assert(got.to_set() =~= values.to_set());
}

} // verus!
