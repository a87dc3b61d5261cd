use vstd::prelude::*;

verus! {

/// Where one thread is in its current increment.
#[derive(PartialEq, Eq, Structural, Clone, Copy, Debug)]
pub enum Phase {
    /// Between increments.
    Idle,
    /// Has read the counter (holding the lock, when there is one) and will write
    /// back the value read plus one.
    Loaded(u64),
}

/// The abstract state of threads incrementing one shared counter.
pub struct CounterView {
    pub value: int,
    /// Increments written back so far, over all threads.
    pub completed: int,
    /// Increments each thread has still to make.
    pub remaining: Seq<u64>,
    pub phases: Seq<Phase>,
    /// The thread holding the lock, when increments go through it.
    pub holder: Option<usize>,
    /// Whether each increment takes the lock around its read and write.
    pub locked: bool,
    /// Increments that all threads together were asked for.
    pub total: int,
}

/// Sum of a sequence of counts.
pub open spec fn sum(s: Seq<u64>) -> int
    decreases s.len(),
{
    if s.len() == 0 {
        0
    } else {
        s[0] + sum(s.drop_first())
    }
}

/// One step of thread `t`: an idle thread with work left reads the counter (taking
/// the lock first, and waiting while another thread has it); a thread that has read
/// writes back what it read plus one (and releases the lock).
pub open spec fn step(s: CounterView, t: usize) -> CounterView {
    if t >= s.phases.len() {
        s
    } else {
        match s.phases[t as int] {
            Phase::Idle => {
                if s.remaining[t as int] == 0 || (s.locked && s.holder is Some) {
                    s
                } else {
                    CounterView {
                        phases: s.phases.update(t as int, Phase::Loaded(s.value as u64)),
                        holder: if s.locked { Some(t) } else { s.holder },
                        ..s
                    }
                }
            },
            Phase::Loaded(r) => CounterView {
                value: r + 1,
                completed: s.completed + 1,
                remaining: s.remaining.update(t as int, (s.remaining[t as int] - 1) as u64),
                phases: s.phases.update(t as int, Phase::Idle),
                holder: if s.locked { None } else { s.holder },
                ..s
            },
        }
    }
}

/// The steps of `schedule`, taken in turn.
pub open spec fn run(s: CounterView, schedule: Seq<usize>) -> CounterView
    decreases schedule.len(),
{
    if schedule.len() == 0 {
        s
    } else {
        run(step(s, schedule[0]), schedule.drop_first())
    }
}

/// `threads` threads, each to make `increments` increments, on a counter at 0.
pub open spec fn start(threads: nat, increments: u64, locked: bool) -> CounterView {
    CounterView {
        value: 0,
        completed: 0,
        remaining: Seq::new(threads, |i: int| increments),
        phases: Seq::new(threads, |i: int| Phase::Idle),
        holder: None,
        locked,
        total: threads * increments,
    }
}

/// Every thread has made all its increments.
pub open spec fn finished(s: CounterView) -> bool {
    forall|t: int| 0 <= t < s.phases.len() ==> s.remaining[t] == 0 && s.phases[t] is Idle
}

/// What holds in every reachable state, with or without the lock.
pub open spec fn counter_inv(s: CounterView) -> bool {
    &&& s.remaining.len() == s.phases.len()
    &&& s.phases.len() <= usize::MAX
    &&& s.completed + sum(s.remaining) == s.total
    &&& 0 <= s.value <= s.completed
    &&& s.total <= u64::MAX
    &&& forall|t: int|
        0 <= t < s.phases.len() && #[trigger] s.phases[t] is Loaded ==> s.remaining[t] > 0
            && s.phases[t]->Loaded_0 <= s.completed
    &&& s.locked ==> {
        &&& s.value == s.completed
        &&& s.holder is Some ==> s.holder->Some_0 < s.phases.len()
            && s.phases[s.holder->Some_0 as int] == Phase::Loaded(s.value as u64)
        &&& forall|t: int|
            0 <= t < s.phases.len() && #[trigger] s.phases[t] is Loaded ==> s.holder == Some(
                t as usize,
            )
    }
}

pub proof fn lemma_sum_update(s: Seq<u64>, i: int, x: u64)
    requires
        0 <= i < s.len(),
    ensures
        sum(s.update(i, x)) == sum(s) - s[i] + x,
    decreases s.len(),
{
    if i > 0 {
        lemma_sum_update(s.drop_first(), i - 1, x);
        assert(s.update(i, x).drop_first() =~= s.drop_first().update(i - 1, x));
    }
    else {
        assert(s.update(i, x).drop_first() =~= s.drop_first());
    }
}

pub proof fn lemma_sum_nonneg_zero(s: Seq<u64>)
    ensures
        sum(s) >= 0,
        (forall|i: int| 0 <= i < s.len() ==> s[i] == 0) ==> sum(s) == 0,
        forall|i: int| 0 <= i < s.len() ==> s[i] <= sum(s),
    decreases s.len(),
{
    if s.len() > 0 {
        lemma_sum_nonneg_zero(s.drop_first());
        assert forall|i: int| 0 <= i < s.len() implies s[i] <= sum(s) by {
            if i > 0 {
                assert(s[i] == s.drop_first()[i - 1]);
            }
        }
    }
}

pub proof fn lemma_sum_constant(n: nat, k: u64)
    ensures
        sum(Seq::new(n, |i: int| k)) == n * k,
    decreases n,
{
    let s = Seq::new(n, |i: int| k);
    if n > 0 {
        lemma_sum_constant((n - 1) as nat, k);
        assert(s.drop_first() =~= Seq::new((n - 1) as nat, |i: int| k));
        assert(sum(s) == s[0] + sum(s.drop_first()));
        assert(n * k == (n - 1) * k + k) by (nonlinear_arith);
    } else {
        assert(n * k == 0) by (nonlinear_arith)
            requires n == 0;
    }
}

/// Every step keeps the invariant.
pub proof fn lemma_step_keeps_inv(s: CounterView, t: usize)
    requires
        counter_inv(s),
    ensures
        counter_inv(step(s, t)),
{
    lemma_sum_nonneg_zero(s.remaining);
    if t < s.phases.len() {
        match s.phases[t as int] {
            Phase::Idle => {
                let n = step(s, t);
                assert forall|u: int|
                    0 <= u < n.phases.len() && #[trigger] n.phases[u] is Loaded implies n.remaining[u] > 0
                        && n.phases[u]->Loaded_0 <= n.completed by {
                    if u != t {
                        assert(s.phases[u] is Loaded);
                    }
                }
                if s.locked {
                    assert forall|u: int|
                        0 <= u < n.phases.len() && #[trigger] n.phases[u] is Loaded implies n.holder
                            == Some(u as usize) by {
                        if u != t {
                            assert(s.phases[u] is Loaded);
                        }
                    }
                }
            },
            Phase::Loaded(r) => {
                lemma_sum_update(s.remaining, t as int, (s.remaining[t as int] - 1) as u64);
                let n = step(s, t);
                assert forall|u: int|
                    0 <= u < n.phases.len() && #[trigger] n.phases[u] is Loaded implies n.remaining[u] > 0
                        && n.phases[u]->Loaded_0 <= n.completed by {
                    assert(u != t);
                    assert(s.phases[u] is Loaded);
                }
                if s.locked {
                    assert forall|u: int|
                        0 <= u < n.phases.len() && #[trigger] n.phases[u] is Loaded implies n.holder
                            == Some(u as usize) by {
                        assert(u != t);
                        assert(s.phases[u] is Loaded);
                        assert(s.phases[t as int] is Loaded);
                    }
                }
            },
        }
    }
}

/// Any schedule keeps the invariant.
pub proof fn lemma_run_keeps_inv(s: CounterView, schedule: Seq<usize>)
    requires
        counter_inv(s),
    ensures
        counter_inv(run(s, schedule)),
    decreases schedule.len(),
{
    if schedule.len() > 0 {
        lemma_step_keeps_inv(s, schedule[0]);
        lemma_run_keeps_inv(step(s, schedule[0]), schedule.drop_first());
    }
}

pub proof fn lemma_start_inv(threads: nat, increments: u64, locked: bool)
    requires
        threads <= usize::MAX,
        threads * increments <= u64::MAX,
    ensures
        counter_inv(start(threads, increments, locked)),
{
    lemma_sum_constant(threads, increments);
}

/// With the lock, no increment is lost: however the threads' steps interleave,
/// once every thread has made its `increments` increments the counter reads
/// exactly `threads * increments`.
pub proof fn lemma_locked_counter_exact(threads: nat, increments: u64, schedule: Seq<usize>)
    requires
        threads <= usize::MAX,
        threads * increments <= u64::MAX,
        finished(run(start(threads, increments, true), schedule)),
    ensures
        run(start(threads, increments, true), schedule).value == threads * increments,
{
    lemma_start_inv(threads, increments, true);
    lemma_run_keeps_inv(start(threads, increments, true), schedule);
    let e = run(start(threads, increments, true), schedule);
    lemma_sum_nonneg_zero(e.remaining);
    lemma_run_keeps_mode(start(threads, increments, true), schedule);
}

/// A schedule changes neither the mode, the number of threads, nor the total asked for.
pub proof fn lemma_run_keeps_mode(s: CounterView, schedule: Seq<usize>)
    ensures
        run(s, schedule).locked == s.locked,
        run(s, schedule).total == s.total,
        run(s, schedule).phases.len() == s.phases.len(),
    decreases schedule.len(),
{
    if schedule.len() > 0 {
        lemma_run_keeps_mode(step(s, schedule[0]), schedule.drop_first());
    }
}

/// Threads incrementing one shared counter, stepped one at a time in an order
/// the caller picks: with the lock, or racing without it.
pub struct CounterRun {
    value: u64,
    completed: u64,
    remaining: Vec<u64>,
    phases: Vec<Phase>,
    holder: Option<usize>,
    locked: bool,
    total: u64,
}

impl View for CounterRun {
    type V = CounterView;

    closed spec fn view(&self) -> CounterView {
        CounterView {
            value: self.value as int,
            completed: self.completed as int,
            remaining: self.remaining@,
            phases: self.phases@,
            holder: self.holder,
            locked: self.locked,
            total: self.total as int,
        }
    }
}

impl CounterRun {
    pub open spec fn wf(&self) -> bool {
        counter_inv(self@)
    }

    /// `threads` threads, each to make `increments` increments, on a counter at 0.
    pub fn new(threads: usize, increments: u64, locked: bool) -> (r: CounterRun)
        requires
            threads * increments <= u64::MAX,
        ensures
            r.wf(),
            r@ == start(threads as nat, increments, locked),
    {
        let mut remaining: Vec<u64> = Vec::new();
        let mut phases: Vec<Phase> = Vec::new();
        let mut i: usize = 0;
        while i < threads
            invariant
                0 <= i <= threads,
                remaining@ =~= Seq::new(i as nat, |j: int| increments),
                phases@ =~= Seq::new(i as nat, |j: int| Phase::Idle),
            decreases threads - i,
        {
            remaining.push(increments);
            phases.push(Phase::Idle);
            i = i + 1;
        }
        proof {
            lemma_start_inv(threads as nat, increments, locked);
            assert(threads * increments == (threads as nat) * increments);
        }
        CounterRun {
            value: 0,
            completed: 0,
            remaining,
            phases,
            holder: None,
            locked,
            total: threads as u64 * increments,
        }
    }

    /// Takes one step of thread `t`, as `step` says.
    pub fn step(&mut self, t: usize)
        requires
            old(self).wf(),
        ensures
            final(self).wf(),
            final(self)@ == step(old(self)@, t),
    {
        proof {
            lemma_step_keeps_inv(self@, t);
            lemma_sum_nonneg_zero(self@.remaining);
        }
        if t >= self.phases.len() {
            return;
        }
        match self.phases[t] {
            Phase::Idle => {
                if self.remaining[t] == 0 || (self.locked && self.holder.is_some()) {
                    return;
                }
                let v = self.value;
                self.phases.set(t, Phase::Loaded(v));
                if self.locked {
                    self.holder = Some(t);
                }
            },
            Phase::Loaded(r) => {
                self.value = r + 1;
                self.completed = self.completed + 1;
                let left = self.remaining[t] - 1;
                self.remaining.set(t, left);
                self.phases.set(t, Phase::Idle);
                if self.locked {
                    self.holder = None;
                }
            },
        }
    }

    /// Takes the steps of `schedule` in turn.
    pub fn run_schedule(&mut self, schedule: &Vec<usize>)
        requires
            old(self).wf(),
        ensures
            final(self).wf(),
            final(self)@ == run(old(self)@, schedule@),
    {
        let mut k: usize = 0;
        proof {
            assert(schedule@.subrange(0, schedule@.len() as int) =~= schedule@);
        }
        while k < schedule.len()
            invariant
                self.wf(),
                0 <= k <= schedule@.len(),
                run(old(self)@, schedule@) == run(self@, schedule@.subrange(k as int, schedule@.len() as int)),
            decreases schedule@.len() - k,
        {
            proof {
                let rest = schedule@.subrange(k as int, schedule@.len() as int);
                assert(rest.drop_first() =~= schedule@.subrange(k + 1, schedule@.len() as int));
            }
            self.step(schedule[k]);
            k = k + 1;
        }
        proof {
            assert(schedule@.subrange(k as int, schedule@.len() as int) =~= Seq::<usize>::empty());
        }
    }

    /// The counter.
    pub fn value(&self) -> (r: u64)
        ensures
            r == self@.value,
    {
        self.value
    }

    /// Increments written back so far.
    pub fn completed(&self) -> (r: u64)
        ensures
            r == self@.completed,
    {
        self.completed
    }

    /// Whether every thread has made all its increments.
    pub fn is_finished(&self) -> (r: bool)
        requires
            self.wf(),
        ensures
            r == finished(self@),
    {
        let mut i: usize = 0;
        while i < self.phases.len()
            invariant
                self.wf(),
                0 <= i <= self.phases@.len(),
                forall|t: int| 0 <= t < i ==> self@.remaining[t] == 0 && self@.phases[t] is Idle,
            decreases self.phases@.len() - i,
        {
            if self.remaining[i] != 0 || self.phases[i] != Phase::Idle {
                return false;
            }
            i = i + 1;
        }
        true
    }
}

/// Thread `t` alone, making `r` whole increments: two steps each.
pub open spec fn solo(t: usize, r: nat) -> Seq<usize> {
    Seq::new(2 * r, |i: int| t)
}

/// Each thread from `i` on, in turn, alone until its `rem` increments are made.
pub open spec fn one_by_one(rem: Seq<u64>, i: nat) -> Seq<usize>
    decreases rem.len() - i,
{
    if i >= rem.len() {
        Seq::empty()
    } else {
        solo(i as usize, rem[i as int] as nat) + one_by_one(rem, i + 1)
    }
}

/// Two threads both read the counter before either writes back.
pub open spec fn lost_update_prefix() -> Seq<usize> {
    seq![0usize, 1usize, 0usize, 1usize]
}

pub proof fn lemma_run_concat(s: CounterView, a: Seq<usize>, b: Seq<usize>)
    ensures
        run(s, a + b) == run(run(s, a), b),
    decreases a.len(),
{
    if a.len() == 0 {
        assert(a + b =~= b);
    } else {
        assert((a + b).drop_first() =~= a.drop_first() + b);
        lemma_run_concat(step(s, a[0]), a.drop_first(), b);
    }
}

/// A thread running alone makes its increments one after another, none lost.
pub proof fn lemma_solo(s: CounterView, t: usize, r: nat)
    requires
        counter_inv(s),
        !s.locked,
        t < s.phases.len(),
        s.phases[t as int] is Idle,
        r <= s.remaining[t as int],
    ensures
        run(s, solo(t, r)).value == s.value + r,
        run(s, solo(t, r)).completed == s.completed + r,
        run(s, solo(t, r)).remaining == s.remaining.update(
            t as int,
            (s.remaining[t as int] - r) as u64,
        ),
        run(s, solo(t, r)).phases == s.phases,
        run(s, solo(t, r)).locked == s.locked,
        run(s, solo(t, r)).total == s.total,
    decreases r,
{
    if r == 0 {
        assert(solo(t, r) =~= Seq::<usize>::empty());
        assert(s.remaining.update(t as int, s.remaining[t as int]) =~= s.remaining);
    } else {
        lemma_sum_nonneg_zero(s.remaining);
        let s1 = step(s, t);
        let s2 = step(s1, t);
        assert(s2.phases =~= s.phases);
        lemma_step_keeps_inv(s, t);
        lemma_step_keeps_inv(s1, t);
        assert(solo(t, r) =~= seq![t, t] + solo(t, (r - 1) as nat));
        lemma_run_concat(s, seq![t, t], solo(t, (r - 1) as nat));
        assert(seq![t, t].drop_first() =~= seq![t]);
        assert(seq![t].drop_first() =~= Seq::<usize>::empty());
        assert(seq![t, t][0] == t);
        assert(run(s, seq![t, t]) == run(s1, seq![t]));
        assert(run(s1, seq![t]) == run(s2, Seq::<usize>::empty()));
        lemma_solo(s2, t, (r - 1) as nat);
        assert(s2.remaining.update(t as int, (s2.remaining[t as int] - (r - 1)) as u64)
            =~= s.remaining.update(t as int, (s.remaining[t as int] - r) as u64));
    }
}

/// Running the threads from `i` on one by one, from a state where all are idle
/// and the threads before `i` are done, finishes every thread and loses nothing more.
pub proof fn lemma_one_by_one(s: CounterView, i: nat)
    requires
        counter_inv(s),
        !s.locked,
        i <= s.phases.len(),
        forall|t: int| 0 <= t < s.phases.len() ==> #[trigger] s.phases[t] is Idle,
        forall|t: int| 0 <= t < i ==> #[trigger] s.remaining[t] == 0,
    ensures
        finished(run(s, one_by_one(s.remaining, i))),
        run(s, one_by_one(s.remaining, i)).completed - run(s, one_by_one(s.remaining, i)).value
            == s.completed - s.value,
        counter_inv(run(s, one_by_one(s.remaining, i))),
    decreases s.phases.len() - i,
{
    if i >= s.phases.len() {
        assert(one_by_one(s.remaining, i) =~= Seq::<usize>::empty());
    } else {
        let t = i as usize;
        let r = s.remaining[i as int] as nat;
        lemma_solo(s, t, r);
        let s1 = run(s, solo(t, r));
        lemma_run_keeps_inv(s, solo(t, r));
        lemma_run_concat(s, solo(t, r), one_by_one(s.remaining, i + 1));
        assert(s1.remaining =~= s.remaining.update(i as int, 0u64));
        assert forall|u: int| i + 1 <= u < s.remaining.len() implies s1.remaining[u]
            == s.remaining[u] by {}
        assert(one_by_one(s1.remaining, i + 1) =~= one_by_one(s.remaining, i + 1)) by {
            lemma_one_by_one_depends_on_tail(s1.remaining, s.remaining, i + 1);
        }
        lemma_one_by_one(s1, i + 1);
    }
    lemma_run_keeps_inv(s, one_by_one(s.remaining, i));
}

/// The schedule from `i` on reads only the counts from `i` on.
pub proof fn lemma_one_by_one_depends_on_tail(a: Seq<u64>, b: Seq<u64>, i: nat)
    requires
        a.len() == b.len(),
        forall|u: int| i <= u < a.len() ==> a[u] == b[u],
    ensures
        one_by_one(a, i) == one_by_one(b, i),
    decreases a.len() - i,
{
    if i < a.len() {
        lemma_one_by_one_depends_on_tail(a, b, i + 1);
    }
}

/// Without the lock, updates can be lost: for two or more threads making at least
/// one increment each, some interleaving finishes every thread with the counter
/// below `threads * increments`. Two threads read the same value before either
/// writes back; the rest then run one by one.
pub proof fn lemma_unlocked_counter_can_lose(threads: nat, increments: u64)
    requires
        2 <= threads <= usize::MAX,
        1 <= increments,
        threads * increments <= u64::MAX,
    ensures
        exists|schedule: Seq<usize>|
            finished(#[trigger] run(start(threads, increments, false), schedule)) && run(
                start(threads, increments, false),
                schedule,
            ).value < threads * increments,
{
    let s0 = start(threads, increments, false);
    lemma_start_inv(threads, increments, false);
    let p = lost_update_prefix();
    let s1 = step(s0, 0);
    let s2 = step(s1, 1);
    let s3 = step(s2, 0);
    let s4 = step(s3, 1);
    assert(p.drop_first() =~= seq![1usize, 0usize, 1usize]);
    assert(p.drop_first().drop_first() =~= seq![0usize, 1usize]);
    assert(p.drop_first().drop_first().drop_first() =~= seq![1usize]);
    assert(p.drop_first().drop_first().drop_first().drop_first() =~= Seq::<usize>::empty());
    let e0 = Seq::<usize>::empty();
    assert(run(s3, seq![1usize]) == run(s4, e0));
    assert(run(s2, seq![0usize, 1usize]) == run(s3, seq![1usize]));
    assert(run(s1, seq![1usize, 0usize, 1usize]) == run(s2, seq![0usize, 1usize]));
    assert(run(s0, p) == run(s1, seq![1usize, 0usize, 1usize]));
    assert(s4.value == 1);
    assert(s4.completed == 2);
    lemma_run_keeps_inv(s0, p);
    assert forall|t: int| 0 <= t < s4.phases.len() implies #[trigger] s4.phases[t] is Idle by {}
    let rest = one_by_one(s4.remaining, 0);
    lemma_one_by_one(s4, 0);
    lemma_run_concat(s0, p, rest);
    let e = run(s0, p + rest);
    lemma_run_keeps_mode(s0, p + rest);
    lemma_sum_nonneg_zero(e.remaining);
    assert(e.value == threads * increments - 1);
}

} // verus!
