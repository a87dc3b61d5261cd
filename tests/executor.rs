use taskkit::executor::{ConfigError, Executor, ExecutorConfig, Pool, PollOutcome};
use taskkit::task::{JoinError, JoinPoll};

fn config(workers: usize, blocking: usize) -> ExecutorConfig {
    match ExecutorConfig::new(workers, blocking) {
        Ok(c) => c,
        Err(_) => panic!("bad configuration"),
    }
}

#[test]
fn configuration_needs_a_thread_in_each_pool() {
    assert!(matches!(ExecutorConfig::new(0, 4), Err(ConfigError::NoWorkers)));
    assert!(matches!(ExecutorConfig::new(2, 0), Err(ConfigError::NoBlockingThreads)));
    let c = config(2, 3);
    assert_eq!(c.workers(), 2);
    assert_eq!(c.blocking_threads(), 3);
    assert_eq!(ExecutorConfig::for_host(0).workers(), 1);
    assert_eq!(ExecutorConfig::for_host(8).workers(), 8);
    assert_eq!(ExecutorConfig::single_worker().workers(), 1);
}

#[test]
fn task_suspends_wakes_and_completes() {
    let mut ex: Executor<u64> = Executor::new(&config(1, 1));
    let id = ex.spawn();
    assert_eq!(ex.dispatch(Pool::Cooperative), Some((0, id)));
    ex.finish_poll(Pool::Cooperative, 0, PollOutcome::Pending);
    // Suspended: the worker is free and nothing is queued.
    assert_eq!(ex.dispatch(Pool::Cooperative), None);
    assert!(matches!(ex.join(id), JoinPoll::Waiting));
    ex.wake(id);
    assert_eq!(ex.dispatch(Pool::Cooperative), Some((0, id)));
    ex.finish_poll(Pool::Cooperative, 0, PollOutcome::Ready(42));
    assert!(matches!(ex.join(id), JoinPoll::Done(Ok(42))));
    assert!(matches!(ex.join(id), JoinPoll::Done(Err(JoinError::AlreadyJoined))));
}

#[test]
fn wake_during_poll_requeues() {
    let mut ex: Executor<u64> = Executor::new(&config(1, 1));
    let id = ex.spawn();
    assert_eq!(ex.dispatch(Pool::Cooperative), Some((0, id)));
    ex.wake(id);
    ex.finish_poll(Pool::Cooperative, 0, PollOutcome::Pending);
    assert_eq!(ex.dispatch(Pool::Cooperative), Some((0, id)));
}

#[test]
fn panicked_task_fails_on_join() {
    let mut ex: Executor<u64> = Executor::new(&config(2, 1));
    let id = ex.spawn();
    assert_eq!(ex.dispatch(Pool::Cooperative), Some((0, id)));
    ex.finish_poll(Pool::Cooperative, 0, PollOutcome::Panicked);
    assert!(matches!(ex.join(id), JoinPoll::Done(Err(JoinError::TaskFailure))));
}

#[test]
fn dropped_handle_frees_worker_for_next_task() {
    let mut ex: Executor<u64> = Executor::new(&config(1, 1));
    let a = ex.spawn();
    assert_eq!(ex.dispatch(Pool::Cooperative), Some((0, a)));
    ex.drop_handle(a);
    ex.finish_poll(Pool::Cooperative, 0, PollOutcome::Ready(1));
    let b = ex.spawn();
    assert_eq!(ex.dispatch(Pool::Cooperative), Some((0, b)));
    ex.finish_poll(Pool::Cooperative, 0, PollOutcome::Ready(2));
    assert!(matches!(ex.join(b), JoinPoll::Done(Ok(2))));
}

#[test]
fn cancelled_queued_task_is_skipped() {
    let mut ex: Executor<u64> = Executor::new(&config(1, 1));
    let a = ex.spawn();
    let b = ex.spawn();
    ex.drop_handle(a);
    assert_eq!(ex.dispatch(Pool::Cooperative), Some((0, b)));
    assert_eq!(ex.dispatch(Pool::Cooperative), None);
}

#[test]
fn blocking_work_leaves_workers_to_cooperative_tasks() {
    let mut ex: Executor<u64> = Executor::new(&config(2, 1));
    let heavy = ex.spawn_blocking();
    assert_eq!(ex.dispatch(Pool::Blocking), Some((0, heavy)));
    let mut cheap = Vec::new();
    for _ in 0..5 {
        cheap.push(ex.spawn());
    }
    // The blocking body is still running the whole time.
    for (i, &id) in cheap.iter().enumerate() {
        let (w, got) = ex.dispatch(Pool::Cooperative).unwrap();
        assert_eq!(got, id);
        assert!(w < 2);
        ex.finish_poll(Pool::Cooperative, w, PollOutcome::Ready(i as u64));
    }
    for (i, &id) in cheap.iter().enumerate() {
        assert!(matches!(ex.join(id), JoinPoll::Done(Ok(v)) if v == i as u64));
    }
    assert!(matches!(ex.join(heavy), JoinPoll::Waiting));
    ex.finish_poll(Pool::Blocking, 0, PollOutcome::Ready(99));
    assert!(matches!(ex.join(heavy), JoinPoll::Done(Ok(99))));
}

#[test]
fn blocking_pool_queues_when_full() {
    let mut ex: Executor<u64> = Executor::new(&config(1, 1));
    let first = ex.spawn_blocking();
    let second = ex.spawn_blocking();
    assert_eq!(ex.dispatch(Pool::Blocking), Some((0, first)));
    assert_eq!(ex.dispatch(Pool::Blocking), None);
    ex.drop_handle(second);
    ex.finish_poll(Pool::Blocking, 0, PollOutcome::Ready(1));
    // A detached blocking task still runs to its end.
    assert_eq!(ex.dispatch(Pool::Blocking), Some((0, second)));
    ex.finish_poll(Pool::Blocking, 0, PollOutcome::Ready(2));
    assert!(matches!(ex.join(first), JoinPoll::Done(Ok(1))));
    assert_eq!(ex.task_count(), 2);
}
