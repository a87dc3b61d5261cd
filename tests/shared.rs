use taskkit::counter::CounterRun;
use taskkit::shared::{Database, LockError, LockPoll, SharedResource};

#[test]
fn lock_is_exclusive_and_released() {
    let mut res = SharedResource::new(Database::new());
    res.clone_handle();
    assert_eq!(res.handle_count(), 2);
    assert_eq!(res.lock(1), LockPoll::Acquired);
    assert_eq!(res.lock(2), LockPoll::Busy);
    let mut db = Database::new();
    db.connect(1);
    res.set(1, db);
    res.unlock(1, false);
    assert_eq!(res.lock(2), LockPoll::Acquired);
    assert_eq!(res.get(2).connections(), &vec![1u32]);
    res.unlock(2, false);
}

#[test]
fn panicking_holder_poisons_lock() {
    let mut res = SharedResource::new(0u64);
    assert_eq!(res.lock(0), LockPoll::Acquired);
    res.unlock(0, true);
    assert!(res.is_poisoned());
    assert_eq!(res.lock(1), LockPoll::Failed(LockError::Poisoned));
}

#[test]
fn last_handle_destroys_value() {
    let mut res = SharedResource::new(String::from("v"));
    res.clone_handle();
    assert_eq!(res.drop_handle(), None);
    assert_eq!(res.drop_handle(), Some(String::from("v")));
    assert_eq!(res.handle_count(), 0);
}

#[test]
fn locked_counter_reaches_threads_times_increments() {
    let threads: usize = 4;
    let k: u64 = 3;
    let mut run = CounterRun::new(threads, k, true);
    // Interleave threads round-robin: a thread that finds the lock taken waits.
    let mut schedule = Vec::new();
    for _ in 0..200 {
        for t in 0..threads {
            schedule.push(t);
        }
    }
    run.run_schedule(&schedule);
    assert!(run.is_finished());
    assert_eq!(run.value(), 12);
}

#[test]
fn unlocked_counter_loses_an_update() {
    let threads: usize = 2;
    let k: u64 = 3;
    let mut run = CounterRun::new(threads, k, false);
    // Both threads read 0 before either writes back.
    let mut schedule = vec![0usize, 1, 0, 1];
    for t in 0..threads {
        for _ in 0..4 {
            schedule.push(t);
        }
    }
    run.run_schedule(&schedule);
    assert!(run.is_finished());
    assert_eq!(run.completed(), 6);
    assert_eq!(run.value(), 5);
    assert!(run.value() < 6);
}

#[test]
fn database_records_connections_in_order() {
    let mut db = Database::new();
    for i in 0..10u32 {
        db.connect(i);
    }
    assert_eq!(db.connections(), &(0..10u32).collect::<Vec<_>>());
}

#[test]
fn mutual_exclusion_lock_connects_once() {
    assert_eq!(taskkit::shared::use_mutual_exclusion_locks(), vec![1u32]);
}

#[test]
fn shared_database_holds_ids_in_lock_order() {
    let order: Vec<u32> = vec![3, 0, 9, 1, 8, 2, 7, 4, 6, 5];
    assert_eq!(taskkit::shared::share_state_between_threads(&order), order);
    assert!(taskkit::shared::share_state_between_threads(&Vec::new()).is_empty());
}

#[test]
fn replace_hands_back_previous_value() {
    let mut res = SharedResource::new(5u64);
    assert_eq!(res.lock(3), LockPoll::Acquired);
    assert_eq!(res.replace(3, 6), 5);
    assert_eq!(*res.get(3), 6);
}
