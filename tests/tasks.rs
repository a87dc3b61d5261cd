use taskkit::task::{JoinError, JoinPoll, TaskSpawner};

#[test]
fn joining_all_tasks_in_any_order_yields_every_value() {
    let mut spawner: TaskSpawner<u64> = TaskSpawner::new();
    let n: usize = 5;
    for _ in 0..n {
        spawner.spawn();
    }
    // Tasks finish in an order unrelated to their spawn order.
    for &(id, value) in &[(3usize, 30u64), (0, 0), (4, 40), (1, 10), (2, 20)] {
        spawner.complete(id, value);
    }
    let order = vec![2usize, 4, 0, 3, 1];
    let results = spawner.join_all(&order);
    assert_eq!(results.len(), n);
    let mut values: Vec<u64> = results.into_iter().map(|r| r.unwrap()).collect();
    assert_eq!(values, vec![20, 40, 0, 30, 10]);
    values.sort();
    assert_eq!(values, vec![0, 10, 20, 30, 40]);
}

#[test]
fn joining_twice_reports_already_joined() {
    let mut spawner: TaskSpawner<u64> = TaskSpawner::new();
    let id = spawner.spawn();
    spawner.complete(id, 7);
    assert!(matches!(spawner.join(id), JoinPoll::Done(Ok(7))));
    assert!(matches!(spawner.join(id), JoinPoll::Done(Err(JoinError::AlreadyJoined))));
}

#[test]
fn panicked_task_reports_failure_on_join() {
    let mut spawner: TaskSpawner<u64> = TaskSpawner::new();
    let ok = spawner.spawn();
    let bad = spawner.spawn();
    spawner.fail(bad);
    assert!(matches!(spawner.join(bad), JoinPoll::Done(Err(JoinError::TaskFailure))));
    assert!(matches!(spawner.join(ok), JoinPoll::Waiting));
    spawner.complete(ok, 1);
    assert!(matches!(spawner.join(ok), JoinPoll::Done(Ok(1))));
}

#[test]
fn detached_task_runs_on_and_its_outcome_is_discarded() {
    let mut spawner: TaskSpawner<u64> = TaskSpawner::new();
    let a = spawner.spawn();
    let b = spawner.spawn();
    spawner.detach(a);
    // The detached task still finishes; a panic in it goes unobserved.
    spawner.fail(a);
    spawner.complete(b, 3);
    assert_eq!(spawner.len(), 2);
    assert!(matches!(spawner.join(b), JoinPoll::Done(Ok(3))));
}
