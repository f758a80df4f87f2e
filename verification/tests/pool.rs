use task_pool::gate::Gate;
use task_pool::pool::{JoinOutcome, TaskFailure, TaskPool};

#[test]
fn fresh_pool_is_empty() {
    let (mut p, g): (TaskPool<u64>, Gate) = TaskPool::new(3);
    assert_eq!(g.permit_capacity(), 3);
    assert_eq!(g.permits_available(), 3);
    assert_eq!(p.admitted(), 0);
    assert_eq!(p.running_tasks(), 0);
    assert_eq!(p.join_next(), JoinOutcome::Empty);
}

#[test]
fn capacity_one_siblings_alternate() {
    // Capacity 1: a task returning 1 on pool P, then a task returning "2" on
    // sibling pool Q. Q's admission must wait until P's task completes, so
    // the two tasks never run concurrently.
    let (mut p, mut g): (TaskPool<u64>, Gate) = TaskPool::new(1);
    let mut q: TaskPool<String> = p.create_sibling();

    assert_eq!(p.spawn(&mut g), Some(0));
    assert_eq!(g.permits_available(), 0);

    // Q is blocked while P's task runs: nothing admitted, nothing changed.
    assert_eq!(q.spawn(&mut g), None);
    assert_eq!(q.admitted(), 0);
    assert_eq!(q.running_tasks(), 0);
    assert_eq!(p.running_tasks(), 1);

    p.task_completed(&mut g, 0, 1);
    assert_eq!(g.permits_available(), 1);

    // Only now can Q admit its task.
    assert_eq!(q.spawn(&mut g), Some(0));
    q.task_completed(&mut g, 0, String::from("2"));

    assert_eq!(p.join_next(), JoinOutcome::Finished(Ok(1)));
    assert_eq!(q.join_next(), JoinOutcome::Finished(Ok(String::from("2"))));
    assert_eq!(p.join_next(), JoinOutcome::Empty);
    assert_eq!(q.join_next(), JoinOutcome::Empty);
}

#[test]
fn sibling_blocks_original_too() {
    // Sharing is symmetric: tasks admitted by the sibling use up the same
    // capacity and block the original pool.
    let (mut p, mut g): (TaskPool<u64>, Gate) = TaskPool::new(2);
    let mut q: TaskPool<u8> = p.create_sibling();
    assert_eq!(q.spawn(&mut g), Some(0));
    assert_eq!(q.spawn(&mut g), Some(1));
    assert_eq!(p.spawn(&mut g), None);
    q.task_completed(&mut g, 1, 9);
    assert_eq!(p.spawn(&mut g), Some(0));
}

#[test]
fn five_tasks_capacity_three() {
    // Capacity 3, five tasks returning their index: at most 3 run at once,
    // and all five results are retrieved exactly once.
    let (mut p, mut g): (TaskPool<usize>, Gate) = TaskPool::new(3);
    let mut admitted: Vec<usize> = Vec::new();
    let mut next_task: usize = 0;
    let mut seen = [false; 5];
    let mut retrieved: usize = 0;

    while retrieved < 5 {
        // Admit as many of the remaining tasks as capacity allows.
        while next_task < 5 {
            match p.spawn(&mut g) {
                Some(id) => {
                    admitted.push(id);
                    next_task += 1;
                }
                None => break,
            }
            assert!(p.running_tasks() <= 3);
        }
        assert!(p.running_tasks() <= 3);

        // The executor finishes the oldest running task.
        let id = admitted.remove(0);
        p.task_completed(&mut g, id, id);

        match p.join_next() {
            JoinOutcome::Finished(Ok(v)) => {
                assert!(v < 5);
                assert!(!seen[v], "result {v} appeared twice");
                seen[v] = true;
                retrieved += 1;
            }
            other => panic!("expected a finished task, got {other:?}"),
        }
    }
    assert!(seen.iter().all(|&s| s));
    assert_eq!(p.join_next(), JoinOutcome::Empty);
    assert_eq!(g.permits_available(), 3);
}

#[test]
fn abort_before_retrieval_is_reported() {
    // Capacity 1: spawn a task, then tear the pool down before retrieving.
    // The abort is reported, not silently swallowed, and the permit returns.
    let (mut p, mut g): (TaskPool<u64>, Gate) = TaskPool::new(1);
    assert_eq!(p.spawn(&mut g), Some(0));
    assert_eq!(g.permits_available(), 0);

    p.abort_all(&mut g);
    assert_eq!(g.permits_available(), 1);
    assert_eq!(p.running_tasks(), 0);
    assert_eq!(p.join_next(), JoinOutcome::Finished(Err(TaskFailure::Aborted)));
    assert_eq!(p.join_next(), JoinOutcome::Empty);
}

#[test]
fn abort_leaves_finished_outcomes_intact() {
    let (mut p, mut g): (TaskPool<u64>, Gate) = TaskPool::new(2);
    assert_eq!(p.spawn(&mut g), Some(0));
    assert_eq!(p.spawn(&mut g), Some(1));
    p.task_completed(&mut g, 0, 40);
    p.abort_all(&mut g);
    assert_eq!(g.permits_available(), 2);

    let mut saw_ok = false;
    let mut saw_aborted = false;
    for _ in 0..2 {
        match p.join_next() {
            JoinOutcome::Finished(Ok(40)) => saw_ok = true,
            JoinOutcome::Finished(Err(TaskFailure::Aborted)) => saw_aborted = true,
            other => panic!("unexpected outcome {other:?}"),
        }
    }
    assert!(saw_ok && saw_aborted);
    assert_eq!(p.join_next(), JoinOutcome::Empty);
}

#[test]
fn panic_is_reported_and_pool_keeps_working() {
    let (mut p, mut g): (TaskPool<u64>, Gate) = TaskPool::new(1);
    assert_eq!(p.spawn(&mut g), Some(0));
    p.task_panicked(&mut g, 0);
    assert_eq!(g.permits_available(), 1);
    assert_eq!(p.join_next(), JoinOutcome::Finished(Err(TaskFailure::Panic)));

    // The pool degrades gracefully: later tasks still run and report.
    assert_eq!(p.spawn(&mut g), Some(1));
    p.task_completed(&mut g, 1, 11);
    assert_eq!(p.join_next(), JoinOutcome::Finished(Ok(11)));
    assert_eq!(p.join_next(), JoinOutcome::Empty);
}

#[test]
fn join_next_empty_iff_all_retrieved() {
    // "None remaining" comes exactly when every admitted task's outcome has
    // been handed out; while a task runs the caller would wait instead.
    let (mut p, mut g): (TaskPool<u64>, Gate) = TaskPool::new(2);
    assert_eq!(p.join_next(), JoinOutcome::Empty);

    assert_eq!(p.spawn(&mut g), Some(0));
    assert_eq!(p.join_next(), JoinOutcome::WouldWait);

    p.task_completed(&mut g, 0, 5);
    assert_eq!(p.join_next(), JoinOutcome::Finished(Ok(5)));
    assert_eq!(p.join_next(), JoinOutcome::Empty);

    assert_eq!(p.spawn(&mut g), Some(1));
    assert_eq!(p.join_next(), JoinOutcome::WouldWait);
    p.task_completed(&mut g, 1, 6);
    assert_eq!(p.join_next(), JoinOutcome::Finished(Ok(6)));
    assert_eq!(p.join_next(), JoinOutcome::Empty);
}

#[test]
fn running_tasks_never_exceed_capacity() {
    // The shared capacity bound, observed step by step across two siblings.
    let (mut p, mut g): (TaskPool<u64>, Gate) = TaskPool::new(2);
    let mut q: TaskPool<i32> = p.create_sibling();

    assert_eq!(p.spawn(&mut g), Some(0));
    assert!(p.running_tasks() + q.running_tasks() <= 2);
    assert_eq!(q.spawn(&mut g), Some(0));
    assert!(p.running_tasks() + q.running_tasks() <= 2);
    assert_eq!(p.spawn(&mut g), None);
    assert_eq!(q.spawn(&mut g), None);
    assert!(p.running_tasks() + q.running_tasks() <= 2);

    q.task_completed(&mut g, 0, -3);
    assert_eq!(p.spawn(&mut g), Some(1));
    assert!(p.running_tasks() + q.running_tasks() <= 2);

    p.abort_all(&mut g);
    assert_eq!(q.join_next(), JoinOutcome::Finished(Ok(-3)));
    assert_eq!(g.permits_available(), 2);
}

#[test]
fn every_admitted_task_appears_exactly_once() {
    // Completion coverage on a small mixed run: a success, a panic and an
    // abort each surface exactly once through join_next.
    let (mut p, mut g): (TaskPool<u64>, Gate) = TaskPool::new(3);
    assert_eq!(p.spawn(&mut g), Some(0));
    assert_eq!(p.spawn(&mut g), Some(1));
    assert_eq!(p.spawn(&mut g), Some(2));
    p.task_completed(&mut g, 0, 100);
    p.task_panicked(&mut g, 1);
    p.abort_all(&mut g);

    let mut ok: usize = 0;
    let mut panicked: usize = 0;
    let mut aborted: usize = 0;
    loop {
        match p.join_next() {
            JoinOutcome::Finished(Ok(100)) => ok += 1,
            JoinOutcome::Finished(Err(TaskFailure::Panic)) => panicked += 1,
            JoinOutcome::Finished(Err(TaskFailure::Aborted)) => aborted += 1,
            JoinOutcome::Empty => break,
            other => panic!("unexpected outcome {other:?}"),
        }
    }
    assert_eq!((ok, panicked, aborted), (1, 1, 1));
    assert_eq!(p.admitted(), 3);
}
