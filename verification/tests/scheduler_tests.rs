use workassist::task::Task;
use workassist::workassisting_loop::run_task_single_thread;
use workassist::worker::{simulate_dataparallel, start_task, Workers};

#[test]
fn single_thread_runs_chunks_in_order() {
    let (chunks, finishes) = run_task_single_thread(10);
    assert_eq!(chunks, (0..10).collect::<Vec<u32>>());
    assert_eq!(finishes, 1);
}

#[test]
fn single_thread_one_chunk() {
    let (chunks, finishes) = run_task_single_thread(1);
    assert_eq!(chunks, vec![0]);
    assert_eq!(finishes, 1);
}

#[test]
fn zero_size_task_is_pure_continuation() {
    // A data-parallel task with no chunks never runs its work callback;
    // only finish runs, exactly once.
    let task = Task::new_dataparallel(0);
    let (exec, owner) = start_task(task);
    assert!(owner.is_none());
    let (chunks, finishes) = exec.into_results();
    assert!(chunks.is_empty());
    assert_eq!(finishes, 1);
}

#[test]
fn single_task_runs_finish_once() {
    let task = Task::new_single();
    assert_eq!(task.work_size(), 0);
    let (exec, owner) = start_task(task);
    assert!(owner.is_none());
    let (chunks, finishes) = exec.into_results();
    assert!(chunks.is_empty());
    assert_eq!(finishes, 1);
}

#[test]
fn owner_starts_at_chunk_zero() {
    let task = Task::new_dataparallel(5);
    let (_exec, owner) = start_task(task);
    let owner = owner.unwrap();
    assert_eq!(owner.next_chunk(), 0);
}

fn check_simulation(work_size: u32, schedule: Vec<u64>) {
    let (chunks, finishes) = simulate_dataparallel(work_size, &schedule);
    assert_eq!(finishes, 1);
    let mut sorted = chunks.clone();
    sorted.sort();
    // Every chunk exactly once, whatever the interleaving.
    assert_eq!(sorted, (0..work_size).collect::<Vec<u32>>());
}

#[test]
fn simulation_covers_chunks_exactly_once() {
    // The schedule interleaves joins, first claims, and loop steps of the
    // live participants in several patterns.
    check_simulation(0, vec![0, 1, 2]);
    check_simulation(1, vec![]);
    check_simulation(7, vec![0, 1, 2, 0, 1, 2, 5, 8, 2, 11, 0, 1, 2, 2]);
    check_simulation(16, vec![0, 0, 1, 1, 2, 5, 8, 11, 14, 17, 20, 2, 2, 0, 1, 2, 23, 26]);
    check_simulation(3, vec![0, 1, 0, 1, 0, 1, 2, 2, 2, 2, 2, 2, 2, 2]);
    check_simulation(32, (0..200u64).collect());
}

#[test]
fn simulation_with_late_joins() {
    // Joins that arrive after all chunks are claimed obtain nothing, and
    // the task still retires exactly once.
    let mut schedule: Vec<u64> = Vec::new();
    for _ in 0..10 {
        schedule.push(2); // owner works alone first
    }
    for _ in 0..4 {
        schedule.push(0); // reservations trickle in late
        schedule.push(1);
    }
    check_simulation(4, schedule);
}

#[test]
fn workers_pop_own_queue_newest_first() {
    let mut workers = Workers::new(2);
    assert!(!workers.is_finished());
    workers.push_task(0, Task::new_dataparallel(1));
    workers.push_task(0, Task::new_dataparallel(2));
    // The owner pops its own queue in LIFO order.
    let t = workers.claim_task(0).unwrap();
    assert_eq!(t.work_size(), 2);
    let t = workers.claim_task(0).unwrap();
    assert_eq!(t.work_size(), 1);
    assert!(workers.claim_task(0).is_none());
}

#[test]
fn workers_steal_oldest_from_peer() {
    let mut workers = Workers::new(3);
    workers.push_task(1, Task::new_dataparallel(1));
    workers.push_task(1, Task::new_dataparallel(2));
    // A thread with an empty queue steals from the other end.
    let t = workers.claim_task(0).unwrap();
    assert_eq!(t.work_size(), 1);
    let t = workers.claim_task(2).unwrap();
    assert_eq!(t.work_size(), 2);
    assert!(workers.claim_task(0).is_none());
    assert!(workers.claim_task(1).is_none());
    assert!(workers.claim_task(2).is_none());
}

#[test]
fn workers_finish_flag() {
    let mut workers = Workers::new(1);
    assert!(!workers.is_finished());
    workers.finish();
    assert!(workers.is_finished());
}
