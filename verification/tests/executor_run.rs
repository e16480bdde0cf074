use kernel_core::coop::{CountdownWork, Poll, Task, TaskIdSource};
use kernel_core::executor::Executor;

#[test]
fn test_main_testing() {
    assert_eq!(2 + 2, 4)
}

#[test]
fn test_box_heap_alloc() {
    drop(Box::new([0u64; 100]));
}

#[test]
fn test_vec_heap_alloc() {
    let mut vec: Vec<u64> = Vec::new();
    for i in 0..50 {
        vec.push(i);
    }
    drop(vec)
}

#[test]
fn test_task_ids_unique_and_increasing() {
    let mut source = TaskIdSource::new();
    let t1 = Task::new(&mut source, CountdownWork::new(0));
    let t2 = Task::new(&mut source, CountdownWork::new(0));
    assert_ne!(t1.id(), t2.id());
    assert!(t1.id() < t2.id());
}

#[test]
fn test_poll_counts_down_then_completes() {
    let mut source = TaskIdSource::new();
    let mut t = Task::new(&mut source, CountdownWork::new(1));
    assert_eq!(t.poll(), Poll::Pending);
    assert_eq!(t.poll(), Poll::Ready);
}

#[test]
fn test_immediate_task_removed_after_one_cycle() {
    let mut source = TaskIdSource::new();
    let mut executor: Executor<CountdownWork> = Executor::new();
    let task = Task::new(&mut source, CountdownWork::new(0));
    let id = task.id();
    executor.spawn(task);
    assert!(executor.has_task(id));
    assert!(!executor.wake_queue_is_empty());
    executor.run_ready_tasks();
    // Completed on its first poll: gone after exactly one drain cycle, and
    // the idle check says the run loop may halt instead of spinning.
    assert!(!executor.has_task(id));
    assert!(executor.wake_queue_is_empty());
}

#[test]
fn test_pending_task_not_polled_until_woken() {
    let mut source = TaskIdSource::new();
    let mut executor: Executor<CountdownWork> = Executor::new();
    let task = Task::new(&mut source, CountdownWork::new(1));
    let id = task.id();
    executor.spawn(task);
    executor.run_ready_tasks();
    // One "not ready" poll happened; one more poll would complete it.
    assert!(executor.has_task(id));
    // Without a wake, further drain cycles never poll it.
    executor.run_ready_tasks();
    executor.run_ready_tasks();
    assert!(executor.has_task(id));
    // Its waker fires: the next drain polls it once and it completes.
    executor.wake(id);
    executor.run_ready_tasks();
    assert!(!executor.has_task(id));
}

#[test]
fn test_multiple_wakes_enqueue_single_repoll() {
    let mut source = TaskIdSource::new();
    let mut executor: Executor<CountdownWork> = Executor::new();
    let task = Task::new(&mut source, CountdownWork::new(2));
    let id = task.id();
    executor.spawn(task);
    executor.run_ready_tasks();
    // The work now needs one more "not ready" poll before completing, so a
    // drain that polled it twice would finish it. Waking it several times
    // before the next drain must enqueue exactly one re-poll.
    executor.wake(id);
    executor.wake(id);
    executor.wake(id);
    executor.run_ready_tasks();
    assert!(executor.has_task(id));
    executor.wake(id);
    executor.run_ready_tasks();
    assert!(!executor.has_task(id));
}

#[test]
fn test_end_to_end_two_tasks() {
    let mut source = TaskIdSource::new();
    let mut executor: Executor<CountdownWork> = Executor::new();
    // A completes immediately; B reports "not ready" once, then completes on
    // its second poll after its waker fires.
    let task_a = Task::new(&mut source, CountdownWork::new(0));
    let task_b = Task::new(&mut source, CountdownWork::new(1));
    let id_a = task_a.id();
    let id_b = task_b.id();
    executor.spawn(task_a);
    executor.spawn(task_b);
    executor.run_ready_tasks();
    assert!(!executor.has_task(id_a));
    assert!(executor.has_task(id_b));
    executor.wake(id_b);
    executor.run_ready_tasks();
    assert!(!executor.has_task(id_b));
    assert!(executor.wake_queue_is_empty());
}

#[test]
fn test_stale_wake_absorbed() {
    let mut source = TaskIdSource::new();
    let mut executor: Executor<CountdownWork> = Executor::new();
    let task = Task::new(&mut source, CountdownWork::new(0));
    let id = task.id();
    executor.spawn(task);
    executor.run_ready_tasks();
    assert!(!executor.has_task(id));
    // A wake enqueued for a task that already finished is silently dropped.
    executor.wake(id);
    executor.run_ready_tasks();
    assert!(!executor.has_task(id));
    assert!(executor.wake_queue_is_empty());
}
