use verust::executor::Executor;
use verust::runtime::{
    poll_future, verona_runtime_init, verona_runtime_shutdown, verona_schedule_task,
    verona_scheduler_run, PollResult, Runtime, TaskState,
};

#[test]
fn init_keeps_first_configuration() {
    // two racing init calls interleave as two calls in some order: only the
    // first takes effect, whatever count the second asks for
    let mut rt = Runtime::new();
    assert!(!rt.is_initialized());
    verona_runtime_init(&mut rt, 4);
    verona_runtime_init(&mut rt, 8);
    assert!(rt.is_initialized());
    assert_eq!(rt.worker_count(), 4);
    verona_runtime_init(&mut rt, 2);
    assert_eq!(rt.worker_count(), 4);
}

#[test]
fn executor_reports_configuration() {
    let e = Executor::new(4);
    assert_eq!(e.worker_count(), 4);
    assert_eq!(e.task_count(), 0);
    assert!(!e.is_stopping());
}

#[test]
fn suspend_once_then_complete() {
    // a future that suspends once (a pending wait) and then completes:
    // run returns only after it completed
    let mut e = Executor::new(2);
    let t = e.spawn(1, false);
    assert_eq!(e.task_state(t), TaskState::Queued);
    e.run();
    assert_eq!(e.task_state(t), TaskState::Completed);
    assert!(!e.task_faulted(t));
}

#[test]
fn fault_is_contained() {
    // a future that faults on its first step does not crash the engine and
    // does not keep an unrelated task from completing
    let mut e = Executor::new(4);
    let bad = e.spawn(0, true);
    let good = e.spawn(2, false);
    e.run();
    assert_eq!(e.task_state(bad), TaskState::Completed);
    assert!(e.task_faulted(bad));
    assert_eq!(e.task_state(good), TaskState::Completed);
    assert!(!e.task_faulted(good));

    // a task spawned after the fault still gets its turn
    let later = e.spawn(1, false);
    e.run();
    assert_eq!(e.task_state(later), TaskState::Completed);
    assert!(!e.task_faulted(later));
}

#[test]
fn poll_guard_excludes_second_worker() {
    // while a poll is in flight the task is out of the queue, so a second
    // worker finds nothing; a wake storm meanwhile is coalesced
    let mut rt = Runtime::new();
    verona_runtime_init(&mut rt, 1);
    let t = rt.spawn_task(2, false);
    let got = rt.next_task().unwrap();
    assert_eq!(got, t);
    assert_eq!(rt.task_state(t), TaskState::Polling);
    assert_eq!(rt.next_task(), None);

    // wakes during the in-flight poll only mark the task
    verona_schedule_task(&mut rt, t);
    verona_schedule_task(&mut rt, t);
    assert_eq!(rt.task_state(t), TaskState::Polling);

    // the pending step honors the coalesced wake: straight back in queue
    let r = poll_future(&mut rt, t);
    assert_eq!(r, PollResult::Pending);
    assert_eq!(rt.task_state(t), TaskState::Queued);

    // waking a queued task changes nothing
    verona_schedule_task(&mut rt, t);
    verona_scheduler_run(&mut rt);
    assert_eq!(rt.task_state(t), TaskState::Completed);
    assert!(!rt.task_faulted(t));
}

#[test]
fn pending_task_parks_until_wake() {
    let mut rt = Runtime::new();
    verona_runtime_init(&mut rt, 1);
    let t = rt.spawn_task(1, false);
    let got = rt.next_task().unwrap();
    let r = poll_future(&mut rt, got);
    assert_eq!(r, PollResult::Pending);
    // no wake arrived during the poll: the task parks
    assert_eq!(rt.task_state(t), TaskState::Suspended);
    assert_eq!(rt.next_task(), None);

    // the wake re-submits it; the final poll completes it
    verona_schedule_task(&mut rt, t);
    let again = rt.next_task().unwrap();
    assert_eq!(again, t);
    let r2 = poll_future(&mut rt, again);
    assert_eq!(r2, PollResult::Completed);
    assert_eq!(rt.task_state(t), TaskState::Completed);
    // a stray wake for a completed task is a no-op
    verona_schedule_task(&mut rt, t);
    assert_eq!(rt.task_state(t), TaskState::Completed);
}

#[test]
fn shutdown_lets_outstanding_work_finish() {
    let mut e = Executor::new(1);
    let t = e.spawn(3, false);
    e.shutdown();
    assert!(e.is_stopping());
    e.run();
    assert_eq!(e.task_state(t), TaskState::Completed);
    assert!(!e.task_faulted(t));
}

#[test]
fn run_drains_many_tasks() {
    let mut rt = Runtime::new();
    verona_runtime_init(&mut rt, 4);
    let mut ids = Vec::new();
    for i in 0..50 {
        ids.push(rt.spawn_task(i % 5, i % 7 == 0));
    }
    verona_scheduler_run(&mut rt);
    for (i, t) in ids.iter().enumerate() {
        assert_eq!(rt.task_state(*t), TaskState::Completed);
        assert_eq!(rt.task_faulted(*t), i % 7 == 0);
    }
    verona_runtime_shutdown(&mut rt);
    assert!(rt.is_stopping());
}
