//! Executor scheduling, queue overflow, and the wake-up protocol.

use nuclea_r_os::events::ScancodeQueue;
use nuclea_r_os::tasks::{Executor, Task};

#[test]
fn immediate_task_completes() {
    let mut ex = Executor::new();
    let mut q = ScancodeQueue::new(8);
    let id = ex.spawn(Task::new_immediate());
    ex.run_until_idle(&mut q);
    assert_eq!(ex.completed_ids().as_slice(), &[id]);
}

#[test]
fn completion_follows_spawn_order() {
    // A completes immediately, B suspends once then completes; spawned in
    // order A, B, both complete and A's completion is observed first.
    let mut ex = Executor::new();
    let mut q = ScancodeQueue::new(8);
    let a = ex.spawn(Task::new_immediate());
    let b = ex.spawn(Task::new_yield_once());
    ex.run_until_idle(&mut q);
    assert_eq!(ex.completed_ids().as_slice(), &[a, b]);
}

#[test]
fn yield_once_needs_two_polls() {
    let mut ex = Executor::new();
    let mut q = ScancodeQueue::new(8);
    let id = ex.spawn(Task::new_yield_once());
    ex.run_until_idle(&mut q);
    assert_eq!(ex.completed_ids().as_slice(), &[id]);
}

#[test]
fn queue_overflow_drops_the_newest_event() {
    let mut q = ScancodeQueue::new(4);
    for code in 1..=4u8 {
        assert!(q.push(code), "push {code} within capacity failed");
    }
    assert!(!q.push(5), "push past capacity was accepted");
    for code in 1..=4u8 {
        assert_eq!(q.pop(), Some(code));
    }
    assert_eq!(q.pop(), None);
}

#[test]
fn push_hands_the_registered_waker_over() {
    let mut q = ScancodeQueue::new(4);
    q.register_waker(7);
    assert!(q.push(0x20));
    assert_eq!(q.take_wake(), Some(7));
    // The waker was taken: another push posts no second wake.
    assert!(q.push(0x21));
    assert_eq!(q.take_wake(), None);
}

#[test]
fn no_lost_wakeup() {
    let mut ex = Executor::new();
    let mut q = ScancodeQueue::new(8);
    let id = ex.spawn(Task::new_keyboard());
    // First turn: the consumer finds the queue empty, registers its waker,
    // and suspends.
    ex.run_until_idle(&mut q);
    match ex.task_ref(id) {
        Some(Task::Keyboard(st)) => assert!(st.seen.is_empty()),
        _ => panic!("consumer task missing"),
    }
    // An interrupt pushes one scancode; the push takes the waker.
    assert!(q.push(0x1E));
    // The next turn re-polls the consumer, which observes the event.
    ex.run_until_idle(&mut q);
    assert_eq!(q.pop(), None);
    match ex.task_ref(id) {
        Some(Task::Keyboard(st)) => {
            assert_eq!(st.seen.as_slice(), &[0x1E]);
            // Scancode 0x1E is the press of the A key in scancode set 1.
            assert_eq!(st.line.as_slice(), &['a']);
        },
        _ => panic!("consumer task missing"),
    }
}

#[test]
fn consumer_drains_events_in_order() {
    let mut ex = Executor::new();
    let mut q = ScancodeQueue::new(8);
    let id = ex.spawn(Task::new_keyboard());
    // Events queued before the first poll: 'a' press, 'b' press.
    assert!(q.push(0x1E));
    assert!(q.push(0x30));
    ex.run_until_idle(&mut q);
    match ex.task_ref(id) {
        Some(Task::Keyboard(st)) => {
            assert_eq!(st.seen.as_slice(), &[0x1E, 0x30]);
            assert_eq!(st.line.as_slice(), &['a', 'b']);
        },
        _ => panic!("consumer task missing"),
    }
}

#[test]
fn stale_wake_for_a_completed_task_is_skipped() {
    let mut ex = Executor::new();
    let mut q = ScancodeQueue::new(8);
    let id = ex.spawn(Task::new_immediate());
    ex.run_until_idle(&mut q);
    assert_eq!(ex.completed_ids().as_slice(), &[id]);
    // A wake arrives for the already-completed task.
    q.register_waker(id);
    assert!(q.push(0x1F));
    ex.run_until_idle(&mut q);
    // Nothing ran twice and nothing panicked.
    assert_eq!(ex.completed_ids().as_slice(), &[id]);
}
