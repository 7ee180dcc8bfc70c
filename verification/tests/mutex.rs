use my_os::mutex::{Mutex, TaskQueue, MAX_MUTEX_WAIT_QUEUE};
use my_os::scheduler::Scheduler;
use my_os::task::{Task, TaskState};

fn sched_with(n: usize) -> Scheduler {
    let mut s = Scheduler::new(0, 0x1000);
    for id in 1..=n {
        s.add_task(Task::new(id, "t", 0x10_0000 * id, 0)).unwrap();
    }
    s
}

#[test]
fn task_queue_is_a_stack() {
    let mut q = TaskQueue::new();
    assert_eq!(q.pop(), None);
    q.push(1);
    q.push(2);
    q.push(3);
    assert_eq!(q.len(), 3);
    assert_eq!(q.pop(), Some(3));
    assert_eq!(q.pop(), Some(2));
    assert_eq!(q.pop(), Some(1));
    assert_eq!(q.pop(), None);
    assert_eq!(MAX_MUTEX_WAIT_QUEUE, 64);
}

#[test]
fn free_mutex_is_taken_at_once() {
    let mut s = sched_with(1);
    let mut m = Mutex::new(0u8);
    assert!(!m.locked());
    assert!(m.try_lock(&mut s, 0));
    assert!(m.locked());
    assert_eq!(m.waiter_count(), 0);
    *m.data_mut() += 1;
    assert_eq!(*m.data(), 1);
    assert_eq!(m.unlock(&mut s), None);
    assert!(!m.locked());
}

#[test]
fn contended_lock_blocks_and_unlock_wakes_the_last_waiter() {
    let mut s = sched_with(3);
    let mut m = Mutex::new(());
    // the boot task takes the lock
    assert!(m.try_lock(&mut s, 0));
    // tasks 1 and 2 try in turn and block
    s.prepare_schedule(0).unwrap();
    assert_eq!(s.current_task, 1);
    assert!(!m.try_lock(&mut s, 3));
    assert_eq!(s.tasks[1].state, TaskState::Blocked);
    s.prepare_schedule(3).unwrap();
    assert_eq!(s.current_task, 2);
    assert!(!m.try_lock(&mut s, 4));
    assert_eq!(m.waiter_count(), 2);
    s.prepare_schedule(4).unwrap();
    assert_eq!(s.current_task, 3);
    s.prepare_schedule(4).unwrap();
    assert_eq!(s.current_task, 0);
    // unlocking wakes task 2, the one that queued last
    assert_eq!(m.unlock(&mut s), Some(2));
    assert_eq!(s.tasks[2].state, TaskState::Ready);
    assert_eq!(s.tasks[1].state, TaskState::Blocked);
    s.prepare_schedule(5).unwrap();
    assert_eq!(s.current_task, 2);
    assert!(m.try_lock(&mut s, 5));
    assert_eq!(m.waiter_count(), 1);
    assert_eq!(m.unlock(&mut s), Some(1));
    assert_eq!(s.tasks[1].state, TaskState::Ready);
    assert_eq!(m.waiter_count(), 0);
}

#[test]
fn acquirer_leaves_the_wait_queue() {
    let mut s = sched_with(2);
    let mut m = Mutex::new(5u32);
    assert!(m.try_lock(&mut s, 0));
    s.prepare_schedule(0).unwrap();
    assert!(!m.try_lock(&mut s, 0));
    s.prepare_schedule(0).unwrap();
    assert!(!m.try_lock(&mut s, 0));
    assert_eq!(m.waiter_count(), 2);
    s.prepare_schedule(0).unwrap();
    assert_eq!(s.current_task, 0);
    // task 1 is woken by someone else while still queued
    my_os::scheduler::wakeup_task(&mut s, 1);
    assert_eq!(m.unlock(&mut s), Some(2));
    assert_eq!(m.waiter_count(), 1);
    s.prepare_schedule(0).unwrap();
    assert_eq!(s.current_task, 1);
    assert!(m.try_lock(&mut s, 0));
    // taking the lock removed task 1 from the wait queue
    assert_eq!(m.waiter_count(), 0);
    assert_eq!(*m.data(), 5);
}
