use my_os::scheduler::{
    block_current_task, get_current_task_id, wakeup_task, Scheduler, TaskSwitch, MAX_TASKS,
};
use my_os::task::{Task, TaskState, RETURN_SLOT_SIZE, STACK_SIZE, TASK_CONTEXT_SIZE};

const STACKS: usize = 0x10_0000;

fn task(id: usize) -> Task {
    Task::new(id, "task", STACKS + id * STACK_SIZE, 0x2000 + id as u64 * 0x1000)
}

fn sched_with(n: usize) -> Scheduler {
    let mut s = Scheduler::new(0, 0x1000);
    for id in 1..=n {
        s.add_task(task(id)).unwrap();
    }
    s
}

fn states(s: &Scheduler) -> Vec<TaskState> {
    s.tasks.iter().map(|t| t.state).collect()
}

#[test]
fn new_scheduler_runs_the_boot_task() {
    let s = Scheduler::new(7, 0x1000);
    assert_eq!(s.init_id, 7);
    assert_eq!(s.current_task, 7);
    assert_eq!(s.tasks.len(), 1);
    assert_eq!(s.tasks[0].name, "kernel_main");
    assert_eq!(s.tasks[0].state, TaskState::Running);
    assert_eq!(s.tasks[0].page_table, 0x1000);
    assert_eq!(get_current_task_id(&s), 7);
}

#[test]
fn new_task_stack_layout() {
    let t = Task::new(3, "worker", STACKS, 0x5000);
    assert_eq!(t.stack_pointer, STACKS + STACK_SIZE - TASK_CONTEXT_SIZE - RETURN_SLOT_SIZE);
    assert_eq!(t.stack_pointer, STACKS + 16384 - 72);
    assert_eq!(Task::return_slot(STACKS), STACKS + 16384 - 8);
    assert_eq!(t.base_stack, Some(STACKS));
    assert_eq!(t.state, TaskState::Ready);
    assert_eq!(t.memory_usage, STACK_SIZE);
    assert_eq!(t.name, "worker");
    assert_eq!(t.exit_code, None);
}

#[test]
fn add_task_refuses_beyond_max() {
    let mut s = sched_with(MAX_TASKS - 1);
    assert_eq!(s.tasks.len(), MAX_TASKS);
    assert_eq!(s.add_task(task(1000)), Err("Maximum number of tasks reached"));
    assert_eq!(s.tasks.len(), MAX_TASKS);
}

#[test]
fn round_robin_switches_to_the_next_ready_task() {
    let mut s = sched_with(2);
    let sw = s.prepare_schedule(100).unwrap();
    assert_eq!(
        sw,
        TaskSwitch { old_index: 0, new_stack: s.tasks[1].stack_pointer, page_table: 0x3000 }
    );
    assert_eq!(s.current_task, 1);
    assert_eq!(states(&s), vec![TaskState::Ready, TaskState::Running, TaskState::Ready]);
    assert_eq!(s.tasks[0].cpu_time, 100);
    s.prepare_schedule(150).unwrap();
    assert_eq!(s.current_task, 2);
    s.prepare_schedule(200).unwrap();
    assert_eq!(s.current_task, 0);
    assert_eq!(s.tasks[0].cpu_time, 100);
    assert_eq!(s.tasks[1].cpu_time, 150);
    assert_eq!(s.tasks[2].cpu_time, 200);
}

#[test]
fn test_multiple_tasks_all_run() {
    let mut s = sched_with(5);
    let mut ran = vec![];
    for _ in 0..5 {
        s.prepare_schedule(0).unwrap();
        ran.push(s.current_task);
    }
    assert_eq!(ran, vec![1, 2, 3, 4, 5]);
}

#[test]
fn no_switch_when_only_the_running_task_is_ready() {
    let mut s = Scheduler::new(0, 0x1000);
    assert_eq!(s.prepare_schedule(5), None);
    assert_eq!(s.current_task, 0);
    // the running task was made ready and picked again
    assert_eq!(s.tasks[0].state, TaskState::Ready);
}

#[test]
fn select_next_task_wraps_around() {
    let mut s = sched_with(3);
    s.prepare_schedule(0).unwrap();
    s.prepare_schedule(0).unwrap();
    assert_eq!(s.current_task, 2);
    s.tasks[3].state = TaskState::Blocked;
    assert_eq!(s.select_next_task().id, 0);
    assert_eq!(s.get_current_task().id, 2);
}

#[test]
fn test_task_exit_code_recorded() {
    let mut s = sched_with(1);
    s.prepare_schedule(0).unwrap();
    assert!(s.exit_current_task(7, 40));
    assert_eq!(s.tasks[1].exit_code, Some(7));
    assert_eq!(s.tasks[1].state, TaskState::Terminated);
    assert_eq!(s.tasks[1].cpu_time, 40);
    assert!(!s.exit_task(99, 1, 0));
}

#[test]
fn test_terminated_task_removed_after_clear() {
    let mut s = sched_with(2);
    s.prepare_schedule(0).unwrap();
    assert_eq!(s.current_task, 1);
    assert!(s.exit_current_task(3, 0));
    // the exited task is not made ready again when it is switched away from
    s.prepare_schedule(0).unwrap();
    assert_eq!(s.tasks[1].state, TaskState::Terminated);
    s.prepare_schedule(0).unwrap();
    let removed = s.clear_terminated_tasks();
    assert_eq!(removed.len(), 1);
    assert_eq!(removed[0].id, 1);
    assert_eq!(removed[0].exit_code, Some(3));
    assert!(!s.tasks.iter().any(|t| t.id == 1));
    assert_eq!(s.tasks.iter().map(|t| t.id).collect::<Vec<_>>(), vec![0, 2]);
}

#[test]
fn blocked_task_is_skipped_until_woken() {
    let mut s = sched_with(2);
    s.prepare_schedule(0).unwrap();
    block_current_task(&mut s, 10);
    assert_eq!(s.tasks[1].state, TaskState::Blocked);
    assert_eq!(s.tasks[1].cpu_time, 10);
    s.prepare_schedule(0).unwrap();
    assert_eq!(s.current_task, 2);
    s.prepare_schedule(0).unwrap();
    assert_eq!(s.current_task, 0);
    s.prepare_schedule(0).unwrap();
    assert_eq!(s.current_task, 2);
    wakeup_task(&mut s, 1);
    assert_eq!(s.tasks[1].state, TaskState::Ready);
    s.prepare_schedule(0).unwrap();
    assert_eq!(s.current_task, 0);
    s.prepare_schedule(0).unwrap();
    assert_eq!(s.current_task, 1);
}

#[test]
fn wakeup_leaves_tasks_that_are_not_blocked() {
    let mut s = sched_with(1);
    wakeup_task(&mut s, 1);
    assert_eq!(s.tasks[1].state, TaskState::Ready);
    wakeup_task(&mut s, 0);
    assert_eq!(s.tasks[0].state, TaskState::Running);
    wakeup_task(&mut s, 42);
    assert_eq!(states(&s), vec![TaskState::Running, TaskState::Ready]);
}

#[test]
fn charging_checks() {
    let mut s = sched_with(1);
    assert!(s.can_charge_task(0, 5));
    s.tasks[0].cpu_time = u64::MAX;
    assert!(!s.can_charge_task(0, 5));
    assert!(s.can_charge_task(0, 0));
    assert!(s.can_charge_task(77, 5));
    assert!(s.has_task(1));
    assert!(!s.has_task(77));
}

fn running_ids(s: &Scheduler) -> Vec<usize> {
    s.tasks.iter().filter(|t| t.state == TaskState::Running).map(|t| t.id).collect()
}

#[test]
fn only_the_current_task_ever_runs() {
    let mut s = sched_with(4);
    for step in 0..20u64 {
        if step == 5 {
            s.block_current_task(100 + step);
        }
        if step == 9 {
            s.wakeup_task(2);
        }
        s.prepare_schedule(100 + step);
        let running = running_ids(&s);
        assert!(running.is_empty() || running == vec![s.current_task], "step {}: {:?}", step, running);
    }
}

#[test]
fn a_ready_task_is_scheduled_within_one_round() {
    // task 4 is ready and last in the list; the boot task runs at the front
    let mut s = sched_with(4);
    s.tasks[2].state = TaskState::Blocked;
    let n = s.tasks.len();
    let mut reached = None;
    for k in 1..n {
        s.prepare_schedule(10 * k as u64);
        if s.current_task == 4 {
            reached = Some(k);
            break;
        }
    }
    let k = reached.expect("task 4 was never scheduled");
    assert!(k <= n - 1);
    assert_eq!(k, 3);
}
