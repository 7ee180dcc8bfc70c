//! Tasks: their states, the register frame a new task starts from, and the layout of
//! a new task's stack.
use vstd::prelude::*;

verus! {

/// Bytes of stack given to each task (four pages).
pub const STACK_SIZE: usize = 16384;

/// Bytes of the register frame that the context switch pops off a new task's stack
/// (eight 64-bit registers).
pub const TASK_CONTEXT_SIZE: usize = 64;

/// Bytes of the return-address slot at the very top of a new task's stack.
pub const RETURN_SLOT_SIZE: usize = 8;

/// The value of RFLAGS a new task starts with: interrupts enabled, reserved bit 1 set.
pub const INITIAL_RFLAGS: u64 = 0x202;

/// Where a task is in its life.
#[derive(Debug, Clone, Copy, PartialEq, Eq, Structural)]
pub enum TaskState {
    New,
    Ready,
    Running,
    Waiting,
    Suspended,
    Zombie,
    Terminated,
    Blocked,
}

/// The registers that the context switch saves and restores, in the order in which
/// they lie on the stack (lowest address first).
#[derive(Debug, Clone, Copy)]
pub struct TaskContext {
    pub r15: u64,
    pub r14: u64,
    pub r13: u64,
    pub r12: u64,
    pub rbp: u64,
    pub rbx: u64,
    pub rflags: u64,
    pub rip: u64,
}

impl TaskContext {
    /// The register frame of a task that has not run yet: callee-saved registers
    /// cleared, interrupts enabled, and execution starting at `entry_point`.
    pub fn initial(entry_point: u64) -> (r: TaskContext)
        ensures
            r.r15 == 0 && r.r14 == 0 && r.r13 == 0 && r.r12 == 0 && r.rbp == 0 && r.rbx == 0,
            r.rflags == INITIAL_RFLAGS,
            r.rip == entry_point,
    {
        TaskContext { r15: 0, r14: 0, r13: 0, r12: 0, rbp: 0, rbx: 0, rflags: INITIAL_RFLAGS, rip: entry_point }
    }

    /// The frame as the eight words that are written to the stack, lowest address first.
    pub fn to_words(&self) -> (r: [u64; 8])
        ensures
            r@ == seq![self.r15, self.r14, self.r13, self.r12, self.rbp, self.rbx, self.rflags, self.rip],
    {
        [self.r15, self.r14, self.r13, self.r12, self.rbp, self.rbx, self.rflags, self.rip]
    }
}

/// A schedulable task.
pub struct Task {
    pub id: usize,
    pub name: String,
    pub stack_pointer: usize,
    pub base_stack: Option<usize>,
    pub state: TaskState,
    /// Physical start address of the task's top-level page table.
    pub page_table: u64,
    pub priority: u8,
    pub start_time: u64,
    pub cpu_time: u64,
    pub memory_usage: usize,
    pub parent_id: Option<usize>,
    pub children: Vec<usize>,
    pub exit_code: Option<i32>,
}

/// Address of the slot at the top of a new stack that holds the return address the
/// task's entry function returns to.
pub open spec fn return_slot_spec(stack_base: int) -> int {
    stack_base + STACK_SIZE - RETURN_SLOT_SIZE
}

/// Initial stack pointer of a new task: just below the return slot, room for the
/// register frame.
pub open spec fn initial_stack_pointer_spec(stack_base: int) -> int {
    stack_base + STACK_SIZE - TASK_CONTEXT_SIZE - RETURN_SLOT_SIZE
}

/// Whether the time from `t.start_time` to `now` can be added to `t.cpu_time`.
pub open spec fn can_charge_spec(t: Task, now: u64) -> bool {
    now >= t.start_time && t.cpu_time + (now - t.start_time) <= u64::MAX
}

impl Task {
    /// A new task whose stack is the `STACK_SIZE` bytes at `stack_base`, ready to run
    /// from the register frame below its return slot, in the address space whose
    /// top-level page table starts at `page_table`.
    pub fn new(id: usize, name: &str, stack_base: usize, page_table: u64) -> (r: Task)
        requires
            stack_base + STACK_SIZE <= usize::MAX,
        ensures
            r.id == id,
            r.name@ == name@,
            r.stack_pointer == initial_stack_pointer_spec(stack_base as int),
            r.base_stack == Some(stack_base),
            r.state == TaskState::Ready,
            r.page_table == page_table,
            r.priority == 0,
            r.start_time == 0,
            r.cpu_time == 0,
            r.memory_usage == STACK_SIZE,
            r.parent_id is None,
            r.children@.len() == 0,
            r.exit_code is None,
    {
        let stack_ptr_end = stack_base + STACK_SIZE;
        let stack_ptr = stack_ptr_end - TASK_CONTEXT_SIZE - RETURN_SLOT_SIZE;
        Task {
            id,
            name: name.to_owned(),
            stack_pointer: stack_ptr,
            base_stack: Some(stack_base),
            state: TaskState::Ready,
            page_table,
            priority: 0,
            start_time: 0,
            cpu_time: 0,
            memory_usage: STACK_SIZE,
            parent_id: None,
            children: Vec::new(),
            exit_code: None,
        }
    }

    /// The task the kernel boots in: already running, on the boot stack (its stack
    /// pointer is filled in by the first switch away from it), in the boot address space.
    pub fn new_boot_task(id: usize, page_table: u64) -> (r: Task)
        ensures
            r.id == id,
            r.name@ == "kernel_main"@,
            r.stack_pointer == 0,
            r.base_stack is None,
            r.state == TaskState::Running,
            r.page_table == page_table,
            r.priority == 0,
            r.start_time == 0,
            r.cpu_time == 0,
            r.memory_usage == 0,
            r.parent_id is None,
            r.children@.len() == 0,
            r.exit_code is None,
    {
        Task {
            id,
            name: "kernel_main".to_owned(),
            stack_pointer: 0,
            base_stack: None,
            state: TaskState::Running,
            page_table,
            priority: 0,
            start_time: 0,
            cpu_time: 0,
            memory_usage: 0,
            parent_id: None,
            children: Vec::new(),
            exit_code: None,
        }
    }

    /// Address of the return slot of the stack at `stack_base`.
    pub fn return_slot(stack_base: usize) -> (r: usize)
        requires
            stack_base + STACK_SIZE <= usize::MAX,
        ensures
            r == return_slot_spec(stack_base as int),
    {
        stack_base + STACK_SIZE - RETURN_SLOT_SIZE
    }

    /// Whether the time from the task's start to `now` can be added to its CPU time.
    pub fn can_charge(&self, now: u64) -> (r: bool)
        ensures
            r == can_charge_spec(*self, now),
    {
        now >= self.start_time && self.cpu_time <= u64::MAX - (now - self.start_time)
    }

    /// Adds the time from the task's start to `now` to its CPU time.
    pub fn charge(&mut self, now: u64)
        requires
            can_charge_spec(*old(self), now),
        ensures
            *final(self) == (Task { cpu_time: (old(self).cpu_time + (now - old(self).start_time)) as u64, ..*old(self) }),
    {
        self.cpu_time = self.cpu_time + (now - self.start_time);
    }
}

/// Hands out task ids in increasing order, so that no id is handed out twice.
pub struct TaskIdCounter {
    next: usize,
}

impl TaskIdCounter {
    /// The id handed out next.
    pub closed spec fn upcoming(&self) -> usize {
        self.next
    }

    /// A counter that hands out 0 first.
    pub fn new() -> (r: TaskIdCounter)
        ensures
            r.upcoming() == 0,
    {
        TaskIdCounter { next: 0 }
    }

    /// Whether another id can be handed out.
    pub fn can_issue(&self) -> (r: bool)
        ensures
            r == (self.upcoming() < usize::MAX),
    {
        self.next < usize::MAX
    }

    /// Hands out the next id.  Every id handed out later is greater than this one.
    pub fn next_id(&mut self) -> (id: usize)
        requires
            old(self).upcoming() < usize::MAX,
        ensures
            id == old(self).upcoming(),
            final(self).upcoming() == id + 1,
    {
        let id = self.next;
        self.next = self.next + 1;
        id
    }
}

} // verus!

