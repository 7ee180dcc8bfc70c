//! The round-robin scheduler's bookkeeping: which task runs, which run next, and
//! what happens to tasks that block, wake up or exit.
use vstd::prelude::*;
use crate::task::{Task, TaskState, can_charge_spec};

verus! {

/// Most tasks the scheduler holds at once.
pub const MAX_TASKS: usize = 64;

/// The message with which `add_task` refuses a task when the scheduler is full.
pub const TOO_MANY_TASKS: &'static str = "Maximum number of tasks reached";

/// The scheduler's task list, the task that runs, and the task the kernel booted in.
pub struct Scheduler {
    pub init_id: usize,
    pub current_task: usize,
    pub tasks: Vec<Task>,
}

/// What the context switch needs to move from the outgoing task to the next one.
#[derive(Debug, Clone, Copy, PartialEq, Eq)]
pub struct TaskSwitch {
    /// Index in the task list of the outgoing task, whose stack pointer is saved.
    pub old_index: usize,
    /// Stack pointer of the task to switch to.
    pub new_stack: usize,
    /// Physical start address of its top-level page table.
    pub page_table: u64,
}

/// `s[i]` is the first task with id `id`.
pub open spec fn first_with_id(s: Seq<Task>, i: int, id: usize) -> bool {
    &&& 0 <= i < s.len()
    &&& s[i].id == id
    &&& forall|j: int| 0 <= j < i ==> #[trigger] s[j].id != id
}

/// Some task of `s` has id `id`.
pub open spec fn has_id(s: Seq<Task>, id: usize) -> bool {
    exists|i: int| 0 <= i < s.len() && #[trigger] s[i].id == id
}

/// Index of the first task with id `id` (meaningful when there is one).
pub open spec fn index_of(s: Seq<Task>, id: usize) -> int {
    choose|i: int| first_with_id(s, i, id)
}

pub open spec fn is_ready(t: Task) -> bool {
    t.state == TaskState::Ready
}

/// `s[j]` is the first ready task among `s[lo..hi]`.
pub open spec fn first_ready_in(s: Seq<Task>, lo: int, hi: int, j: int) -> bool {
    &&& lo <= j < hi
    &&& 0 <= j < s.len()
    &&& is_ready(s[j])
    &&& forall|k: int| lo <= k < j ==> !is_ready(#[trigger] s[k])
}

/// Round robin: the first ready task after position `c`, else the first ready task up
/// to and including `c`, else the task at the front of the list.
pub open spec fn next_index(s: Seq<Task>, c: int) -> int {
    let after = c + 1;
    let end = s.len() as int;
    if exists|j: int| #[trigger] first_ready_in(s, after, end, j) {
        choose|j: int| #[trigger] first_ready_in(s, after, end, j)
    } else if exists|j: int| #[trigger] first_ready_in(s, 0, after, j) {
        choose|j: int| #[trigger] first_ready_in(s, 0, after, j)
    } else {
        0
    }
}

/// A task stays in the list unless it has terminated.
pub open spec fn is_live(t: Task) -> bool {
    t.state != TaskState::Terminated && t.state != TaskState::Zombie
}

/// `t` with the time from its start to `now` added to its CPU time.
pub open spec fn charged(t: Task, now: u64) -> Task {
    Task { cpu_time: (t.cpu_time + (now - t.start_time)) as u64, ..t }
}

/// The outgoing task after a switch away from it: charged for its time, and ready again
/// if it was running.
pub open spec fn descheduled(t: Task, now: u64) -> Task {
    let c = charged(t, now);
    if c.state == TaskState::Running {
        Task { state: TaskState::Ready, ..c }
    } else {
        c
    }
}

pub proof fn lemma_first_with_id_unique(s: Seq<Task>, i: int, id: usize)
    requires
        first_with_id(s, i, id),
    ensures
        index_of(s, id) == i,
        has_id(s, id),
{
    let k = index_of(s, id);
    assert(first_with_id(s, k, id));
    if k < i {
        assert(s[k].id != id);
    }
    if i < k {
        assert(s[i].id != id);
    }
}

pub proof fn lemma_first_ready_unique(s: Seq<Task>, lo: int, hi: int, j: int, k: int)
    requires
        first_ready_in(s, lo, hi, j),
        first_ready_in(s, lo, hi, k),
    ensures
        j == k,
{
    if j < k {
        assert(!is_ready(s[j]));
    }
    if k < j {
        assert(!is_ready(s[k]));
    }
}

/// Replacing a task by one with the same id, or adding one at the end, keeps every id
/// that was there.
pub proof fn lemma_has_id_kept(s: Seq<Task>, t: Seq<Task>, id: usize)
    requires
        has_id(s, id),
        s.len() <= t.len(),
        forall|k: int| 0 <= k < s.len() ==> #[trigger] t[k].id == s[k].id,
    ensures
        has_id(t, id),
{
    let w = choose|w: int| 0 <= w < s.len() && #[trigger] s[w].id == id;
    assert(t[w].id == id);
}

/// When some task has id `id`, `index_of` finds the first one.
pub proof fn lemma_index_of(s: Seq<Task>, id: usize)
    requires
        has_id(s, id),
    ensures
        first_with_id(s, index_of(s, id), id),
{
    let w = choose|w: int| 0 <= w < s.len() && #[trigger] s[w].id == id;
    lemma_first_with_id_from(s, id, w);
}

proof fn lemma_first_with_id_from(s: Seq<Task>, id: usize, w: int)
    requires
        0 <= w < s.len(),
        s[w].id == id,
    ensures
        first_with_id(s, index_of(s, id), id),
    decreases w,
{
    if exists|j: int| 0 <= j < w && #[trigger] s[j].id == id {
        let j = choose|j: int| 0 <= j < w && #[trigger] s[j].id == id;
        lemma_first_with_id_from(s, id, j);
    } else {
        lemma_first_with_id_unique(s, w, id);
    }
}

/// If some task in `s[lo..hi]` is ready, one of them is the first.
pub proof fn lemma_first_ready_exists(s: Seq<Task>, lo: int, hi: int, k: int)
    requires
        0 <= lo <= k < hi <= s.len(),
        is_ready(s[k]),
    ensures
        exists|j: int| #[trigger] first_ready_in(s, lo, hi, j),
    decreases k - lo,
{
    if is_ready(s[lo]) {
        assert(first_ready_in(s, lo, hi, lo));
    } else {
        lemma_first_ready_exists(s, lo + 1, hi, k);
        let j = choose|j: int| #[trigger] first_ready_in(s, lo + 1, hi, j);
        assert(first_ready_in(s, lo, hi, j));
    }
}

/// Round robin never passes over a ready task: when some task is ready, the task picked
/// after position `c` is ready, and every task between `c` and it, going round the
/// list, is not.
pub proof fn lemma_round_robin_picks_ready(s: Seq<Task>, c: int, k: int)
    requires
        0 <= c < s.len(),
        0 <= k < s.len(),
        is_ready(s[k]),
    ensures
        0 <= next_index(s, c) < s.len(),
        is_ready(s[next_index(s, c)]),
        next_index(s, c) > c ==> forall|m: int| c < m < next_index(s, c) ==> !is_ready(#[trigger] s[m]),
        next_index(s, c) <= c ==> {
            &&& forall|m: int| c < m < s.len() ==> !is_ready(#[trigger] s[m])
            &&& forall|m: int| 0 <= m < next_index(s, c) ==> !is_ready(#[trigger] s[m])
        },
{
    let after = c + 1;
    let end = s.len() as int;
    if exists|j: int| #[trigger] first_ready_in(s, after, end, j) {
        let j = choose|j: int| #[trigger] first_ready_in(s, after, end, j);
        assert(next_index(s, c) == j);
    } else {
        if k > c {
            lemma_first_ready_exists(s, after, end, k);
        }
        lemma_first_ready_exists(s, 0, after, k);
        let j = choose|j: int| #[trigger] first_ready_in(s, 0, after, j);
        assert(next_index(s, c) == j);
        assert forall|m: int| c < m < s.len() implies !is_ready(#[trigger] s[m]) by {
            if is_ready(s[m]) {
                lemma_first_ready_exists(s, after, end, m);
            }
        }
    }
}

/// A switch away from a task changes the state of no task but the outgoing one, which
/// only goes from running to ready, and the one picked, which becomes running; the
/// picked one was ready, unless none was and it is the task at the front.  So a task
/// that has terminated or is blocked stays so, whatever is scheduled.
pub proof fn lemma_schedule_changes_states(s: Seq<Task>, c: int, now: u64, k: int)
    requires
        0 <= c < s.len(),
        0 <= k < s.len(),
        k != c,
    ensures
        ({
            let t = s.update(c, descheduled(s[c], now));
            let n = next_index(t, c);
            &&& t[k] == s[k]
            &&& k == n ==> (is_ready(s[k]) || (k == 0 && forall|m: int| 0 <= m < t.len() ==> !is_ready(#[trigger] t[m])))
        }),
{
    let t = s.update(c, descheduled(s[c], now));
    let n = next_index(t, c);
    if k == n && !is_ready(s[k]) {
        assert forall|m: int| 0 <= m < t.len() implies !is_ready(#[trigger] t[m]) by {
            if is_ready(t[m]) {
                lemma_round_robin_picks_ready(t, c, m);
            }
        }
        let after = c + 1;
        let end = t.len() as int;
        if exists|j: int| #[trigger] first_ready_in(t, after, end, j) {
            let j = choose|j: int| #[trigger] first_ready_in(t, after, end, j);
            assert(is_ready(t[j]));
        }
        if exists|j: int| #[trigger] first_ready_in(t, 0, after, j) {
            let j = choose|j: int| #[trigger] first_ready_in(t, 0, after, j);
            assert(is_ready(t[j]));
        }
    }
}

/// No two tasks share an id.
pub open spec fn ids_unique(s: Seq<Task>) -> bool {
    forall|i: int, j: int| #![trigger s[i], s[j]] 0 <= i < j < s.len() ==> s[i].id != s[j].id
}

/// Every task that is running has the id `cur`: at most the current task runs.
pub open spec fn only_current_runs(s: Seq<Task>, cur: usize) -> bool {
    forall|i: int| 0 <= i < s.len() && (#[trigger] s[i]).state == TaskState::Running ==> s[i].id == cur
}

/// The task list and the current task after one round-robin switch at time `now`, as
/// `prepare_schedule` makes it.
pub open spec fn schedule_step(s: Seq<Task>, cur: usize, now: u64) -> (Seq<Task>, usize) {
    let c = index_of(s, cur);
    let t = s.update(c, descheduled(s[c], now));
    let n = next_index(t, c);
    if t[n].id == cur {
        (t, cur)
    } else {
        (t.update(n, Task { state: TaskState::Running, ..t[n] }), t[n].id)
    }
}

/// The task list and the current task after one round-robin switch at each of the
/// times `nows`, in order.
pub open spec fn schedule_steps(s: Seq<Task>, cur: usize, nows: Seq<u64>) -> (Seq<Task>, usize)
    decreases nows.len(),
{
    if nows.len() == 0 {
        (s, cur)
    } else {
        let next = schedule_step(s, cur, nows[0]);
        schedule_steps(next.0, next.1, nows.drop_first())
    }
}

/// How many places position `x` lies after position `c`, going round a list of `len`.
pub open spec fn places_ahead(c: int, x: int, len: int) -> int {
    if x > c { x - c } else { x - c + len }
}

/// With unique ids, the first task with the id of task `i` is task `i`.
pub proof fn lemma_unique_index_of(s: Seq<Task>, i: int)
    requires
        ids_unique(s),
        0 <= i < s.len(),
    ensures
        index_of(s, s[i].id) == i,
        has_id(s, s[i].id),
{
    assert forall|j: int| 0 <= j < i implies #[trigger] s[j].id != s[i].id by {}
    lemma_first_with_id_unique(s, i, s[i].id);
}

/// A switch keeps the ids of all tasks and moves the current task to one that exists.
pub proof fn lemma_schedule_step_ids(s: Seq<Task>, cur: usize, now: u64)
    requires
        has_id(s, cur),
    ensures
        ({
            let next = schedule_step(s, cur, now);
            &&& next.0.len() == s.len()
            &&& forall|k: int| 0 <= k < s.len() ==> #[trigger] next.0[k].id == s[k].id
            &&& has_id(next.0, next.1)
            &&& ids_unique(s) ==> ids_unique(next.0)
        }),
{
    lemma_index_of(s, cur);
    let c = index_of(s, cur);
    let t = s.update(c, descheduled(s[c], now));
    assert(is_ready(t[c]) || !is_ready(t[c]));
    if exists|k: int| 0 <= k < t.len() && is_ready(#[trigger] t[k]) {
        let k = choose|k: int| 0 <= k < t.len() && is_ready(#[trigger] t[k]);
        lemma_round_robin_picks_ready(t, c, k);
    } else {
        let after = c + 1;
        let end = t.len() as int;
        if exists|j: int| #[trigger] first_ready_in(t, after, end, j) {
            let j = choose|j: int| #[trigger] first_ready_in(t, after, end, j);
            assert(is_ready(t[j]));
        }
        if exists|j: int| #[trigger] first_ready_in(t, 0, after, j) {
            let j = choose|j: int| #[trigger] first_ready_in(t, 0, after, j);
            assert(is_ready(t[j]));
        }
    }
    let n = next_index(t, c);
    let next = schedule_step(s, cur, now);
    assert(0 <= n < s.len());
    assert forall|k: int| 0 <= k < s.len() implies #[trigger] next.0[k].id == s[k].id by {}
    assert(next.0[n].id == t[n].id);
    if t[n].id == cur {
        assert(next.0[c].id == cur);
    }
}

/// A switch, made when every running task has the current id and no two tasks share
/// an id, leaves every running task with the new current id: at most the current task
/// runs, before and after.
pub proof fn lemma_schedule_keeps_one_running(s: Seq<Task>, cur: usize, now: u64)
    requires
        ids_unique(s),
        has_id(s, cur),
        only_current_runs(s, cur),
    ensures
        ({
            let next = schedule_step(s, cur, now);
            only_current_runs(next.0, next.1)
        }),
{
    lemma_index_of(s, cur);
    lemma_schedule_step_ids(s, cur, now);
    let c = index_of(s, cur);
    let t = s.update(c, descheduled(s[c], now));
    let n = next_index(t, c);
    // after the outgoing task is descheduled no task runs
    assert forall|i: int| 0 <= i < t.len() implies (#[trigger] t[i]).state != TaskState::Running by {
        if i != c {
            assert(s[i].id != s[c].id);
        }
    }
}

/// One switch while task `x` is ready and not current: either `x` becomes current, or
/// it stays ready and the new current task lies strictly closer in front of it, going
/// round the list.
pub proof fn lemma_round_robin_step(s: Seq<Task>, cur: usize, x: int, now: u64)
    requires
        ids_unique(s),
        has_id(s, cur),
        0 <= x < s.len(),
        is_ready(s[x]),
        s[x].id != cur,
    ensures
        ({
            let c = index_of(s, cur);
            let next = schedule_step(s, cur, now);
            &&& next.1 != cur
            &&& next.1 == s[x].id || {
                &&& ids_unique(next.0)
                &&& has_id(next.0, next.1)
                &&& next.0.len() == s.len()
                &&& is_ready(next.0[x])
                &&& next.0[x].id == s[x].id
                &&& next.0[x].id != next.1
                &&& 0 < places_ahead(index_of(next.0, next.1), x, s.len() as int) < places_ahead(
                    c,
                    x,
                    s.len() as int,
                )
            }
        }),
{
    lemma_index_of(s, cur);
    lemma_schedule_step_ids(s, cur, now);
    let c = index_of(s, cur);
    let t = s.update(c, descheduled(s[c], now));
    assert(x != c);
    assert(t[x] == s[x]);
    lemma_round_robin_picks_ready(t, c, x);
    let n = next_index(t, c);
    if n > c {
        assert(x > c ==> n <= x) by {
            if x > c && x < n {
                assert(!is_ready(t[x]));
            }
        }
    } else {
        assert(!(c < x < s.len()) && !(0 <= x < n)) by {
            if c < x < s.len() {
                assert(!is_ready(t[x]));
            }
            if 0 <= x < n {
                assert(!is_ready(t[x]));
            }
        }
    }
    assert(n != c);
    assert(t[n] == s[n]);
    assert(s[n].id != s[c].id);
    let next = schedule_step(s, cur, now);
    assert(next.1 == s[n].id);
    if n != x {
        assert(s[n].id != s[x].id);
        assert(next.0[x] == t[x]);
        assert(next.0[n].id == s[n].id);
        lemma_unique_index_of(next.0, n);
    }
}

/// Starting from a task list with unique ids, a ready task `x` that is not current
/// becomes the current task within `places_ahead` switches.
pub proof fn lemma_round_robin_reaches(s: Seq<Task>, cur: usize, x: int, nows: Seq<u64>)
    requires
        ids_unique(s),
        has_id(s, cur),
        0 <= x < s.len(),
        is_ready(s[x]),
        s[x].id != cur,
        nows.len() >= places_ahead(index_of(s, cur), x, s.len() as int),
    ensures
        exists|k: int|
            1 <= k <= places_ahead(index_of(s, cur), x, s.len() as int) && (#[trigger] schedule_steps(
                s,
                cur,
                nows.take(k),
            )).1 == s[x].id,
    decreases places_ahead(index_of(s, cur), x, s.len() as int),
{
    let c = index_of(s, cur);
    let d = places_ahead(c, x, s.len() as int);
    lemma_index_of(s, cur);
    lemma_round_robin_step(s, cur, x, nows[0]);
    let next = schedule_step(s, cur, nows[0]);
    assert(nows.take(1).drop_first() =~= Seq::<u64>::empty());
    assert(schedule_steps(next.0, next.1, Seq::<u64>::empty()) == next);
    assert(schedule_steps(s, cur, nows.take(1)) == next);
    if next.1 != s[x].id {
        let rest = nows.drop_first();
        lemma_round_robin_reaches(next.0, next.1, x, rest);
        let k = choose|k: int|
            1 <= k <= places_ahead(index_of(next.0, next.1), x, s.len() as int) && (#[trigger] schedule_steps(
                next.0,
                next.1,
                rest.take(k),
            )).1 == s[x].id;
        assert(nows.take(k + 1).drop_first() =~= rest.take(k));
        assert(nows.take(k + 1)[0] == nows[0]);
        assert(schedule_steps(s, cur, nows.take(k + 1)) == schedule_steps(next.0, next.1, rest.take(k)));
    }
}

/// Round robin lets no ready task starve: when no two tasks share an id, a ready task
/// that is not the current one becomes the current task within fewer switches than
/// there are tasks, while nothing but switches happens in between.
pub proof fn lemma_round_robin_no_starvation(s: Seq<Task>, cur: usize, x: int, nows: Seq<u64>)
    requires
        ids_unique(s),
        has_id(s, cur),
        0 <= x < s.len(),
        is_ready(s[x]),
        s[x].id != cur,
        nows.len() >= s.len() - 1,
    ensures
        exists|k: int| 1 <= k < s.len() && (#[trigger] schedule_steps(s, cur, nows.take(k))).1 == s[x].id,
{
    lemma_index_of(s, cur);
    let c = index_of(s, cur);
    assert(x != c);
    lemma_round_robin_reaches(s, cur, x, nows);
}

/// Keeping only some tasks keeps the ids apart and keeps every running task's id.
pub proof fn lemma_filter_keeps_invariants(s: Seq<Task>, pred: spec_fn(Task) -> bool, cur: usize)
    ensures
        ids_unique(s) ==> ids_unique(s.filter(pred)),
        only_current_runs(s, cur) ==> only_current_runs(s.filter(pred), cur),
    decreases s.len(),
{
    let f = s.filter(pred);
    assert forall|i: int| 0 <= i < f.len() implies s.contains(#[trigger] f[i]) by {
        assert(f.contains(f[i]));
        s.lemma_filter_contains_rev(pred, f[i]);
    }
    if s.len() > 0 {
        reveal_with_fuel(Seq::filter, 1);
        let r = s.drop_last();
        lemma_filter_keeps_invariants(r, pred, cur);
        if ids_unique(s) {
            assert forall|i: int, j: int| #![trigger r[i], r[j]] 0 <= i < j < r.len() implies r[i].id
                != r[j].id by {
                assert(r[i] == s[i] && r[j] == s[j]);
            }
            let g = r.filter(pred);
            if pred(s.last()) {
                assert(f == g.push(s.last()));
                assert forall|i: int| 0 <= i < g.len() implies (#[trigger] g[i]).id != s.last().id by {
                    assert(g.contains(g[i]));
                    r.lemma_filter_contains_rev(pred, g[i]);
                    let k = choose|k: int| 0 <= k < r.len() && r[k] == g[i];
                    assert(s[k] == r[k]);
                }
                assert forall|i: int, j: int| #![trigger f[i], f[j]] 0 <= i < j < f.len() implies f[i].id
                    != f[j].id by {
                    if j == f.len() - 1 {
                        assert(f[i] == g[i]);
                    } else {
                        assert(f[i] == g[i] && f[j] == g[j]);
                    }
                }
            } else {
                assert(f == g);
            }
        }
    }
}

impl Scheduler {
    /// The list is not empty and holds at most `MAX_TASKS` tasks; the boot task leads
    /// it and has not terminated.
    pub open spec fn wf(&self) -> bool {
        &&& 1 <= self.tasks@.len() <= MAX_TASKS
        &&& self.tasks@[0].id == self.init_id
        &&& is_live(self.tasks@[0])
    }

    /// A scheduler whose only task is the boot task, which runs.
    pub fn new(boot_id: usize, boot_page_table: u64) -> (r: Scheduler)
        ensures
            r.wf(),
            r.init_id == boot_id,
            r.current_task == boot_id,
            r.tasks@.len() == 1,
            r.tasks@[0].id == boot_id,
            r.tasks@[0].name@ == "kernel_main"@,
            r.tasks@[0].state == TaskState::Running,
            r.tasks@[0].page_table == boot_page_table,
            r.tasks@[0].stack_pointer == 0,
            r.tasks@[0].base_stack is None,
            r.tasks@[0].start_time == 0,
            r.tasks@[0].cpu_time == 0,
            r.tasks@[0].exit_code is None,
            r.tasks@[0].priority == 0,
            r.tasks@[0].memory_usage == 0,
            r.tasks@[0].parent_id is None,
            r.tasks@[0].children@.len() == 0,
    {
        let first = Task::new_boot_task(boot_id, boot_page_table);
        let mut tasks = Vec::new();
        tasks.push(first);
        Scheduler { init_id: boot_id, current_task: boot_id, tasks }
    }

    /// Index of the first task with id `id`, if there is one.
    fn find_index(&self, id: usize) -> (r: Option<usize>)
        ensures
            match r {
                Some(i) => first_with_id(self.tasks@, i as int, id),
                None => !has_id(self.tasks@, id),
            },
    {
        let mut i: usize = 0;
        while i < self.tasks.len()
            invariant
                i <= self.tasks@.len(),
                forall|j: int| 0 <= j < i ==> #[trigger] self.tasks@[j].id != id,
            decreases self.tasks@.len() - i,
        {
            if self.tasks[i].id == id {
                return Some(i);
            }
            i = i + 1;
        }
        None
    }

    /// Whether the first task with id `task_id`, if there is one, can be charged for
    /// its time up to `now` without its CPU time overflowing.
    pub fn can_charge_task(&self, task_id: usize, now: u64) -> (r: bool)
        ensures
            r == (has_id(self.tasks@, task_id) ==> can_charge_spec(
                self.tasks@[index_of(self.tasks@, task_id)],
                now,
            )),
    {
        match self.find_index(task_id) {
            Some(i) => {
                proof {
                    lemma_first_with_id_unique(self.tasks@, i as int, task_id);
                }
                self.tasks[i].can_charge(now)
            },
            None => true,
        }
    }

    /// Whether some task has id `task_id`.
    pub fn has_task(&self, task_id: usize) -> (r: bool)
        ensures
            r == has_id(self.tasks@, task_id),
    {
        match self.find_index(task_id) {
            Some(i) => {
                proof {
                    lemma_first_with_id_unique(self.tasks@, i as int, task_id);
                }
                true
            },
            None => false,
        }
    }

    /// Adds a task to the end of the list, unless the scheduler already holds
    /// `MAX_TASKS` tasks.
    pub fn add_task(&mut self, task: Task) -> (r: Result<(), &'static str>)
        requires
            old(self).wf(),
        ensures
            final(self).wf(),
            final(self).init_id == old(self).init_id,
            final(self).current_task == old(self).current_task,
            has_id(old(self).tasks@, old(self).current_task) ==> has_id(
                final(self).tasks@,
                final(self).current_task,
            ),
            old(self).tasks@.len() >= MAX_TASKS ==> r == Err::<(), &'static str>(TOO_MANY_TASKS)
                && final(self).tasks@ == old(self).tasks@,
            old(self).tasks@.len() < MAX_TASKS ==> r == Ok::<(), &'static str>(())
                && final(self).tasks@ == old(self).tasks@.push(task),
            ids_unique(old(self).tasks@) && !has_id(old(self).tasks@, task.id) ==> ids_unique(
                final(self).tasks@,
            ),
            only_current_runs(old(self).tasks@, old(self).current_task) && task.state
                != TaskState::Running ==> only_current_runs(final(self).tasks@, final(self).current_task),
    {
        if self.tasks.len() >= MAX_TASKS {
            return Err(TOO_MANY_TASKS);
        }
        let ghost s = self.tasks@;
        self.tasks.push(task);
        proof {
            if has_id(s, self.current_task) {
                lemma_has_id_kept(s, self.tasks@, self.current_task);
            }
        }
        Ok(())
    }

    /// Index of the task that runs next under round robin.
    fn next_task_index(&self) -> (r: usize)
        requires
            has_id(self.tasks@, self.current_task),
        ensures
            r == next_index(self.tasks@, index_of(self.tasks@, self.current_task)),
            r < self.tasks@.len(),
    {
        let ghost s = self.tasks@;
        let c = match self.find_index(self.current_task) {
            Some(c) => c,
            None => {
                return 0;
            },
        };
        proof {
            lemma_first_with_id_unique(s, c as int, self.current_task);
        }
        let len = self.tasks.len();
        let ghost after = c + 1;
        let ghost end = len as int;
        let mut i: usize = c + 1;
        while i < len
            invariant
                self.tasks@ == s,
                index_of(s, self.current_task) == c,
                len == s.len(),
                c < len,
                c + 1 <= i <= len,
                after == c + 1,
                end == len,
                forall|k: int| after <= k < i ==> !is_ready(#[trigger] s[k]),
            decreases len - i,
        {
            if self.tasks[i].state == TaskState::Ready {
                proof {
                    assert(first_ready_in(s, after, end, i as int));
                    let j = choose|j: int| #[trigger] first_ready_in(s, after, end, j);
                    lemma_first_ready_unique(s, after, end, i as int, j);
                }
                return i;
            }
            i = i + 1;
        }
        proof {
            assert forall|j: int| !#[trigger] first_ready_in(s, after, end, j) by {
                if first_ready_in(s, after, end, j) {
                    assert(!is_ready(s[j]));
                }
            }
        }
        let mut j: usize = 0;
        while j <= c
            invariant
                self.tasks@ == s,
                index_of(s, self.current_task) == c,
                len == s.len(),
                c < len,
                j <= c + 1,
                after == c + 1,
                end == len,
                forall|k: int| 0 <= k < j ==> !is_ready(#[trigger] s[k]),
                forall|j: int| !#[trigger] first_ready_in(s, after, end, j),
            decreases c + 1 - j,
        {
            if self.tasks[j].state == TaskState::Ready {
                proof {
                    assert(first_ready_in(s, 0, after, j as int));
                    let k = choose|k: int| #[trigger] first_ready_in(s, 0, after, k);
                    lemma_first_ready_unique(s, 0, after, j as int, k);
                }
                return j;
            }
            j = j + 1;
        }
        proof {
            assert forall|k: int| !#[trigger] first_ready_in(s, 0, after, k) by {
                if first_ready_in(s, 0, after, k) {
                    assert(!is_ready(s[k]));
                }
            }
        }
        0
    }

    /// The task that runs next under round robin: the first ready task after the
    /// running one, else the first ready task up to and including it, else the task at
    /// the front of the list.
    pub fn select_next_task(&mut self) -> (r: &mut Task)
        requires
            has_id(old(self).tasks@, old(self).current_task),
        ensures
            ({
                let n = next_index(old(self).tasks@, index_of(old(self).tasks@, old(self).current_task));
                &&& *r == old(self).tasks@[n]
                &&& final(self).tasks@ == old(self).tasks@.update(n, *final(r))
            }),
            final(self).init_id == old(self).init_id,
            final(self).current_task == old(self).current_task,
    {
        let n = self.next_task_index();
        &mut self.tasks[n]
    }

    /// The task that runs.
    pub fn get_current_task(&mut self) -> (r: &mut Task)
        requires
            has_id(old(self).tasks@, old(self).current_task),
        ensures
            ({
                let c = index_of(old(self).tasks@, old(self).current_task);
                &&& *r == old(self).tasks@[c]
                &&& final(self).tasks@ == old(self).tasks@.update(c, *final(r))
            }),
            final(self).init_id == old(self).init_id,
            final(self).current_task == old(self).current_task,
    {
        let c = match self.find_index(self.current_task) {
            Some(c) => c,
            None => {
                proof {
                    assert(false);
                }
                0
            },
        };
        proof {
            lemma_first_with_id_unique(self.tasks@, c as int, self.current_task);
        }
        &mut self.tasks[c]
    }

    /// Moves the running task out of the processor and picks the next one by round
    /// robin, at time `now`.  The outgoing task is charged for its time and, if it was
    /// running, made ready again.  When another task is picked it becomes the running
    /// one and the switch to it is returned.
    pub fn prepare_schedule(&mut self, now: u64) -> (r: Option<TaskSwitch>)
        requires
            old(self).wf(),
            has_id(old(self).tasks@, old(self).current_task),
            can_charge_spec(old(self).tasks@[index_of(old(self).tasks@, old(self).current_task)], now),
        ensures
            final(self).wf(),
            final(self).init_id == old(self).init_id,
            has_id(final(self).tasks@, final(self).current_task),
            ({
                let s = old(self).tasks@;
                let c = index_of(s, old(self).current_task);
                let t = s.update(c, descheduled(s[c], now));
                let n = next_index(t, c);
                if t[n].id == old(self).current_task {
                    &&& r is None
                    &&& final(self).tasks@ == t
                    &&& final(self).current_task == old(self).current_task
                } else {
                    &&& r == Some(
                        TaskSwitch { old_index: c as usize, new_stack: t[n].stack_pointer, page_table: t[n].page_table },
                    )
                    &&& final(self).tasks@ == t.update(n, Task { state: TaskState::Running, ..t[n] })
                    &&& final(self).current_task == t[n].id
                }
            }),
            (final(self).tasks@, final(self).current_task) == schedule_step(
                old(self).tasks@,
                old(self).current_task,
                now,
            ),
            ids_unique(old(self).tasks@) ==> ids_unique(final(self).tasks@),
            ids_unique(old(self).tasks@) && only_current_runs(old(self).tasks@, old(self).current_task)
                ==> only_current_runs(final(self).tasks@, final(self).current_task),
    {
        let ghost s = self.tasks@;
        let current_task_id = self.current_task;
        let c = match self.find_index(current_task_id) {
            Some(c) => c,
            None => {
                return None;
            },
        };
        proof {
            lemma_first_with_id_unique(s, c as int, current_task_id);
            lemma_schedule_step_ids(s, current_task_id, now);
            if ids_unique(s) && only_current_runs(s, current_task_id) {
                lemma_schedule_keeps_one_running(s, current_task_id, now);
            }
        }
        self.tasks[c].charge(now);
        if self.tasks[c].state == TaskState::Running {
            self.tasks[c].state = TaskState::Ready;
        }
        let ghost t = self.tasks@;
        proof {
            assert(t =~= s.update(c as int, descheduled(s[c as int], now)));
            assert(first_with_id(t, c as int, current_task_id));
            lemma_first_with_id_unique(t, c as int, current_task_id);
        }
        let n = self.next_task_index();
        let next_task_id = self.tasks[n].id;
        if current_task_id == next_task_id {
            proof {
                assert(self.tasks@[c as int].id == current_task_id);
            }
            return None;
        }
        let page_table = self.tasks[n].page_table;
        let new_stack = self.tasks[n].stack_pointer;
        self.tasks[n].state = TaskState::Running;
        self.current_task = next_task_id;
        assert(self.tasks@[n as int].id == self.current_task);
        Some(TaskSwitch { old_index: c, new_stack, page_table })
    }

    /// Marks the first task with id `task_id` terminated with `exit_code`, charging it
    /// for its time up to `now`.  Returns whether there was such a task.
    pub fn exit_task(&mut self, task_id: usize, exit_code: i32, now: u64) -> (r: bool)
        requires
            old(self).wf(),
            task_id != old(self).init_id,
            has_id(old(self).tasks@, task_id) ==> can_charge_spec(
                old(self).tasks@[index_of(old(self).tasks@, task_id)],
                now,
            ),
        ensures
            final(self).wf(),
            final(self).init_id == old(self).init_id,
            final(self).current_task == old(self).current_task,
            has_id(old(self).tasks@, old(self).current_task) ==> has_id(
                final(self).tasks@,
                final(self).current_task,
            ),
            r == has_id(old(self).tasks@, task_id),
            r ==> {
                let i = index_of(old(self).tasks@, task_id);
                let t = charged(old(self).tasks@[i], now);
                final(self).tasks@ == old(self).tasks@.update(
                    i,
                    Task { state: TaskState::Terminated, exit_code: Some(exit_code), ..t },
                )
            },
            !r ==> final(self).tasks@ == old(self).tasks@,
            ids_unique(old(self).tasks@) ==> ids_unique(final(self).tasks@),
            only_current_runs(old(self).tasks@, old(self).current_task) ==> only_current_runs(
                final(self).tasks@,
                final(self).current_task,
            ),
    {
        let ghost s = self.tasks@;
        match self.find_index(task_id) {
            Some(i) => {
                proof {
                    lemma_first_with_id_unique(s, i as int, task_id);
                }
                self.tasks[i].charge(now);
                self.tasks[i].state = TaskState::Terminated;
                self.tasks[i].exit_code = Some(exit_code);
                proof {
                    if has_id(s, self.current_task) {
                        lemma_has_id_kept(s, self.tasks@, self.current_task);
                    }
                }
                true
            },
            None => false,
        }
    }

    /// Terminates the running task with `exit_code` at time `now`; see `exit_task`.
    pub fn exit_current_task(&mut self, exit_code: i32, now: u64) -> (r: bool)
        requires
            old(self).wf(),
            old(self).current_task != old(self).init_id,
            has_id(old(self).tasks@, old(self).current_task) ==> can_charge_spec(
                old(self).tasks@[index_of(old(self).tasks@, old(self).current_task)],
                now,
            ),
        ensures
            final(self).wf(),
            final(self).init_id == old(self).init_id,
            final(self).current_task == old(self).current_task,
            has_id(old(self).tasks@, old(self).current_task) ==> has_id(
                final(self).tasks@,
                final(self).current_task,
            ),
            r == has_id(old(self).tasks@, old(self).current_task),
            r ==> {
                let i = index_of(old(self).tasks@, old(self).current_task);
                let t = charged(old(self).tasks@[i], now);
                final(self).tasks@ == old(self).tasks@.update(
                    i,
                    Task { state: TaskState::Terminated, exit_code: Some(exit_code), ..t },
                )
            },
            !r ==> final(self).tasks@ == old(self).tasks@,
            ids_unique(old(self).tasks@) ==> ids_unique(final(self).tasks@),
            only_current_runs(old(self).tasks@, old(self).current_task) ==> only_current_runs(
                final(self).tasks@,
                final(self).current_task,
            ),
    {
        let current = self.current_task;
        self.exit_task(current, exit_code, now)
    }

    /// Blocks the running task, charging it for its time up to `now`.
    pub fn block_current_task(&mut self, now: u64)
        requires
            old(self).wf(),
            has_id(old(self).tasks@, old(self).current_task),
            can_charge_spec(old(self).tasks@[index_of(old(self).tasks@, old(self).current_task)], now),
        ensures
            final(self).wf(),
            final(self).init_id == old(self).init_id,
            final(self).current_task == old(self).current_task,
            has_id(old(self).tasks@, old(self).current_task) ==> has_id(
                final(self).tasks@,
                final(self).current_task,
            ),
            ({
                let c = index_of(old(self).tasks@, old(self).current_task);
                let t = charged(old(self).tasks@[c], now);
                final(self).tasks@ == old(self).tasks@.update(c, Task { state: TaskState::Blocked, ..t })
            }),
            ids_unique(old(self).tasks@) ==> ids_unique(final(self).tasks@),
            only_current_runs(old(self).tasks@, old(self).current_task) ==> only_current_runs(
                final(self).tasks@,
                final(self).current_task,
            ),
    {
        let ghost s = self.tasks@;
        let c = match self.find_index(self.current_task) {
            Some(c) => c,
            None => {
                return;
            },
        };
        proof {
            lemma_first_with_id_unique(s, c as int, self.current_task);
        }
        self.tasks[c].state = TaskState::Blocked;
        self.tasks[c].charge(now);
        proof {
            lemma_has_id_kept(s, self.tasks@, self.current_task);
        }
    }

    /// Makes the first task with id `task_id` ready again if it is blocked.
    pub fn wakeup_task(&mut self, task_id: usize)
        requires
            old(self).wf(),
        ensures
            final(self).wf(),
            final(self).init_id == old(self).init_id,
            final(self).current_task == old(self).current_task,
            has_id(old(self).tasks@, old(self).current_task) ==> has_id(
                final(self).tasks@,
                final(self).current_task,
            ),
            ({
                let s = old(self).tasks@;
                let i = index_of(s, task_id);
                if has_id(s, task_id) && s[i].state == TaskState::Blocked {
                    final(self).tasks@ == s.update(i, Task { state: TaskState::Ready, ..s[i] })
                } else {
                    final(self).tasks@ == s
                }
            }),
            ids_unique(old(self).tasks@) ==> ids_unique(final(self).tasks@),
            only_current_runs(old(self).tasks@, old(self).current_task) ==> only_current_runs(
                final(self).tasks@,
                final(self).current_task,
            ),
    {
        let ghost s = self.tasks@;
        match self.find_index(task_id) {
            Some(i) => {
                proof {
                    lemma_first_with_id_unique(s, i as int, task_id);
                }
                if self.tasks[i].state == TaskState::Blocked {
                    self.tasks[i].state = TaskState::Ready;
                }
                proof {
                    if has_id(s, self.current_task) {
                        lemma_has_id_kept(s, self.tasks@, self.current_task);
                    }
                }
            },
            None => {},
        }
    }

    /// Removes the tasks that have terminated and hands them back, in list order.
    pub fn clear_terminated_tasks(&mut self) -> (removed: Vec<Task>)
        requires
            old(self).wf(),
        ensures
            final(self).wf(),
            final(self).init_id == old(self).init_id,
            final(self).current_task == old(self).current_task,
            final(self).tasks@ == old(self).tasks@.filter(|t: Task| is_live(t)),
            removed@ == old(self).tasks@.filter(|t: Task| !is_live(t)),
            forall|k: int| 0 <= k < final(self).tasks@.len() ==> is_live(#[trigger] final(self).tasks@[k]),
            has_id(old(self).tasks@, old(self).current_task) && is_live(
                old(self).tasks@[index_of(old(self).tasks@, old(self).current_task)],
            ) ==> has_id(final(self).tasks@, final(self).current_task),
            ids_unique(old(self).tasks@) ==> ids_unique(final(self).tasks@),
            only_current_runs(old(self).tasks@, old(self).current_task) ==> only_current_runs(
                final(self).tasks@,
                final(self).current_task,
            ),
    {
        let ghost s = self.tasks@;
        let mut rest: Vec<Task> = Vec::new();
        std::mem::swap(&mut rest, &mut self.tasks);
        let mut kept: Vec<Task> = Vec::new();
        let mut removed: Vec<Task> = Vec::new();
        let ghost mut i: int = 0;
        while rest.len() > 0
            invariant
                0 <= i <= s.len(),
                rest@ == s.skip(i),
                kept@ == s.take(i).filter(|t: Task| is_live(t)),
                removed@ == s.take(i).filter(|t: Task| !is_live(t)),
                i > 0 ==> kept@.len() > 0 && kept@[0] == s[0],
                1 <= s.len() <= MAX_TASKS,
                is_live(s[0]),
            decreases rest@.len(),
        {
            let task = rest.remove(0);
            proof {
                assert(s.take(i + 1) =~= s.take(i).push(task));
                s.take(i).lemma_filter_push(task, |t: Task| is_live(t));
                s.take(i).lemma_filter_push(task, |t: Task| !is_live(t));
                if i == 0 {
                    reveal_with_fuel(Seq::filter, 1);
                    assert(s.take(0) =~= Seq::<Task>::empty());
                }
            }
            if task.state != TaskState::Terminated && task.state != TaskState::Zombie {
                kept.push(task);
            } else {
                removed.push(task);
            }
            proof {
                i = i + 1;
                assert(rest@ =~= s.skip(i));
            }
        }
        proof {
            assert(s.take(i) =~= s);
            s.lemma_filter_len(|t: Task| is_live(t));
            let live = |t: Task| is_live(t);
            assert forall|k: int| 0 <= k < kept@.len() implies is_live(#[trigger] kept@[k]) by {
                s.lemma_filter_pred(live, k);
            }
            lemma_filter_keeps_invariants(s, live, self.current_task);
            if has_id(s, self.current_task) && is_live(s[index_of(s, self.current_task)]) {
                let c = index_of(s, self.current_task);
                lemma_index_of(s, self.current_task);
                s.lemma_filter_contains(live, c);
                let k = choose|k: int| 0 <= k < kept@.len() && kept@[k] == s[c];
                assert(kept@[k].id == self.current_task);
            }
        }
        self.tasks = kept;
        removed
    }
}

} // verus!

verus! {

/// The id of the running task.
pub fn get_current_task_id(scheduler: &Scheduler) -> (r: usize)
    ensures
        r == scheduler.current_task,
{
    scheduler.current_task
}

/// Blocks the running task of `scheduler` at time `now`.
pub fn block_current_task(scheduler: &mut Scheduler, now: u64)
    requires
        old(scheduler).wf(),
        has_id(old(scheduler).tasks@, old(scheduler).current_task),
        can_charge_spec(
            old(scheduler).tasks@[index_of(old(scheduler).tasks@, old(scheduler).current_task)],
            now,
        ),
    ensures
        final(scheduler).wf(),
        final(scheduler).init_id == old(scheduler).init_id,
        final(scheduler).current_task == old(scheduler).current_task,
        ({
            let c = index_of(old(scheduler).tasks@, old(scheduler).current_task);
            let t = charged(old(scheduler).tasks@[c], now);
            final(scheduler).tasks@ == old(scheduler).tasks@.update(c, Task { state: TaskState::Blocked, ..t })
        }),        ids_unique(old(scheduler).tasks@) ==> ids_unique(final(scheduler).tasks@),
        only_current_runs(old(scheduler).tasks@, old(scheduler).current_task) ==> only_current_runs(
            final(scheduler).tasks@,
            final(scheduler).current_task,
        ),
{
    scheduler.block_current_task(now);
}

/// Wakes the task `task_id` of `scheduler` if it is blocked.
pub fn wakeup_task(scheduler: &mut Scheduler, task_id: usize)
    requires
        old(scheduler).wf(),
    ensures
        final(scheduler).wf(),
        final(scheduler).init_id == old(scheduler).init_id,
        final(scheduler).current_task == old(scheduler).current_task,
        ({
            let s = old(scheduler).tasks@;
            let i = index_of(s, task_id);
            if has_id(s, task_id) && s[i].state == TaskState::Blocked {
                final(scheduler).tasks@ == s.update(i, Task { state: TaskState::Ready, ..s[i] })
            } else {
                final(scheduler).tasks@ == s
            }
        }),        ids_unique(old(scheduler).tasks@) ==> ids_unique(final(scheduler).tasks@),
        only_current_runs(old(scheduler).tasks@, old(scheduler).current_task) ==> only_current_runs(
            final(scheduler).tasks@,
            final(scheduler).current_task,
        ),
{
    scheduler.wakeup_task(task_id);
}

} // verus!
