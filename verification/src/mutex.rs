//! A blocking mutex for a single-processor kernel: a lock bit and the stack of tasks
//! waiting for the lock.  A task that finds the lock taken is queued and blocked in
//! the scheduler; unlocking wakes the task queued last.
use vstd::prelude::*;
use crate::scheduler::{Scheduler, has_id, index_of, charged, block_current_task, wakeup_task};
use crate::task::{Task, TaskState, can_charge_spec};

verus! {

/// Most tasks that can wait for one mutex at once.
pub const MAX_MUTEX_WAIT_QUEUE: usize = 64;

/// The ids of the tasks waiting for a mutex, as a stack.
pub struct TaskQueue {
    ids: [usize; 64],
    size: usize,
}

impl TaskQueue {
    /// The waiting task ids, oldest first.
    pub closed spec fn view(&self) -> Seq<usize> {
        self.ids@.take(self.size as int)
    }

    /// The whole id array, the slots past the waiting ids included.
    pub closed spec fn slots(&self) -> Seq<usize> {
        self.ids@
    }

    pub closed spec fn wf(&self) -> bool {
        self.size <= MAX_MUTEX_WAIT_QUEUE
    }

    pub fn new() -> (r: Self)
        ensures
            r.wf(),
            r@ == Seq::<usize>::empty(),
    {
        TaskQueue { ids: [0; 64], size: 0 }
    }

    pub fn len(&self) -> (r: usize)
        requires
            self.wf(),
        ensures
            r == self@.len(),
    {
        self.size
    }

    /// Queues `id` on top.
    pub fn push(&mut self, id: usize)
        requires
            old(self).wf(),
            old(self)@.len() < MAX_MUTEX_WAIT_QUEUE,
        ensures
            final(self).wf(),
            final(self)@ == old(self)@.push(id),
            final(self).slots() == old(self).slots().update(old(self)@.len() as int, id),
    {
        let ghost old_ids = self.ids@;
        self.ids[self.size] = id;
        self.size = self.size + 1;
        assert(self@ =~= old_ids.take(self.size - 1).push(id));
    }

    /// Takes the id on top, the one queued last.
    pub fn pop(&mut self) -> (r: Option<usize>)
        requires
            old(self).wf(),
        ensures
            final(self).wf(),
            old(self)@.len() == 0 ==> r is None && final(self)@ == old(self)@,
            old(self)@.len() > 0 ==> r == Some(old(self)@.last()) && final(self)@ == old(self)@.drop_last(),
            final(self).slots() == old(self).slots(),
    {
        if self.size == 0 {
            return None;
        }
        self.size = self.size - 1;
        assert(self@ =~= old(self)@.drop_last());
        Some(self.ids[self.size])
    }

    /// Keeps, in order, the ids for which `keep` answers `true`; `keep` answers as
    /// `pred` says.
    pub(crate) fn retain<F: Fn(usize) -> bool>(&mut self, keep: F, Ghost(pred): Ghost<spec_fn(usize) -> bool>)
        requires
            old(self).wf(),
            forall|id: usize| #[trigger] call_requires(keep, (id,)),
            forall|id: usize, b: bool| call_ensures(keep, (id,), b) ==> b == pred(id),
        ensures
            final(self).wf(),
            final(self)@ == old(self)@.filter(pred),
    {
        let ghost s = self@;
        let size = self.size;
        let mut w: usize = 0;
        let mut r: usize = 0;
        while r < size
            invariant
                size == s.len(),
                size <= MAX_MUTEX_WAIT_QUEUE,
                self.size == size,
                w <= r <= size,
                forall|i: int| r <= i < size ==> self.ids@[i] == s[i],
                self.ids@.take(w as int) == s.take(r as int).filter(pred),
                forall|id: usize| #[trigger] call_requires(keep, (id,)),
                forall|id: usize, b: bool| call_ensures(keep, (id,), b) ==> b == pred(id),
            decreases size - r,
        {
            let id = self.ids[r];
            let kept = keep(id);
            proof {
                assert(s.take(r + 1) =~= s.take(r as int).push(id));
                s.take(r as int).lemma_filter_push(id, pred);
                assert(pred(id) == kept);
            }
            if kept {
                let ghost before = self.ids@;
                self.ids[w] = id;
                assert(self.ids@.take(w + 1) =~= before.take(w as int).push(id));
                w = w + 1;
            }
            r = r + 1;
        }
        self.size = w;
        assert(s.take(size as int) =~= s);
    }
}


/// A mutex guarding a `T`: whether it is taken, and the tasks waiting for it.
pub struct Mutex<T> {
    state: bool,
    queue: TaskQueue,
    data: T,
}

/// The state in which `try_lock` can make its attempt without the wait queue
/// overflowing, and without the running task's CPU time overflowing when it blocks.
pub open spec fn can_attempt<T>(m: Mutex<T>, s: Scheduler, now: u64) -> bool {
    m.is_locked() ==> {
        &&& s.wf()
        &&& has_id(s.tasks@, s.current_task)
        &&& m.waiters().len() < MAX_MUTEX_WAIT_QUEUE
        &&& can_charge_spec(s.tasks@[index_of(s.tasks@, s.current_task)], now)
    }
}

/// One step of a run on a mutex: an attempt to take it (`try_lock`), a release
/// (`unlock`), or a use of the guarded value (`data`, `data_mut`).
pub enum LockStep {
    Attempt,
    Release,
    Use,
}

/// How the mutex `before` becomes `after` in one step; `granted` is what an attempt
/// returned.  `try_lock`, `unlock` and `data_mut` each ensure that their call is such a
/// step, and `data` changes nothing.
pub open spec fn step_follows<T>(before: Mutex<T>, step: LockStep, granted: bool, after: Mutex<T>) -> bool {
    match step {
        LockStep::Attempt => granted == !before.is_locked() && after.is_locked(),
        LockStep::Release => !after.is_locked(),
        LockStep::Use => after.is_locked() == before.is_locked(),
    }
}

/// After a granted attempt the mutex stays locked for as long as no release follows.
proof fn lemma_locked_until_release<T>(states: Seq<Mutex<T>>, steps: Seq<LockStep>, granted: Seq<bool>, i: int, k: int)
    requires
        states.len() == steps.len() + 1,
        granted.len() == steps.len(),
        forall|m: int| 0 <= m < steps.len() ==> step_follows(states[m], #[trigger] steps[m], granted[m], states[m + 1]),
        0 <= i < k <= steps.len(),
        steps[i] is Attempt,
        forall|m: int| i < m < k ==> !(#[trigger] steps[m] is Release),
    ensures
        states[k].is_locked(),
    decreases k - i,
{
    if k > i + 1 {
        lemma_locked_until_release(states, steps, granted, i, k - 1);
        assert(step_follows(states[k - 1], steps[k - 1], granted[k - 1], states[k]));
    } else {
        assert(step_follows(states[i], steps[i], granted[i], states[i + 1]));
    }
}

/// Mutual exclusion: in a run of steps on one mutex, between two attempts that are
/// both granted there is a release, so at most one task holds the lock at any time.
pub proof fn lemma_mutual_exclusion<T>(states: Seq<Mutex<T>>, steps: Seq<LockStep>, granted: Seq<bool>, i: int, j: int)
    requires
        states.len() == steps.len() + 1,
        granted.len() == steps.len(),
        forall|m: int| 0 <= m < steps.len() ==> step_follows(states[m], #[trigger] steps[m], granted[m], states[m + 1]),
        0 <= i < j < steps.len(),
        steps[i] is Attempt,
        granted[i],
        steps[j] is Attempt,
        granted[j],
    ensures
        exists|k: int| i < k < j && #[trigger] steps[k] is Release,
{
    if forall|m: int| i < m < j ==> !(#[trigger] steps[m] is Release) {
        lemma_locked_until_release(states, steps, granted, i, j);
        assert(step_follows(states[j], steps[j], granted[j], states[j + 1]));
    }
}

impl<T> Mutex<T> {
    pub closed spec fn is_locked(&self) -> bool {
        self.state
    }

    /// The ids of the waiting tasks, oldest first.
    pub closed spec fn waiters(&self) -> Seq<usize> {
        self.queue@
    }

    /// The guarded value.
    pub closed spec fn value(&self) -> T {
        self.data
    }

    pub closed spec fn wf(&self) -> bool {
        self.queue.wf()
    }

    /// An unlocked mutex with nobody waiting, guarding `data`.
    pub fn new(data: T) -> (r: Self)
        ensures
            r.wf(),
            !r.is_locked(),
            r.waiters() == Seq::<usize>::empty(),
            r.value() == data,
    {
        Mutex { state: false, queue: TaskQueue::new(), data }
    }

    /// One attempt of the running task of `scheduler` to take the lock, at time `now`.
    /// If the lock is free the task takes it, leaves the wait queue, and `true` is
    /// returned.  Otherwise the task is queued on top of the waiters and blocked, and
    /// `false` is returned: it tries again once it has been woken up and scheduled.
    pub fn try_lock(&mut self, scheduler: &mut Scheduler, now: u64) -> (acquired: bool)
        requires
            old(self).wf(),
            can_attempt(*old(self), *old(scheduler), now),
        ensures
            final(self).wf(),
            old(scheduler).wf() ==> final(scheduler).wf(),
            final(self).is_locked(),
            final(self).value() == old(self).value(),
            acquired == !old(self).is_locked(),
            step_follows(*old(self), LockStep::Attempt, acquired, *final(self)),
            acquired ==> {
                &&& final(self).waiters() == old(self).waiters().filter(
                    |id: usize| id != old(scheduler).current_task,
                )
                &&& !final(self).waiters().contains(old(scheduler).current_task)
                &&& *final(scheduler) == *old(scheduler)
            },
            !acquired ==> {
                let c = index_of(old(scheduler).tasks@, old(scheduler).current_task);
                &&& final(self).waiters() == old(self).waiters().push(old(scheduler).current_task)
                &&& final(scheduler).init_id == old(scheduler).init_id
                &&& final(scheduler).current_task == old(scheduler).current_task
                &&& final(scheduler).tasks@ == old(scheduler).tasks@.update(
                    c,
                    Task { state: TaskState::Blocked, ..charged(old(scheduler).tasks@[c], now) },
                )
            },
    {
        let current_task_id = scheduler.current_task;
        if !self.state {
            self.state = true;
            let keep = |id: usize| -> (r: bool)
                ensures
                    r == (id != current_task_id),
                { id != current_task_id };
            let ghost others = |id: usize| id != current_task_id;
            self.queue.retain(keep, Ghost(others));
            proof {
                if self.queue@.contains(current_task_id) {
                    let k = choose|k: int| 0 <= k < self.queue@.len() && self.queue@[k] == current_task_id;
                    old(self).queue@.lemma_filter_pred(others, k);
                }
            }
            true
        } else {
            self.queue.push(current_task_id);
            block_current_task(scheduler, now);
            false
        }
    }

    /// Releases the lock and wakes the task that queued last, if any; its id is returned.
    pub fn unlock(&mut self, scheduler: &mut Scheduler) -> (woken: Option<usize>)
        requires
            old(self).wf(),
            old(scheduler).wf(),
        ensures
            final(self).wf(),
            !final(self).is_locked(),
            step_follows(*old(self), LockStep::Release, false, *final(self)),
            final(self).value() == old(self).value(),
            final(scheduler).init_id == old(scheduler).init_id,
            final(scheduler).current_task == old(scheduler).current_task,
            final(scheduler).wf(),
            old(self).waiters().len() == 0 ==> {
                &&& woken is None
                &&& final(self).waiters() == old(self).waiters()
                &&& *final(scheduler) == *old(scheduler)
            },
            old(self).waiters().len() > 0 ==> {
                let id = old(self).waiters().last();
                let s = old(scheduler).tasks@;
                let i = index_of(s, id);
                &&& woken == Some(id)
                &&& final(self).waiters() == old(self).waiters().drop_last()
                &&& final(scheduler).tasks@ == if has_id(s, id) && s[i].state == TaskState::Blocked {
                    s.update(i, Task { state: TaskState::Ready, ..s[i] })
                } else {
                    s
                }
            },
    {
        self.state = false;
        let next = self.queue.pop();
        match next {
            Some(next_id) => {
                wakeup_task(scheduler, next_id);
            },
            None => {},
        }
        next
    }

    /// Whether the lock is taken.
    pub fn locked(&self) -> (r: bool)
        ensures
            r == self.is_locked(),
    {
        self.state
    }

    /// How many tasks wait for the lock.
    pub fn waiter_count(&self) -> (r: usize)
        requires
            self.wf(),
        ensures
            r == self.waiters().len(),
    {
        self.queue.len()
    }

    /// The guarded value.
    pub fn data(&self) -> (r: &T)
        ensures
            *r == self.value(),
    {
        &self.data
    }

    /// The guarded value, to change.
    pub fn data_mut(&mut self) -> (r: &mut T)
        ensures
            *r == old(self).value(),
            final(self).value() == *final(r),
            final(self).is_locked() == old(self).is_locked(),
            step_follows(*old(self), LockStep::Use, false, *final(self)),
            final(self).waiters() == old(self).waiters(),
            final(self).wf() == old(self).wf(),
    {
        &mut self.data
    }
}

} // verus!
