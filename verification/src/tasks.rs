//! Cooperative task executor.
//!
//! Tasks are resumable state machines with a single make-progress operation
//! returning ready or pending. The executor keeps them in a table keyed by a
//! monotonically assigned ID, polls runnable IDs in FIFO order, removes a
//! task when it completes, and leaves a suspended task in place until a wake
//! re-enqueues its ID. A wake-up posted from interrupt context arrives
//! through the event queue's fixed pending-wake slot, which the executor
//! drains at the top of every turn.

use vstd::prelude::*;
use crate::events::{QueueState, ScancodeQueue};
use crate::keys::{kb_add_byte, kb_new, kb_process_event, KeyboardDecoder};

verus! {

/// State of the keyboard-consuming task: the decoder and what it has read
/// and decoded so far.
pub struct ConsumerState {
    pub kb: KeyboardDecoder,
    /// Every scancode the consumer has popped from the queue, in order.
    pub seen: Vec<u8>,
    /// Every character the decoder has yielded, in order.
    pub line: Vec<char>,
}

/// A suspendable unit of work.
///
/// `Immediate` completes on its first poll. `YieldOnce` wakes itself, then
/// suspends once, and completes on its second poll. `Keyboard` drains the
/// event queue, re-registers its waker, and never completes.
pub enum Task {
    Immediate,
    YieldOnce { yielded: bool },
    Keyboard(ConsumerState),
}

impl Task {
    /// A task that completes on its first poll.
    pub fn new_immediate() -> (r: Task)
        ensures
            r is Immediate,
    {
        Task::Immediate
    }

    /// A task that suspends once, waking itself, then completes.
    pub fn new_yield_once() -> (r: Task)
        ensures
            r == (Task::YieldOnce { yielded: false }),
    {
        Task::YieldOnce { yielded: false }
    }

    /// The keyboard-consuming task, with a fresh decoder and empty logs.
    pub fn new_keyboard() -> (r: Task)
        ensures
            r is Keyboard,
            r->0.seen@.len() == 0,
            r->0.line@.len() == 0,
    {
        Task::Keyboard(ConsumerState { kb: kb_new(), seen: Vec::new(), line: Vec::new() })
    }
}

/// How many polls a task can still consume before it suspends without
/// re-enqueueing itself or completes; drives the executor's termination.
pub open spec fn task_potential(t: Task) -> int {
    match t {
        Task::Immediate => 1,
        Task::YieldOnce { yielded } => if yielded {
            1
        } else {
            2
        },
        Task::Keyboard(_) => 0,
    }
}

/// Total potential of a task table.
pub open spec fn tasks_potential(ts: Seq<(u64, Task)>) -> int
    decreases ts.len(),
{
    if ts.len() == 0 {
        0
    } else {
        task_potential(ts[0].1) + tasks_potential(ts.drop_first())
    }
}

/// Potential is never negative.
proof fn lemma_potential_nonneg(ts: Seq<(u64, Task)>)
    ensures
        tasks_potential(ts) >= 0,
    decreases ts.len(),
{
    if ts.len() > 0 {
        lemma_potential_nonneg(ts.drop_first());
    }
}

/// Appending a task adds its potential.
proof fn lemma_potential_push(ts: Seq<(u64, Task)>, p: (u64, Task))
    ensures
        tasks_potential(ts.push(p)) == tasks_potential(ts) + task_potential(p.1),
    decreases ts.len(),
{
    reveal_with_fuel(tasks_potential, 3);
    if ts.len() == 0 {
        assert(ts.push(p).drop_first() =~= Seq::<(u64, Task)>::empty());
    } else {
        assert(ts.push(p).drop_first() =~= ts.drop_first().push(p));
        lemma_potential_push(ts.drop_first(), p);
    }
}

/// Removing a task subtracts its potential.
proof fn lemma_potential_remove(ts: Seq<(u64, Task)>, j: int)
    requires
        0 <= j < ts.len(),
    ensures
        tasks_potential(ts.remove(j)) == tasks_potential(ts) - task_potential(ts[j].1),
    decreases j,
{
    if j == 0 {
        assert(ts.remove(0) =~= ts.drop_first());
    } else {
        assert(ts.remove(j).drop_first() =~= ts.drop_first().remove(j - 1));
        lemma_potential_remove(ts.drop_first(), j - 1);
    }
}

/// An element other than the front survives popping the front.
proof fn lemma_remove_front_contains(s: Seq<u64>, x: u64)
    requires
        s.len() > 0,
        s.contains(x),
        s[0] != x,
    ensures
        s.remove(0).contains(x),
{
    let i = choose|i: int| 0 <= i < s.len() && s[i] == x;
    assert(s.remove(0)[i - 1] == x);
}

/// Pushing keeps every element reachable.
proof fn lemma_push_keeps_contains(s: Seq<u64>, x: u64, y: u64)
    requires
        s.contains(x),
    ensures
        s.push(y).contains(x),
{
    let i = choose|i: int| 0 <= i < s.len() && s[i] == x;
    assert(s.push(y)[i] == x);
}

/// Removing one task keeps every other task reachable, with its kind.
proof fn lemma_tasks_remove_keeps(ts: Seq<(u64, Task)>, idx: int, tid: u64)
    requires
        0 <= idx < ts.len(),
        ts[idx].0 != tid,
        exists|j: int| 0 <= j < ts.len() && (#[trigger] ts[j]).0 == tid && !(ts[j].1 is Keyboard),
    ensures
        exists|j: int|
            0 <= j < ts.remove(idx).len() && (#[trigger] ts.remove(idx)[j]).0 == tid && !(
            ts.remove(idx)[j].1 is Keyboard),
{
    let j = choose|j: int| 0 <= j < ts.len() && (#[trigger] ts[j]).0 == tid && !(ts[j].1
        is Keyboard);
    if j < idx {
        assert(ts.remove(idx)[j] == ts[j]);
    } else {
        assert(ts.remove(idx)[j - 1] == ts[j]);
    }
}

/// Appending one task keeps every task reachable.
proof fn lemma_tasks_push_keeps(ts: Seq<(u64, Task)>, p: (u64, Task), tid: u64)
    requires
        exists|j: int| 0 <= j < ts.len() && (#[trigger] ts[j]).0 == tid && !(ts[j].1 is Keyboard),
    ensures
        exists|j: int|
            0 <= j < ts.push(p).len() && (#[trigger] ts.push(p)[j]).0 == tid && !(ts.push(p)[j].1
            is Keyboard),
{
    let j = choose|j: int| 0 <= j < ts.len() && (#[trigger] ts[j]).0 == tid && !(ts[j].1
        is Keyboard);
    assert(ts.push(p)[j] == ts[j]);
}

/// Removing one task keeps any other keyboard task reachable.
proof fn lemma_tasks_remove_keeps_keyboard(ts: Seq<(u64, Task)>, idx: int, tid: u64)
    requires
        0 <= idx < ts.len(),
        ts[idx].0 != tid,
        exists|j: int| 0 <= j < ts.len() && (#[trigger] ts[j]).0 == tid && ts[j].1 is Keyboard,
    ensures
        exists|j: int|
            0 <= j < ts.remove(idx).len() && (#[trigger] ts.remove(idx)[j]).0 == tid && ts.remove(
            idx)[j].1 is Keyboard,
{
    let j = choose|j: int| 0 <= j < ts.len() && (#[trigger] ts[j]).0 == tid && ts[j].1 is Keyboard;
    if j < idx {
        assert(ts.remove(idx)[j] == ts[j]);
    } else {
        assert(ts.remove(idx)[j - 1] == ts[j]);
    }
}

/// Appending one task keeps any keyboard task reachable.
proof fn lemma_tasks_push_keeps_keyboard(ts: Seq<(u64, Task)>, p: (u64, Task), tid: u64)
    requires
        exists|j: int| 0 <= j < ts.len() && (#[trigger] ts[j]).0 == tid && ts[j].1 is Keyboard,
    ensures
        exists|j: int|
            0 <= j < ts.push(p).len() && (#[trigger] ts.push(p)[j]).0 == tid && ts.push(p)[j].1
                is Keyboard,
{
    let j = choose|j: int| 0 <= j < ts.len() && (#[trigger] ts[j]).0 == tid && ts[j].1 is Keyboard;
    assert(ts.push(p)[j] == ts[j]);
}

/// `a`'s completion is logged strictly before `b`'s.
pub open spec fn completed_before(log: Seq<u64>, a: u64, b: u64) -> bool {
    exists|i: int, j: int| 0 <= i < j < log.len() && log[i] == a && log[j] == b
}

/// The FIFO-order guard: task `ia` completes on its first poll, task `ib`
/// has not yielded yet, both are runnable, the run queue holds no duplicate
/// IDs, and no wake-up is pending.
pub open spec fn fifo_pair_scheduled(ex: Executor, qs: QueueState, ia: int, ib: int) -> bool {
    &&& 0 <= ia < ex.spec_tasks().len()
    &&& 0 <= ib < ex.spec_tasks().len()
    &&& ex.spec_tasks()[ia].1 is Immediate
    &&& ex.spec_tasks()[ib].1 == (Task::YieldOnce { yielded: false })
    &&& ex.spec_run_queue().contains(ex.spec_tasks()[ia].0)
    &&& ex.spec_run_queue().contains(ex.spec_tasks()[ib].0)
    &&& ex.spec_run_queue().no_duplicates()
    &&& qs.pending_wake is None
}

/// Progress of a FIFO pair: either both completions are already logged in
/// order, or `b` is not done and `a` is either done or still ahead of `b`'s
/// remaining polls: `b` unyielded, or `b` re-enqueued behind `a`.
spec fn fifo_pair_inv(ex: Executor, a: u64, b: u64) -> bool {
    ||| completed_before(ex.spec_completed(), a, b)
    ||| (!ex.spec_completed().contains(b) && {
        ||| ex.spec_completed().contains(a)
        ||| (ex.spec_run_queue().contains(a) && (exists|k: int|
            0 <= k < ex.spec_tasks().len() && (#[trigger] ex.spec_tasks()[k]) == (
            a,
            Task::Immediate,
        )) && {
            ||| exists|k: int|
                0 <= k < ex.spec_tasks().len() && (#[trigger] ex.spec_tasks()[k]) == (
                b,
                Task::YieldOnce { yielded: false },
            )
            ||| ((exists|k: int|
                0 <= k < ex.spec_tasks().len() && (#[trigger] ex.spec_tasks()[k]) == (
                b,
                Task::YieldOnce { yielded: true },
            )) && exists|pa: int, pb: int|
                0 <= pa < pb < ex.spec_run_queue().len() && (#[trigger] ex.spec_run_queue()[pa])
                    == a && (#[trigger] ex.spec_run_queue()[pb]) == b)
        })
    })
}

/// Popping the front keeps the queue duplicate-free.
proof fn lemma_no_dup_remove_front(s: Seq<u64>)
    requires
        s.len() > 0,
        s.no_duplicates(),
    ensures
        s.remove(0).no_duplicates(),
{
    assert forall|i: int, j: int|
        0 <= i < s.remove(0).len() && 0 <= j < s.remove(0).len() && i != j implies s.remove(0)[i]
        != s.remove(0)[j] by {
        assert(s.remove(0)[i] == s[i + 1] && s.remove(0)[j] == s[j + 1]);
    }
}

/// Re-enqueueing the popped front keeps the queue duplicate-free.
proof fn lemma_no_dup_reenqueue(s: Seq<u64>)
    requires
        s.len() > 0,
        s.no_duplicates(),
    ensures
        s.remove(0).push(s[0]).no_duplicates(),
{
    lemma_no_dup_remove_front(s);
    let t = s.remove(0).push(s[0]);
    assert forall|i: int, j: int|
        0 <= i < t.len() && 0 <= j < t.len() && i != j implies t[i] != t[j] by {
        if i < t.len() - 1 && j < t.len() - 1 {
        } else if i == t.len() - 1 {
            assert(t[j] == s[j + 1] && t[i] == s[0]);
        } else {
            assert(t[i] == s[i + 1] && t[j] == s[0]);
        }
    }
}

/// Removing one task keeps any other exact entry reachable.
proof fn lemma_tasks_remove_keeps_value(ts: Seq<(u64, Task)>, idx: int, p: (u64, Task))
    requires
        0 <= idx < ts.len(),
        ts[idx].0 != p.0,
        exists|k: int| 0 <= k < ts.len() && (#[trigger] ts[k]) == p,
    ensures
        exists|k: int| 0 <= k < ts.remove(idx).len() && (#[trigger] ts.remove(idx)[k]) == p,
{
    let k = choose|k: int| 0 <= k < ts.len() && (#[trigger] ts[k]) == p;
    if k < idx {
        assert(ts.remove(idx)[k] == ts[k]);
    } else {
        assert(ts.remove(idx)[k - 1] == ts[k]);
    }
}

/// Appending a task keeps every exact entry reachable.
proof fn lemma_tasks_push_keeps_value(ts: Seq<(u64, Task)>, q0: (u64, Task), p: (u64, Task))
    requires
        exists|k: int| 0 <= k < ts.len() && (#[trigger] ts[k]) == p,
    ensures
        exists|k: int| 0 <= k < ts.push(q0).len() && (#[trigger] ts.push(q0)[k]) == p,
{
    let k = choose|k: int| 0 <= k < ts.len() && (#[trigger] ts[k]) == p;
    assert(ts.push(q0)[k] == ts[k]);
}

/// Drains the queue into the consumer's logs: every waiting scancode is
/// popped, in order, and fed to the decoder; each can yield at most one
/// character.
fn drain_queue(st: &mut ConsumerState, q: &mut ScancodeQueue)
    requires
        old(q).wf(),
    ensures
        final(q).wf(),
        final(q)@.events.len() == 0,
        final(q)@.cap == old(q)@.cap,
        final(q)@.waker == old(q)@.waker,
        final(q)@.pending_wake == old(q)@.pending_wake,
        final(st).seen@ == old(st).seen@ + old(q)@.events,
        old(st).line@.is_prefix_of(final(st).line@),
        final(st).line@.len() <= old(st).line@.len() + old(q)@.events.len(),
{
    let ghost n0 = old(st).seen@.len() as int;
    loop
        invariant
            q.wf(),
            q@.cap == old(q)@.cap,
            q@.waker == old(q)@.waker,
            q@.pending_wake == old(q)@.pending_wake,
            st.seen@.len() >= n0,
            n0 == old(st).seen@.len(),
            old(st).seen@.is_prefix_of(st.seen@),
            st.seen@.skip(n0) + q@.events == old(q)@.events,
            old(st).line@.is_prefix_of(st.line@),
            st.line@.len() - old(st).line@.len() <= st.seen@.len() - n0,
        ensures
            q@.events.len() == 0,
        decreases q@.events.len(),
    {
        if q.len() == 0 {
            break ;
        }
        let popped = q.pop();
        match popped {
            Some(code) => {
                proof {
                    assert(st.seen@.push(code).skip(n0) =~= st.seen@.skip(n0).push(code));
                    assert(st.seen@.skip(n0).push(code) + q@.events =~= old(q)@.events);
                }
                st.seen.push(code);
                match kb_add_byte(&mut st.kb, code) {
                    Some(ev) => {
                        match kb_process_event(&mut st.kb, ev) {
                            Some(c) => {
                                st.line.push(c);
                            },
                            None => {},
                        }
                    },
                    None => {},
                }
            },
            None => {
                proof {
                    assert(false);
                }
            },
        }
    }
    proof {
        assert(st.seen@.skip(n0) + q@.events =~= st.seen@.skip(n0));
        assert(st.seen@ =~= old(st).seen@ + st.seen@.skip(n0));
    }
}

/// Polls one task: makes progress and reports whether it completed. A
/// yielding task re-enqueues its own ID; the keyboard task drains the queue,
/// registers its waker, and checks the queue once more before suspending, so
/// an event that arrives in between is never missed.
pub fn poll_task(t: Task, id: u64, q: &mut ScancodeQueue, runq: &mut Vec<u64>) -> (r: (
    Task,
    bool,
))
    requires
        old(q).wf(),
    ensures
        final(q).wf(),
        final(q)@.cap == old(q)@.cap,
        final(q)@.pending_wake == old(q)@.pending_wake,
        task_potential(r.0) <= task_potential(t),
        match t {
            Task::Immediate => {
                &&& r == (t, true)
                &&& *final(q) == *old(q)
                &&& *final(runq) == *old(runq)
            },
            Task::YieldOnce { yielded } => {
                &&& *final(q) == *old(q)
                &&& if yielded {
                    r == (t, true) && *final(runq) == *old(runq)
                } else {
                    &&& r == (Task::YieldOnce { yielded: true }, false)
                    &&& final(runq)@ == old(runq)@.push(id)
                }
            },
            Task::Keyboard(st) => {
                &&& r.1 == false
                &&& r.0 is Keyboard
                &&& *final(runq) == *old(runq)
                &&& final(q)@.events.len() == 0
                &&& final(q)@.waker == Some(id)
                &&& r.0->0.seen@ == st.seen@ + old(q)@.events
                &&& st.line@.is_prefix_of(r.0->0.line@)
                &&& r.0->0.line@.len() <= st.line@.len() + old(q)@.events.len()
            },
        },
{
    match t {
        Task::Immediate => (Task::Immediate, true),
        Task::YieldOnce { yielded } => {
            if yielded {
                (Task::YieldOnce { yielded }, true)
            } else {
                runq.push(id);
                (Task::YieldOnce { yielded: true }, false)
            }
        },
        Task::Keyboard(st) => {
            let mut st = st;
            // Step one: consume everything already queued.
            drain_queue(&mut st, q);
            // Step two: register the waker for the next push.
            q.register_waker(id);
            // Step three: look again before suspending, in case an event
            // arrived between the check and the registration.
            drain_queue(&mut st, q);
            (Task::Keyboard(st), false)
        },
    }
}

/// Cooperative executor: a task table keyed by unique IDs, a FIFO run
/// queue, and the order in which tasks completed.
pub struct Executor {
    tasks: Vec<(u64, Task)>,
    run_queue: Vec<u64>,
    next_id: u64,
    completed: Vec<u64>,
}

impl Executor {
    /// Task IDs are unique and below the next ID to hand out; a completed
    /// ID is below the next ID and never also stored, since IDs are never
    /// reused.
    pub closed spec fn wf(self) -> bool {
        &&& forall|i: int, j: int|
            0 <= i < j < self.tasks@.len() ==> (#[trigger] self.tasks@[i]).0 != (
            #[trigger] self.tasks@[j]).0
        &&& forall|i: int| 0 <= i < self.tasks@.len() ==> (#[trigger] self.tasks@[i]).0 < self.next_id
        &&& forall|c: int| 0 <= c < self.completed@.len() ==> (#[trigger] self.completed@[c]) < self.next_id
        &&& forall|c: int, i: int|
            0 <= c < self.completed@.len() && 0 <= i < self.tasks@.len() ==> (
            #[trigger] self.completed@[c]) != (#[trigger] self.tasks@[i]).0
    }

    /// The task table.
    pub closed spec fn spec_tasks(self) -> Seq<(u64, Task)> {
        self.tasks@
    }

    /// IDs waiting to be polled, in FIFO order.
    pub closed spec fn spec_run_queue(self) -> Seq<u64> {
        self.run_queue@
    }

    /// IDs of completed tasks, in completion order.
    pub closed spec fn spec_completed(self) -> Seq<u64> {
        self.completed@
    }

    /// The next ID to assign.
    pub closed spec fn spec_next_id(self) -> u64 {
        self.next_id
    }

    /// An executor with no tasks.
    pub fn new() -> (r: Executor)
        ensures
            r.wf(),
            r.spec_tasks().len() == 0,
            r.spec_run_queue().len() == 0,
            r.spec_completed().len() == 0,
            r.spec_next_id() == 0,
    {
        Executor { tasks: Vec::new(), run_queue: Vec::new(), next_id: 0, completed: Vec::new() }
    }

    /// Stores the task under a fresh unique ID, marks it runnable, and
    /// returns the ID.
    pub fn spawn(&mut self, t: Task) -> (id: u64)
        requires
            old(self).wf(),
            old(self).spec_next_id() < u64::MAX,
        ensures
            final(self).wf(),
            id == old(self).spec_next_id(),
            final(self).spec_next_id() == id + 1,
            final(self).spec_tasks() == old(self).spec_tasks().push((id, t)),
            final(self).spec_run_queue() == old(self).spec_run_queue().push(id),
            final(self).spec_completed() == old(self).spec_completed(),
    {
        let id = self.next_id;
        self.tasks.push((id, t));
        self.run_queue.push(id);
        self.next_id = id + 1;
        id
    }

    /// The completion log.
    pub fn completed_ids(&self) -> (r: &Vec<u64>)
        ensures
            r@ == self.spec_completed(),
    {
        &self.completed
    }

    /// The stored task with the given ID, if it has not completed.
    pub fn task_ref(&self, id: u64) -> (r: Option<&Task>)
        ensures
            match r {
                Some(t) => exists|i: int|
                    0 <= i < self.spec_tasks().len() && (#[trigger] self.spec_tasks()[i]).0 == id
                        && self.spec_tasks()[i].1 == *t,
                None => forall|i: int|
                    0 <= i < self.spec_tasks().len() ==> (#[trigger] self.spec_tasks()[i]).0 != id,
            },
    {
        let n = self.tasks.len();
        let mut i: usize = 0;
        while i < n
            invariant
                i <= n,
                n == self.tasks@.len(),
                forall|j: int| 0 <= j < i ==> (#[trigger] self.tasks@[j]).0 != id,
            decreases n - i,
        {
            if self.tasks[i].0 == id {
                proof {
                    assert(self.spec_tasks()[i as int].0 == id);
                }
                return Some(&self.tasks[i].1);
            }
            i = i + 1;
        }
        None
    }

    /// Runs until no task is runnable and no wake-up is pending: drains the
    /// pending wake-up into the run queue, pops the front ID, skips it if
    /// its task is gone (a stale wake), polls it otherwise, removes it on
    /// completion, and keeps it stored on suspension. Every task of a kind
    /// that finishes on its own (immediate or yield-once) whose ID was
    /// runnable or had a pending wake-up has completed when the executor
    /// goes idle; polling is FIFO, so a runnable task that completes on its
    /// first poll is logged as completed before any runnable task that
    /// still had to suspend once, whatever their spawn order.
    #[verifier::loop_isolation(false)]
    #[verifier::rlimit(30)]
    pub fn run_until_idle(&mut self, q: &mut ScancodeQueue)
        requires
            old(self).wf(),
            old(q).wf(),
        ensures
            final(self).wf(),
            final(q).wf(),
            final(q)@.cap == old(q)@.cap,
            final(self).spec_run_queue().len() == 0,
            final(q)@.pending_wake is None,
            final(self).spec_next_id() == old(self).spec_next_id(),
            old(self).spec_completed().is_prefix_of(final(self).spec_completed()),
            forall|i: int|
                0 <= i < old(self).spec_tasks().len() && !((#[trigger] old(self).spec_tasks()[i]).1 is Keyboard) && (old(self).spec_run_queue().contains(
                    old(self).spec_tasks()[i].0,
                ) || old(q)@.pending_wake == Some(old(self).spec_tasks()[i].0)) ==> final(self).spec_completed().contains(old(self).spec_tasks()[i].0),
            forall|i: int|
                0 <= i < old(self).spec_tasks().len() && (#[trigger] old(self).spec_tasks()[i]).1
                    is Keyboard && (old(self).spec_run_queue().contains(old(self).spec_tasks()[i].0)
                    || old(q)@.pending_wake == Some(old(self).spec_tasks()[i].0)) ==> final(q)@.events.len()
                    == 0,
            forall|ia: int, ib: int| #[trigger]
                fifo_pair_scheduled(*old(self), old(q)@, ia, ib) ==> completed_before(
                    final(self).spec_completed(),
                    old(self).spec_tasks()[ia].0,
                    old(self).spec_tasks()[ib].0,
                ),
    {
        proof {
            assert forall|ia: int, ib: int| #[trigger]
                fifo_pair_scheduled(*old(self), old(q)@, ia, ib) implies fifo_pair_inv(
                *old(self),
                old(self).spec_tasks()[ia].0,
                old(self).spec_tasks()[ib].0,
            ) by {
                let a = old(self).spec_tasks()[ia].0;
                let b = old(self).spec_tasks()[ib].0;
                // A stored task is never already in the completion log.
                assert(!old(self).spec_completed().contains(b)) by {
                    if old(self).spec_completed().contains(b) {
                        let c = choose|c: int|
                            0 <= c < old(self).spec_completed().len() && old(
                                self,
                            ).spec_completed()[c] == b;
                        assert(old(self).spec_completed()[c] != old(self).spec_tasks()[ib].0);
                    }
                }
                assert(old(self).spec_tasks()[ia] == (a, Task::Immediate));
                assert(old(self).spec_tasks()[ib] == (b, Task::YieldOnce { yielded: false }));
            }
        }
        let mut done = false;
        while !done
            invariant
                self.wf(),
                q.wf(),
                q@.cap == old(q)@.cap,
                done ==> self.run_queue@.len() == 0 && q@.pending_wake is None,
                self.next_id == old(self).next_id,
                old(self).spec_completed().is_prefix_of(self.spec_completed()),
                forall|i: int|
                    0 <= i < old(self).spec_tasks().len() && !((#[trigger] old(self).spec_tasks()[i]).1 is Keyboard) && (old(self).spec_run_queue().contains(
                        old(self).spec_tasks()[i].0,
                    ) || old(q)@.pending_wake == Some(old(self).spec_tasks()[i].0)) ==> {
                        ||| self.spec_completed().contains(old(self).spec_tasks()[i].0)
                        ||| ((self.spec_run_queue().contains(old(self).spec_tasks()[i].0)
                            || q@.pending_wake == Some(old(self).spec_tasks()[i].0)) && exists|j: int|
                            0 <= j < self.spec_tasks().len() && (#[trigger] self.spec_tasks()[j]).0
                                == old(self).spec_tasks()[i].0 && !(self.spec_tasks()[j].1
                                is Keyboard))
                    },
                forall|i: int|
                    0 <= i < old(self).spec_tasks().len() && (#[trigger] old(
                        self,
                    ).spec_tasks()[i]).1 is Keyboard && (old(self).spec_run_queue().contains(
                        old(self).spec_tasks()[i].0,
                    ) || old(q)@.pending_wake == Some(old(self).spec_tasks()[i].0)) ==> {
                        ||| q@.events.len() == 0
                        ||| ((self.spec_run_queue().contains(old(self).spec_tasks()[i].0)
                            || q@.pending_wake == Some(old(self).spec_tasks()[i].0)) && exists|j: int|
                            0 <= j < self.spec_tasks().len() && (#[trigger] self.spec_tasks()[j]).0
                                == old(self).spec_tasks()[i].0 && self.spec_tasks()[j].1
                                is Keyboard)
                    },
                forall|ia: int, ib: int| #[trigger]
                    fifo_pair_scheduled(*old(self), old(q)@, ia, ib) ==> {
                        &&& self.run_queue@.no_duplicates()
                        &&& q@.pending_wake is None
                        &&& fifo_pair_inv(
                            *self,
                            old(self).spec_tasks()[ia].0,
                            old(self).spec_tasks()[ib].0,
                        )
                    },
            decreases (if q@.pending_wake is Some {
                1int
            } else {
                0int
            }) + self.run_queue@.len() + tasks_potential(self.tasks@), (
            if done {
                0int
            } else {
                1int
            }),
        {
            proof {
                lemma_potential_nonneg(self.tasks@);
            }
            let ghost inv_tasks = self.tasks@;
            let ghost inv_runq = self.run_queue@;
            let ghost inv_pending = q@.pending_wake;
            let ghost completed_head = self.completed@;
            // Collect the wake-up posted from interrupt context, if any.
            match q.take_wake() {
                Some(woken) => {
                    self.run_queue.push(woken);
                },
                None => {},
            }
            proof {
                assert forall|x: u64| inv_runq.contains(x) || inv_pending == Some(x) implies
                    self.run_queue@.contains(x) by {
                    if inv_runq.contains(x) {
                        let i = choose|i: int| 0 <= i < inv_runq.len() && inv_runq[i] == x;
                        assert(self.run_queue@[i] == x);
                    } else {
                        assert(self.run_queue@[self.run_queue@.len() - 1] == x);
                    }
                }
            }
            if self.run_queue.len() == 0 {
                done = true;
                continue ;
            }

            let ghost runq_before = self.run_queue@;
            let id = self.run_queue.remove(0);
            proof {
                assert forall|x: u64| runq_before.contains(x) && x != id implies
                    self.run_queue@.contains(x) by {
                    lemma_remove_front_contains(runq_before, x);
                }
            }
            // Look the task up; a missing entry is a stale wake for a task
            // that already completed.
            let n = self.tasks.len();
            let mut idx: usize = 0;
            let mut found = false;
            while idx < n && !found
                invariant
                    idx <= n,
                    n == self.tasks@.len(),
                    found ==> idx < n && self.tasks@[idx as int].0 == id,
                    !found ==> forall|j: int| 0 <= j < idx ==> (#[trigger] self.tasks@[j]).0 != id,
                decreases n - idx + (if found {
                    0int
                } else {
                    1int
                }),
            {
                if self.tasks[idx].0 == id {
                    found = true;
                } else {
                    idx = idx + 1;
                }
            }
            if !found {
                proof {
                    assert forall|i: int|
                        0 <= i < old(self).spec_tasks().len() && !((#[trigger] old(
                            self,
                        ).spec_tasks()[i]).1 is Keyboard) && (old(self).spec_run_queue().contains(
                            old(self).spec_tasks()[i].0,
                        ) || old(q)@.pending_wake == Some(old(self).spec_tasks()[i].0)) implies {
                            ||| self.spec_completed().contains(old(self).spec_tasks()[i].0)
                            ||| ((self.spec_run_queue().contains(old(self).spec_tasks()[i].0)
                                || q@.pending_wake == Some(old(self).spec_tasks()[i].0)) && exists|
                                j: int,
                            |
                                0 <= j < self.spec_tasks().len() && (
                                #[trigger] self.spec_tasks()[j]).0 == old(self).spec_tasks()[i].0
                                    && !(self.spec_tasks()[j].1 is Keyboard))
                        } by {
                        let target = old(self).spec_tasks()[i].0;
                        if !completed_head.contains(target) {
                            let j0 = choose|j: int|
                                0 <= j < inv_tasks.len() && (#[trigger] inv_tasks[j]).0 == target
                                    && !(inv_tasks[j].1 is Keyboard);
                            if target == id {
                                assert(self.tasks@[j0].0 == id);
                                assert(false);
                            } else {
                                assert(runq_before.contains(target)) by {
                                    if inv_runq.contains(target) {
                                        let ii = choose|ii: int|
                                            0 <= ii < inv_runq.len() && inv_runq[ii] == target;
                                        assert(runq_before[ii] == target);
                                    } else {
                                        assert(inv_pending == Some(target));
                                        assert(runq_before[runq_before.len() - 1] == target);
                                    }
                                }
                                lemma_remove_front_contains(runq_before, target);
                                assert(self.spec_run_queue().contains(target));
                                assert(exists|j: int|
                                    0 <= j < self.spec_tasks().len() && (
                                    #[trigger] self.spec_tasks()[j]).0 == target && !(
                                    self.spec_tasks()[j].1 is Keyboard)) by {
                                    assert(self.spec_tasks()[j0].0 == target && !(
                                    self.spec_tasks()[j0].1 is Keyboard));
                                }
                            }
                        } else {
                            assert(self.spec_completed().contains(target));
                        }
                    }
                    assert forall|i: int|
                        0 <= i < old(self).spec_tasks().len() && (#[trigger] old(
                            self,
                        ).spec_tasks()[i]).1 is Keyboard && (old(self).spec_run_queue().contains(
                            old(self).spec_tasks()[i].0,
                        ) || old(q)@.pending_wake == Some(old(self).spec_tasks()[i].0)) implies {
                            ||| q@.events.len() == 0
                            ||| ((self.spec_run_queue().contains(old(self).spec_tasks()[i].0)
                                || q@.pending_wake == Some(old(self).spec_tasks()[i].0)) && exists|
                                j: int,
                            |
                                0 <= j < self.spec_tasks().len() && (
                                #[trigger] self.spec_tasks()[j]).0 == old(self).spec_tasks()[i].0
                                    && self.spec_tasks()[j].1 is Keyboard)
                        } by {
                        let target = old(self).spec_tasks()[i].0;
                        if q@.events.len() != 0 {
                            let j0 = choose|j: int|
                                0 <= j < inv_tasks.len() && (#[trigger] inv_tasks[j]).0 == target
                                    && inv_tasks[j].1 is Keyboard;
                            if target == id {
                                assert(self.tasks@[j0].0 == id);
                                assert(false);
                            } else {
                                assert(runq_before.contains(target)) by {
                                    if inv_runq.contains(target) {
                                        let ii = choose|ii: int|
                                            0 <= ii < inv_runq.len() && inv_runq[ii] == target;
                                        assert(runq_before[ii] == target);
                                    } else {
                                        assert(inv_pending == Some(target));
                                        assert(runq_before[runq_before.len() - 1] == target);
                                    }
                                }
                                lemma_remove_front_contains(runq_before, target);
                                assert(self.spec_run_queue().contains(target));
                                assert(exists|j: int|
                                    0 <= j < self.spec_tasks().len() && (
                                    #[trigger] self.spec_tasks()[j]).0 == target
                                        && self.spec_tasks()[j].1 is Keyboard) by {
                                    assert(self.spec_tasks()[j0].0 == target
                                        && self.spec_tasks()[j0].1 is Keyboard);
                                }
                            }
                        }
                    }
                    assert forall|ia: int, ib: int| #[trigger]
                        fifo_pair_scheduled(*old(self), old(q)@, ia, ib) implies {
                            &&& self.run_queue@.no_duplicates()
                            &&& q@.pending_wake is None
                            &&& fifo_pair_inv(
                                *self,
                                old(self).spec_tasks()[ia].0,
                                old(self).spec_tasks()[ib].0,
                            )
                        } by {
                        let a = old(self).spec_tasks()[ia].0;
                        let b = old(self).spec_tasks()[ib].0;
                        lemma_no_dup_remove_front(runq_before);
                        if completed_before(completed_head, a, b) {
                            let (ci, cj) = choose|ci: int, cj: int|
                                0 <= ci < cj < completed_head.len() && completed_head[ci] == a
                                    && completed_head[cj] == b;
                            assert(self.spec_completed()[ci] == a && self.spec_completed()[cj]
                                == b);
                        } else if !completed_head.contains(a) {
                            // The pair was still live at the top of this
                            // turn; the popped ID has no stored task, so it
                            // is neither of them.
                            let ka = choose|k: int|
                                0 <= k < inv_tasks.len() && (#[trigger] inv_tasks[k]) == (
                                a,
                                Task::Immediate,
                            );
                            if id == a {
                                assert(self.tasks@[ka].0 == id);
                                assert(false);
                            }
                            if exists|k: int|
                                0 <= k < inv_tasks.len() && (#[trigger] inv_tasks[k]) == (
                                b,
                                Task::YieldOnce { yielded: false },
                            ) {
                                let kb = choose|k: int|
                                    0 <= k < inv_tasks.len() && (#[trigger] inv_tasks[k]) == (
                                    b,
                                    Task::YieldOnce { yielded: false },
                                );
                                if id == b {
                                    assert(self.tasks@[kb].0 == id);
                                    assert(false);
                                }
                                lemma_remove_front_contains(runq_before, a);
                                assert(exists|k: int|
                                    0 <= k < self.spec_tasks().len() && (
                                    #[trigger] self.spec_tasks()[k]) == (a, Task::Immediate)) by {
                                    assert(self.spec_tasks()[ka] == (a, Task::Immediate));
                                }
                                assert(exists|k: int|
                                    0 <= k < self.spec_tasks().len() && (
                                    #[trigger] self.spec_tasks()[k]) == (
                                    b,
                                    Task::YieldOnce { yielded: false },
                                )) by {
                                    assert(self.spec_tasks()[kb] == (
                                        b,
                                        Task::YieldOnce { yielded: false },
                                    ));
                                }
                            } else {
                                let kb = choose|k: int|
                                    0 <= k < inv_tasks.len() && (#[trigger] inv_tasks[k]) == (
                                    b,
                                    Task::YieldOnce { yielded: true },
                                );
                                if id == b {
                                    assert(self.tasks@[kb].0 == id);
                                    assert(false);
                                }
                                lemma_remove_front_contains(runq_before, a);
                                assert(exists|k: int|
                                    0 <= k < self.spec_tasks().len() && (
                                    #[trigger] self.spec_tasks()[k]) == (a, Task::Immediate)) by {
                                    assert(self.spec_tasks()[ka] == (a, Task::Immediate));
                                }
                                assert(exists|k: int|
                                    0 <= k < self.spec_tasks().len() && (
                                    #[trigger] self.spec_tasks()[k]) == (
                                    b,
                                    Task::YieldOnce { yielded: true },
                                )) by {
                                    assert(self.spec_tasks()[kb] == (
                                        b,
                                        Task::YieldOnce { yielded: true },
                                    ));
                                }
                                let (pa, pb) = choose|pa: int, pb: int|
                                    0 <= pa < pb < runq_before.len() && runq_before[pa] == a
                                        && runq_before[pb] == b;
                                assert(pa >= 1 && pb >= 1);
                                assert(self.spec_run_queue()[pa - 1] == a
                                    && self.spec_run_queue()[pb - 1] == b);
                            }
                        }
                    }
                }
                continue ;
            }
            let ghost tasks_before = self.tasks@;
            let ghost removed_runq = self.run_queue@;
            let (tid, t) = self.tasks.remove(idx);
            proof {
                lemma_potential_remove(tasks_before, idx as int);
            }
            let ghost t_before = t;
            let (t2, ready) = poll_task(t, tid, q, &mut self.run_queue);
            if ready {
                self.completed.push(tid);
            } else {
                proof {
                    lemma_potential_push(self.tasks@, (tid, t2));
                }
                self.tasks.push((tid, t2));
            }
            proof {
                lemma_potential_nonneg(self.tasks@);
                let removed = tasks_before.remove(idx as int);
                assert forall|i: int|
                    0 <= i < old(self).spec_tasks().len() && !((#[trigger] old(self).spec_tasks()[i]).1 is Keyboard) && (old(self).spec_run_queue().contains(
                        old(self).spec_tasks()[i].0,
                    ) || old(q)@.pending_wake == Some(old(self).spec_tasks()[i].0)) implies {
                        ||| self.spec_completed().contains(old(self).spec_tasks()[i].0)
                        ||| ((self.spec_run_queue().contains(old(self).spec_tasks()[i].0)
                            || q@.pending_wake == Some(old(self).spec_tasks()[i].0)) && exists|j: int|
                            0 <= j < self.spec_tasks().len() && (#[trigger] self.spec_tasks()[j]).0
                                == old(self).spec_tasks()[i].0 && !(self.spec_tasks()[j].1
                                is Keyboard))
                    } by {
                    let target = old(self).spec_tasks()[i].0;
                    assert(old(self).spec_completed().is_prefix_of(self.spec_completed())) by {
                        assert(old(self).spec_completed() =~= self.completed@.subrange(
                            0,
                            old(self).spec_completed().len() as int,
                        ));
                    }
                    if completed_head.contains(target) {
                        let ci = choose|ci: int|
                            0 <= ci < completed_head.len() && completed_head[ci] == target;
                        assert(self.spec_completed()[ci] == target);
                        assert(self.spec_completed().contains(target));
                    } else {
                        // The target was live and scheduled at the top of
                        // this turn.
                        let j0 = choose|j: int|
                            0 <= j < inv_tasks.len() && (#[trigger] inv_tasks[j]).0 == target && !(
                            inv_tasks[j].1 is Keyboard);
                        if target == tid {
                            // Uniqueness pins the polled entry down.
                            if j0 != idx {
                                if j0 < idx {
                                    assert(tasks_before[j0].0 != tasks_before[idx as int].0);
                                } else {
                                    assert(tasks_before[idx as int].0 != tasks_before[j0].0);
                                }
                            }
                            assert(j0 == idx);
                            if ready {
                                assert(self.spec_completed()[self.spec_completed().len() - 1]
                                    == target);
                                assert(self.spec_completed().contains(target));
                            } else {
                                assert(t_before is YieldOnce);
                                assert(self.spec_run_queue()[self.spec_run_queue().len() - 1]
                                    == target);
                                assert(self.spec_run_queue().contains(target));
                                assert(exists|j: int|
                                    0 <= j < self.spec_tasks().len() && (
                                    #[trigger] self.spec_tasks()[j]).0 == target && !(
                                    self.spec_tasks()[j].1 is Keyboard)) by {
                                    assert(self.spec_tasks()[self.spec_tasks().len() - 1].0
                                        == target && !(self.spec_tasks()[self.spec_tasks().len()
                                        - 1].1 is Keyboard));
                                }
                            }
                        } else {
                            // Another target keeps its place in the queue
                            // and the table.
                            assert(runq_before.contains(target)) by {
                                if inv_runq.contains(target) {
                                    let ii = choose|ii: int|
                                        0 <= ii < inv_runq.len() && inv_runq[ii] == target;
                                    assert(runq_before[ii] == target);
                                } else {
                                    assert(inv_pending == Some(target));
                                    assert(runq_before[runq_before.len() - 1] == target);
                                }
                            }
                            assert(runq_before[0] == tid);
                            lemma_remove_front_contains(runq_before, target);
                            if !ready && t_before is YieldOnce {
                                lemma_push_keeps_contains(runq_before.remove(0), target, tid);
                            }
                            assert(self.spec_run_queue().contains(target));
                            lemma_tasks_remove_keeps(tasks_before, idx as int, target);
                            if !ready {
                                lemma_tasks_push_keeps(removed, (tid, t2), target);
                            }
                            let jw = choose|j: int|
                                0 <= j < self.tasks@.len() && (#[trigger] self.tasks@[j]).0
                                    == target && !(self.tasks@[j].1 is Keyboard);
                            assert(exists|j: int|
                                0 <= j < self.spec_tasks().len() && (
                                #[trigger] self.spec_tasks()[j]).0 == target && !(
                                self.spec_tasks()[j].1 is Keyboard)) by {
                                assert(self.spec_tasks()[jw].0 == target && !(
                                self.spec_tasks()[jw].1 is Keyboard));
                            }
                        }
                    }
                }
                assert forall|i: int|
                    0 <= i < old(self).spec_tasks().len() && (#[trigger] old(
                        self,
                    ).spec_tasks()[i]).1 is Keyboard && (old(self).spec_run_queue().contains(
                        old(self).spec_tasks()[i].0,
                    ) || old(q)@.pending_wake == Some(old(self).spec_tasks()[i].0)) implies {
                        ||| q@.events.len() == 0
                        ||| ((self.spec_run_queue().contains(old(self).spec_tasks()[i].0)
                            || q@.pending_wake == Some(old(self).spec_tasks()[i].0)) && exists|j: int|
                            0 <= j < self.spec_tasks().len() && (#[trigger] self.spec_tasks()[j]).0
                                == old(self).spec_tasks()[i].0 && self.spec_tasks()[j].1
                                is Keyboard)
                    } by {
                    let target = old(self).spec_tasks()[i].0;
                    if q@.events.len() != 0 {
                        let j0 = choose|j: int|
                            0 <= j < inv_tasks.len() && (#[trigger] inv_tasks[j]).0 == target
                                && inv_tasks[j].1 is Keyboard;
                        if target == tid {
                            if j0 != idx {
                                if j0 < idx {
                                    assert(tasks_before[j0].0 != tasks_before[idx as int].0);
                                } else {
                                    assert(tasks_before[idx as int].0 != tasks_before[j0].0);
                                }
                            }
                            assert(j0 == idx);
                            // A polled keyboard task leaves the queue empty.
                            assert(false);
                        } else {
                            assert(runq_before.contains(target)) by {
                                if inv_runq.contains(target) {
                                    let ii = choose|ii: int|
                                        0 <= ii < inv_runq.len() && inv_runq[ii] == target;
                                    assert(runq_before[ii] == target);
                                } else {
                                    assert(inv_pending == Some(target));
                                    assert(runq_before[runq_before.len() - 1] == target);
                                }
                            }
                            lemma_remove_front_contains(runq_before, target);
                            if !ready && t_before is YieldOnce {
                                lemma_push_keeps_contains(runq_before.remove(0), target, tid);
                            }
                            assert(self.spec_run_queue().contains(target));
                            lemma_tasks_remove_keeps_keyboard(tasks_before, idx as int, target);
                            if !ready {
                                lemma_tasks_push_keeps_keyboard(removed, (tid, t2), target);
                            }
                            let jw = choose|j: int|
                                0 <= j < self.tasks@.len() && (#[trigger] self.tasks@[j]).0
                                    == target && self.tasks@[j].1 is Keyboard;
                            assert(exists|j: int|
                                0 <= j < self.spec_tasks().len() && (
                                #[trigger] self.spec_tasks()[j]).0 == target
                                    && self.spec_tasks()[j].1 is Keyboard) by {
                                assert(self.spec_tasks()[jw].0 == target && self.spec_tasks()[jw].1
                                    is Keyboard);
                            }
                        }
                    }
                }
                assert forall|ia: int, ib: int| #[trigger]
                    fifo_pair_scheduled(*old(self), old(q)@, ia, ib) implies {
                        &&& self.run_queue@.no_duplicates()
                        &&& q@.pending_wake is None
                        &&& fifo_pair_inv(
                            *self,
                            old(self).spec_tasks()[ia].0,
                            old(self).spec_tasks()[ib].0,
                        )
                    } by {
                    let a = old(self).spec_tasks()[ia].0;
                    let b = old(self).spec_tasks()[ib].0;
                    // The popped entry is the queue front.
                    assert(runq_before[0] == tid);
                    if t_before == (Task::YieldOnce { yielded: false }) {
                        lemma_no_dup_reenqueue(runq_before);
                    } else {
                        lemma_no_dup_remove_front(runq_before);
                    }
                    // The two IDs are distinct.
                    assert(a != b) by {
                        if ia < ib {
                            assert(old(self).tasks@[ia].0 != old(self).tasks@[ib].0);
                        } else {
                            assert(old(self).tasks@[ib].0 != old(self).tasks@[ia].0);
                        }
                    }
                    if completed_before(completed_head, a, b) {
                        let (ci, cj) = choose|ci: int, cj: int|
                            0 <= ci < cj < completed_head.len() && completed_head[ci] == a
                                && completed_head[cj] == b;
                        assert(self.spec_completed()[ci] == a && self.spec_completed()[cj] == b);
                    } else if completed_head.contains(a) {
                        // The immediate task is already done; the yielding
                        // one may complete now, which orders the pair.
                        if ready && tid == b {
                            let ci = choose|ci: int|
                                0 <= ci < completed_head.len() && completed_head[ci] == a;
                            assert(self.spec_completed()[ci] == a);
                            assert(self.spec_completed()[self.spec_completed().len() - 1] == b);
                        } else {
                            let ci = choose|ci: int|
                                0 <= ci < completed_head.len() && completed_head[ci] == a;
                            assert(self.spec_completed()[ci] == a);
                            assert(self.spec_completed().contains(a));
                        }
                    } else {
                        // Both were live at the top of this turn.
                        let ka = choose|k: int|
                            0 <= k < inv_tasks.len() && (#[trigger] inv_tasks[k]) == (
                            a,
                            Task::Immediate,
                        );
                        let ghost b_fresh = exists|k: int|
                            0 <= k < inv_tasks.len() && (#[trigger] inv_tasks[k]) == (
                            b,
                            Task::YieldOnce { yielded: false },
                        );
                        if tid == a {
                            // Uniqueness pins the polled entry to `ka`.
                            if ka != idx {
                                if ka < idx {
                                    assert(tasks_before[ka].0 != tasks_before[idx as int].0);
                                } else {
                                    assert(tasks_before[idx as int].0 != tasks_before[ka].0);
                                }
                            }
                            assert(t_before == Task::Immediate && ready);
                            assert(self.spec_completed()[self.spec_completed().len() - 1] == a);
                            assert(self.spec_completed().contains(a));
                        } else if tid == b {
                            if b_fresh {
                                let kb = choose|k: int|
                                    0 <= k < inv_tasks.len() && (#[trigger] inv_tasks[k]) == (
                                    b,
                                    Task::YieldOnce { yielded: false },
                                );
                                if kb != idx {
                                    if kb < idx {
                                        assert(tasks_before[kb].0 != tasks_before[idx as int].0);
                                    } else {
                                        assert(tasks_before[idx as int].0 != tasks_before[kb].0);
                                    }
                                }
                                assert(t_before == (Task::YieldOnce { yielded: false }) && !ready);
                                // b moves to the back of the queue, behind a.
                                lemma_remove_front_contains(runq_before, a);
                                let pa = choose|i: int|
                                    0 <= i < runq_before.remove(0).len() && runq_before.remove(
                                        0,
                                    )[i] == a;
                                assert(self.spec_run_queue()[pa] == a);
                                assert(self.spec_run_queue()[self.spec_run_queue().len() - 1]
                                    == b);
                                assert(self.spec_run_queue().contains(a));
                                lemma_tasks_remove_keeps_value(
                                    tasks_before,
                                    idx as int,
                                    (a, Task::Immediate),
                                );
                                lemma_tasks_push_keeps_value(removed, (tid, t2), (a, Task::Immediate));
                                assert(t2 == (Task::YieldOnce { yielded: true }));
                                assert(self.spec_tasks()[self.spec_tasks().len() - 1] == (
                                    b,
                                    Task::YieldOnce { yielded: true },
                                ));
                            } else {
                                // An already-yielded b sits behind a, so it
                                // cannot be at the front.
                                let (pa, pb) = choose|pa: int, pb: int|
                                    0 <= pa < pb < runq_before.len() && runq_before[pa] == a
                                        && runq_before[pb] == b;
                                if pb != 0 {
                                    assert(runq_before[pb] != runq_before[0]);
                                }
                                assert(false);
                            }
                        } else {
                            // Neither of the pair was polled; memberships
                            // and entries shift in place.
                            lemma_remove_front_contains(runq_before, a);
                            if t_before == (Task::YieldOnce { yielded: false }) {
                                lemma_push_keeps_contains(runq_before.remove(0), a, tid);
                            }
                            assert(self.spec_run_queue().contains(a));
                            lemma_tasks_remove_keeps_value(
                                tasks_before,
                                idx as int,
                                (a, Task::Immediate),
                            );
                            if !ready {
                                lemma_tasks_push_keeps_value(removed, (tid, t2), (a, Task::Immediate));
                            }
                            if b_fresh {
                                lemma_tasks_remove_keeps_value(
                                    tasks_before,
                                    idx as int,
                                    (b, Task::YieldOnce { yielded: false }),
                                );
                                if !ready {
                                    lemma_tasks_push_keeps_value(
                                        removed,
                                        (tid, t2),
                                        (b, Task::YieldOnce { yielded: false }),
                                    );
                                }
                            } else {
                                lemma_tasks_remove_keeps_value(
                                    tasks_before,
                                    idx as int,
                                    (b, Task::YieldOnce { yielded: true }),
                                );
                                if !ready {
                                    lemma_tasks_push_keeps_value(
                                        removed,
                                        (tid, t2),
                                        (b, Task::YieldOnce { yielded: true }),
                                    );
                                }
                                let (pa, pb) = choose|pa: int, pb: int|
                                    0 <= pa < pb < runq_before.len() && runq_before[pa] == a
                                        && runq_before[pb] == b;
                                assert(pa >= 1 && pb >= 1);
                                assert(self.spec_run_queue()[pa - 1] == a
                                    && self.spec_run_queue()[pb - 1] == b);
                            }
                        }
                    }
                }
            }
        }
    }
}

} // verus!
