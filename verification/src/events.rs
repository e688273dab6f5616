//! Interrupt-driven event queue.
//!
//! A fixed-capacity ring buffer of raw event codes (keyboard scancodes). The
//! interrupt handler pushes into it without blocking or allocating; the
//! consumer task drains it. A full queue drops the pushed event. The queue
//! also carries the consumer's registered waker: a successful push moves the
//! waker into a fixed pending-wake slot, which the executor turns into a
//! run-queue entry, so a wake posted from interrupt context is never lost
//! and nothing on the interrupt path ever allocates.

use vstd::prelude::*;

verus! {

/// Mathematical state of the queue: the retained events in arrival order,
/// the fixed capacity, the registered waker, and the pending wake-up.
pub ghost struct QueueState {
    pub events: Seq<u8>,
    pub cap: nat,
    pub waker: Option<u64>,
    pub pending_wake: Option<u64>,
}

/// Consistency of a queue state: positive capacity never exceeded.
pub open spec fn queue_wf(q: QueueState) -> bool {
    &&& q.cap > 0
    &&& q.events.len() <= q.cap
}

/// Effect of one push: a full queue drops the event and reports failure;
/// otherwise the event is appended, and a registered waker is taken and
/// moved into the pending-wake slot.
pub open spec fn spec_push(q: QueueState, event: u8) -> (QueueState, bool) {
    if q.events.len() >= q.cap {
        (q, false)
    } else {
        (
            QueueState {
                events: q.events.push(event),
                cap: q.cap,
                waker: None,
                pending_wake: match q.waker {
                    Some(id) => Some(id),
                    None => q.pending_wake,
                },
            },
            true,
        )
    }
}

/// Effect of a sequence of pushes, front to back.
pub open spec fn spec_push_all(q: QueueState, events: Seq<u8>) -> QueueState
    decreases events.len(),
{
    if events.len() == 0 {
        q
    } else {
        spec_push_all(spec_push(q, events[0]).0, events.drop_first())
    }
}

/// Pushes that fit are all retained, in order.
pub proof fn lemma_push_all_within(q: QueueState, events: Seq<u8>)
    requires
        queue_wf(q),
        q.events.len() + events.len() <= q.cap,
    ensures
        queue_wf(spec_push_all(q, events)),
        spec_push_all(q, events).events == q.events + events,
        spec_push_all(q, events).cap == q.cap,
    decreases events.len(),
{
    if events.len() == 0 {
        assert(q.events + events =~= q.events);
    } else {
        let q1 = spec_push(q, events[0]).0;
        lemma_push_all_within(q1, events.drop_first());
        assert(q.events.push(events[0]) + events.drop_first() =~= q.events + events);
    }
}

/// Queue overflow behavior: pushing one event more than the capacity of an
/// empty queue retains exactly the first `cap` events, and the last push is
/// the rejected one, leaving the queue unchanged.
pub proof fn lemma_queue_overflow(q: QueueState, events: Seq<u8>)
    requires
        queue_wf(q),
        q.events.len() == 0,
        events.len() == q.cap + 1,
    ensures
        spec_push_all(q, events).events == events.take(q.cap as int),
        spec_push_all(q, events) == spec_push_all(q, events.take(q.cap as int)),
        spec_push(spec_push_all(q, events.take(q.cap as int)), events.last()).1 == false,
{
    let prefix = events.take(q.cap as int);
    lemma_push_all_within(q, prefix);
    let qfull = spec_push_all(q, prefix);
    assert(qfull.events =~= prefix);
    lemma_push_all_split(q, prefix, seq![events.last()]);
    assert(prefix + seq![events.last()] =~= events);
    reveal_with_fuel(spec_push_all, 3);
    assert(seq![events.last()].drop_first() =~= Seq::<u8>::empty());
    assert(spec_push_all(qfull, seq![events.last()]) == spec_push(qfull, events.last()).0);
    assert(spec_push(qfull, events.last()).0 == qfull);
}

/// Pushing a concatenation is pushing the parts in turn.
pub proof fn lemma_push_all_split(q: QueueState, a: Seq<u8>, b: Seq<u8>)
    ensures
        spec_push_all(q, a + b) == spec_push_all(spec_push_all(q, a), b),
    decreases a.len(),
{
    if a.len() == 0 {
        assert(a + b =~= b);
    } else {
        let q1 = spec_push(q, a[0]).0;
        assert((a + b).drop_first() =~= a.drop_first() + b);
        lemma_push_all_split(q1, a.drop_first(), b);
    }
}

/// No lost wake-up, queue half: a push that finds room takes the registered
/// waker and records it as the pending wake-up, and the event is retained,
/// so the wake and the event both survive until the executor's next turn.
pub proof fn lemma_push_wakes_registered(q: QueueState, id: u64, event: u8)
    requires
        queue_wf(q),
        q.events.len() < q.cap,
        q.waker == Some(id),
    ensures
        spec_push(q, event).1 == true,
        spec_push(q, event).0.pending_wake == Some(id),
        spec_push(q, event).0.events == q.events.push(event),
        spec_push(q, event).0.waker is None,
{
}

/// Fixed-capacity scancode queue with waker hand-off.
pub struct ScancodeQueue {
    buf: Vec<u8>,
    head: usize,
    count: usize,
    waker: Option<u64>,
    pending_wake: Option<u64>,
}

impl ScancodeQueue {
    /// Buffer layout consistency.
    pub closed spec fn wf(self) -> bool {
        &&& self.buf@.len() > 0
        &&& self.buf@.len() <= usize::MAX / 2
        &&& self.head < self.buf@.len()
        &&& self.count <= self.buf@.len()
    }

    /// The mathematical queue this buffer holds: `count` events starting at
    /// `head`, wrapping around the fixed storage.
    pub closed spec fn view(self) -> QueueState {
        QueueState {
            events: Seq::new(
                self.count as nat,
                |i: int| self.buf@[(self.head + i) % (self.buf@.len() as int)],
            ),
            cap: self.buf@.len() as nat,
            waker: self.waker,
            pending_wake: self.pending_wake,
        }
    }

    /// An empty queue of the given fixed capacity.
    pub fn new(capacity: usize) -> (r: ScancodeQueue)
        requires
            0 < capacity <= usize::MAX / 2,
        ensures
            r.wf(),
            queue_wf(r@),
            r@.cap == capacity,
            r@.events.len() == 0,
            r@.waker is None,
            r@.pending_wake is None,
    {
        let mut buf: Vec<u8> = Vec::new();
        let mut i: usize = 0;
        while i < capacity
            invariant
                i <= capacity,
                buf@.len() == i,
            decreases capacity - i,
        {
            buf.push(0);
            i = i + 1;
        }
        ScancodeQueue { buf, head: 0, count: 0, waker: None, pending_wake: None }
    }

    /// Number of events waiting in the queue.
    pub fn len(&self) -> (r: usize)
        ensures
            r == self@.events.len(),
    {
        self.count
    }

    /// Pushes one event code; never blocks, never allocates. Returns `false`
    /// and drops the event when the queue is full. A successful push takes
    /// the registered waker, if any, and records it as a pending wake-up.
    pub fn push(&mut self, event: u8) -> (r: bool)
        requires
            old(self).wf(),
        ensures
            final(self).wf(),
            (final(self)@, r) == spec_push(old(self)@, event),
    {
        if self.count >= self.buf.len() {
            assert(final(self)@ =~= spec_push(old(self)@, event).0) by {
                assert(self@.events =~= old(self)@.events);
            }
            return false;
        }
        let cap = self.buf.len();
        let slot = (self.head + self.count) % cap;
        self.buf[slot] = event;
        self.count = self.count + 1;
        match self.waker {
            Some(_) => {
                let id = self.waker.unwrap();
                self.pending_wake = Some(id);
                self.waker = None;
            },
            None => {},
        }
        proof {
            let oldv = old(self)@;
            let n = oldv.events.len() as int;
            let len = self.buf@.len() as int;
            let h = old(self).head as int;
            assert forall|i: int| 0 <= i < n implies self@.events[i] == oldv.events[i] by {
                assert((h + i) % len != (h + n) % len) by (nonlinear_arith)
                    requires
                        0 <= i < n,
                        n < len,
                        0 <= h < len,
                ;
            }
            assert(self@.events =~= oldv.events.push(event));
        }
        true
    }

    /// Pops the oldest event, or `None` when the queue is empty; callable
    /// only from task context, never from the interrupt handler.
    pub fn pop(&mut self) -> (r: Option<u8>)
        requires
            old(self).wf(),
        ensures
            final(self).wf(),
            final(self)@.cap == old(self)@.cap,
            final(self)@.waker == old(self)@.waker,
            final(self)@.pending_wake == old(self)@.pending_wake,
            old(self)@.events.len() == 0 ==> r is None && *final(self) == *old(self),
            old(self)@.events.len() > 0 ==> {
                &&& r == Some(old(self)@.events[0])
                &&& final(self)@.events == old(self)@.events.drop_first()
            },
    {
        if self.count == 0 {
            return None;
        }
        let e = self.buf[self.head];
        self.head = (self.head + 1) % self.buf.len();
        self.count = self.count - 1;
        proof {
            let oldv = old(self)@;
            let len = self.buf@.len() as int;
            let h = old(self).head as int;
            assert(h % len == h) by (nonlinear_arith)
                requires
                    0 <= h < len,
            ;
            assert(oldv.events[0] == old(self).buf@[h]);
            assert forall|i: int| 0 <= i < self.count implies self@.events[i]
                == oldv.events.drop_first()[i] by {
                assert((h + (i + 1)) % len == ((h + 1) % len + i) % len) by (nonlinear_arith)
                    requires
                        0 <= i,
                        0 <= h < len,
                        0 < len,
                ;
            }
            assert(self@.events =~= oldv.events.drop_first());
        }
        Some(e)
    }

    /// Registers the consumer task's waker, replacing any earlier one.
    pub fn register_waker(&mut self, id: u64)
        requires
            old(self).wf(),
        ensures
            final(self).wf(),
            final(self)@ == (QueueState { waker: Some(id), ..old(self)@ }),
    {
        self.waker = Some(id);
    }

    /// Hands the pending wake-up to the executor and clears the slot.
    pub fn take_wake(&mut self) -> (r: Option<u64>)
        requires
            old(self).wf(),
        ensures
            final(self).wf(),
            r == old(self)@.pending_wake,
            final(self)@ == (QueueState { pending_wake: None, ..old(self)@ }),
    {
        let out = self.pending_wake;
        self.pending_wake = None;
        out
    }
}

} // verus!
