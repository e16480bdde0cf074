//! Cooperative tasks: unique identifiers, suspendable units of work, and the
//! task structure that the executor owns.

use vstd::prelude::*;

verus! {

/// What a unit of work reports when polled.
#[derive(Clone, Copy, Debug, PartialEq, Eq, Structural)]
pub enum Poll {
    /// The work finished; the task can be destroyed.
    Ready,
    /// The work is not ready; it must be polled again after its waker fires.
    Pending,
}

/// A suspendable unit of kernel work: driven one step at a time, it either
/// finishes or reports "not ready" and waits to be woken again.
///
/// `completes_now` and `step` describe one poll step in the specification
/// world; `poll` performs it.
pub trait Work: Sized {
    /// Whether the next poll finishes the work.
    spec fn completes_now(&self) -> bool;

    /// The state of the work after one poll.
    spec fn step(&self) -> Self;

    /// Drive the work one step: `Ready` when it finished, `Pending` when it
    /// must be woken and polled again later.
    fn poll(&mut self) -> (r: Poll)
        ensures
            r is Ready <==> old(self).completes_now(),
            *final(self) == old(self).step(),
    ;
}

/// A source of fresh task identifiers: it hands out strictly increasing
/// values, so each identifier is unique for the process lifetime and never
/// reused.
pub struct TaskIdSource {
    next: u64,
}

impl TaskIdSource {
    /// The value the next identifier will carry.
    pub closed spec fn next_value(&self) -> u64 {
        self.next
    }

    /// A fresh source, counting from zero.
    pub fn new() -> (r: TaskIdSource)
        ensures
            r.next_value() == 0,
    {
        TaskIdSource { next: 0 }
    }
}

/// Task identifier: an opaque 64-bit value, unique for the process lifetime,
/// never compared across restarts.
#[derive(Debug, Clone, Copy, PartialEq, Eq, PartialOrd, Ord, Structural)]
pub struct TaskId(u64);

impl TaskId {
    /// The identifier's numeric value.
    pub closed spec fn value(&self) -> u64 {
        self.0
    }

    /// Create a new task identifier carrying a value that no other
    /// identifier from this source carries.
    pub fn new(source: &mut TaskIdSource) -> (r: TaskId)
        requires
            old(source).next_value() < u64::MAX,
        ensures
            r.value() == old(source).next_value(),
            final(source).next_value() == old(source).next_value() + 1,
    {
        let id = TaskId(source.next);
        source.next = source.next + 1;
        id
    }
}

/// A task: a unique identifier together with its owned unit of work.
pub struct Task<W> {
    id: TaskId,
    work: W,
}

impl<W: Work> Task<W> {
    /// The task's identifier.
    pub closed spec fn spec_id(&self) -> TaskId {
        self.id
    }

    /// The task's unit of work.
    pub closed spec fn spec_work(&self) -> W {
        self.work
    }

    /// Create a new cooperative task owning `work`, under a fresh identifier.
    pub fn new(source: &mut TaskIdSource, work: W) -> (r: Task<W>)
        requires
            old(source).next_value() < u64::MAX,
        ensures
            r.spec_id().value() == old(source).next_value(),
            final(source).next_value() == old(source).next_value() + 1,
            r.spec_work() == work,
    {
        Task { id: TaskId::new(source), work }
    }

    /// The task's identifier.
    pub fn id(&self) -> (r: TaskId)
        ensures
            r == self.spec_id(),
    {
        self.id
    }

    /// Drive the task's unit of work one step.
    pub fn poll(&mut self) -> (r: Poll)
        ensures
            final(self).spec_id() == old(self).spec_id(),
            r is Ready <==> old(self).spec_work().completes_now(),
            final(self).spec_work() == old(self).spec_work().step(),
    {
        self.work.poll()
    }
}

/// A basic unit of work that reports "not ready" a fixed number of times
/// before completing, the simplest shape of cooperative work: an immediate
/// completion is a countdown of zero.
#[derive(Clone, Copy, Debug, PartialEq, Eq, Structural)]
pub struct CountdownWork {
    /// How many more "not ready" polls precede the completing poll.
    pub remaining: u64,
}

impl CountdownWork {
    /// A unit of work that reports "not ready" `n` times, then completes.
    pub fn new(n: u64) -> (r: CountdownWork)
        ensures
            r.remaining == n,
    {
        CountdownWork { remaining: n }
    }
}

impl Work for CountdownWork {
    open spec fn completes_now(&self) -> bool {
        self.remaining == 0
    }

    open spec fn step(&self) -> Self {
        if self.remaining == 0 {
            CountdownWork { remaining: 0 }
        } else {
            CountdownWork { remaining: (self.remaining - 1) as u64 }
        }
    }

    fn poll(&mut self) -> (r: Poll) {
        if self.remaining == 0 {
            Poll::Ready
        } else {
            self.remaining = self.remaining - 1;
            Poll::Pending
        }
    }
}

} // verus!
