//! The cooperative task executor: it owns every spawned task and drives the
//! woken ones to completion, one drain cycle of the wake queue at a time.

use vstd::prelude::*;
use crate::coop::{Poll, Task, TaskId, Work};

verus! {

/// The effect of handing one woken identifier to the run loop: a task whose
/// poll completes is removed, one that is still pending is stepped, and an
/// identifier with no task behind it (a stale wake) is silently dropped.
pub open spec fn process_one<W: Work>(m: Map<TaskId, W>, id: TaskId) -> Map<TaskId, W> {
    if m.contains_key(id) {
        if m[id].completes_now() {
            m.remove(id)
        } else {
            m.insert(id, m[id].step())
        }
    } else {
        m
    }
}

/// The effect of draining a whole wake queue, front to back.
pub open spec fn process_queue<W: Work>(m: Map<TaskId, W>, q: Seq<TaskId>) -> Map<TaskId, W>
    decreases q.len(),
{
    if q.len() == 0 {
        m
    } else {
        process_queue(process_one(m, q[0]), q.subrange(1, q.len() as int))
    }
}

/// No two tasks in the sequence share an identifier.
pub open spec fn unique_ids<W: Work>(s: Seq<Task<W>>) -> bool {
    forall|k1: int, k2: int| 0 <= k1 < k2 < s.len() ==> s[k1].spec_id() != s[k2].spec_id()
}

/// The task sequence read as a mapping from identifier to unit of work.
pub open spec fn task_map_of<W: Work>(s: Seq<Task<W>>) -> Map<TaskId, W>
    decreases s.len(),
{
    if s.len() == 0 {
        Map::empty()
    } else {
        task_map_of(s.drop_last()).insert(s.last().spec_id(), s.last().spec_work())
    }
}

proof fn lemma_task_map_contains<W: Work>(s: Seq<Task<W>>, id: TaskId)
    ensures
        task_map_of(s).contains_key(id) <==> exists|k: int|
            0 <= k < s.len() && s[k].spec_id() == id,
    decreases s.len(),
{
    if s.len() > 0 {
        lemma_task_map_contains(s.drop_last(), id);
        if s.last().spec_id() == id {
            assert(s[s.len() - 1].spec_id() == id);
        } else {
            if task_map_of(s).contains_key(id) {
                let k = choose|k: int|
                    0 <= k < s.drop_last().len() && s.drop_last()[k].spec_id() == id;
                assert(s[k].spec_id() == id);
            }
            if exists|k: int| 0 <= k < s.len() && s[k].spec_id() == id {
                let k = choose|k: int| 0 <= k < s.len() && s[k].spec_id() == id;
                assert(s.drop_last()[k].spec_id() == id);
            }
        }
    }
}

proof fn lemma_task_map_value<W: Work>(s: Seq<Task<W>>, j: int)
    requires
        unique_ids(s),
        0 <= j < s.len(),
    ensures
        task_map_of(s).contains_key(s[j].spec_id()),
        task_map_of(s)[s[j].spec_id()] == s[j].spec_work(),
    decreases s.len(),
{
    if j < s.len() - 1 {
        assert(unique_ids(s.drop_last()));
        lemma_task_map_value(s.drop_last(), j);
        assert(s[j].spec_id() != s.last().spec_id());
    }
}

proof fn lemma_task_map_remove<W: Work>(s: Seq<Task<W>>, j: int)
    requires
        unique_ids(s),
        0 <= j < s.len(),
    ensures
        task_map_of(s.remove(j)) == task_map_of(s).remove(s[j].spec_id()),
    decreases s.len(),
{
    let id = s[j].spec_id();
    if j == s.len() - 1 {
        assert(s.remove(j) =~= s.drop_last());
        lemma_task_map_contains(s.drop_last(), id);
        assert(!task_map_of(s.drop_last()).contains_key(id));
        assert(task_map_of(s).remove(id) =~= task_map_of(s.drop_last()));
    } else {
        assert(s.remove(j).drop_last() =~= s.drop_last().remove(j));
        assert(s.remove(j).last() == s.last());
        assert(unique_ids(s.drop_last()));
        lemma_task_map_remove(s.drop_last(), j);
        assert(s[j] == s.drop_last()[j]);
        assert(id != s.last().spec_id());
        assert(task_map_of(s.drop_last()).remove(id).insert(
            s.last().spec_id(),
            s.last().spec_work(),
        ) =~= task_map_of(s.drop_last()).insert(s.last().spec_id(), s.last().spec_work()).remove(
            id,
        ));
    }
}

proof fn lemma_task_map_insert<W: Work>(s: Seq<Task<W>>, j: int, t: Task<W>)
    requires
        0 <= j <= s.len(),
        forall|k: int| 0 <= k < s.len() ==> s[k].spec_id() != t.spec_id(),
    ensures
        task_map_of(s.insert(j, t)) == task_map_of(s).insert(t.spec_id(), t.spec_work()),
    decreases s.len(),
{
    if j == s.len() {
        assert(s.insert(j, t).drop_last() =~= s);
        assert(s.insert(j, t).last() == t);
    } else {
        assert(s.insert(j, t).drop_last() =~= s.drop_last().insert(j, t));
        assert(s.insert(j, t).last() == s.last());
        lemma_task_map_insert(s.drop_last(), j, t);
        assert(s.last().spec_id() != t.spec_id());
        assert(task_map_of(s.drop_last()).insert(t.spec_id(), t.spec_work()).insert(
            s.last().spec_id(),
            s.last().spec_work(),
        ) =~= task_map_of(s.drop_last()).insert(s.last().spec_id(), s.last().spec_work()).insert(
            t.spec_id(),
            t.spec_work(),
        ));
    }
}

/// The cooperative task executor: every spawned task, keyed by identifier,
/// and the wake queue of identifiers that are ready to be polled again.
pub struct Executor<W> {
    tasks: Vec<Task<W>>,
    wake_queue: Vec<TaskId>,
}

impl<W: Work> Executor<W> {
    /// The executor's tasks as a mapping from identifier to unit of work.
    pub closed spec fn task_map(&self) -> Map<TaskId, W> {
        task_map_of(self.tasks@)
    }

    /// The identifiers waiting in the wake queue, front to back.
    pub closed spec fn queue(&self) -> Seq<TaskId> {
        self.wake_queue@
    }

    /// Internal consistency: no two owned tasks share an identifier.
    pub closed spec fn wf(&self) -> bool {
        unique_ids(self.tasks@)
    }

    /// A new executor with no tasks and an empty wake queue.
    pub fn new() -> (r: Executor<W>)
        ensures
            r.wf(),
            r.task_map() == Map::<TaskId, W>::empty(),
            r.queue() == Seq::<TaskId>::empty(),
    {
        let e = Executor { tasks: Vec::new(), wake_queue: Vec::new() };
        proof {
            assert(e.queue() =~= Seq::<TaskId>::empty());
        }
        e
    }

    /// Spawn a task: take ownership of it and enqueue its identifier, so it
    /// receives an initial poll on the next drain cycle. The identifier must
    /// be fresh, which monotonic identifier assignment guarantees.
    pub fn spawn(&mut self, task: Task<W>)
        requires
            old(self).wf(),
            !old(self).task_map().contains_key(task.spec_id()),
        ensures
            final(self).wf(),
            final(self).task_map() == old(self).task_map().insert(
                task.spec_id(),
                task.spec_work(),
            ),
            final(self).queue() == old(self).queue().push(task.spec_id()),
    {
        proof {
            lemma_task_map_contains(self.tasks@, task.spec_id());
            assert(self.tasks@.push(task) =~= self.tasks@.insert(
                self.tasks@.len() as int,
                task,
            ));
            lemma_task_map_insert(self.tasks@, self.tasks@.len() as int, task);
            assert(unique_ids(self.tasks@.push(task)));
        }
        let id = task.id();
        self.tasks.push(task);
        self.wake_queue.push(id);
    }

    /// Invoke a task's waker: enqueue the identifier for a re-poll. Waking an
    /// already woken task is absorbed — one queue entry brings one re-poll —
    /// and waking a finished task is legal, since the run loop drops
    /// identifiers that no longer back a task.
    pub fn wake(&mut self, id: TaskId)
        ensures
            final(self).wf() == old(self).wf(),
            final(self).task_map() == old(self).task_map(),
            final(self).queue() == if old(self).queue().contains(id) {
                old(self).queue()
            } else {
                old(self).queue().push(id)
            },
    {
        let n = self.wake_queue.len();
        let mut i: usize = 0;
        while i < n
            invariant
                *self == *old(self),
                i <= n,
                n == self.wake_queue@.len(),
                forall|k: int| 0 <= k < i ==> self.wake_queue@[k] != id,
            decreases n - i,
        {
            if self.wake_queue[i] == id {
                proof {
                    assert(old(self).queue()[i as int] == id);
                }
                return ;
            }
            i = i + 1;
        }
        proof {
            assert(!old(self).queue().contains(id));
        }
        self.wake_queue.push(id);
    }

    /// Whether a task with this identifier is currently owned by the executor.
    pub fn has_task(&self, id: TaskId) -> (r: bool)
        ensures
            r == self.task_map().contains_key(id),
    {
        let n = self.tasks.len();
        let mut i: usize = 0;
        while i < n
            invariant
                i <= n,
                n == self.tasks@.len(),
                forall|k: int| 0 <= k < i ==> self.tasks@[k].spec_id() != id,
            decreases n - i,
        {
            let t = &self.tasks[i];
            if t.id() == id {
                proof {
                    lemma_task_map_contains(self.tasks@, id);
                }
                return true;
            }
            i = i + 1;
        }
        proof {
            lemma_task_map_contains(self.tasks@, id);
        }
        false
    }

    /// Whether the wake queue holds no identifiers: the idle decision of the
    /// run loop. When it holds right after a drain, the run loop may halt the
    /// CPU until the next interrupt instead of spinning.
    pub fn wake_queue_is_empty(&self) -> (r: bool)
        ensures
            r == (self.queue().len() == 0),
    {
        self.wake_queue.len() == 0
    }

    fn find_task_index(&self, id: TaskId) -> (r: Option<usize>)
        ensures
            match r {
                Some(i) => i < self.tasks@.len() && self.tasks@[i as int].spec_id() == id,
                None => forall|k: int| 0 <= k < self.tasks@.len() ==> self.tasks@[k].spec_id()
                    != id,
            },
    {
        let n = self.tasks.len();
        let mut i: usize = 0;
        while i < n
            invariant
                i <= n,
                n == self.tasks@.len(),
                forall|k: int| 0 <= k < i ==> self.tasks@[k].spec_id() != id,
            decreases n - i,
        {
            let t = &self.tasks[i];
            if t.id() == id {
                return Some(i);
            }
            i = i + 1;
        }
        None
    }

    /// One drain cycle of the run loop: pop every identifier from the wake
    /// queue in order; for each one that still backs a task, poll that task,
    /// removing it when it reports completion and keeping it otherwise.
    /// Identifiers whose task already finished are silently dropped.
    pub fn run_ready_tasks(&mut self)
        requires
            old(self).wf(),
        ensures
            final(self).wf(),
            final(self).queue().len() == 0,
            final(self).task_map() == process_queue(old(self).task_map(), old(self).queue()),
    {
        while self.wake_queue.len() > 0
            invariant
                self.wf(),
                process_queue(self.task_map(), self.queue()) == process_queue(
                    old(self).task_map(),
                    old(self).queue(),
                ),
            decreases self.wake_queue@.len(),
        {
            let ghost pre = *self;
            let id = self.wake_queue.remove(0);
            proof {
                assert(id == pre.queue()[0]);
                assert(self.wake_queue@ =~= pre.queue().subrange(1, pre.queue().len() as int));
            }
            match self.find_task_index(id) {
                None => {
                    proof {
                        lemma_task_map_contains(self.tasks@, id);
                        assert(process_one(pre.task_map(), id) == pre.task_map());
                    }
                },
                Some(j) => {
                    let ghost s_before = pre.tasks@;
                    let mut t = self.tasks.remove(j);
                    proof {
                        lemma_task_map_value(s_before, j as int);
                        lemma_task_map_remove(s_before, j as int);
                        assert(unique_ids(s_before.remove(j as int)));
                        assert forall|k: int|
                            0 <= k < self.tasks@.len() implies self.tasks@[k].spec_id()
                            != id by {
                            if k < j {
                                assert(self.tasks@[k] == s_before[k]);
                            } else {
                                assert(self.tasks@[k] == s_before[k + 1]);
                            }
                        }
                    }
                    let r = t.poll();
                    match r {
                        Poll::Ready => {
                            proof {
                                assert(self.task_map() == process_one(pre.task_map(), id));
                            }
                        },
                        Poll::Pending => {
                            proof {
                                lemma_task_map_insert(self.tasks@, j as int, t);
                                assert(pre.task_map().remove(id).insert(id, t.spec_work())
                                    =~= pre.task_map().insert(id, t.spec_work()));
                            }
                            self.tasks.insert(j, t);
                        },
                    }
                },
            }
            proof {
                assert(process_queue(pre.task_map(), pre.queue()) == process_queue(
                    process_one(pre.task_map(), id),
                    pre.queue().subrange(1, pre.queue().len() as int),
                ));
            }
        }
    }
}

/// A drain cycle never revives or invents a task: an identifier absent from
/// the task set stays absent, which is exactly why stale wakes are harmless.
pub proof fn lemma_process_queue_adds_no_task<W: Work>(
    m: Map<TaskId, W>,
    q: Seq<TaskId>,
    id: TaskId,
)
    requires
        !m.contains_key(id),
    ensures
        !process_queue(m, q).contains_key(id),
    decreases q.len(),
{
    if q.len() > 0 {
        lemma_process_queue_adds_no_task(process_one(m, q[0]), q.subrange(1, q.len() as int), id);
    }
}

/// Executor liveness: a task whose unit of work completes on its next poll
/// is removed from the task set by any drain cycle whose wake queue holds
/// its identifier — in particular by the first cycle after it is spawned.
pub proof fn lemma_ready_task_removed<W: Work>(m: Map<TaskId, W>, q: Seq<TaskId>, id: TaskId)
    requires
        m.contains_key(id),
        m[id].completes_now(),
        q.contains(id),
    ensures
        !process_queue(m, q).contains_key(id),
    decreases q.len(),
{
    let rest = q.subrange(1, q.len() as int);
    if q[0] == id {
        lemma_process_queue_adds_no_task(process_one(m, id), rest, id);
    } else {
        let i = choose|i: int| 0 <= i < q.len() && q[i] == id;
        assert(rest[i - 1] == id);
        assert(rest.contains(id));
        lemma_ready_task_removed(process_one(m, q[0]), rest, id);
    }
}

/// Wake-after-suspend: a task whose identifier never enters the wake queue
/// is not polled during a drain — it survives the cycle with its unit of
/// work untouched, until its waker fires.
pub proof fn lemma_unwoken_task_undisturbed<W: Work>(m: Map<TaskId, W>, q: Seq<TaskId>, id: TaskId)
    requires
        m.contains_key(id),
        !q.contains(id),
    ensures
        process_queue(m, q).contains_key(id),
        process_queue(m, q)[id] == m[id],
    decreases q.len(),
{
    if q.len() > 0 {
        assert(q[0] != id);
        let rest = q.subrange(1, q.len() as int);
        assert forall|i: int| 0 <= i < rest.len() implies rest[i] != id by {
            assert(rest[i] == q[i + 1]);
        }
        assert(!rest.contains(id));
        lemma_unwoken_task_undisturbed(process_one(m, q[0]), rest, id);
    }
}

} // verus!
