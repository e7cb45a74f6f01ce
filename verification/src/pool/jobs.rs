//! A whole run of a pool: tasks that are spawned, found, run and received.
//!
//! Each task has a number and a channel of its own. What is stated here of a run uses the queues
//! as [`StealingPool`](crate::pool::StealingPool) keeps them, and the channels as
//! [`run_and_send`](crate::pool::task::run_and_send) and the handles leave them.

use vstd::prelude::*;

use crate::pool::oneshot::OneshotState;
use crate::pool::task::JoinAction;
use crate::pool::task::JoinEvent;
use crate::pool::task::JoinOp;
use crate::sched;
use crate::sched::Queues;

verus! {

/// A pool, and for each task that was ever spawned how often it was run, what its channel holds,
/// and what its handle has received.
pub struct JobSystem<V> {
    pub queues: Queues<usize>,
    pub ran: Seq<nat>,
    pub out: Seq<OneshotState<V>>,
    pub got: Seq<Option<V>>,
}

impl<V> JobSystem<V> {
    /// How many tasks were spawned.
    pub open spec fn spawned(self) -> nat {
        self.ran.len()
    }

    /// What holds of task `id`, which gives a value of `gives`: it waits or was run, once in all;
    /// its channel has been sent its own value if any, and its handle has received its own value if
    /// any.
    pub open spec fn job_inv(self, id: int, gives: spec_fn(int, V) -> bool) -> bool {
        &&& self.queues.tasks().count(id as usize) + self.ran[id] == 1
        &&& self.out[id] matches OneshotState::Sent(v) ==> gives(id, v) && self.ran[id] == 1
        &&& self.out[id] is Empty ==> self.ran[id] == 0
        &&& self.got[id] matches Some(v) ==> gives(id, v) && self.ran[id] == 1 && self.out[id] is Closed
    }

    /// What holds at any moment of a run.
    pub open spec fn inv(self, gives: spec_fn(int, V) -> bool) -> bool {
        &&& self.queues.locals.len() == self.queues.injectors.len()
        &&& self.out.len() == self.spawned()
        &&& self.got.len() == self.spawned()
        &&& self.spawned() <= usize::MAX
        &&& forall|t: usize| #[trigger] self.queues.tasks().count(t) > 0 ==> t < self.spawned()
        &&& forall|id: int| 0 <= id < self.spawned() ==> #[trigger] self.job_inv(id, gives)
    }

    /// After a task was spawned, by worker `i` or from outside for worker `i`.
    pub open spec fn spawn(self, by_worker: bool, i: int) -> JobSystem<V> {
        let id = self.spawned() as usize;
        JobSystem {
            queues: if by_worker {
                self.queues.with_local(i, id)
            } else {
                self.queues.with_injected(i, id)
            },
            ran: self.ran.push(0),
            out: self.out.push(OneshotState::Empty),
            got: self.got.push(None),
        }
    }

    /// Which task worker `w` finds.
    pub open spec fn found(self, w: int) -> int {
        self.queues.task_at(self.queues.source(w)->0) as int
    }

    /// After worker `w` has run the task that it finds, which gave `v`. If the handle is gone, so
    /// is the value.
    pub open spec fn run(self, w: int, v: V) -> JobSystem<V> {
        let s = self.queues.source(w)->0;
        let id = self.found(w);
        JobSystem {
            queues: self.queues.without(s),
            ran: self.ran.update(id, self.ran[id] + 1),
            out: self.out.update(
                id,
                if self.out[id] is Closed {
                    OneshotState::Closed
                } else {
                    OneshotState::Sent(v)
                },
            ),
            got: self.got,
        }
    }

    /// After the handle of task `id` was asked for the result, or has given up waiting for it.
    pub open spec fn recv(self, id: int, gives_up: bool) -> JobSystem<V> {
        JobSystem {
            out: match self.out[id] {
                OneshotState::Sent(_) => self.out.update(id, OneshotState::Closed),
                _ => if gives_up {
                    self.out.update(id, OneshotState::Closed)
                } else {
                    self.out
                },
            },
            got: match self.out[id] {
                OneshotState::Sent(v) => if gives_up {
                    self.got
                } else {
                    self.got.update(id, Some(v))
                },
                _ => self.got,
            },
            ..self
        }
    }
}

/// A pool in which nothing was spawned begins a run.
pub proof fn law_jobs_start<V>(s: JobSystem<V>, gives: spec_fn(int, V) -> bool)
    requires
        s.queues.locals.len() == s.queues.injectors.len(),
        s.queues.waiting() == 0,
        s.ran.len() == 0,
        s.out.len() == 0,
        s.got.len() == 0,
    ensures
        s.inv(gives),
{
    sched::lemma_held_len(s.queues.locals);
    sched::lemma_held_len(s.queues.injectors);
    assert(s.queues.tasks().len() == 0);
    assert(s.queues.tasks() =~= vstd::multiset::Multiset::empty());
}

/// Spawning keeps a run in order.
pub proof fn law_jobs_spawn<V>(
    s: JobSystem<V>,
    gives: spec_fn(int, V) -> bool,
    by_worker: bool,
    i: int,
)
    requires
        s.inv(gives),
        0 <= i < s.queues.locals.len(),
        s.spawned() < usize::MAX,
    ensures
        s.spawn(by_worker, i).inv(gives),
        s.spawn(by_worker, i).spawned() == s.spawned() + 1,
{
    let s2 = s.spawn(by_worker, i);
    let new = s.spawned() as usize;
    sched::law_tasks_join(s.queues, i, new);
    assert(s2.queues.tasks() == s.queues.tasks().insert(new));
    assert(s.queues.tasks().count(new) == 0);
    assert forall|t: usize| #[trigger] s2.queues.tasks().count(t) > 0 implies t < s2.spawned() by {
        if t != new {
            assert(s.queues.tasks().count(t) > 0);
        }
    }
    assert forall|id: int| 0 <= id < s2.spawned() implies #[trigger] s2.job_inv(id, gives) by {
        if id < s.spawned() {
            assert(s.job_inv(id, gives));
        }
    }
}

/// Running a task keeps a run in order: the task had not been run before, and what it gives goes
/// to its own handle and to no other.
pub proof fn law_jobs_run<V>(s: JobSystem<V>, gives: spec_fn(int, V) -> bool, w: int, v: V)
    requires
        s.inv(gives),
        0 <= w < s.queues.locals.len(),
        s.queues.waiting() > 0,
        gives(s.found(w), v),
    ensures
        0 <= s.found(w) < s.spawned(),
        s.ran[s.found(w)] == 0,
        s.run(w, v).inv(gives),
        s.run(w, v).queues.waiting() == s.queues.waiting() - 1,
        forall|id: int|
            0 <= id < s.spawned() && id != s.found(w) ==> #[trigger] s.run(w, v).out[id]
                == s.out[id],
{
    sched::law_nothing_is_overlooked(s.queues, w);
    let src = s.queues.source(w)->0;
    sched::law_each_task_is_found_once(s.queues, src);
    let t = s.queues.task_at(src);
    let id = s.found(w);
    assert(s.queues.tasks().count(t) > 0);
    assert(s.job_inv(id, gives));
    let s2 = s.run(w, v);
    assert forall|x: usize| #[trigger] s2.queues.tasks().count(x) > 0 implies x < s2.spawned() by {
        assert(s.queues.tasks().count(x) > 0);
    }
    assert forall|k: int| 0 <= k < s2.spawned() implies #[trigger] s2.job_inv(k, gives) by {
        assert(s.job_inv(k, gives));
    }
}

/// Receiving, and giving up a handle, keep a run in order.
pub proof fn law_jobs_recv<V>(
    s: JobSystem<V>,
    gives: spec_fn(int, V) -> bool,
    id: int,
    gives_up: bool,
)
    requires
        s.inv(gives),
        0 <= id < s.spawned(),
    ensures
        s.recv(id, gives_up).inv(gives),
{
    let s2 = s.recv(id, gives_up);
    assert(s.job_inv(id, gives));
    assert forall|k: int| 0 <= k < s2.spawned() implies #[trigger] s2.job_inv(k, gives) by {
        assert(s.job_inv(k, gives));
    }
}

/// Every task that was spawned is run exactly once, be its handle there or not: once nothing waits,
/// all have been, and at no moment one has been run twice. A handle receives the value of its own
/// task and of no other, whatever the order in which the tasks are run and received.
pub proof fn law_every_task_runs_once<V>(s: JobSystem<V>, gives: spec_fn(int, V) -> bool, id: int)
    requires
        s.inv(gives),
        0 <= id < s.spawned(),
    ensures
        s.ran[id] <= 1,
        s.queues.waiting() == 0 ==> s.ran[id] == 1,
        s.queues.waiting() == 0 ==> !(s.out[id] is Empty),
        s.out[id] matches OneshotState::Sent(v) ==> gives(id, v),
        s.got[id] matches Some(v) ==> gives(id, v),
{
    assert(s.job_inv(id, gives));
    if s.queues.waiting() == 0 {
        sched::lemma_held_len(s.queues.locals);
        sched::lemma_held_len(s.queues.injectors);
        assert(s.queues.tasks().len() == 0);
        assert(s.queues.tasks() =~= vstd::multiset::Multiset::empty());
    }
}

/// The queues when worker `w` has taken `k` tasks out and nothing was put in.
pub open spec fn found_after<T>(q: Queues<T>, w: int, k: nat) -> Queues<T>
    decreases k,
{
    if k == 0 {
        q
    } else {
        let r = found_after(q, w, (k - 1) as nat);
        r.without(r.source(w)->0)
    }
}

/// A worker that waits for a task which waits itself comes to run it: as long as it goes on taking
/// out tasks, it takes out every one that waits, each within as many steps as there are tasks. So a
/// task that was spawned by a task on the only worker is run, and who waits for it goes on.
pub proof fn law_waiting_worker_finds_every_task<T>(q: Queues<T>, w: int, t: T) -> (k: nat)
    requires
        q.locals.len() == q.injectors.len(),
        0 <= w < q.locals.len(),
        q.tasks().count(t) > 0,
    ensures
        k < q.waiting(),
        found_after(q, w, k).source(w) is Some,
        found_after(q, w, k).task_at(found_after(q, w, k).source(w)->0) == t,
    decreases q.waiting(),
{
    sched::lemma_held_len(q.locals);
    sched::lemma_held_len(q.injectors);
    assert(q.tasks().len() == q.waiting());
    sched::law_nothing_is_overlooked(q, w);
    if q.waiting() == 0 {
        assert(q.tasks() =~= vstd::multiset::Multiset::empty());
    }
    let src = q.source(w)->0;
    sched::law_each_task_is_found_once(q, src);
    if q.task_at(src) == t {
        0
    } else {
        let r = q.without(src);
        let k = law_waiting_worker_finds_every_task(r, w, t);
        lemma_one_later(q, w, k);
        k + 1
    }
}

/// Taking out one task and then `k` is taking out `k + 1`.
proof fn lemma_one_later<T>(q: Queues<T>, w: int, k: nat)
    ensures
        found_after(q, w, k + 1) == found_after(q.without(q.source(w)->0), w, k),
    decreases k,
{
    if k == 0 {
        reveal_with_fuel(found_after, 2);
    } else {
        lemma_one_later(q, w, (k - 1) as nat);
    }
}

/// A wait on a worker never sleeps, and as long as the result is not there it is after at most two
/// steps about to run a task that waits: it looks whether the result is there, and if not helps.
pub proof fn law_wait_on_a_worker_helps(op: JoinOp)
    requires
        op.valid(),
        op.on_worker,
        !(op.pc is Done),
    ensures
        !(op.action() is Block),
        forall|e: JoinEvent| (#[trigger] op.after(e)).valid() && op.after(e).on_worker,
        op.pc is Help ==> op.action() is RunPending,
        op.pc is Try ==> op.after(JoinEvent::Got(false)).action() is RunPending,
        op.pc is Yield ==> op.after(JoinEvent::Done).after(JoinEvent::Got(false)).action()
            is RunPending,
        op.pc is Help ==> op.after(JoinEvent::Ran(true)).pc is Try,
{
}

/// One worker that waits for a result, the queues, and whether the result is there.
pub struct WaitSystem<T> {
    pub op: JoinOp,
    pub queues: Queues<T>,
    pub there: bool,
}

impl<T> WaitSystem<T> {
    /// After the wait of worker `w` has done what it wants done next. Running the task `awaited`
    /// brings the result.
    pub open spec fn step(self, w: int, awaited: T) -> WaitSystem<T> {
        match self.op.action() {
            JoinAction::TryRecv => WaitSystem {
                op: self.op.after(JoinEvent::Got(self.there)),
                ..self
            },
            JoinAction::RunPending => match self.queues.source(w) {
                Some(s) => WaitSystem {
                    op: self.op.after(JoinEvent::Ran(true)),
                    queues: self.queues.without(s),
                    there: self.there || self.queues.task_at(s) == awaited,
                },
                None => WaitSystem { op: self.op.after(JoinEvent::Ran(false)), ..self },
            },
            _ => WaitSystem { op: self.op.after(JoinEvent::Done), ..self },
        }
    }

    /// After so many steps.
    pub open spec fn steps(self, w: int, awaited: T, n: nat) -> WaitSystem<T>
        decreases n,
    {
        if n == 0 {
            self
        } else {
            self.step(w, awaited).steps(w, awaited, (n - 1) as nat)
        }
    }
}

/// A nested wait ends: a worker that waits for the result of a task which waits in the queues ends
/// its wait, though it be the only worker, within two steps for each task that waits and one more.
pub proof fn law_nested_wait_ends<T>(s: WaitSystem<T>, w: int, awaited: T) -> (n: nat)
    requires
        s.queues.locals.len() == s.queues.injectors.len(),
        0 <= w < s.queues.locals.len(),
        s.op.on_worker,
        s.op.pc is Try,
        s.there || s.queues.tasks().count(awaited) > 0,
    ensures
        n <= 2 * s.queues.waiting() + 1,
        s.steps(w, awaited, n).op.pc is Done,
        s.steps(w, awaited, n).there,
    decreases s.queues.waiting(),
{
    reveal_with_fuel(WaitSystem::steps, 3);
    if s.there {
        1
    } else {
        let q = s.queues;
        sched::lemma_held_len(q.locals);
        sched::lemma_held_len(q.injectors);
        assert(q.tasks().len() == q.waiting());
        sched::law_nothing_is_overlooked(q, w);
        if q.waiting() == 0 {
            assert(q.tasks() =~= vstd::multiset::Multiset::empty());
        }
        let src = q.source(w)->0;
        sched::law_each_task_is_found_once(q, src);
        let a = s.step(w, awaited);
        let b = a.step(w, awaited);
        assert(a.op.pc is Help);
        assert(b.op.pc is Try);
        let m = law_nested_wait_ends(b, w, awaited);
        let n = m + 2;
        assert(s.steps(w, awaited, n) == a.steps(w, awaited, (n - 1) as nat));
        assert(a.steps(w, awaited, (n - 1) as nat) == b.steps(w, awaited, m));
        n
    }
}

} // verus!
