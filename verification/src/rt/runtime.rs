//! Tasks on many workers.
//!
//! Each task has a number. A task that is to be polled stands in the queues by its number, once;
//! a worker that finds it polls it, with a waker that carries the number. The timers that are due
//! wake tasks up by their numbers.

use vstd::multiset::Multiset;
use vstd::prelude::*;

use crate::pool::oneshot::OneshotState;
use crate::pool::oneshot::Receiver;
use crate::rt::executor;
use crate::rt::executor::BlockOn;
use crate::rt::executor::Job;
use crate::rt::future;
use crate::rt::future::Context;
use crate::rt::future::ContextView;
use crate::rt::future::Future;
use crate::rt::future::Poll;
use crate::rt::reactor::Reactor;
use crate::rt::reactor::ReactorView;
use crate::sched;
use crate::sched::Queues;
use crate::sched::Scheduler;
use crate::sched::WorkerEvent;
use crate::sched::WorkerOp;
use crate::sched::WorkerPc;

verus! {

/// A runtime.
pub struct Runtime<F: Future> {
    sched: Scheduler<usize>,
    jobs: Vec<Job<F>>,
    cx: Context,
    refs: usize,
    shutdown: bool,
}

/// The handle of a task of a runtime. It counts as one that uses the runtime.
pub struct JoinHandle<T> {
    pub id: usize,
    pub receiver: Receiver<T>,
}

/// A context at `now`, with a waker that nobody has woken up.
pub open spec fn poll_context(now: u64, waker: u64, timers: ReactorView) -> ContextView {
    ContextView { now, waker, reactor: timers, woken: false }
}

/// Whether polling, at `now`, the task that worker `w` finds may turn the queues `q0`, the tasks
/// `j0` and the table `t0` into `q1`, `j1` and what the context `c1` holds. A task that wakes
/// itself up goes in front of the worker's queue. Without a task nothing happens.
pub open spec fn one_ran<F: Future>(
    q0: Queues<usize>,
    j0: Seq<Job<F>>,
    t0: ReactorView,
    w: int,
    now: u64,
    q1: Queues<usize>,
    j1: Seq<Job<F>>,
    c1: ContextView,
) -> bool {
    match q0.source(w) {
        None => q1 == q0 && j1 == j0 && c1.reactor == t0,
        Some(s) => {
            let id = q0.task_at(s);
            let after = j1[id as int];
            &&& id < j0.len()
            &&& j0[id as int].task_state() is Queued
            &&& j1 == j0.update(id as int, after)
            &&& Job::polled(j0[id as int], poll_context(now, id as u64, t0), after, c1)
            &&& q1 == (if after.task_state() is Queued {
                q0.without(s).with_local(w, id)
            } else {
                q0.without(s)
            })
        },
    }
}

/// The queues, and for which worker the next task from outside is, after the tasks with the given
/// wakers were woken up one after the other, beginning with tasks `j0`. Who is in the queues
/// already, and who is no task, is passed over.
pub open spec fn after_wakes<F: Future>(
    q0: Queues<usize>,
    next: usize,
    j0: Seq<Job<F>>,
    wakers: Seq<u64>,
) -> (Queues<usize>, usize)
    decreases wakers.len(),
{
    if wakers.len() == 0 {
        (q0, next)
    } else {
        let (q, n) = after_wakes(q0, next, j0, wakers.drop_last());
        let id = wakers.last();
        if id >= j0.len() || j0[id as int].task_state() is Queued || wakers.drop_last().contains(
            id,
        ) {
            (q, n)
        } else {
            (q.with_injected(n as int % q0.locals.len() as int, id as usize), n.wrapping_add(1))
        }
    }
}

/// Whether a waker belongs to none of `n` tasks.
pub open spec fn foreign(n: nat) -> spec_fn(u64) -> bool {
    |w: u64| w >= n
}

/// A multiset of numbers below `n`, none twice, holds at most `n` of them.
proof fn lemma_few(ms: Multiset<usize>, n: nat)
    requires
        forall|x: usize| #[trigger] ms.count(x) <= (if x < n {
            1nat
        } else {
            0nat
        }),
    ensures
        ms.len() <= n,
    decreases n,
{
    if n == 0 {
        assert(ms =~= Multiset::empty());
    } else if n - 1 <= usize::MAX {
        let x = (n - 1) as usize;
        if ms.count(x) > 0 {
            assert(ms.remove(x).len() == ms.len() - 1);
            assert forall|y: usize| #[trigger] ms.remove(x).count(y) <= (if y < n - 1 {
                1nat
            } else {
                0nat
            }) by {
                assert(ms.count(y) <= 1);
            }
            lemma_few(ms.remove(x), (n - 1) as nat);
        } else {
            assert forall|y: usize| #[trigger] ms.count(y) <= (if y < n - 1 {
                1nat
            } else {
                0nat
            }) by {}
            lemma_few(ms, (n - 1) as nat);
        }
    } else {
        assert forall|y: usize| #[trigger] ms.count(y) <= (if y < n - 1 {
            1nat
        } else {
            0nat
        }) by {}
        lemma_few(ms, (n - 1) as nat);
    }
}

impl<F: Future> Runtime<F> {
    /// The queues.
    pub closed spec fn queues(self) -> Queues<usize> {
        self.sched@
    }

    /// For which worker the next task from outside is, counted without end.
    pub closed spec fn next_external(self) -> usize {
        self.sched.next_external()
    }

    /// The tasks by their numbers.
    pub closed spec fn jobs(self) -> Seq<Job<F>> {
        self.jobs@
    }

    /// What the last poll left of its context.
    pub closed spec fn last_context(self) -> ContextView {
        self.cx@
    }

    /// The table of timers.
    pub open spec fn timers(self) -> ReactorView {
        self.last_context().reactor
    }

    /// How many use the runtime.
    pub closed spec fn refs(self) -> usize {
        self.refs
    }

    /// Whether the runtime is shut down.
    pub closed spec fn is_shut_down(self) -> bool {
        self.shutdown
    }

    /// How many workers there are.
    pub open spec fn workers(self) -> nat {
        self.queues().locals.len()
    }

    /// Each worker has its queues, and the count of the tasks that wait is right.
    pub closed spec fn sched_ok(self) -> bool {
        self.sched.wf()
    }

    /// Each task that is to be polled is in the queues once, and nothing else is.
    pub open spec fn wf(self) -> bool {
        &&& self.sched_ok()
        &&& self.timers().wf()
        &&& forall|i: int| 0 <= i < self.jobs().len() ==> (#[trigger] self.jobs()[i]).wf()
        &&& forall|id: usize| #[trigger]
            self.queues().tasks().count(id) == (if id < self.jobs().len()
                && self.jobs()[id as int].task_state() is Queued {
                1nat
            } else {
                0nat
            })
    }

    /// With what the task numbered `id` is polled at `now`.
    pub open spec fn context(self, now: u64, id: usize) -> ContextView {
        poll_context(now, id as u64, self.timers())
    }

    /// There is room in the queues for a task that is not in them.
    proof fn lemma_room(&self)
        requires
            self.wf(),
        ensures
            self.queues().waiting() <= self.jobs().len(),
            self.queues().waiting() == self.queues().tasks().len(),
            self.sched.pending() == self.queues().waiting(),
            forall|id: usize|
                id < self.jobs().len() && #[trigger] self.queues().tasks().count(id) == 0
                    ==> self.queues().waiting() < self.jobs().len(),
    {
        let ms = self.queues().tasks();
        sched::lemma_held_len(self.queues().locals);
        sched::lemma_held_len(self.queues().injectors);
        lemma_few(ms, self.jobs().len());
        assert forall|id: usize| id < self.jobs().len() && #[trigger] ms.count(id) == 0 implies
            ms.len() < self.jobs().len() by {
            let more = ms.insert(id);
            assert forall|x: usize| #[trigger] more.count(x) <= (if x < self.jobs().len() {
                1nat
            } else {
                0nat
            }) by {
                assert(ms.count(x) <= 1);
            }
            lemma_few(more, self.jobs().len());
        }
    }

    /// A runtime of `n_workers` workers without tasks, which one uses.
    pub fn new(n_workers: usize, reactor: Reactor) -> (rt: Runtime<F>)
        requires
            n_workers <= usize::MAX / 2,
            reactor.wf(),
        ensures
            rt.wf(),
            rt.workers() == n_workers,
            rt.jobs() == Seq::<Job<F>>::empty(),
            rt.queues().waiting() == 0,
            rt.next_external() == 0,
            rt.timers() == reactor@,
            rt.refs() == 1,
            !rt.is_shut_down(),
    {
        let rt = Runtime {
            sched: Scheduler::new(n_workers),
            jobs: Vec::new(),
            cx: Context { now: 0, waker: 0, reactor, woken: false },
            refs: 1,
            shutdown: false,
        };
        proof {
            sched::lemma_held_len(rt.queues().locals);
            sched::lemma_held_len(rt.queues().injectors);
            assert(rt.queues().tasks() =~= Multiset::empty());
        }
        rt
    }

    /// Spawns a task. A worker puts it in front of its own queue; from elsewhere it is put in for
    /// one worker after the other.
    pub fn spawn(&mut self, future: F, on_worker: Option<usize>) -> (h: JoinHandle<F::Output>)
        requires
            old(self).wf(),
            future.pollable(),
            old(self).jobs().len() < usize::MAX,
            old(self).refs() < usize::MAX,
            match on_worker {
                Some(w) => w < old(self).workers(),
                None => old(self).workers() > 0,
            },
        ensures
            final(self).wf(),
            h.id == old(self).jobs().len(),
            final(self).jobs() == old(self).jobs().push(final(self).jobs()[h.id as int]),
            final(self).jobs().len() == old(self).jobs().len() + 1,
            final(self).jobs()[h.id as int].future() == Some(future),
            final(self).jobs()[h.id as int].task_state() is Queued,
            final(self).jobs()[h.id as int].output() is Empty,
            final(self).queues() == (match on_worker {
                Some(w) => old(self).queues().with_local(w as int, h.id),
                None => old(self).queues().with_injected(
                    old(self).next_external() as int % old(self).workers() as int,
                    h.id,
                ),
            }),
            final(self).queues().waiting() == old(self).queues().waiting() + 1,
            final(self).workers() == old(self).workers(),
            final(self).next_external() == (match on_worker {
                Some(_) => old(self).next_external(),
                None => old(self).next_external().wrapping_add(1),
            }),
            final(self).timers() == old(self).timers(),
            final(self).refs() == old(self).refs() + 1,
            final(self).is_shut_down() == old(self).is_shut_down(),
    {
        proof {
            self.lemma_room();
        }
        let id: usize = self.jobs.len();
        let (job, receiver) = Job::new(future);
        self.jobs.push(job);
        self.sched.schedule(id, on_worker);
        self.refs = self.refs + 1;
        proof {
            assert(self.jobs@ =~= old(self).jobs@.push(self.jobs@[id as int]));
            assert forall|k: usize| #[trigger] self.queues().tasks().count(k) == (if k
                < self.jobs().len() && self.jobs()[k as int].task_state() is Queued {
                1nat
            } else {
                0nat
            }) by {
                assert(old(self).queues().tasks().count(k) <= 1);
            }
        }
        JoinHandle { id, receiver }
    }

    /// Wakes the task numbered `id` up: unless it is in the queues already, it goes there.
    pub fn wake(&mut self, id: usize, on_worker: Option<usize>)
        requires
            old(self).wf(),
            id < old(self).jobs().len(),
            match on_worker {
                Some(w) => w < old(self).workers(),
                None => old(self).workers() > 0,
            },
        ensures
            final(self).wf(),
            final(self).jobs() == old(self).jobs().update(
                id as int,
                final(self).jobs()[id as int],
            ),
            final(self).jobs()[id as int].task_state() is Queued,
            final(self).jobs()[id as int].future() == old(self).jobs()[id as int].future(),
            final(self).jobs()[id as int].output() == old(self).jobs()[id as int].output(),
            final(self).queues() == (if old(self).jobs()[id as int].task_state() is Queued {
                old(self).queues()
            } else {
                match on_worker {
                    Some(w) => old(self).queues().with_local(w as int, id),
                    None => old(self).queues().with_injected(
                        old(self).next_external() as int % old(self).workers() as int,
                        id,
                    ),
                }
            }),
            final(self).queues().waiting() == old(self).queues().waiting() + (if old(
                self,
            ).jobs()[id as int].task_state() is Queued {
                0int
            } else {
                1
            }),
            final(self).workers() == old(self).workers(),
            final(self).next_external() == (if old(self).jobs()[id as int].task_state() is Queued
                || on_worker is Some {
                old(self).next_external()
            } else {
                old(self).next_external().wrapping_add(1)
            }),
            final(self).timers() == old(self).timers(),
            final(self).refs() == old(self).refs(),
            final(self).is_shut_down() == old(self).is_shut_down(),
    {
        proof {
            self.lemma_room();
            assert(self.queues().tasks().count(id) <= 1);
            assert(self.jobs()[id as int].wf());
        }
        let n: usize = self.jobs.len();
        assert(self.jobs().len() == n);
        if self.jobs[id].wake() {
            self.sched.schedule(id, on_worker);
        }
        proof {
            assert(self.jobs@ =~= old(self).jobs@.update(id as int, self.jobs@[id as int]));
            assert forall|k: usize| #[trigger] self.queues().tasks().count(k) == (if k
                < self.jobs().len() && self.jobs()[k as int].task_state() is Queued {
                1nat
            } else {
                0nat
            }) by {
                assert(old(self).queues().tasks().count(k) <= 1);
            }
        }
    }

    /// Polls, at `now`, the task that worker `w` finds. Tells whether there was one.
    pub fn run_one(&mut self, w: usize, now: u64) -> (ran: bool)
        requires
            old(self).wf(),
            w < old(self).workers(),
        ensures
            final(self).wf(),
            ran == (old(self).queues().waiting() > 0),
            ran == (old(self).queues().source(w as int) is Some),
            one_ran(
                old(self).queues(),
                old(self).jobs(),
                old(self).timers(),
                w as int,
                now,
                final(self).queues(),
                final(self).jobs(),
                final(self).last_context(),
            ),
            ran ==> {
                let id = old(self).queues().task_at(old(self).queues().source(w as int)->0);
                let again = final(self).jobs()[id as int].task_state() is Queued;
                final(self).queues().waiting() == old(self).queues().waiting() - (if again {
                    0int
                } else {
                    1
                })
            },
            final(self).jobs().len() == old(self).jobs().len(),
            final(self).workers() == old(self).workers(),
            final(self).next_external() == old(self).next_external(),
            final(self).refs() == old(self).refs(),
            final(self).is_shut_down() == old(self).is_shut_down(),
    {
        proof {
            self.lemma_room();
        }
        match self.sched.find_work(w) {
            None => false,
            Some(id) => {
                proof {
                    assert(old(self).queues().tasks().count(id) > 0);
                    assert(old(self).jobs()[id as int].wf());
                }
                self.cx.now = now;
                self.cx.waker = id as u64;
                self.cx.woken = false;
                let ghost c0 = self.cx@;
                let ghost before = self.jobs@[id as int];
                let schedule = self.jobs[id].poll(&mut self.cx);
                let ghost after = self.jobs@[id as int];
                if schedule {
                    self.sched.schedule(id, Some(w));
                }
                proof {
                    assert(c0 == poll_context(now, id as u64, old(self).timers()));
                    assert(self.jobs@ =~= old(self).jobs@.update(id as int, after));
                    if before.future() is Some {
                        let (f1, p) = choose|f1: F, p: Poll<F::Output>| #[trigger]
                            future::steps(before.future()->0, c0.fresh(), f1, self.cx@, p);
                    }
                    assert forall|k: usize| #[trigger] self.queues().tasks().count(k) == (if k
                        < self.jobs().len() && self.jobs()[k as int].task_state() is Queued {
                        1nat
                    } else {
                        0nat
                    }) by {
                        assert(old(self).queues().tasks().count(k) <= 1);
                    }
                }
                true
            },
        }
    }

    /// Wakes up, at `now`, every task whose timer is due. The wakers that belong to no task are
    /// handed back.
    pub fn fire(&mut self, now: u64) -> (others: Vec<u64>)
        requires
            old(self).wf(),
            old(self).workers() > 0,
        ensures
            final(self).wf(),
            others@ == old(self).timers().due(now).filter(foreign(old(self).jobs().len())),
            others@ == old(self).timers().due(now).filter(|w: u64| w >= old(self).jobs().len()),
            final(self).timers() == old(self).timers().drained(now),
            final(self).jobs().len() == old(self).jobs().len(),
            forall|i: int|
                0 <= i < old(self).jobs().len() ==> {
                    let j = #[trigger] final(self).jobs()[i];
                    &&& j.future() == old(self).jobs()[i].future()
                    &&& j.output() == old(self).jobs()[i].output()
                    &&& j.task_state() is Queued <==> old(self).jobs()[i].task_state() is Queued
                        || old(self).timers().due(now).contains(i as u64)
                },
            (final(self).queues(), final(self).next_external()) == after_wakes(
                old(self).queues(),
                old(self).next_external(),
                old(self).jobs(),
                old(self).timers().due(now),
            ),
            final(self).workers() == old(self).workers(),
            final(self).refs() == old(self).refs(),
            final(self).is_shut_down() == old(self).is_shut_down(),
    {
        let ghost due = self.timers().due(now);
        let (wakers, _) = self.cx.reactor.drain_expired(now);
        let ghost before = old(self).jobs();
        let mut others: Vec<u64> = Vec::new();
        let mut k: usize = 0;
        proof {
            reveal(Seq::filter);
        }
        while k < wakers.len()
            invariant
                k <= wakers@.len(),
                wakers@ == due,
                others@ == due.take(k as int).filter(foreign(before.len())),
                before == old(self).jobs(),
                (self.queues(), self.next_external()) == after_wakes(
                    old(self).queues(),
                    old(self).next_external(),
                    before,
                    due.take(k as int),
                ),
                self.wf(),
                self.workers() == old(self).workers(),
                self.workers() > 0,
                self.timers() == old(self).timers().drained(now),
                self.refs() == old(self).refs(),
                self.is_shut_down() == old(self).is_shut_down(),
                self.jobs().len() == before.len(),
                forall|i: int|
                    0 <= i < before.len() ==> {
                        let j = #[trigger] self.jobs()[i];
                        &&& j.future() == before[i].future()
                        &&& j.output() == before[i].output()
                        &&& j.task_state() is Queued <==> before[i].task_state() is Queued
                            || due.take(k as int).contains(i as u64)
                    },
            decreases wakers.len() - k,
        {
            let id: u64 = wakers[k];
            let ghost mid = self.jobs();
            if id < self.jobs.len() as u64 {
                self.wake(id as usize, None);
            } else {
                others.push(id);
            }
            proof {
                reveal(Seq::filter);
                let a = due.take(k as int);
                let b = due.take(k + 1);
                assert(b =~= a.push(id));
                assert(b.drop_last() =~= a);
                assert forall|x: u64| #[trigger] b.contains(x) <==> a.contains(x) || x == id by {
                    if a.contains(x) {
                        let m = choose|m: int| 0 <= m < a.len() && a[m] == x;
                        assert(b[m] == x);
                    }
                    assert(b[k as int] == id);
                    if b.contains(x) {
                        let m = choose|m: int| 0 <= m < b.len() && b[m] == x;
                        if m < k {
                            assert(a[m] == x);
                        }
                    }
                }
                assert forall|i: int| 0 <= i < before.len() implies {
                    let j = #[trigger] self.jobs()[i];
                    &&& j.future() == before[i].future()
                    &&& j.output() == before[i].output()
                    &&& j.task_state() is Queued <==> before[i].task_state() is Queued
                        || b.contains(i as u64)
                } by {
                    assert(mid[i].future() == before[i].future());
                }
            }
            k += 1;
        }
        proof {
            assert(due.take(due.len() as int) =~= due);
        }
        others
    }

    /// Runs a future on the thread of the caller until it has ended, or until it waits. A caller
    /// that is a worker then polls the task that it finds, if there is one. What is left to do of
    /// the future is handed back, for `resume` when `waker` was woken up or there is more to help
    /// with.
    pub fn block_on<G: Future>(
        &mut self,
        future: G,
        now: u64,
        waker: u64,
        on_worker: Option<usize>,
    ) -> (r: Result<G::Output, BlockOn<G>>)
        requires
            old(self).wf(),
            future.pollable(),
            on_worker matches Some(w) ==> w < old(self).workers(),
        ensures
            final(self).wf(),
            final(self).workers() == old(self).workers(),
            final(self).next_external() == old(self).next_external(),
            final(self).refs() == old(self).refs(),
            final(self).is_shut_down() == old(self).is_shut_down(),
            r matches Err(b) ==> b.wf() && b.wakes() == (if b.is_woken() {
                usize::MAX
            } else {
                0
            }),
            exists|c1: ContextView| #[trigger]
                executor::run_ends(future, 1, poll_context(now, waker, old(self).timers()), c1, r)
                    && Self::helped(*old(self), c1.reactor, r is Err, on_worker, now, *final(self)),
    {
        self.resume(BlockOn::new(future), now, waker, on_worker)
    }

    /// Whether `after` is what is left of `before` when the table of timers has become `timers` and
    /// then a worker that has to wait has helped.
    pub open spec fn helped(
        before: Self,
        timers: ReactorView,
        waits: bool,
        on_worker: Option<usize>,
        now: u64,
        after: Self,
    ) -> bool {
        match on_worker {
            Some(w) if waits => one_ran(
                before.queues(),
                before.jobs(),
                timers,
                w as int,
                now,
                after.queues(),
                after.jobs(),
                after.last_context(),
            ),
            _ => {
                &&& after.queues() == before.queues()
                &&& after.jobs() == before.jobs()
                &&& after.timers() == timers
            },
        }
    }

    /// Goes on with a future: polls it if it was woken up, and helps if it waits and the caller is
    /// a worker.
    pub fn resume<G: Future>(
        &mut self,
        rest: BlockOn<G>,
        now: u64,
        waker: u64,
        on_worker: Option<usize>,
    ) -> (r: Result<G::Output, BlockOn<G>>)
        requires
            old(self).wf(),
            rest.wf(),
            on_worker matches Some(w) ==> w < old(self).workers(),
        ensures
            final(self).wf(),
            final(self).workers() == old(self).workers(),
            final(self).next_external() == old(self).next_external(),
            final(self).refs() == old(self).refs(),
            final(self).is_shut_down() == old(self).is_shut_down(),
            r matches Err(b) ==> b.wf() && b.wakes() == (if b.is_woken() {
                usize::MAX
            } else {
                0
            }),
            rest.is_woken() ==> exists|c1: ContextView| #[trigger]
                executor::run_ends(
                    rest.future(),
                    rest.wakes(),
                    poll_context(now, waker, old(self).timers()),
                    c1,
                    r,
                )
                    && Self::helped(*old(self), c1.reactor, r is Err, on_worker, now, *final(self)),
            !rest.is_woken() ==> {
                &&& r matches Err(b) && b.future() == rest.future() && !b.is_woken()
                &&& Self::helped(
                    *old(self),
                    old(self).timers(),
                    true,
                    on_worker,
                    now,
                    *final(self),
                )
            },
    {
        let ghost woken = rest.is_woken();
        let ghost f0 = rest.future();
        let ghost wakes = rest.wakes();
        self.cx.now = now;
        self.cx.waker = waker;
        self.cx.woken = false;
        let ghost c0 = self.cx@;
        let r = rest.run(&mut self.cx);
        let ghost c1 = self.cx@;
        proof {
            assert(self.queues() == old(self).queues());
            assert(self.jobs() == old(self).jobs());
            assert(c0 == poll_context(now, waker, old(self).timers()));
            assert(self.wf());
        }
        if let Some(w) = on_worker {
            if r.is_err() {
                self.run_one(w, now);
            }
        }
        assert(woken ==> executor::run_ends(f0, wakes, c0, c1, r));
        r
    }

    /// What a worker has to do after it has done something. At `now` it polls the task that it
    /// finds, if it looks for one. Tells whether it found one.
    pub fn worker_step(&mut self, w: usize, op: &mut WorkerOp, now: u64) -> (ran: bool)
        requires
            old(self).wf(),
            w < old(self).workers(),
        ensures
            final(self).wf(),
            final(self).workers() == old(self).workers(),
            final(self).next_external() == old(self).next_external(),
            final(self).refs() == old(self).refs(),
            final(self).is_shut_down() == old(self).is_shut_down(),
            match old(op).pc {
                WorkerPc::Find | WorkerPc::FindAgain => {
                    &&& ran == (old(self).queues().waiting() > 0)
                    &&& *final(op) == old(op).after(WorkerEvent::Found(ran))
                    &&& one_ran(
                        old(self).queues(),
                        old(self).jobs(),
                        old(self).timers(),
                        w as int,
                        now,
                        final(self).queues(),
                        final(self).jobs(),
                        final(self).last_context(),
                    )
                },
                pc => {
                    &&& !ran
                    &&& final(self).queues() == old(self).queues()
                    &&& final(self).jobs() == old(self).jobs()
                    &&& final(self).timers() == old(self).timers()
                    &&& *final(op) == (match pc {
                        WorkerPc::ReadShutdown => old(op).after(
                            WorkerEvent::Shutdown(old(self).is_shut_down()),
                        ),
                        WorkerPc::Run => old(op).after(WorkerEvent::Ran),
                        WorkerPc::Rest => if old(self).queues().waiting() == 0 && !old(
                            self,
                        ).is_shut_down() {
                            *old(op)
                        } else {
                            old(op).after(WorkerEvent::Rested)
                        },
                        _ => *old(op),
                    })
                },
            },
    {
        match op.pc {
            WorkerPc::Find | WorkerPc::FindAgain => {
                let ran = self.run_one(w, now);
                op.on_event(WorkerEvent::Found(ran));
                ran
            },
            WorkerPc::ReadShutdown => {
                op.on_event(WorkerEvent::Shutdown(self.shutdown));
                false
            },
            WorkerPc::Run => {
                op.on_event(WorkerEvent::Ran);
                false
            },
            WorkerPc::Rest => {
                if self.sched.n_pending() > 0 || self.shutdown {
                    op.on_event(WorkerEvent::Rested);
                }
                false
            },
            WorkerPc::Exit => false,
        }
    }

    /// One more uses the runtime.
    pub fn share(&mut self)
        requires
            old(self).wf(),
            old(self).refs() < usize::MAX,
        ensures
            final(self).wf(),
            final(self).refs() == old(self).refs() + 1,
            final(self).workers() == old(self).workers(),
            final(self).next_external() == old(self).next_external(),
            final(self).queues() == old(self).queues(),
            final(self).jobs() == old(self).jobs(),
            final(self).timers() == old(self).timers(),
            final(self).is_shut_down() == old(self).is_shut_down(),
    {
        self.refs = self.refs + 1;
        assert(self.queues() == old(self).queues());
        assert(self.jobs() == old(self).jobs());
        assert(self.timers() == old(self).timers());
    }

    /// One less uses the runtime. The last one shuts it down; the workers are to be told.
    pub fn release(&mut self)
        requires
            old(self).wf(),
            old(self).refs() > 0,
        ensures
            final(self).wf(),
            final(self).refs() == old(self).refs() - 1,
            final(self).is_shut_down() == (old(self).is_shut_down() || old(self).refs() == 1),
            final(self).workers() == old(self).workers(),
            final(self).next_external() == old(self).next_external(),
            final(self).queues() == old(self).queues(),
            final(self).jobs() == old(self).jobs(),
            final(self).timers() == old(self).timers(),
    {
        self.refs = self.refs - 1;
        if self.refs == 0 {
            self.shutdown = true;
        }
        assert(self.queues() == old(self).queues());
        assert(self.jobs() == old(self).jobs());
        assert(self.timers() == old(self).timers());
    }

    /// How many tasks wait in the queues.
    pub fn n_pending(&self) -> (n: usize)
        requires
            self.wf(),
        ensures
            n == self.queues().waiting(),
    {
        self.sched.n_pending()
    }

    /// When the earliest timer is due.
    pub fn next_deadline(&self) -> (d: Option<u64>)
        ensures
            d == self.timers().first_deadline(),
    {
        self.cx.reactor.next_deadline()
    }
}

impl<T> JoinHandle<T> {
    /// What the task ended with, if it has and nobody has taken it.
    pub fn poll<F: Future<Output = T>>(&self, rt: &mut Runtime<F>) -> (r: Poll<T>)
        requires
            old(rt).wf(),
            self.id < old(rt).jobs().len(),
        ensures
            final(rt).wf(),
            r == (match old(rt).jobs()[self.id as int].output() {
                OneshotState::Sent(v) => Poll::Ready(v),
                _ => Poll::Pending,
            }),
            final(rt).jobs() == old(rt).jobs().update(
                self.id as int,
                final(rt).jobs()[self.id as int],
            ),
            final(rt).jobs()[self.id as int].output() == (match old(
                rt,
            ).jobs()[self.id as int].output() {
                OneshotState::Sent(_) => OneshotState::Closed,
                s => s,
            }),
            final(rt).jobs()[self.id as int].future() == old(rt).jobs()[self.id as int].future(),
            final(rt).jobs()[self.id as int].task_state() == old(
                rt,
            ).jobs()[self.id as int].task_state(),
            final(rt).queues() == old(rt).queues(),
            final(rt).workers() == old(rt).workers(),
            final(rt).next_external() == old(rt).next_external(),
            final(rt).timers() == old(rt).timers(),
            final(rt).refs() == old(rt).refs(),
            final(rt).is_shut_down() == old(rt).is_shut_down(),
    {
        proof {
            assert(rt.jobs()[self.id as int].wf());
        }
        let r = rt.jobs[self.id].try_recv(&self.receiver);
        proof {
            assert(rt.jobs@ =~= old(rt).jobs@.update(self.id as int, rt.jobs@[self.id as int]));
            assert forall|k: usize| #[trigger] rt.queues().tasks().count(k) == (if k
                < rt.jobs().len() && rt.jobs()[k as int].task_state() is Queued {
                1nat
            } else {
                0nat
            }) by {
                assert(old(rt).queues().tasks().count(k) <= 1);
            }
        }
        match r {
            Some(v) => Poll::Ready(v),
            None => Poll::Pending,
        }
    }

    /// What the task ended with. The handle no longer counts as one that uses the runtime.
    pub fn recv<F: Future<Output = T>>(self, rt: &mut Runtime<F>) -> (v: T)
        requires
            old(rt).wf(),
            old(rt).refs() > 0,
            self.id < old(rt).jobs().len(),
            old(rt).jobs()[self.id as int].output() is Sent,
        ensures
            final(rt).wf(),
            old(rt).jobs()[self.id as int].output() == OneshotState::Sent(v),
            final(rt).jobs()[self.id as int].output() is Closed,
            final(rt).jobs() == old(rt).jobs().update(
                self.id as int,
                final(rt).jobs()[self.id as int],
            ),
            final(rt).jobs()[self.id as int].future() == old(rt).jobs()[self.id as int].future(),
            final(rt).jobs()[self.id as int].task_state() == old(
                rt,
            ).jobs()[self.id as int].task_state(),
            final(rt).queues() == old(rt).queues(),
            final(rt).workers() == old(rt).workers(),
            final(rt).next_external() == old(rt).next_external(),
            final(rt).timers() == old(rt).timers(),
            final(rt).refs() == old(rt).refs() - 1,
            final(rt).is_shut_down() == (old(rt).is_shut_down() || old(rt).refs() == 1),
    {
        let r = self.poll(rt);
        rt.release();
        match r {
            Poll::Ready(v) => v,
            Poll::Pending => vstd::pervasive::unreached(),
        }
    }
}

/// A worker that runs one task takes one of those that wait, polls its job with the time, its own
/// number as the waker and the timers as they are, and leaves all other jobs alone. Afterwards the
/// task waits again if and only if its job is queued, and all other tasks wait as before. With
/// nothing to run, nothing changes.
pub proof fn law_one_task_runs<F: Future>(
    q0: Queues<usize>,
    j0: Seq<Job<F>>,
    t0: ReactorView,
    w: int,
    now: u64,
    q1: Queues<usize>,
    j1: Seq<Job<F>>,
    c1: ContextView,
)
    requires
        q0.locals.len() == q0.injectors.len(),
        0 <= w < q0.locals.len(),
        one_ran(q0, j0, t0, w, now, q1, j1, c1),
    ensures
        q0.waiting() == 0 ==> q1 == q0 && j1 == j0 && c1.reactor == t0,
        q0.waiting() > 0 ==> exists|id: usize|
            {
                &&& #[trigger] q0.tasks().count(id) > 0
                &&& id < j0.len()
                &&& j0[id as int].task_state() is Queued
                &&& j1.len() == j0.len()
                &&& forall|k: int| 0 <= k < j0.len() && k != id ==> #[trigger] j1[k] == j0[k]
                &&& Job::polled(
                    j0[id as int],
                    ContextView { now, waker: id as u64, reactor: t0, woken: false },
                    j1[id as int],
                    c1,
                )
                &&& j1[id as int].task_state() is Queued ==> q1.tasks() == q0.tasks()
                &&& j1[id as int].task_state() is Idle ==> q1.tasks() == q0.tasks().remove(id)
            },
{
    sched::law_nothing_is_overlooked(q0, w);
    if let Some(s) = q0.source(w) {
        let id = q0.task_at(s);
        sched::law_each_task_is_found_once(q0, s);
        let q = q0.without(s);
        assert(q.locals.len() == q.injectors.len() && w < q.locals.len());
        sched::law_tasks_join(q, w, id);
        assert(q0.tasks().remove(id).insert(id) =~= q0.tasks());
        assert(q0.tasks().count(id) > 0);
    }
}

/// What a thread that waits helps with is one task, and it is left alone if it need not wait or is
/// no worker.
pub proof fn law_helping_runs_one_task<F: Future>(
    before: Runtime<F>,
    timers: ReactorView,
    waits: bool,
    on_worker: Option<usize>,
    now: u64,
    after: Runtime<F>,
)
    requires
        Runtime::helped(before, timers, waits, on_worker, now, after),
        before.wf(),
        on_worker matches Some(w) ==> w < before.workers(),
    ensures
        !waits || on_worker is None ==> after.queues() == before.queues() && after.jobs()
            == before.jobs() && after.timers() == timers,
        waits && on_worker is Some && before.queues().waiting() == 0 ==> after.queues()
            == before.queues() && after.jobs() == before.jobs() && after.timers() == timers,
        waits && on_worker is Some && before.queues().waiting() > 0 ==> exists|id: usize|
            {
                &&& #[trigger] before.queues().tasks().count(id) > 0
                &&& id < before.jobs().len()
                &&& after.jobs().len() == before.jobs().len()
                &&& forall|k: int|
                    0 <= k < before.jobs().len() && k != id ==> #[trigger] after.jobs()[k]
                        == before.jobs()[k]
                &&& Job::polled(
                    before.jobs()[id as int],
                    ContextView { now, waker: id as u64, reactor: timers, woken: false },
                    after.jobs()[id as int],
                    after.last_context(),
                )
            },
{
    if let Some(w) = on_worker {
        if waits {
            before.lemma_shape();
            law_one_task_runs(
                before.queues(),
                before.jobs(),
                timers,
                w as int,
                now,
                after.queues(),
                after.jobs(),
                after.last_context(),
            );
        }
    }
}

impl<F: Future> Runtime<F> {
    /// There is one shared queue for each worker.
    proof fn lemma_shape(self)
        requires
            self.wf(),
        ensures
            self.queues().locals.len() == self.queues().injectors.len(),
    {
    }
}

/// Wake-ups go round: the wake-up of a task that rests puts it into the injector whose turn it
/// is, and the turn passes to the next worker. A wake-up of somebody else, of a task that is to
/// be polled anyway, or of one that was woken up before changes nothing.
pub proof fn law_wake_ups_go_round<F: Future>(
    q: Queues<usize>,
    next: usize,
    jobs: Seq<Job<F>>,
    wakers: Seq<u64>,
    id: u64,
)
    requires
        q.locals.len() > 0,
        jobs.len() <= usize::MAX,
    ensures
        after_wakes(q, next, jobs, Seq::empty()) == (q, next),
        ({
            let (q0, n0) = after_wakes(q, next, jobs, wakers);
            let (q1, n1) = after_wakes(q, next, jobs, wakers.push(id));
            let idle = id < jobs.len() && !(jobs[id as int].task_state() is Queued)
                && !wakers.contains(id);
            &&& !idle ==> q1 == q0 && n1 == n0
            &&& idle ==> q1 == q0.with_injected(n0 as int % q.locals.len() as int, id as usize)
            &&& idle && n0 < usize::MAX ==> n1 == n0 + 1
            &&& idle && n0 == usize::MAX ==> n1 == 0
        }),
{
    assert(wakers.push(id).drop_last() =~= wakers);
}

/// A task that was woken up while it was polled is the next that its worker finds; any other one
/// that was waiting is where it was.
pub proof fn law_woken_meanwhile_is_next<F: Future>(
    q0: Queues<usize>,
    j0: Seq<Job<F>>,
    t0: ReactorView,
    w: int,
    now: u64,
    q1: Queues<usize>,
    j1: Seq<Job<F>>,
    c1: ContextView,
)
    requires
        q0.locals.len() == q0.injectors.len(),
        0 <= w < q0.locals.len(),
        one_ran(q0, j0, t0, w, now, q1, j1, c1),
        q0.source(w) is Some,
    ensures
        ({
            let id = q0.task_at(q0.source(w)->0);
            let again = j1[id as int].task_state() is Queued;
            &&& again ==> q1.source(w) is Some && q1.task_at(q1.source(w)->0) == id
            &&& again ==> q1.without(q1.source(w)->0) == q0.without(q0.source(w)->0)
            &&& !again ==> q1 == q0.without(q0.source(w)->0)
        }),
{
    let s = q0.source(w)->0;
    let id = q0.task_at(s);
    let rest = q0.without(s);
    if j1[id as int].task_state() is Queued {
        sched::law_order_of_search(q0, w);
        sched::law_newest_first_and_oldest_first(rest, w, id);
    }
}

} // verus!
