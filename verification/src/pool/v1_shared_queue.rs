//! A pool whose workers share one queue.

use std::collections::VecDeque;

use vstd::prelude::*;

verus! {

/// What a worker of the pool does next.
pub enum Choice<T> {
    /// Run the task.
    Run(T),
    /// Sleep until told.
    Wait,
    /// End.
    Exit,
}

/// The shared queue, and whether the pool is shut down.
pub struct SharedQueuePool<T> {
    tasks: VecDeque<T>,
    shutdown: bool,
    n_workers: usize,
}

impl<T> View for SharedQueuePool<T> {
    type V = Seq<T>;

    /// The tasks that wait, oldest first.
    closed spec fn view(&self) -> Seq<T> {
        self.tasks@
    }
}

impl<T> SharedQueuePool<T> {
    /// Whether the pool is shut down.
    pub closed spec fn is_shut_down(self) -> bool {
        self.shutdown
    }

    /// How many workers there are.
    pub closed spec fn size(self) -> usize {
        self.n_workers
    }

    /// A pool of `n_workers` workers with nothing to do.
    pub fn new(n_workers: usize) -> (p: SharedQueuePool<T>)
        ensures
            p@ == Seq::<T>::empty(),
            !p.is_shut_down(),
            p.size() == n_workers,
    {
        SharedQueuePool { tasks: VecDeque::new(), shutdown: false, n_workers }
    }

    /// How many workers there are.
    pub fn n_workers(&self) -> (n: usize)
        ensures
            n == self.size(),
    {
        self.n_workers
    }

    /// Puts a task into the queue. One sleeping worker is to be told.
    pub fn spawn(&mut self, task: T)
        ensures
            final(self)@ == old(self)@.push(task),
            final(self).is_shut_down() == old(self).is_shut_down(),
            final(self).size() == old(self).size(),
    {
        self.tasks.push_back(task);
    }

    /// What a worker does next: it runs the oldest task, and ends only when there is none and
    /// the pool is shut down.
    pub fn next_task(&mut self) -> (c: Choice<T>)
        ensures
            final(self).is_shut_down() == old(self).is_shut_down(),
            final(self).size() == old(self).size(),
            match c {
                Choice::Run(t) => old(self)@.len() > 0 && t == old(self)@[0] && final(self)@ == old(
                    self,
                )@.drop_first(),
                Choice::Exit => old(self)@.len() == 0 && old(self).is_shut_down() && final(self)@
                    == old(self)@,
                Choice::Wait => old(self)@.len() == 0 && !old(self).is_shut_down() && final(self)@
                    == old(self)@,
            },
    {
        match self.tasks.pop_front() {
            Some(t) => {
                assert(final(self)@ =~= old(self)@.drop_first());
                Choice::Run(t)
            },
            None => {
                if self.shutdown {
                    Choice::Exit
                } else {
                    Choice::Wait
                }
            },
        }
    }

    /// Shuts the pool down. All sleeping workers are to be told; tasks that wait are still run.
    pub fn shut_down(&mut self)
        ensures
            final(self).is_shut_down(),
            final(self)@ == old(self)@,
            final(self).size() == old(self).size(),
    {
        self.shutdown = true;
    }
}

/// A worker of the pool.
pub enum SharedWorker {
    /// About to ask what to do next.
    Ask,
    /// Running a task.
    Busy,
    /// Sleeping.
    Asleep,
    /// Ended.
    Ended,
}

/// The pool, its workers, how many wake-ups for one worker and whether a wake-up for all are
/// still to be given. Asking and falling asleep are one step, as both happen under the lock.
pub struct SharedSystem {
    pub waiting: nat,
    pub shutdown: bool,
    pub workers: Seq<SharedWorker>,
    pub tell_one: nat,
    pub tell_all: bool,
}

impl SharedSystem {
    /// What holds at any moment: a worker sleeps beside waiting tasks only if somebody is about
    /// to tell a worker, or a worker is on its way to ask.
    pub open spec fn inv(self) -> bool {
        &&& self.has(|w: SharedWorker| w is Asleep) && self.waiting > 0 ==> self.tell_one > 0
            || self.tell_all || self.has(|w: SharedWorker| w is Ask || w is Busy)
        &&& self.has(|w: SharedWorker| w is Asleep) && self.shutdown ==> self.tell_all
        &&& self.has(|w: SharedWorker| w is Ended) ==> self.shutdown && self.waiting == 0
    }

    /// Whether some worker has a property.
    pub open spec fn has(self, p: spec_fn(SharedWorker) -> bool) -> bool {
        exists|i: int| 0 <= i < self.workers.len() && p(#[trigger] self.workers[i])
    }

    /// The system after worker `i` has asked what to do next.
    pub open spec fn ask(self, i: int) -> SharedSystem {
        if self.waiting > 0 {
            SharedSystem {
                waiting: (self.waiting - 1) as nat,
                workers: self.workers.update(i, SharedWorker::Busy),
                ..self
            }
        } else if self.shutdown {
            SharedSystem { workers: self.workers.update(i, SharedWorker::Ended), ..self }
        } else {
            SharedSystem { workers: self.workers.update(i, SharedWorker::Asleep), ..self }
        }
    }

    /// The system after worker `i` has run its task.
    pub open spec fn finish(self, i: int) -> SharedSystem {
        SharedSystem { workers: self.workers.update(i, SharedWorker::Ask), ..self }
    }

    /// The system after a task was put into the queue.
    pub open spec fn spawn(self) -> SharedSystem {
        SharedSystem { waiting: self.waiting + 1, tell_one: self.tell_one + 1, ..self }
    }

    /// The system after one wake-up was given, which reached worker `i` if anyone slept.
    pub open spec fn told_one(self, i: int) -> SharedSystem {
        SharedSystem {
            tell_one: (self.tell_one - 1) as nat,
            workers: if self.has(|w: SharedWorker| w is Asleep) {
                self.workers.update(i, SharedWorker::Ask)
            } else {
                self.workers
            },
            ..self
        }
    }

    /// The system after the pool was shut down.
    pub open spec fn shut_down(self) -> SharedSystem {
        SharedSystem { shutdown: true, tell_all: true, ..self }
    }

    /// The system after all sleepers were woken.
    pub open spec fn told_all(self) -> SharedSystem {
        SharedSystem {
            tell_all: false,
            workers: self.workers.map_values(
                |w: SharedWorker|
                    if w is Asleep {
                        SharedWorker::Ask
                    } else {
                        w
                    },
            ),
            ..self
        }
    }
}

/// However workers and others interleave, no wake-up is lost, and no worker ends while a task
/// waits.
pub proof fn law_shared_step(s: SharedSystem, i: int)
    requires
        s.inv(),
        0 <= i < s.workers.len(),
    ensures
        s.workers[i] is Ask ==> s.ask(i).inv(),
        s.workers[i] is Busy ==> s.finish(i).inv(),
        !s.shutdown ==> s.spawn().inv(),
        s.tell_one > 0 && (s.has(|w: SharedWorker| w is Asleep) ==> s.workers[i] is Asleep)
            ==> s.told_one(i).inv(),
        s.shut_down().inv(),
        s.told_all().inv(),
{
    let asleep = |w: SharedWorker| w is Asleep;
    let active = |w: SharedWorker| w is Ask || w is Busy;
    let ended = |w: SharedWorker| w is Ended;
    if s.workers[i] is Ask {
        lemma_one_changed(s, s.ask(i), i);
    }
    if s.workers[i] is Busy {
        lemma_one_changed(s, s.finish(i), i);
        assert(active(s.finish(i).workers[i]));
    }
    if s.tell_one > 0 && (s.has(asleep) ==> s.workers[i] is Asleep) {
        let s2 = s.told_one(i);
        if s.has(asleep) {
            lemma_one_changed(s, s2, i);
            assert(active(s2.workers[i]));
        }
    }
    let s2 = s.told_all();
    assert(!s2.has(asleep)) by {
        if s2.has(asleep) {
            let k = choose|k: int| 0 <= k < s2.workers.len() && asleep(#[trigger] s2.workers[k]);
            assert(false);
        }
    }
    if s2.has(ended) {
        let k = choose|k: int| 0 <= k < s2.workers.len() && ended(#[trigger] s2.workers[k]);
        assert(ended(s.workers[k]));
    }
}

/// A fresh pool satisfies the invariant.
pub proof fn law_shared_start(s: SharedSystem)
    requires
        s.waiting == 0,
        !s.shutdown,
        forall|i: int| 0 <= i < s.workers.len() ==> #[trigger] s.workers[i] is Ask,
    ensures
        s.inv(),
{
}

/// When every wake-up has been given and every worker has come to rest, nobody sleeps beside a
/// waiting task, and nobody sleeps in a pool that was shut down.
pub proof fn law_shared_no_lost_wakeup(s: SharedSystem, i: int)
    requires
        s.inv(),
        s.tell_one == 0,
        !s.tell_all,
        forall|k: int|
            0 <= k < s.workers.len() ==> #[trigger] s.workers[k] is Asleep || s.workers[k] is Ended,
        0 <= i < s.workers.len(),
        s.workers[i] is Asleep,
    ensures
        s.waiting == 0,
        !s.shutdown,
{
    let asleep = |w: SharedWorker| w is Asleep;
    assert(asleep(s.workers[i]));
    assert(s.has(asleep));
}

/// All tasks run before a pool ends: once a worker has ended, no task waits, and none comes.
pub proof fn law_all_tasks_run_before_the_end(s: SharedSystem, i: int)
    requires
        s.inv(),
        0 <= i < s.workers.len(),
        s.workers[i] is Ended,
    ensures
        s.shutdown,
        s.waiting == 0,
{
    let ended = |w: SharedWorker| w is Ended;
    assert(ended(s.workers[i]));
    assert(s.has(ended));
}

/// When only worker `i` changes, what another worker is it was before.
proof fn lemma_one_changed(s: SharedSystem, s2: SharedSystem, i: int)
    requires
        0 <= i < s.workers.len(),
        s2.workers == s.workers.update(i, s2.workers[i]),
    ensures
        s2.has(|w: SharedWorker| w is Asleep) ==> s2.workers[i] is Asleep || s.has(
            |w: SharedWorker| w is Asleep,
        ),
        s2.has(|w: SharedWorker| w is Ended) ==> s2.workers[i] is Ended || s.has(
            |w: SharedWorker| w is Ended,
        ),
        s2.workers[i] is Busy || s2.workers[i] is Ask ==> s2.has(
            |w: SharedWorker| w is Ask || w is Busy,
        ),
{
    let asleep = |w: SharedWorker| w is Asleep;
    let ended = |w: SharedWorker| w is Ended;
    let active = |w: SharedWorker| w is Ask || w is Busy;
    if s2.has(asleep) && !(s2.workers[i] is Asleep) {
        let k = choose|k: int| 0 <= k < s2.workers.len() && asleep(#[trigger] s2.workers[k]);
        assert(asleep(s.workers[k]));
    }
    if s2.has(ended) && !(s2.workers[i] is Ended) {
        let k = choose|k: int| 0 <= k < s2.workers.len() && ended(#[trigger] s2.workers[k]);
        assert(ended(s.workers[k]));
    }
    if active(s2.workers[i]) {
        assert(s2.has(active));
    }
}

} // verus!
