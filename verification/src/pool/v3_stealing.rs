//! The work-stealing pool.

use vstd::prelude::*;

use crate::pool::task::FnOnceOnce;
use crate::sched::Queues;
use crate::sched::Scheduler;
use crate::sched::WorkerEvent;
use crate::sched::WorkerOp;
use crate::sched::WorkerPc;

verus! {

/// The queues of the pool, and whether it is shut down.
pub struct StealingPool<T> {
    sched: Scheduler<T>,
    shutdown: bool,
}

impl<T> View for StealingPool<T> {
    type V = Queues<T>;

    closed spec fn view(&self) -> Queues<T> {
        self.sched@
    }
}

/// Whether the caller, a worker of the given number or none, is a worker.
pub fn is_on_worker(worker: Option<usize>) -> (b: bool)
    ensures
        b == (worker is Some),
{
    worker.is_some()
}

impl<T> StealingPool<T> {
    /// That the queues are in order.
    pub closed spec fn wf(self) -> bool {
        self.sched.wf()
    }

    /// How many workers there are.
    pub open spec fn workers(self) -> nat {
        self@.locals.len()
    }

    /// For which worker the next task from outside is, counted without end.
    pub closed spec fn next_external(self) -> usize {
        self.sched.next_external()
    }

    /// Whether the pool is shut down.
    pub closed spec fn is_shut_down(self) -> bool {
        self.shutdown
    }

    /// The count of the tasks that wait.
    pub closed spec fn pending(self) -> usize {
        self.sched.pending()
    }

    /// The count is that of the tasks in the queues.
    pub proof fn lemma_pending(&self)
        requires
            self.wf(),
        ensures
            self.pending() == self@.waiting(),
    {
    }

    /// A pool of `n_workers` workers with nothing to do.
    pub fn new(n_workers: usize) -> (p: StealingPool<T>)
        requires
            n_workers <= usize::MAX / 2,
        ensures
            p.wf(),
            p.workers() == n_workers,
            p@.waiting() == 0,
            p.pending() == 0,
            p.next_external() == 0,
            !p.is_shut_down(),
    {
        StealingPool { sched: Scheduler::new(n_workers), shutdown: false }
    }

    /// How many workers there are.
    pub fn n_workers(&self) -> (n: usize)
        ensures
            n == self.workers(),
    {
        self.sched.n_workers()
    }

    /// How many tasks wait.
    pub fn n_pending(&self) -> (n: usize)
        requires
            self.wf(),
        ensures
            n == self.pending(),
            n == self@.waiting(),
    {
        self.sched.n_pending()
    }

    /// Spawns a task. A worker puts it in front of its own queue; from elsewhere it is put in
    /// for one worker after the other. All sleeping workers are to be told.
    pub fn spawn(&mut self, task: T, on_worker: Option<usize>)
        requires
            old(self).wf(),
            old(self).pending() < usize::MAX,
            match on_worker {
                Some(w) => w < old(self).workers(),
                None => old(self).workers() > 0,
            },
        ensures
            final(self).wf(),
            final(self)@ == (match on_worker {
                Some(w) => old(self)@.with_local(w as int, task),
                None => old(self)@.with_injected(
                    old(self).next_external() as int % old(self).workers() as int,
                    task,
                ),
            }),
            final(self).next_external() == (match on_worker {
                Some(_) => old(self).next_external(),
                None => old(self).next_external().wrapping_add(1),
            }),
            final(self).is_shut_down() == old(self).is_shut_down(),
            final(self).pending() == old(self).pending() + 1,
            final(self)@.waiting() == old(self)@.waiting() + 1,
            final(self)@.tasks() == old(self)@.tasks().insert(task),
    {
        self.sched.schedule(task, on_worker);
    }

    /// Finds a task for worker `w`.
    pub fn find_work(&mut self, w: usize) -> (r: Option<T>)
        requires
            old(self).wf(),
            w < old(self).workers(),
        ensures
            final(self).wf(),
            final(self).workers() == old(self).workers(),
            final(self).next_external() == old(self).next_external(),
            final(self).is_shut_down() == old(self).is_shut_down(),
            match old(self)@.source(w as int) {
                Some(s) => r == Some(old(self)@.task_at(s)) && final(self)@ == old(self)@.without(s),
                None => r is None && final(self)@ == old(self)@,
            },
            r is None <==> old(self)@.waiting() == 0,
            r matches Some(t) ==> {
                &&& old(self)@.tasks().contains(t)
                &&& final(self)@.tasks() == old(self)@.tasks().remove(t)
                &&& final(self)@.waiting() == old(self)@.waiting() - 1
                &&& final(self).pending() == old(self).pending() - 1
            },
    {
        self.sched.find_work(w)
    }

    /// What a worker has to do after it has done something: a task to run, an end, or a rest.
    pub fn worker_step(&mut self, w: usize, op: &mut WorkerOp) -> (r: Option<T>)
        requires
            old(self).wf(),
            w < old(self).workers(),
        ensures
            final(self).wf(),
            final(self).workers() == old(self).workers(),
            final(self).is_shut_down() == old(self).is_shut_down(),
            final(self).next_external() == old(self).next_external(),
            match old(op).pc {
                WorkerPc::Find | WorkerPc::FindAgain => {
                    &&& match old(self)@.source(w as int) {
                        Some(s) => r == Some(old(self)@.task_at(s)) && final(self)@ == old(
                            self,
                        )@.without(s),
                        None => r is None && final(self)@ == old(self)@,
                    }
                    &&& r is None <==> old(self)@.waiting() == 0
                    &&& *final(op) == old(op).after(WorkerEvent::Found(r is Some))
                    &&& r matches Some(t) ==> final(self)@.tasks() == old(self)@.tasks().remove(t)
                        && old(self)@.tasks().contains(t)
                },
                WorkerPc::ReadShutdown => {
                    &&& r is None
                    &&& final(self)@ == old(self)@
                    &&& *final(op) == old(op).after(WorkerEvent::Shutdown(old(self).is_shut_down()))
                },
                WorkerPc::Run => r is None && final(self)@ == old(self)@ && *final(op) == old(
                    op,
                ).after(WorkerEvent::Ran),
                WorkerPc::Rest => {
                    &&& r is None
                    &&& final(self)@ == old(self)@
                    &&& *final(op) == (if old(self)@.waiting() == 0 && !old(self).is_shut_down() {
                        *old(op)
                    } else {
                        old(op).after(WorkerEvent::Rested)
                    })
                },
                WorkerPc::Exit => r is None && final(self)@ == old(self)@ && *final(op) == *old(op),
            },
    {
        match op.pc {
            WorkerPc::Find | WorkerPc::FindAgain => {
                let r = self.find_work(w);
                op.on_event(WorkerEvent::Found(r.is_some()));
                r
            },
            WorkerPc::ReadShutdown => {
                op.on_event(WorkerEvent::Shutdown(self.shutdown));
                None
            },
            WorkerPc::Run => {
                op.on_event(WorkerEvent::Ran);
                None
            },
            WorkerPc::Rest => {
                if self.sched.n_pending() > 0 || self.shutdown {
                    op.on_event(WorkerEvent::Rested);
                }
                None
            },
            WorkerPc::Exit => None,
        }
    }

    /// Shuts the pool down. All sleeping workers are to be told; tasks that wait are still run.
    pub fn shut_down(&mut self)
        requires
            old(self).wf(),
        ensures
            final(self).wf(),
            final(self).is_shut_down(),
            final(self)@ == old(self)@,
            final(self).next_external() == old(self).next_external(),
    {
        self.shutdown = true;
    }
}

impl<T: FnOnceOnce> StealingPool<T> {
    /// Runs a task that waits, if the caller is a worker and there is one.
    pub fn run_one_pending_task(&mut self, worker: Option<usize>) -> (ran: bool)
        requires
            old(self).wf(),
            worker matches Some(w) ==> w < old(self).workers(),
            forall|t: T| #[trigger] old(self)@.tasks().contains(t) ==> t.callable(),
        ensures
            final(self).wf(),
            final(self).workers() == old(self).workers(),
            final(self).next_external() == old(self).next_external(),
            final(self).is_shut_down() == old(self).is_shut_down(),
            ran == (worker is Some && old(self)@.waiting() > 0),
            !ran ==> final(self)@ == old(self)@,
            ran ==> {
                let s = old(self)@.source(worker->0 as int)->0;
                &&& final(self)@ == old(self)@.without(s)
                &&& final(self)@.waiting() == old(self)@.waiting() - 1
                &&& final(self)@.tasks() == old(self)@.tasks().remove(old(self)@.task_at(s))
                &&& old(self)@.tasks().contains(old(self)@.task_at(s))
                &&& old(self)@.task_at(s).called()
            },
    {
        match worker {
            Some(w) => match self.find_work(w) {
                Some(t) => {
                    t.call_once_boxed();
                    true
                },
                None => false,
            },
            None => false,
        }
    }
}

} // verus!
