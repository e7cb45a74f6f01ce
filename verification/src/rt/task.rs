//! A future that is scheduled as a whole.
//!
//! A word says whether the task rests, is queued, or runs. To wake it up is to set the word to
//! queued; only who found it resting puts it into a queue. A worker that takes it out of a queue
//! sets the word to running, takes the future out, polls it, and puts it back. If the word still
//! says running, the task rests. If not, somebody woke the task up in the meantime, and the worker
//! puts it into a queue again.

use vstd::prelude::*;

use crate::counting;
use crate::rt::future;
use crate::rt::future::Context;
use crate::rt::future::Future;
use crate::rt::future::Poll;
use crate::word;
use crate::word::Word;
use crate::word::WordAction;
use crate::word::WordEvent;

verus! {

/// The task waits to be woken up.
pub const IDLE: u32 = 0;

/// The task is to be polled.
pub const QUEUED: u32 = 1;

/// The task is being polled, and was not woken up since.
pub const RUNNING: u32 = 2;

/// What a wake-up or a poll of a task wants done.
#[derive(Clone, Copy, Debug, PartialEq, Eq, Structural)]
pub enum TaskAction {
    /// An operation on the word.
    Word(WordAction),
    /// Put the task into a queue.
    Schedule,
    /// Take the future out of the task.
    TakeFuture,
    /// Poll the future.
    PollFuture,
    /// Put the future back.
    PutBack,
}

/// What came back.
#[derive(Clone, Copy, Debug, PartialEq, Eq, Structural)]
pub enum TaskEvent {
    /// The answer of the word.
    Word(WordEvent),
    /// It is done.
    Done,
    /// Whether there was a future.
    Taken(bool),
    /// Whether the future has ended.
    Ended(bool),
}

/// Where a wake-up stands.
#[derive(Clone, Copy, Debug, PartialEq, Eq, Structural)]
pub enum WakePc {
    /// About to set the word.
    Mark,
    /// The task rested; about to put it into a queue.
    Schedule,
    /// Nothing is left to do.
    Done,
}

/// One wake-up of a task.
#[derive(Clone, Copy, Debug, PartialEq, Eq, Structural)]
pub struct WakeOp {
    pub pc: WakePc,
}

impl WakeOp {
    /// What an unfinished wake-up wants done next.
    pub open spec fn action(self) -> TaskAction {
        match self.pc {
            WakePc::Mark => TaskAction::Word(WordAction::Swap(QUEUED)),
            _ => TaskAction::Schedule,
        }
    }

    /// Where a wake-up stands after an answer. An answer of the wrong kind changes nothing.
    pub open spec fn after(self, e: TaskEvent) -> WakeOp {
        let pc = match (self.pc, e) {
            (WakePc::Mark, TaskEvent::Word(WordEvent::Value(prev))) => if prev == IDLE {
                WakePc::Schedule
            } else {
                WakePc::Done
            },
            (WakePc::Schedule, TaskEvent::Done) => WakePc::Done,
            (pc, _) => pc,
        };
        WakeOp { pc }
    }

    /// A wake-up that has done nothing yet.
    pub fn start() -> (op: WakeOp)
        ensures
            op == (WakeOp { pc: WakePc::Mark }),
    {
        WakeOp { pc: WakePc::Mark }
    }

    /// What to do next, or `None` when the wake-up is finished.
    pub fn next_action(&self) -> (a: Option<TaskAction>)
        ensures
            a == (if self.pc is Done { None } else { Some(self.action()) }),
    {
        match self.pc {
            WakePc::Mark => Some(TaskAction::Word(WordAction::Swap(QUEUED))),
            WakePc::Schedule => Some(TaskAction::Schedule),
            WakePc::Done => None,
        }
    }

    /// Takes the answer to what was done.
    pub fn on_event(&mut self, e: TaskEvent)
        ensures
            *final(self) == old(self).after(e),
    {
        let pc = match (self.pc, e) {
            (WakePc::Mark, TaskEvent::Word(WordEvent::Value(prev))) => {
                if prev == IDLE {
                    WakePc::Schedule
                } else {
                    WakePc::Done
                }
            },
            (WakePc::Schedule, TaskEvent::Done) => WakePc::Done,
            (pc, _) => pc,
        };
        self.pc = pc;
    }
}

/// Where a poll stands.
#[derive(Clone, Copy, Debug, PartialEq, Eq, Structural)]
pub enum PollPc {
    /// About to set the word from queued to running.
    Begin,
    /// About to take the future out.
    Take,
    /// About to poll the future.
    Run,
    /// The future waits; about to put it back.
    PutBack,
    /// About to set the word from running to idle.
    Rest,
    /// The task was woken up meanwhile; about to put it into a queue.
    Schedule,
    /// The future has ended; about to set the word to idle.
    Close,
    /// Nothing is left to do.
    Done,
}

/// One poll of a task.
#[derive(Clone, Copy, Debug, PartialEq, Eq, Structural)]
pub struct PollOp {
    pub pc: PollPc,
}

impl PollOp {
    /// What an unfinished poll wants done next.
    pub open spec fn action(self) -> TaskAction {
        match self.pc {
            PollPc::Begin => TaskAction::Word(
                WordAction::CompareExchange { current: QUEUED, new: RUNNING },
            ),
            PollPc::Take => TaskAction::TakeFuture,
            PollPc::Run => TaskAction::PollFuture,
            PollPc::PutBack => TaskAction::PutBack,
            PollPc::Rest => TaskAction::Word(
                WordAction::CompareExchange { current: RUNNING, new: IDLE },
            ),
            PollPc::Close => TaskAction::Word(WordAction::Store(IDLE)),
            _ => TaskAction::Schedule,
        }
    }

    /// Where a poll stands after an answer. An answer of the wrong kind changes nothing.
    pub open spec fn after(self, e: TaskEvent) -> PollOp {
        let pc = match (self.pc, e) {
            (PollPc::Begin, TaskEvent::Word(WordEvent::Exchanged(_))) => PollPc::Take,
            (PollPc::Begin, TaskEvent::Word(WordEvent::NotExchanged(_))) => PollPc::Done,
            (PollPc::Take, TaskEvent::Taken(some)) => if some {
                PollPc::Run
            } else {
                PollPc::Close
            },
            (PollPc::Run, TaskEvent::Ended(ended)) => if ended {
                PollPc::Close
            } else {
                PollPc::PutBack
            },
            (PollPc::PutBack, TaskEvent::Done) => PollPc::Rest,
            (PollPc::Rest, TaskEvent::Word(WordEvent::Exchanged(_))) => PollPc::Done,
            (PollPc::Rest, TaskEvent::Word(WordEvent::NotExchanged(_))) => PollPc::Schedule,
            (PollPc::Schedule, TaskEvent::Done) => PollPc::Done,
            (PollPc::Close, TaskEvent::Word(WordEvent::Done)) => PollPc::Done,
            (pc, _) => pc,
        };
        PollOp { pc }
    }

    /// A poll that has done nothing yet.
    pub fn start() -> (op: PollOp)
        ensures
            op == (PollOp { pc: PollPc::Begin }),
    {
        PollOp { pc: PollPc::Begin }
    }

    /// What to do next, or `None` when the poll is finished.
    pub fn next_action(&self) -> (a: Option<TaskAction>)
        ensures
            a == (if self.pc is Done { None } else { Some(self.action()) }),
    {
        match self.pc {
            PollPc::Begin => Some(
                TaskAction::Word(WordAction::CompareExchange { current: QUEUED, new: RUNNING }),
            ),
            PollPc::Take => Some(TaskAction::TakeFuture),
            PollPc::Run => Some(TaskAction::PollFuture),
            PollPc::PutBack => Some(TaskAction::PutBack),
            PollPc::Rest => Some(
                TaskAction::Word(WordAction::CompareExchange { current: RUNNING, new: IDLE }),
            ),
            PollPc::Schedule => Some(TaskAction::Schedule),
            PollPc::Close => Some(TaskAction::Word(WordAction::Store(IDLE))),
            PollPc::Done => None,
        }
    }

    /// Takes the answer to what was done.
    pub fn on_event(&mut self, e: TaskEvent)
        ensures
            *final(self) == old(self).after(e),
    {
        let pc = match (self.pc, e) {
            (PollPc::Begin, TaskEvent::Word(WordEvent::Exchanged(_))) => PollPc::Take,
            (PollPc::Begin, TaskEvent::Word(WordEvent::NotExchanged(_))) => PollPc::Done,
            (PollPc::Take, TaskEvent::Taken(some)) => {
                if some {
                    PollPc::Run
                } else {
                    PollPc::Close
                }
            },
            (PollPc::Run, TaskEvent::Ended(ended)) => {
                if ended {
                    PollPc::Close
                } else {
                    PollPc::PutBack
                }
            },
            (PollPc::PutBack, TaskEvent::Done) => PollPc::Rest,
            (PollPc::Rest, TaskEvent::Word(WordEvent::Exchanged(_))) => PollPc::Done,
            (PollPc::Rest, TaskEvent::Word(WordEvent::NotExchanged(_))) => PollPc::Schedule,
            (PollPc::Schedule, TaskEvent::Done) => PollPc::Done,
            (PollPc::Close, TaskEvent::Word(WordEvent::Done)) => PollPc::Done,
            (pc, _) => pc,
        };
        self.pc = pc;
    }
}

/// What a task is up to, between two polls.
#[derive(Clone, Copy, Debug, PartialEq, Eq, Structural)]
pub enum TaskState {
    /// It waits to be woken up.
    Idle,
    /// It is to be polled.
    Queued,
}

/// A future that is scheduled as a whole.
pub struct Task<F> {
    state: Word,
    future: Option<F>,
}

impl<F> Task<F> {
    /// The word holds one of the values that it has between two polls.
    pub closed spec fn wf(self) -> bool {
        self.state@ == IDLE || self.state@ == QUEUED
    }

    /// What the task is up to.
    pub closed spec fn task_state(self) -> TaskState {
        if self.state@ == QUEUED {
            TaskState::Queued
        } else {
            TaskState::Idle
        }
    }

    /// The future, until it has ended.
    pub closed spec fn inner(self) -> Option<F> {
        self.future
    }

    /// A task that is to be polled: whoever makes it puts it into a queue.
    pub fn spawn(future: F) -> (t: Task<F>)
        ensures
            t.wf(),
            t.task_state() is Queued,
            t.inner() == Some(future),
    {
        Task { state: Word::new(QUEUED), future: Some(future) }
    }

    /// Wakes the task up. Tells whether the caller has to put it into a queue: only if it rested.
    pub fn wake(&mut self) -> (schedule: bool)
        requires
            old(self).wf(),
        ensures
            final(self).wf(),
            final(self).task_state() is Queued,
            final(self).inner() == old(self).inner(),
            schedule == (old(self).task_state() is Idle),
    {
        let mut op = WakeOp::start();
        let e = self.state.perform(WordAction::Swap(QUEUED));
        op.on_event(TaskEvent::Word(e));
        matches!(op.pc, WakePc::Schedule)
    }
}

impl<F: Future> Task<F> {
    /// Polls a task that was taken out of a queue. Gives what the future ended with, if it has
    /// ended now, and tells whether the task was woken up meanwhile and the caller has to put it
    /// into a queue again. A task that is not to be polled, and one whose future has ended before,
    /// is left alone.
    pub fn poll(&mut self, cx: &mut Context) -> (r: (Option<F::Output>, bool))
        requires
            old(self).wf(),
            old(self).inner() matches Some(f) ==> f.pollable(),
            old(cx).wf(),
        ensures
            final(self).wf(),
            final(cx).wf(),
            r.1 == (final(self).task_state() is Queued),
            old(self).task_state() is Idle ==> r.0 is None && !r.1 && final(self).inner()
                == old(self).inner() && final(cx)@ == old(cx)@,
            old(self).task_state() is Queued ==> match old(self).inner() {
                None => r.0 is None && !r.1 && final(self).inner() is None && final(cx)@ == old(
                    cx,
                )@,
                Some(f) => exists|f1: F, p: Poll<F::Output>| #[trigger]
                    future::steps(f, old(cx)@.fresh(), f1, final(cx)@, p) && match p {
                        Poll::Ready(v) => r.0 == Some(v) && !r.1 && final(self).inner() is None,
                        Poll::Pending => r.0 is None && r.1 == final(cx)@.woken
                            && final(self).inner() == Some(f1),
                    },
            },
            final(self).inner() matches Some(f) ==> f.pollable(),
    {
        let mut op = PollOp::start();
        let e = self.state.perform(
            WordAction::CompareExchange { current: QUEUED, new: RUNNING },
        );
        op.on_event(TaskEvent::Word(e));
        if let PollPc::Done = op.pc {
            return (None, false);
        }
        let taken = self.future.take();
        op.on_event(TaskEvent::Taken(taken.is_some()));
        match taken {
            None => {
                let e = self.state.perform(WordAction::Store(IDLE));
                op.on_event(TaskEvent::Word(e));
                (None, false)
            },
            Some(f) => {
                let mut f = f;
                let ghost f0 = f;
                cx.woken = false;
                let ghost c0 = cx@;
                assert(c0 == old(cx)@.fresh());
                match future::step(&mut f, cx) {
                    Poll::Ready(v) => {
                        op.on_event(TaskEvent::Ended(true));
                        let e = self.state.perform(WordAction::Store(IDLE));
                        op.on_event(TaskEvent::Word(e));
                        assert(future::steps(f0, c0, f, cx@, Poll::Ready(v)));
                        (Some(v), false)
                    },
                    Poll::Pending => {
                        if cx.woken {
                            let mut wake = WakeOp::start();
                            let e = self.state.perform(WordAction::Swap(QUEUED));
                            wake.on_event(TaskEvent::Word(e));
                        }
                        op.on_event(TaskEvent::Ended(false));
                        assert(future::steps(f0, c0, f, cx@, Poll::Pending));
                        self.future = Some(f);
                        op.on_event(TaskEvent::Done);
                        let e = self.state.perform(
                            WordAction::CompareExchange { current: RUNNING, new: IDLE },
                        );
                        op.on_event(TaskEvent::Word(e));
                        (None, matches!(op.pc, PollPc::Schedule))
                    },
                }
            },
        }
    }
}

/// Somebody who is busy with a task.
pub enum TaskRole {
    Waking(WakeOp),
    Polling(PollOp),
}

/// A task and all who are busy with it.
pub struct TaskSystem {
    pub word: u32,
    /// Whether the future is in the task.
    pub present: bool,
    /// Whether the future has ended.
    pub ended: bool,
    /// How often the task is in a queue.
    pub entries: nat,
    /// Whether the task was woken up since it was last polled.
    pub woken: bool,
    pub roles: Seq<TaskRole>,
}

/// Whether somebody is bound to put the task into a queue, or has just taken it out of one.
pub open spec fn holds_entry(r: TaskRole) -> bool {
    match r {
        TaskRole::Waking(op) => op.pc is Schedule,
        TaskRole::Polling(op) => op.pc is Schedule || op.pc is Begin,
    }
}

/// Whether somebody polls the task.
pub open spec fn runs(r: TaskRole) -> bool {
    r matches TaskRole::Polling(op) && (op.pc is Take || op.pc is Run || op.pc is PutBack || op.pc
        is Rest || op.pc is Close)
}

/// Whether somebody has the future in hand.
pub open spec fn has_future(r: TaskRole) -> bool {
    r matches TaskRole::Polling(op) && (op.pc is Run || op.pc is PutBack)
}

/// Whether somebody polls the task and has yet to look whether it was woken up.
pub open spec fn will_look(r: TaskRole) -> bool {
    r matches TaskRole::Polling(op) && (op.pc is Take || op.pc is Run || op.pc is PutBack || op.pc
        is Rest)
}

impl TaskSystem {
    /// How often the task is in a queue or about to be.
    pub open spec fn tickets(self) -> nat {
        self.entries + counting::count(self.roles, |r: TaskRole| holds_entry(r))
    }

    /// How many poll the task.
    pub open spec fn runners(self) -> nat {
        counting::count(self.roles, |r: TaskRole| runs(r))
    }

    /// What holds at any moment.
    pub open spec fn inv(self) -> bool {
        &&& self.word == IDLE || self.word == QUEUED || self.word == RUNNING
        &&& self.word == IDLE ==> self.tickets() == 0 && self.runners() == 0
        &&& self.word == RUNNING ==> self.tickets() == 0 && self.runners() == 1
        &&& self.word == QUEUED ==> self.tickets() + self.runners() == 1
        &&& self.present == (!self.ended && forall|i: int|
            0 <= i < self.roles.len() ==> !has_future(#[trigger] self.roles[i]))
        &&& forall|i: int|
            #![trigger self.roles[i]]
            0 <= i < self.roles.len() && (self.roles[i] matches TaskRole::Polling(op) && op.pc
                is Close) ==> self.ended
        &&& self.woken && !self.ended ==> self.word == QUEUED
        &&& forall|i: int|
            #![trigger self.roles[i]]
            0 <= i < self.roles.len() && has_future(self.roles[i]) ==> !self.ended
    }

    /// Whether the one numbered `i` has something to do.
    pub open spec fn enabled(self, i: int) -> bool {
        0 <= i < self.roles.len() && match self.roles[i] {
            TaskRole::Waking(op) => !(op.pc is Done),
            TaskRole::Polling(op) => !(op.pc is Done),
        }
    }

    /// The answer to what the one numbered `i` wants done. Whether a future that is polled ends,
    /// `ends`, is up to the future.
    pub open spec fn answer(self, a: TaskAction, ends: bool) -> TaskEvent {
        match a {
            TaskAction::Word(w) => TaskEvent::Word(word::word_event(self.word, w)),
            TaskAction::Schedule => TaskEvent::Done,
            TaskAction::TakeFuture => TaskEvent::Taken(self.present),
            TaskAction::PollFuture => TaskEvent::Ended(ends),
            TaskAction::PutBack => TaskEvent::Done,
        }
    }

    /// The system after the one numbered `i` has done what it wants done next.
    pub open spec fn step(self, i: int, ends: bool) -> TaskSystem {
        let (a, role) = match self.roles[i] {
            TaskRole::Waking(op) => (
                op.action(),
                TaskRole::Waking(op.after(self.answer(op.action(), ends))),
            ),
            TaskRole::Polling(op) => (
                op.action(),
                TaskRole::Polling(op.after(self.answer(op.action(), ends))),
            ),
        };
        TaskSystem {
            word: match a {
                TaskAction::Word(w) => word::word_after(self.word, w),
                _ => self.word,
            },
            present: match a {
                TaskAction::TakeFuture => false,
                TaskAction::PutBack => true,
                _ => self.present,
            },
            ended: self.ended || (a is PollFuture && ends),
            entries: if a is Schedule {
                self.entries + 1
            } else {
                self.entries
            },
            woken: match self.roles[i] {
                TaskRole::Waking(op) => self.woken || op.pc is Mark,
                TaskRole::Polling(op) => self.woken && !(op.pc is Begin && self.word == QUEUED),
            },
            roles: self.roles.update(i, role),
        }
    }

    /// The system after somebody set out to wake the task up.
    pub open spec fn with_waker(self) -> TaskSystem {
        TaskSystem {
            roles: self.roles.push(TaskRole::Waking(WakeOp { pc: WakePc::Mark })),
            ..self
        }
    }

    /// The system after a worker took the task out of a queue.
    pub open spec fn with_poller(self) -> TaskSystem {
        TaskSystem {
            entries: (self.entries - 1) as nat,
            roles: self.roles.push(TaskRole::Polling(PollOp { pc: PollPc::Begin })),
            ..self
        }
    }
}

/// At most one polls the task, and it is in a queue at most once, counting who is about to put it
/// there. Whoever takes it out of a queue finds it ready to be polled, with its future there
/// unless that has ended.
pub proof fn law_task_runs_once(s: TaskSystem)
    requires
        s.inv(),
    ensures
        s.tickets() + s.runners() <= 1,
        s.entries <= 1,
        forall|i: int, j: int|
            #![trigger s.roles[i], s.roles[j]]
            0 <= i < j < s.roles.len() ==> !(runs(s.roles[i]) && runs(s.roles[j])),
        forall|i: int|
            #![trigger s.roles[i]]
            0 <= i < s.roles.len() && (s.roles[i] matches TaskRole::Polling(op) && op.pc is Begin)
                ==> s.word == QUEUED && s.present == !s.ended,
{
    assert forall|i: int, j: int|
        #![trigger s.roles[i], s.roles[j]]
        0 <= i < j < s.roles.len() implies !(runs(s.roles[i]) && runs(s.roles[j])) by {
        if runs(s.roles[i]) && runs(s.roles[j]) {
            counting::lemma_count_two(s.roles, i, j, |r: TaskRole| runs(r));
        }
    }
    assert forall|i: int|
        #![trigger s.roles[i]]
        0 <= i < s.roles.len() && (s.roles[i] matches TaskRole::Polling(op) && op.pc
            is Begin) implies s.word == QUEUED && s.present == !s.ended by {
        counting::lemma_count_member(s.roles, i, |r: TaskRole| holds_entry(r));
        assert forall|j: int| 0 <= j < s.roles.len() implies !has_future(#[trigger] s.roles[j]) by {
            if has_future(s.roles[j]) {
                counting::lemma_count_member(s.roles, j, |r: TaskRole| runs(r));
            }
        }
    }
}

/// A new task, which whoever made it has put into a queue.
pub proof fn law_task_start()
    ensures
        (TaskSystem {
            word: QUEUED,
            present: true,
            ended: false,
            entries: 1,
            woken: true,
            roles: Seq::empty(),
        }).inv(),
{
}

/// Somebody may set out to wake the task up at any moment, and a worker may take it out of a queue
/// whenever it is in one.
pub proof fn law_task_join(s: TaskSystem)
    requires
        s.inv(),
    ensures
        s.with_waker().inv(),
        s.entries > 0 ==> s.with_poller().inv(),
{
    let w = TaskRole::Waking(WakeOp { pc: WakePc::Mark });
    let p = TaskRole::Polling(PollOp { pc: PollPc::Begin });
    counting::lemma_count_push(s.roles, w, |r: TaskRole| holds_entry(r));
    counting::lemma_count_push(s.roles, w, |r: TaskRole| runs(r));
    counting::lemma_count_push(s.roles, p, |r: TaskRole| holds_entry(r));
    counting::lemma_count_push(s.roles, p, |r: TaskRole| runs(r));
    let a = s.with_waker();
    let b = s.with_poller();
    assert(forall|i: int| 0 <= i < s.roles.len() ==> a.roles[i] == #[trigger] s.roles[i]);
    assert(forall|i: int| 0 <= i < s.roles.len() ==> b.roles[i] == #[trigger] s.roles[i]);
}

/// However they interleave, the invariant stays.
#[verifier::rlimit(40)]
pub proof fn law_task_step(s: TaskSystem, i: int, ends: bool)
    requires
        s.inv(),
        s.enabled(i),
    ensures
        s.step(i, ends).inv(),
{
    let t = s.step(i, ends);
    let role = t.roles[i];
    counting::lemma_count_update(s.roles, i, role, |r: TaskRole| holds_entry(r));
    counting::lemma_count_update(s.roles, i, role, |r: TaskRole| runs(r));
    if holds_entry(s.roles[i]) {
        counting::lemma_count_member(s.roles, i, |r: TaskRole| holds_entry(r));
    }
    if runs(s.roles[i]) {
        counting::lemma_count_member(s.roles, i, |r: TaskRole| runs(r));
        assert forall|j: int| 0 <= j < s.roles.len() && j != i implies !runs(
            #[trigger] s.roles[j],
        ) by {
            if runs(s.roles[j]) {
                if i < j {
                    counting::lemma_count_two(s.roles, i, j, |r: TaskRole| runs(r));
                } else {
                    counting::lemma_count_two(s.roles, j, i, |r: TaskRole| runs(r));
                }
            }
        }
    }
    law_task_runs_once(s);
    assert(forall|j: int|
        0 <= j < s.roles.len() && j != i ==> t.roles[j] == #[trigger] s.roles[j]);
}

/// No wake-up is lost: a task that was woken up since it was last polled, and has not ended, is in
/// a queue, or somebody is about to put it there, or somebody polls it and will then put it there.
pub proof fn law_task_no_lost_wakeup(s: TaskSystem)
    requires
        s.inv(),
        s.woken,
        !s.ended,
    ensures
        s.word == QUEUED,
        s.tickets() == 1 || exists|i: int|
            0 <= i < s.roles.len() && will_look(#[trigger] s.roles[i]),
        forall|i: int, ends: bool|
            #![trigger s.step(i, ends)]
            0 <= i < s.roles.len() && (s.roles[i] matches TaskRole::Polling(op) && op.pc is Rest)
                ==> holds_entry(s.step(i, ends).roles[i]),
{
    if s.runners() == 1 {
        let i = counting::lemma_count_witness(s.roles, |r: TaskRole| runs(r));
        assert(will_look(s.roles[i]));
    }
}

/// A wake-up marks the task as queued. It puts it into a queue if and only if the task rested.
pub proof fn law_wake_queues_who_rested(op: WakeOp, prev: u32)
    requires
        op.pc is Mark,
    ensures
        op.action() == TaskAction::Word(WordAction::Swap(QUEUED)),
        ({
            let marked = op.after(TaskEvent::Word(WordEvent::Value(prev)));
            &&& marked.pc is Done <==> prev != IDLE
            &&& prev == IDLE ==> marked.action() == TaskAction::Schedule && marked.after(
                TaskEvent::Done,
            ).pc is Done
        }),
{
}

/// A poll begins only where the task is queued. It polls the future if there is one, and puts a
/// future back that has not ended. Then the task rests, unless it was woken up meanwhile: then
/// it is put into a queue. A task whose future has ended rests for good.
pub proof fn law_poll_runs_who_is_queued(op: PollOp, found: u32)
    requires
        op.pc is Begin,
    ensures
        op.action() == TaskAction::Word(
            WordAction::CompareExchange { current: QUEUED, new: RUNNING },
        ),
        op.after(TaskEvent::Word(WordEvent::NotExchanged(found))).pc is Done,
        ({
            let running = op.after(TaskEvent::Word(WordEvent::Exchanged(found)));
            let taken = running.after(TaskEvent::Taken(true));
            let ended = taken.after(TaskEvent::Ended(true));
            let pending = taken.after(TaskEvent::Ended(false));
            let back = pending.after(TaskEvent::Done);
            let woken = back.after(TaskEvent::Word(WordEvent::NotExchanged(found)));
            &&& running.action() == TaskAction::TakeFuture
            &&& taken.action() == TaskAction::PollFuture
            &&& running.after(TaskEvent::Taken(false)) == ended
            &&& ended.action() == TaskAction::Word(WordAction::Store(IDLE))
            &&& ended.after(TaskEvent::Word(WordEvent::Done)).pc is Done
            &&& pending.action() == TaskAction::PutBack
            &&& back.action() == TaskAction::Word(
                WordAction::CompareExchange { current: RUNNING, new: IDLE },
            )
            &&& back.after(TaskEvent::Word(WordEvent::Exchanged(found))).pc is Done
            &&& woken.action() == TaskAction::Schedule
            &&& woken.after(TaskEvent::Done).pc is Done
            &&& !(running.pc is Done) && !(taken.pc is Done) && !(ended.pc is Done)
            &&& !(pending.pc is Done) && !(back.pc is Done) && !(woken.pc is Done)
        }),
{
}

} // verus!
