//! A counting semaphore in two words: the permits, and how many threads sleep or are about to.
//!
//! Who finds no permit registers as a waiter, looks again, and sleeps only while there is still
//! none. Who releases adds a permit and, if anyone is registered, wakes one sleeper.

use vstd::prelude::*;

use crate::counting;
use crate::word;
use crate::word::Word;
use crate::word::WordAction;
use crate::word::WordEvent;

verus! {

/// One operation on one of the two words of a semaphore.
#[derive(Clone, Copy, Debug, PartialEq, Eq, Structural)]
pub enum SemaphoreAction {
    Permits(WordAction),
    Waiters(WordAction),
}

/// Where an acquisition stands.
#[derive(Clone, Copy, Debug, PartialEq, Eq, Structural)]
pub enum AcquirePc {
    /// About to read the permits.
    Load,
    /// About to take one of the permits that were read.
    Exchange(u32),
    /// About to register as a waiter.
    Register,
    /// About to look again whether there is a permit.
    Recheck,
    /// About to sleep unless there is a permit.
    Sleep,
    /// About to withdraw the registration.
    Deregister,
    /// A permit was taken.
    Done,
}

/// One acquisition of a permit.
#[derive(Clone, Copy, Debug, PartialEq, Eq, Structural)]
pub struct AcquireOp {
    pub pc: AcquirePc,
}

impl AcquireOp {
    /// The operation that an unfinished acquisition performs next.
    pub open spec fn action(self) -> SemaphoreAction {
        match self.pc {
            AcquirePc::Exchange(n) => SemaphoreAction::Permits(
                WordAction::CompareExchange { current: n, new: (n - 1) as u32 },
            ),
            AcquirePc::Register => SemaphoreAction::Waiters(WordAction::FetchAdd(1)),
            AcquirePc::Sleep => SemaphoreAction::Permits(WordAction::Wait(0)),
            AcquirePc::Deregister => SemaphoreAction::Waiters(WordAction::FetchSub(1)),
            _ => SemaphoreAction::Permits(WordAction::Load),
        }
    }

    /// Where an acquisition stands after an answer. An answer of the wrong kind changes
    /// nothing.
    pub open spec fn after(self, e: WordEvent) -> AcquireOp {
        let pc = match (self.pc, e) {
            (AcquirePc::Load, WordEvent::Value(n)) => if n > 0 {
                AcquirePc::Exchange(n)
            } else {
                AcquirePc::Register
            },
            (AcquirePc::Exchange(_), WordEvent::Exchanged(_)) => AcquirePc::Done,
            (AcquirePc::Exchange(_), WordEvent::NotExchanged(_)) => AcquirePc::Load,
            (AcquirePc::Register, WordEvent::Value(_)) => AcquirePc::Recheck,
            (AcquirePc::Recheck, WordEvent::Value(n)) => if n == 0 {
                AcquirePc::Sleep
            } else {
                AcquirePc::Deregister
            },
            (AcquirePc::Sleep, WordEvent::Done) => AcquirePc::Deregister,
            (AcquirePc::Deregister, WordEvent::Value(_)) => AcquirePc::Load,
            (pc, _) => pc,
        };
        AcquireOp { pc }
    }

    /// That an exchange is tried only where there was a permit.
    pub open spec fn valid(self) -> bool {
        self.pc matches AcquirePc::Exchange(n) ==> n > 0
    }

    /// An acquisition that has done nothing yet.
    pub fn start() -> (op: AcquireOp)
        ensures
            op == (AcquireOp { pc: AcquirePc::Load }),
            op.valid(),
    {
        AcquireOp { pc: AcquirePc::Load }
    }

    /// The operation to perform next, or `None` when a permit was taken.
    pub fn next_action(&self) -> (a: Option<SemaphoreAction>)
        requires
            self.valid(),
        ensures
            a == (if self.pc is Done { None } else { Some(self.action()) }),
    {
        match self.pc {
            AcquirePc::Load => Some(SemaphoreAction::Permits(WordAction::Load)),
            AcquirePc::Exchange(n) => Some(
                SemaphoreAction::Permits(WordAction::CompareExchange { current: n, new: n - 1 }),
            ),
            AcquirePc::Register => Some(SemaphoreAction::Waiters(WordAction::FetchAdd(1))),
            AcquirePc::Recheck => Some(SemaphoreAction::Permits(WordAction::Load)),
            AcquirePc::Sleep => Some(SemaphoreAction::Permits(WordAction::Wait(0))),
            AcquirePc::Deregister => Some(SemaphoreAction::Waiters(WordAction::FetchSub(1))),
            AcquirePc::Done => None,
        }
    }

    /// Takes the answer to the operation that was performed.
    pub fn on_event(&mut self, e: WordEvent)
        requires
            old(self).valid(),
        ensures
            *final(self) == old(self).after(e),
            final(self).valid(),
    {
        let pc = match (self.pc, e) {
            (AcquirePc::Load, WordEvent::Value(n)) => {
                if n > 0 {
                    AcquirePc::Exchange(n)
                } else {
                    AcquirePc::Register
                }
            },
            (AcquirePc::Exchange(_), WordEvent::Exchanged(_)) => AcquirePc::Done,
            (AcquirePc::Exchange(_), WordEvent::NotExchanged(_)) => AcquirePc::Load,
            (AcquirePc::Register, WordEvent::Value(_)) => AcquirePc::Recheck,
            (AcquirePc::Recheck, WordEvent::Value(n)) => {
                if n == 0 {
                    AcquirePc::Sleep
                } else {
                    AcquirePc::Deregister
                }
            },
            (AcquirePc::Sleep, WordEvent::Done) => AcquirePc::Deregister,
            (AcquirePc::Deregister, WordEvent::Value(_)) => AcquirePc::Load,
            (pc, _) => pc,
        };
        self.pc = pc;
    }
}

/// Where a release stands.
#[derive(Clone, Copy, Debug, PartialEq, Eq, Structural)]
pub enum ReleasePc {
    /// About to add a permit.
    Give,
    /// About to look whether anyone waits.
    Look,
    /// About to wake one sleeper.
    Wake,
    /// Nothing is left to do.
    Done,
}

/// One release of a permit.
#[derive(Clone, Copy, Debug, PartialEq, Eq, Structural)]
pub struct ReleaseOp {
    pub pc: ReleasePc,
}

impl ReleaseOp {
    /// The operation that an unfinished release performs next.
    pub open spec fn action(self) -> SemaphoreAction {
        match self.pc {
            ReleasePc::Look => SemaphoreAction::Waiters(WordAction::Load),
            ReleasePc::Wake => SemaphoreAction::Permits(WordAction::WakeOne),
            _ => SemaphoreAction::Permits(WordAction::FetchAdd(1)),
        }
    }

    /// Where a release stands after an answer: it wakes one if and only if anyone is
    /// registered. An answer of the wrong kind changes nothing.
    pub open spec fn after(self, e: WordEvent) -> ReleaseOp {
        let pc = match (self.pc, e) {
            (ReleasePc::Give, WordEvent::Value(_)) => ReleasePc::Look,
            (ReleasePc::Look, WordEvent::Value(n)) => if n > 0 {
                ReleasePc::Wake
            } else {
                ReleasePc::Done
            },
            (ReleasePc::Wake, WordEvent::Done) => ReleasePc::Done,
            (pc, _) => pc,
        };
        ReleaseOp { pc }
    }

    /// A release that has done nothing yet.
    pub fn start() -> (op: ReleaseOp)
        ensures
            op == (ReleaseOp { pc: ReleasePc::Give }),
    {
        ReleaseOp { pc: ReleasePc::Give }
    }

    /// The operation to perform next, or `None` when the release is finished.
    pub fn next_action(&self) -> (a: Option<SemaphoreAction>)
        ensures
            a == (if self.pc is Done { None } else { Some(self.action()) }),
    {
        match self.pc {
            ReleasePc::Give => Some(SemaphoreAction::Permits(WordAction::FetchAdd(1))),
            ReleasePc::Look => Some(SemaphoreAction::Waiters(WordAction::Load)),
            ReleasePc::Wake => Some(SemaphoreAction::Permits(WordAction::WakeOne)),
            ReleasePc::Done => None,
        }
    }

    /// Takes the answer to the operation that was performed.
    pub fn on_event(&mut self, e: WordEvent)
        ensures
            *final(self) == old(self).after(e),
    {
        let pc = match (self.pc, e) {
            (ReleasePc::Give, WordEvent::Value(_)) => ReleasePc::Look,
            (ReleasePc::Look, WordEvent::Value(n)) => {
                if n > 0 {
                    ReleasePc::Wake
                } else {
                    ReleasePc::Done
                }
            },
            (ReleasePc::Wake, WordEvent::Done) => ReleasePc::Done,
            (pc, _) => pc,
        };
        self.pc = pc;
    }
}

/// The two words of a semaphore.
pub struct Semaphore {
    permits: Word,
    num_waiters: Word,
}

impl Semaphore {
    /// How many permits there are.
    pub closed spec fn permits(self) -> u32 {
        self.permits@
    }

    /// How many threads are registered as waiters.
    pub closed spec fn num_waiters(self) -> u32 {
        self.num_waiters@
    }

    /// A semaphore with the given permits, on which nobody waits.
    pub fn new(permits: u32) -> (s: Semaphore)
        ensures
            s.permits() == permits,
            s.num_waiters() == 0,
    {
        Semaphore { permits: Word::new(permits), num_waiters: Word::new(0) }
    }

    /// Performs one operation.
    pub fn perform(&mut self, a: SemaphoreAction) -> (e: WordEvent)
        ensures
            match a {
                SemaphoreAction::Permits(w) => {
                    &&& final(self).permits() == word::word_after(old(self).permits(), w)
                    &&& final(self).num_waiters() == old(self).num_waiters()
                    &&& e == word::word_event(old(self).permits(), w)
                },
                SemaphoreAction::Waiters(w) => {
                    &&& final(self).permits() == old(self).permits()
                    &&& final(self).num_waiters() == word::word_after(old(self).num_waiters(), w)
                    &&& e == word::word_event(old(self).num_waiters(), w)
                },
            },
    {
        match a {
            SemaphoreAction::Permits(w) => self.permits.perform(w),
            SemaphoreAction::Waiters(w) => self.num_waiters.perform(w),
        }
    }

    /// Takes a permit. A single thread can only take one that is there.
    pub fn acquire(&mut self)
        requires
            old(self).permits() > 0,
        ensures
            final(self).permits() == old(self).permits() - 1,
            final(self).num_waiters() == old(self).num_waiters(),
    {
        let mut op = AcquireOp::start();
        let e = self.perform(SemaphoreAction::Permits(WordAction::Load));
        op.on_event(e);
        if let Some(a) = op.next_action() {
            let e = self.perform(a);
            op.on_event(e);
        }
        assert(op.pc is Done);
    }

    /// Adds a permit.
    pub fn release(&mut self)
        ensures
            final(self).permits() == old(self).permits().wrapping_add(1),
            old(self).permits() < u32::MAX ==> final(self).permits() == old(self).permits() + 1,
            final(self).num_waiters() == old(self).num_waiters(),
    {
        let mut op = ReleaseOp::start();
        let e = self.perform(SemaphoreAction::Permits(WordAction::FetchAdd(1)));
        op.on_event(e);
        let e = self.perform(SemaphoreAction::Waiters(WordAction::Load));
        op.on_event(e);
        if let Some(a) = op.next_action() {
            let e = self.perform(a);
            op.on_event(e);
        }
        assert(op.pc is Done);
    }
}

/// A thread at work on a semaphore. An acquirer that is asleep performs nothing until it is
/// woken.
pub enum SemaphoreThread {
    Acquirer { op: AcquireOp, asleep: bool },
    Releaser(ReleaseOp),
}

/// Whether a thread is asleep.
pub open spec fn is_asleep(t: SemaphoreThread) -> bool {
    t matches SemaphoreThread::Acquirer { op, asleep } && asleep
}

/// Whether a thread is registered as a waiter.
pub open spec fn is_registered(t: SemaphoreThread) -> bool {
    t matches SemaphoreThread::Acquirer { op, asleep } && (op.pc is Recheck || op.pc is Sleep
        || op.pc is Deregister)
}

/// Whether a thread has taken a permit.
pub open spec fn has_taken(t: SemaphoreThread) -> bool {
    t matches SemaphoreThread::Acquirer { op, asleep } && op.pc is Done
}

/// Whether a thread has given a permit.
pub open spec fn has_given(t: SemaphoreThread) -> bool {
    t matches SemaphoreThread::Releaser(op) && !(op.pc is Give)
}

/// Whether a thread is awake and will either take a permit or wake another thread.
pub open spec fn is_stirring(t: SemaphoreThread) -> bool {
    match t {
        SemaphoreThread::Acquirer { op, asleep } => !asleep && !(op.pc is Done),
        SemaphoreThread::Releaser(op) => op.pc is Look || op.pc is Wake,
    }
}

/// A thread after it has been woken.
pub open spec fn semaphore_woken(t: SemaphoreThread) -> SemaphoreThread {
    match t {
        SemaphoreThread::Acquirer { op, asleep } => if asleep {
            SemaphoreThread::Acquirer { op: op.after(WordEvent::Done), asleep: false }
        } else {
            t
        },
        _ => t,
    }
}

/// The words of a semaphore, the permits it started with, and the threads at work on it.
pub struct SemaphoreSystem {
    pub initial: u32,
    pub permits: u32,
    pub num_waiters: u32,
    pub threads: Seq<SemaphoreThread>,
}

impl SemaphoreSystem {
    /// How many threads have a property.
    pub open spec fn how_many(self, p: spec_fn(SemaphoreThread) -> bool) -> nat {
        counting::count(self.threads, p)
    }

    /// What holds of one thread.
    pub open spec fn thread_inv(t: SemaphoreThread) -> bool {
        match t {
            SemaphoreThread::Acquirer { op, asleep } => op.valid() && (asleep ==> op.pc is Sleep),
            _ => true,
        }
    }

    /// Whether a thread is asleep.
    pub open spec fn has_sleeper(self) -> bool {
        exists|i: int| 0 <= i < self.threads.len() && is_asleep(#[trigger] self.threads[i])
    }

    /// What holds at any moment: no permit is lost or made up; the waiters are those that are
    /// registered; while anyone sleeps, each free permit has a thread that is awake and will
    /// take it or wake someone for it.
    pub open spec fn inv(self) -> bool {
        &&& self.threads.len() <= u32::MAX
        &&& self.permits + self.how_many(|t: SemaphoreThread| has_taken(t)) == self.initial
            + self.how_many(|t: SemaphoreThread| has_given(t))
        &&& self.num_waiters == self.how_many(|t: SemaphoreThread| is_registered(t))
        &&& forall|i: int|
            0 <= i < self.threads.len() ==> Self::thread_inv(#[trigger] self.threads[i])
        &&& self.has_sleeper() ==> self.how_many(|t: SemaphoreThread| is_stirring(t))
            >= self.permits
    }

    /// Whether thread `i` has an operation to perform.
    pub open spec fn enabled(self, i: int) -> bool {
        &&& 0 <= i < self.threads.len()
        &&& match self.threads[i] {
            SemaphoreThread::Acquirer { op, asleep } => !(op.pc is Done) && !asleep,
            SemaphoreThread::Releaser(op) => !(op.pc is Done) && (op.pc is Give ==> self.permits
                < u32::MAX),
        }
    }

    /// What a word operation of thread `i` is answered. An exchange may fail for no reason.
    pub open spec fn event(self, a: SemaphoreAction, spurious: bool) -> WordEvent {
        match a {
            SemaphoreAction::Permits(w) => if w is CompareExchange && spurious {
                WordEvent::NotExchanged(self.permits)
            } else {
                word::word_event(self.permits, w)
            },
            SemaphoreAction::Waiters(w) => word::word_event(self.num_waiters, w),
        }
    }

    /// The system after thread `i` has performed its next operation, where an exchange fails
    /// for no reason if `spurious`, and a wake-up reaches thread `j` if anyone sleeps.
    pub open spec fn step(self, i: int, spurious: bool, j: int) -> SemaphoreSystem {
        match self.threads[i] {
            SemaphoreThread::Acquirer { op, asleep } => {
                let a = op.action();
                if op.pc is Sleep && self.permits == 0 {
                    SemaphoreSystem {
                        threads: self.threads.update(
                            i,
                            SemaphoreThread::Acquirer { op, asleep: true },
                        ),
                        ..self
                    }
                } else {
                    SemaphoreSystem {
                        initial: self.initial,
                        permits: match a {
                            SemaphoreAction::Permits(w) => if w is CompareExchange && spurious {
                                self.permits
                            } else {
                                word::word_after(self.permits, w)
                            },
                            _ => self.permits,
                        },
                        num_waiters: match a {
                            SemaphoreAction::Waiters(w) => word::word_after(self.num_waiters, w),
                            _ => self.num_waiters,
                        },
                        threads: self.threads.update(
                            i,
                            SemaphoreThread::Acquirer {
                                op: op.after(self.event(a, spurious)),
                                asleep: false,
                            },
                        ),
                    }
                }
            },
            SemaphoreThread::Releaser(op) => {
                let a = op.action();
                let threads = self.threads.update(
                    i,
                    SemaphoreThread::Releaser(op.after(self.event(a, spurious))),
                );
                SemaphoreSystem {
                    initial: self.initial,
                    permits: match a {
                        SemaphoreAction::Permits(w) => word::word_after(self.permits, w),
                        _ => self.permits,
                    },
                    num_waiters: self.num_waiters,
                    threads: if op.pc is Wake && self.has_sleeper() {
                        threads.update(j, semaphore_woken(threads[j]))
                    } else {
                        threads
                    },
                }
            },
        }
    }

    /// The system after sleeper `i` woke up for no reason.
    pub open spec fn wake_spuriously(self, i: int) -> SemaphoreSystem {
        SemaphoreSystem { threads: self.threads.update(i, semaphore_woken(self.threads[i])), ..self }
    }

    /// The system after another thread has come.
    pub open spec fn join(self, t: SemaphoreThread) -> SemaphoreSystem {
        SemaphoreSystem { threads: self.threads.push(t), ..self }
    }
}

/// What replacing thread `i` by `t` does to the counts.
proof fn lemma_counts(s: Seq<SemaphoreThread>, i: int, t: SemaphoreThread)
    requires
        0 <= i < s.len(),
    ensures
        counting::count(s.update(i, t), |t: SemaphoreThread| has_taken(t)) == counting::count(
            s,
            |t: SemaphoreThread| has_taken(t),
        ) + one(has_taken(t)) - one(has_taken(s[i])),
        counting::count(s.update(i, t), |t: SemaphoreThread| has_given(t)) == counting::count(
            s,
            |t: SemaphoreThread| has_given(t),
        ) + one(has_given(t)) - one(has_given(s[i])),
        counting::count(s.update(i, t), |t: SemaphoreThread| is_registered(t)) == counting::count(
            s,
            |t: SemaphoreThread| is_registered(t),
        ) + one(is_registered(t)) - one(is_registered(s[i])),
        counting::count(s.update(i, t), |t: SemaphoreThread| is_stirring(t)) == counting::count(
            s,
            |t: SemaphoreThread| is_stirring(t),
        ) + one(is_stirring(t)) - one(is_stirring(s[i])),
{
    counting::lemma_count_update(s, i, t, |t: SemaphoreThread| has_taken(t));
    counting::lemma_count_update(s, i, t, |t: SemaphoreThread| has_given(t));
    counting::lemma_count_update(s, i, t, |t: SemaphoreThread| is_registered(t));
    counting::lemma_count_update(s, i, t, |t: SemaphoreThread| is_stirring(t));
}

spec fn one(b: bool) -> int {
    if b {
        1
    } else {
        0
    }
}

/// However acquirers and releasers interleave, the invariant stays: permits are neither lost
/// nor made up, and a permit that is free while someone sleeps always has a thread that is
/// awake to take it or to wake someone for it.
pub proof fn law_semaphore_step(s: SemaphoreSystem, i: int, spurious: bool, j: int)
    requires
        s.inv(),
        s.enabled(i),
        s.has_sleeper() ==> 0 <= j < s.threads.len() && is_asleep(s.threads[j]),
    ensures
        s.step(i, spurious, j).inv(),
{
    let s2 = s.step(i, spurious, j);
    assert(SemaphoreSystem::thread_inv(s.threads[i]));
    counting::lemma_count_bound(s.threads, |t: SemaphoreThread| is_registered(t));
    match s.threads[i] {
        SemaphoreThread::Acquirer { op, asleep } => {
            let t2 = s2.threads[i];
            lemma_counts(s.threads, i, t2);
            if op.pc is Deregister {
                counting::lemma_count_member(s.threads, i, |t: SemaphoreThread| is_registered(t));
            }
            if op.pc is Register {
                counting::lemma_count_missing(s.threads, i, |t: SemaphoreThread| is_registered(t));
            }
            assert(s2.threads == s.threads.update(i, t2));
            assert forall|k: int| 0 <= k < s2.threads.len() implies SemaphoreSystem::thread_inv(
                #[trigger] s2.threads[k],
            ) by {
                if k != i {
                    assert(s2.threads[k] == s.threads[k]);
                }
            }
            if s2.has_sleeper() && s2.permits > 0 {
                let k = choose|k: int| 0 <= k < s2.threads.len() && is_asleep(#[trigger] s2.threads[k]);
                assert(k != i);
                assert(s.threads[k] == s2.threads[k]);
                assert(s.has_sleeper());
            }
        },
        SemaphoreThread::Releaser(op) => {
            let t2 = SemaphoreThread::Releaser(op.after(s.event(op.action(), spurious)));
            let mid = s.threads.update(i, t2);
            lemma_counts(s.threads, i, t2);
            if s.has_sleeper() {
                counting::lemma_count_member(s.threads, j, |t: SemaphoreThread| is_registered(t));
                assert(mid[j] == s.threads[j]);
            }
            if op.pc is Wake && s.has_sleeper() {
                lemma_counts(mid, j, semaphore_woken(mid[j]));
            }
            assert forall|k: int| 0 <= k < s2.threads.len() implies SemaphoreSystem::thread_inv(
                #[trigger] s2.threads[k],
            ) by {
                assert(SemaphoreSystem::thread_inv(s.threads[k]));
            }
            if s2.has_sleeper() {
                let k = choose|k: int| 0 <= k < s2.threads.len() && is_asleep(#[trigger] s2.threads[k]);
                assert(is_asleep(s.threads[k]));
                assert(s.has_sleeper());
            }
        },
    }
}

/// Waking up for no reason keeps the invariant.
pub proof fn law_semaphore_spurious(s: SemaphoreSystem, i: int)
    requires
        s.inv(),
        0 <= i < s.threads.len(),
    ensures
        s.wake_spuriously(i).inv(),
{
    let s2 = s.wake_spuriously(i);
    assert(SemaphoreSystem::thread_inv(s.threads[i]));
    lemma_counts(s.threads, i, semaphore_woken(s.threads[i]));
    assert forall|k: int| 0 <= k < s2.threads.len() implies SemaphoreSystem::thread_inv(
        #[trigger] s2.threads[k],
    ) by {
        assert(SemaphoreSystem::thread_inv(s.threads[k]));
    }
    if s2.has_sleeper() {
        let k = choose|k: int| 0 <= k < s2.threads.len() && is_asleep(#[trigger] s2.threads[k]);
        assert(is_asleep(s.threads[k]));
        assert(s.has_sleeper());
    }
}

/// A semaphore that nobody uses satisfies the invariant, and a thread that comes keeps it.
pub proof fn law_semaphore_join(s: SemaphoreSystem, t: SemaphoreThread)
    requires
        s.inv() || (s.threads.len() == 0 && s.permits == s.initial && s.num_waiters == 0),
        s.threads.len() < u32::MAX,
        t == (SemaphoreThread::Acquirer { op: AcquireOp { pc: AcquirePc::Load }, asleep: false })
            || t == SemaphoreThread::Releaser(ReleaseOp { pc: ReleasePc::Give }),
    ensures
        s.inv(),
        s.join(t).inv(),
{
    let s2 = s.join(t);
    counting::lemma_count_push(s.threads, t, |t: SemaphoreThread| has_taken(t));
    counting::lemma_count_push(s.threads, t, |t: SemaphoreThread| has_given(t));
    counting::lemma_count_push(s.threads, t, |t: SemaphoreThread| is_registered(t));
    counting::lemma_count_push(s.threads, t, |t: SemaphoreThread| is_stirring(t));
    assert forall|k: int| 0 <= k < s2.threads.len() implies SemaphoreSystem::thread_inv(
        #[trigger] s2.threads[k],
    ) by {
        if k < s.threads.len() {
            assert(s2.threads[k] == s.threads[k]);
        }
    }
    if s2.has_sleeper() {
        let k = choose|k: int| 0 <= k < s2.threads.len() && is_asleep(#[trigger] s2.threads[k]);
        assert(s2.threads[k] == s.threads[k]);
        assert(s.has_sleeper());
    }
}

/// When every thread that could move has come to rest, nobody sleeps beside a free permit.
pub proof fn law_semaphore_no_lost_wakeup(s: SemaphoreSystem)
    requires
        s.inv(),
        forall|i: int| 0 <= i < s.threads.len() ==> !is_stirring(#[trigger] s.threads[i]),
        s.has_sleeper(),
    ensures
        s.permits == 0,
{
    if s.permits > 0 {
        let k = counting::lemma_count_witness(s.threads, |t: SemaphoreThread| is_stirring(t));
    }
}

/// As many threads hold a permit as have taken one and not given one back: where no more
/// permits were given than taken, never more than the semaphore started with.
pub proof fn law_semaphore_limits(s: SemaphoreSystem)
    requires
        s.inv(),
    ensures
        s.how_many(|t: SemaphoreThread| has_taken(t)) - s.how_many(|t: SemaphoreThread| has_given(t))
            <= s.initial,
{
}

/// An acquisition that reads `n` permits, with `n` not 0, asks for exactly one of them: it
/// exchanges `n` for `n - 1`. It has its permit when the exchange took place, and starts over
/// when it did not.
pub proof fn law_acquire_takes_one_permit(op: AcquireOp, n: u32, found: u32)
    requires
        op.pc is Load,
        n > 0,
    ensures
        op.action() == SemaphoreAction::Permits(WordAction::Load),
        ({
            let asked = op.after(WordEvent::Value(n));
            &&& asked.action() matches SemaphoreAction::Permits(
                WordAction::CompareExchange { current, new },
            ) && current == n && new + 1 == n
            &&& asked.after(WordEvent::Exchanged(n)).pc is Done
            &&& asked.after(WordEvent::NotExchanged(found)) == op
        }),
{
}

/// An acquisition that reads 0 permits registers as a waiter and looks again. It sleeps, while
/// the permits are 0, only if they are 0 still. Either way it withdraws the registration and
/// starts over.
pub proof fn law_acquire_without_a_permit(op: AcquireOp, w: u32, n: u32)
    requires
        op.pc is Load,
    ensures
        ({
            let empty = op.after(WordEvent::Value(0));
            let listed = empty.after(WordEvent::Value(w));
            let asleep = listed.after(WordEvent::Value(0));
            let leaving = asleep.after(WordEvent::Done);
            &&& empty.action() == SemaphoreAction::Waiters(WordAction::FetchAdd(1))
            &&& listed.action() == SemaphoreAction::Permits(WordAction::Load)
            &&& asleep.action() == SemaphoreAction::Permits(WordAction::Wait(0))
            &&& n > 0 ==> listed.after(WordEvent::Value(n)) == leaving
            &&& leaving.action() == SemaphoreAction::Waiters(WordAction::FetchSub(1))
            &&& leaving.after(WordEvent::Value(w)) == op
        }),
{
}

/// Nothing but an exchange that took place ends an acquisition.
pub proof fn law_acquired_by_an_exchange(op: AcquireOp, e: WordEvent)
    requires
        !(op.pc is Done),
        op.after(e).pc is Done,
    ensures
        e is Exchanged,
        op.action() matches SemaphoreAction::Permits(a) && a is CompareExchange,
{
}

/// A release gives one permit back and then looks at the waiters: where there is any, it wakes
/// one, where there is none, nobody.
pub proof fn law_release_gives_one_permit(op: ReleaseOp, n: u32, w: u32)
    requires
        op.pc is Give,
    ensures
        op.action() == SemaphoreAction::Permits(WordAction::FetchAdd(1)),
        ({
            let given = op.after(WordEvent::Value(n));
            let looked = given.after(WordEvent::Value(w));
            &&& given.action() == SemaphoreAction::Waiters(WordAction::Load)
            &&& w == 0 ==> looked.pc is Done
            &&& w > 0 ==> {
                &&& !(looked.pc is Done)
                &&& looked.action() == SemaphoreAction::Permits(WordAction::WakeOne)
                &&& looked.after(WordEvent::Done).pc is Done
            }
        }),
{
}

} // verus!
