//! A latch that opens once, and a barrier that can be used again and again.
//!
//! Both live in one word. The word of a latch is what is left to count down. The word of a
//! barrier holds, in its low 30 bits, how many threads are still to arrive, and in its high
//! two bits the generation, by which a sleeper sees that its round is over.
//!
//! Waiting threads sleep on the word. The thread that changes it for good, by taking the last
//! count of a latch or by starting the next round of a barrier, wakes all of them.

use vstd::prelude::*;

use crate::counting;
use crate::word;
use crate::word::Word;
use crate::word::WordAction;
use crate::word::WordEvent;

verus! {

/// Where a count-down stands.
#[derive(Clone, Copy, Debug, PartialEq, Eq, Structural)]
pub enum CountDownPc {
    /// About to subtract one.
    Subtract,
    /// The count has reached zero; about to wake all sleepers.
    Wake,
    /// Nothing is left to do.
    Done,
}

/// One count-down of a latch.
#[derive(Clone, Copy, Debug, PartialEq, Eq, Structural)]
pub struct CountDownOp {
    pub pc: CountDownPc,
}

impl CountDownOp {
    /// The operation that an unfinished count-down performs next.
    pub open spec fn action(self) -> WordAction {
        match self.pc {
            CountDownPc::Wake => WordAction::WakeAll,
            _ => WordAction::FetchSub(1),
        }
    }

    /// Where a count-down stands after an answer: it wakes the sleepers if and only if it took
    /// the last count. An answer of the wrong kind changes nothing.
    pub open spec fn after(self, e: WordEvent) -> CountDownOp {
        let pc = match (self.pc, e) {
            (CountDownPc::Subtract, WordEvent::Value(prev)) => if prev == 1 {
                CountDownPc::Wake
            } else {
                CountDownPc::Done
            },
            (CountDownPc::Wake, WordEvent::Done) => CountDownPc::Done,
            (pc, _) => pc,
        };
        CountDownOp { pc }
    }

    /// A count-down that has done nothing yet.
    pub fn start() -> (op: CountDownOp)
        ensures
            op == (CountDownOp { pc: CountDownPc::Subtract }),
    {
        CountDownOp { pc: CountDownPc::Subtract }
    }

    /// The operation to perform next, or `None` when the count-down is finished.
    pub fn next_action(&self) -> (a: Option<WordAction>)
        ensures
            a == (if self.pc is Done { None } else { Some(self.action()) }),
    {
        match self.pc {
            CountDownPc::Subtract => Some(WordAction::FetchSub(1)),
            CountDownPc::Wake => Some(WordAction::WakeAll),
            CountDownPc::Done => None,
        }
    }

    /// Takes the answer to the operation that was performed.
    pub fn on_event(&mut self, e: WordEvent)
        ensures
            *final(self) == old(self).after(e),
    {
        let pc = match (self.pc, e) {
            (CountDownPc::Subtract, WordEvent::Value(prev)) => {
                if prev == 1 {
                    CountDownPc::Wake
                } else {
                    CountDownPc::Done
                }
            },
            (CountDownPc::Wake, WordEvent::Done) => CountDownPc::Done,
            (pc, _) => pc,
        };
        self.pc = pc;
    }
}

/// Where a wait on a latch stands.
#[derive(Clone, Copy, Debug, PartialEq, Eq, Structural)]
pub enum LatchWaitPc {
    /// About to read the count.
    Load,
    /// About to sleep unless the count has changed.
    Sleep(u32),
    /// The latch was open.
    Done,
}

/// One wait on a latch.
#[derive(Clone, Copy, Debug, PartialEq, Eq, Structural)]
pub struct LatchWaitOp {
    pub pc: LatchWaitPc,
}

impl LatchWaitOp {
    /// The operation that an unfinished wait performs next.
    pub open spec fn action(self) -> WordAction {
        match self.pc {
            LatchWaitPc::Sleep(v) => WordAction::Wait(v),
            _ => WordAction::Load,
        }
    }

    /// Where a wait stands after an answer: it ends when it has read zero. An answer of the
    /// wrong kind changes nothing.
    pub open spec fn after(self, e: WordEvent) -> LatchWaitOp {
        let pc = match (self.pc, e) {
            (LatchWaitPc::Load, WordEvent::Value(v)) => if v == 0 {
                LatchWaitPc::Done
            } else {
                LatchWaitPc::Sleep(v)
            },
            (LatchWaitPc::Sleep(_), WordEvent::Done) => LatchWaitPc::Load,
            (pc, _) => pc,
        };
        LatchWaitOp { pc }
    }

    /// A wait that has done nothing yet.
    pub fn start() -> (op: LatchWaitOp)
        ensures
            op == (LatchWaitOp { pc: LatchWaitPc::Load }),
    {
        LatchWaitOp { pc: LatchWaitPc::Load }
    }

    /// The operation to perform next, or `None` when the wait is finished.
    pub fn next_action(&self) -> (a: Option<WordAction>)
        ensures
            a == (if self.pc is Done { None } else { Some(self.action()) }),
    {
        match self.pc {
            LatchWaitPc::Load => Some(WordAction::Load),
            LatchWaitPc::Sleep(v) => Some(WordAction::Wait(v)),
            LatchWaitPc::Done => None,
        }
    }

    /// Takes the answer to the operation that was performed.
    pub fn on_event(&mut self, e: WordEvent)
        ensures
            *final(self) == old(self).after(e),
    {
        let pc = match (self.pc, e) {
            (LatchWaitPc::Load, WordEvent::Value(v)) => {
                if v == 0 {
                    LatchWaitPc::Done
                } else {
                    LatchWaitPc::Sleep(v)
                }
            },
            (LatchWaitPc::Sleep(_), WordEvent::Done) => LatchWaitPc::Load,
            (pc, _) => pc,
        };
        self.pc = pc;
    }
}

/// A latch: it opens when it has been counted down to zero, and stays open.
pub struct Latch {
    count: Word,
}

impl View for Latch {
    type V = u32;

    /// What is left to count down.
    closed spec fn view(&self) -> u32 {
        self.count@
    }
}

impl Latch {
    /// A latch that opens after `n` count-downs; with zero it is open from the start.
    pub fn new(n: u32) -> (l: Latch)
        ensures
            l@ == n,
    {
        Latch { count: Word::new(n) }
    }

    /// What is left to count down; zero means that the latch is open.
    pub fn count(&self) -> (c: u32)
        ensures
            c == self@,
    {
        self.count.get()
    }

    /// Whether the latch is open.
    pub fn is_open(&self) -> (b: bool)
        ensures
            b == (self@ == 0),
    {
        self.count.get() == 0
    }

    /// Counts down by one. A latch that is counted down when it is open wraps around.
    pub fn count_down(&mut self)
        ensures
            final(self)@ == old(self)@.wrapping_sub(1),
            old(self)@ > 0 ==> final(self)@ == old(self)@ - 1,
    {
        let mut op = CountDownOp::start();
        let e = self.count.perform(WordAction::FetchSub(1));
        op.on_event(e);
        if let Some(a) = op.next_action() {
            let e = self.count.perform(a);
            op.on_event(e);
        }
    }

    /// Waits for the latch as far as that goes without sleeping: the wait is over if the latch
    /// is open, otherwise it is about to sleep on the count that it has seen.
    pub fn wait(&self) -> (op: LatchWaitOp)
        ensures
            op.pc == (if self@ == 0 { LatchWaitPc::Done } else { LatchWaitPc::Sleep(self@) }),
    {
        let mut op = LatchWaitOp::start();
        op.on_event(WordEvent::Value(self.count.get()));
        op
    }
}

/// A thread at work on a latch. A waiter that is asleep performs nothing until it is woken.
pub enum LatchThread {
    Worker(CountDownOp),
    Waiter { op: LatchWaitOp, asleep: bool },
}

/// The word of a latch and the threads at work on it.
pub struct LatchSystem {
    pub count: u32,
    pub threads: Seq<LatchThread>,
}

/// Whether a thread is a worker that has yet to count down.
pub open spec fn yet_to_count(t: LatchThread) -> bool {
    t matches LatchThread::Worker(op) && op.pc is Subtract
}

/// Whether a thread is a waiter that is asleep.
pub open spec fn is_sleeper(t: LatchThread) -> bool {
    t matches LatchThread::Waiter { op, asleep } && asleep
}

/// Whether a thread is a worker that is about to wake the sleepers.
pub open spec fn is_waker(t: LatchThread) -> bool {
    t matches LatchThread::Worker(op) && op.pc is Wake
}

impl LatchSystem {
    /// What holds at any moment: the count is the number of workers that have yet to count
    /// down; a waiter is through only when nobody has; a sleeper of an open latch has a worker
    /// that is about to wake it.
    pub open spec fn inv(self) -> bool {
        &&& self.count == counting::count(self.threads, |t: LatchThread| yet_to_count(t))
        &&& forall|i: int|
            0 <= i < self.threads.len() ==> match #[trigger] self.threads[i] {
                LatchThread::Waiter { op, asleep } => {
                    &&& op.pc is Done ==> self.count == 0 && !asleep
                    &&& asleep ==> op.pc is Sleep && op.pc->Sleep_0 != 0
                    &&& op.pc is Sleep ==> op.pc->Sleep_0 != 0
                },
                _ => true,
            }
        &&& self.count == 0 && self.has_sleeper() ==> self.has_waker()
    }

    /// Whether a waiter is asleep.
    pub open spec fn has_sleeper(self) -> bool {
        exists|i: int| 0 <= i < self.threads.len() && is_sleeper(#[trigger] self.threads[i])
    }

    /// Whether a worker is about to wake the sleepers.
    pub open spec fn has_waker(self) -> bool {
        exists|i: int| 0 <= i < self.threads.len() && is_waker(#[trigger] self.threads[i])
    }

    /// Whether thread `i` has an operation to perform.
    pub open spec fn enabled(self, i: int) -> bool {
        &&& 0 <= i < self.threads.len()
        &&& match self.threads[i] {
            LatchThread::Worker(op) => !(op.pc is Done),
            LatchThread::Waiter { op, asleep } => !(op.pc is Done) && !asleep,
        }
    }

    /// The system after thread `i` has performed its next operation. A wait on a word that
    /// holds the expected value puts the thread to sleep; waking wakes every sleeper.
    pub open spec fn step(self, i: int) -> LatchSystem {
        match self.threads[i] {
            LatchThread::Worker(op) => {
                let next = LatchThread::Worker(op.after(word::word_event(self.count, op.action())));
                let threads = self.threads.update(i, next);
                LatchSystem {
                    count: word::word_after(self.count, op.action()),
                    threads: if op.action() is WakeAll {
                        threads.map_values(|t: LatchThread| woken(t))
                    } else {
                        threads
                    },
                }
            },
            LatchThread::Waiter { op, asleep } => {
                let next = if op.pc is Sleep && op.pc->Sleep_0 == self.count {
                    LatchThread::Waiter { op, asleep: true }
                } else {
                    LatchThread::Waiter {
                        op: op.after(word::word_event(self.count, op.action())),
                        asleep: false,
                    }
                };
                LatchSystem { threads: self.threads.update(i, next), ..self }
            },
        }
    }

    /// The system after sleeper `i` woke up for no reason.
    pub open spec fn wake_spuriously(self, i: int) -> LatchSystem {
        LatchSystem { threads: self.threads.update(i, woken(self.threads[i])), ..self }
    }
}

/// A thread after it has been woken.
pub open spec fn woken(t: LatchThread) -> LatchThread {
    match t {
        LatchThread::Waiter { op, asleep } => if asleep {
            LatchThread::Waiter { op: op.after(WordEvent::Done), asleep: false }
        } else {
            t
        },
        _ => t,
    }
}

/// However workers and waiters interleave: the latch opens exactly when the last worker has
/// counted down, no waiter passes before, and no waiter of an open latch is left asleep
/// without a worker that is about to wake it.
pub proof fn law_latch_step(s: LatchSystem, i: int)
    requires
        s.inv(),
        s.enabled(i),
    ensures
        s.step(i).inv(),
{
    let p = |t: LatchThread| yet_to_count(t);
    let s2 = s.step(i);
    match s.threads[i] {
        LatchThread::Worker(op) => {
            let next = LatchThread::Worker(op.after(word::word_event(s.count, op.action())));
            let mid = s.threads.update(i, next);
            counting::lemma_count_update(s.threads, i, next, p);
            if op.pc is Subtract {
                counting::lemma_count_member(s.threads, i, p);
                if s2.count == 0 {
                    assert(s2.threads[i] matches LatchThread::Worker(op2) && op2.pc is Wake);
                    assert(s2.has_waker());
                }
                assert forall|k: int| 0 <= k < s2.threads.len() implies match #[trigger] s2.threads[k] {
                    LatchThread::Waiter { op, asleep } => {
                        &&& op.pc is Done ==> s2.count == 0 && !asleep
                        &&& asleep ==> op.pc is Sleep && op.pc->Sleep_0 != 0
                        &&& op.pc is Sleep ==> op.pc->Sleep_0 != 0
                    },
                    _ => true,
                } by {
                    if k != i {
                        assert(s2.threads[k] == s.threads[k]);
                    }
                }
            } else {
                counting::lemma_count_same(mid, s2.threads, p, p);
                assert forall|k: int| 0 <= k < s2.threads.len() implies match #[trigger] s2.threads[k] {
                    LatchThread::Waiter { op, asleep } => {
                        &&& op.pc is Done ==> s2.count == 0 && !asleep
                        &&& !asleep
                        &&& op.pc is Sleep ==> op.pc->Sleep_0 != 0
                    },
                    _ => true,
                } by {
                    assert(s2.threads[k] == woken(mid[k]));
                    if k != i {
                        assert(mid[k] == s.threads[k]);
                    }
                }
                assert(!s2.has_sleeper());
            }
        },
        LatchThread::Waiter { op, asleep } => {
            let next = s2.threads[i];
            counting::lemma_count_update(s.threads, i, next, p);
            assert forall|k: int| 0 <= k < s2.threads.len() implies match #[trigger] s2.threads[k] {
                LatchThread::Waiter { op, asleep } => {
                    &&& op.pc is Done ==> s2.count == 0 && !asleep
                    &&& asleep ==> op.pc is Sleep && op.pc->Sleep_0 != 0
                    &&& op.pc is Sleep ==> op.pc->Sleep_0 != 0
                },
                _ => true,
            } by {
                if k != i {
                    assert(s2.threads[k] == s.threads[k]);
                }
            }
            if s2.count == 0 && s2.has_sleeper() {
                let k = choose|k: int|
                    0 <= k < s2.threads.len() && is_sleeper(#[trigger] s2.threads[k]);
                assert(k != i);
                assert(s.threads[k] == s2.threads[k]);
                assert(s.has_sleeper());
                let w = choose|w: int| 0 <= w < s.threads.len() && is_waker(#[trigger] s.threads[w]);
                assert(s2.threads[w] == s.threads[w]);
            }
        },
    }
}

/// A fresh latch for as many workers as there are satisfies the invariant.
pub proof fn law_latch_start(s: LatchSystem)
    requires
        s.threads.len() <= u32::MAX,
        s.count == counting::count(s.threads, |t: LatchThread| yet_to_count(t)),
        forall|i: int|
            0 <= i < s.threads.len() ==> match #[trigger] s.threads[i] {
                LatchThread::Worker(op) => op.pc is Subtract,
                LatchThread::Waiter { op, asleep } => op.pc is Load && !asleep,
            },
    ensures
        s.inv(),
{
    assert(!s.has_sleeper());
}

/// A waiter that is through means that every worker has counted down.
pub proof fn law_through_means_all_counted(s: LatchSystem, i: int, j: int)
    requires
        s.inv(),
        0 <= i < s.threads.len(),
        0 <= j < s.threads.len(),
        s.threads[i] matches LatchThread::Waiter { op, asleep } && op.pc is Done,
    ensures
        !yet_to_count(s.threads[j]),
{
    if yet_to_count(s.threads[j]) {
        counting::lemma_count_member(s.threads, j, |t: LatchThread| yet_to_count(t));
    }
}

/// How many of the low bits of a barrier's word hold the count.
pub const GEN_SHIFT: u32 = 30;

/// The bits of a barrier's word that hold the count.
pub const COUNT_MASK: u32 = 0x3fff_ffff;

/// The values that a generation takes.
pub const GEN_MASK: u32 = 3;

/// The generation in a barrier's word.
pub open spec fn gen_of(s: u32) -> u32 {
    (s >> 30) & 3
}

/// How many threads are still to arrive, in a barrier's word.
pub open spec fn count_of(s: u32) -> u32 {
    s & 0x3fff_ffff
}

/// The word of a barrier with the given generation and count.
pub open spec fn packed(gen: u32, count: u32) -> u32 {
    ((gen & 3) << 30) | (count & 0x3fff_ffff)
}

/// A generation and a count come out of the word that they were packed into.
pub proof fn law_pack_round_trip(gen: u32, count: u32)
    requires
        gen < 4,
        count < 0x4000_0000,
    ensures
        gen_of(packed(gen, count)) == gen,
        count_of(packed(gen, count)) == count,
{
    assert(((((gen & 3) << 30) | (count & 0x3fff_ffff)) >> 30) & 3 == gen) by (bit_vector)
        requires
            gen < 4,
            count < 0x4000_0000,
    ;
    assert((((gen & 3) << 30) | (count & 0x3fff_ffff)) & 0x3fff_ffff == count) by (bit_vector)
        requires
            gen < 4,
            count < 0x4000_0000,
    ;
}

/// Subtracting one from a word whose count is not zero takes one from the count and leaves
/// the generation alone.
proof fn lemma_arrive(s: u32)
    requires
        count_of(s) > 0,
    ensures
        s > 0,
        gen_of((s - 1) as u32) == gen_of(s),
        count_of((s - 1) as u32) == count_of(s) - 1,
{
    assert(s & 0x3fff_ffff > 0 ==> s > 0) by (bit_vector);
    assert(s > 0 && s & 0x3fff_ffff > 0 ==> (((s - 1) as u32) >> 30) & 3 == (s >> 30) & 3)
        by (bit_vector);
    assert(s > 0 && s & 0x3fff_ffff > 0 ==> ((s - 1) as u32) & 0x3fff_ffff == (s & 0x3fff_ffff) - 1)
        by (bit_vector);
}

proof fn lemma_word_bounds(s: u32)
    ensures
        gen_of(s) < 4,
        count_of(s) < 0x4000_0000,
{
    assert((s >> 30) & 3 < 4) by (bit_vector);
    assert(s & 0x3fff_ffff < 0x4000_0000) by (bit_vector);
}

proof fn lemma_next_gen(gen: u32)
    requires
        gen < 4,
    ensures
        (gen + 1) as u32 & 3 == (gen + 1) % 4,
{
    assert((gen + 1) as u32 & 3 == (gen + 1) % 4) by (bit_vector)
        requires
            gen < 4,
    ;
}

/// Packs a generation and a count into a word.
fn pack(gen: u32, count: u32) -> (s: u32)
    requires
        count < 0x4000_0000,
    ensures
        s == packed(gen, count),
{
    ((gen & GEN_MASK) << GEN_SHIFT) | (count & COUNT_MASK)
}

/// The generation and the count in a word.
fn unpack(s: u32) -> (r: (u32, u32))
    ensures
        r == (gen_of(s), count_of(s)),
{
    ((s >> GEN_SHIFT) & GEN_MASK, s & COUNT_MASK)
}

/// Where a wait at a barrier stands.
#[derive(Clone, Copy, Debug, PartialEq, Eq, Structural)]
pub enum BarrierPc {
    /// About to read the generation.
    Load,
    /// About to arrive in the generation that was read.
    Arrive(u32),
    /// The last to arrive; about to start the next generation.
    Publish(u32),
    /// About to wake the others.
    Wake,
    /// About to look whether the generation is over.
    Check(u32),
    /// About to sleep in the generation, unless the word has changed from the value read.
    Sleep { gen: u32, cur: u32 },
    /// Through; whether as the last to arrive.
    Done(bool),
}

/// One wait at a barrier for `n` threads.
#[derive(Clone, Copy, Debug, PartialEq, Eq, Structural)]
pub struct BarrierWaitOp {
    pub n: u32,
    pub pc: BarrierPc,
}

impl BarrierWaitOp {
    /// The operation that an unfinished wait performs next.
    pub open spec fn action(self) -> WordAction {
        match self.pc {
            BarrierPc::Arrive(_) => WordAction::FetchSub(1),
            BarrierPc::Publish(gen) => WordAction::Store(packed(((gen + 1) as u32) & 3, self.n)),
            BarrierPc::Wake => WordAction::WakeAll,
            BarrierPc::Sleep { gen, cur } => WordAction::Wait(cur),
            _ => WordAction::Load,
        }
    }

    /// Where a wait stands after an answer. Whoever takes the last count starts the next
    /// generation; the others wait until the generation is another one. An answer of the wrong
    /// kind changes nothing.
    pub open spec fn after(self, e: WordEvent) -> BarrierWaitOp {
        let pc = match (self.pc, e) {
            (BarrierPc::Load, WordEvent::Value(s)) => BarrierPc::Arrive(gen_of(s)),
            (BarrierPc::Arrive(gen), WordEvent::Value(s)) => if gen_of(s) != gen {
                BarrierPc::Done(false)
            } else if count_of(s) == 1 {
                BarrierPc::Publish(gen)
            } else {
                BarrierPc::Check(gen)
            },
            (BarrierPc::Publish(gen), WordEvent::Done) => BarrierPc::Wake,
            (BarrierPc::Wake, WordEvent::Done) => BarrierPc::Done(true),
            (BarrierPc::Check(gen), WordEvent::Value(s)) => if gen_of(s) != gen {
                BarrierPc::Done(false)
            } else {
                BarrierPc::Sleep { gen, cur: s }
            },
            (BarrierPc::Sleep { gen, cur }, WordEvent::Done) => BarrierPc::Check(gen),
            (pc, _) => pc,
        };
        BarrierWaitOp { n: self.n, pc }
    }

    /// Whether the generation that the wait remembers is one.
    pub open spec fn valid(self) -> bool {
        &&& 1 <= self.n < 0x4000_0000
        &&& match self.pc {
            BarrierPc::Arrive(gen) => gen < 4,
            BarrierPc::Publish(gen) => gen < 4,
            BarrierPc::Check(gen) => gen < 4,
            BarrierPc::Sleep { gen, cur } => gen < 4,
            _ => true,
        }
    }

    /// A wait that has done nothing yet.
    pub fn start(n: u32) -> (op: BarrierWaitOp)
        requires
            1 <= n < 0x4000_0000,
        ensures
            op == (BarrierWaitOp { n, pc: BarrierPc::Load }),
            op.valid(),
    {
        BarrierWaitOp { n, pc: BarrierPc::Load }
    }

    /// The operation to perform next, or `None` when the wait is finished.
    pub fn next_action(&self) -> (a: Option<WordAction>)
        requires
            self.valid(),
        ensures
            a == (if self.pc is Done { None } else { Some(self.action()) }),
    {
        match self.pc {
            BarrierPc::Load => Some(WordAction::Load),
            BarrierPc::Arrive(_) => Some(WordAction::FetchSub(1)),
            BarrierPc::Publish(gen) => {
                Some(WordAction::Store(pack((gen + 1) & GEN_MASK, self.n)))
            },
            BarrierPc::Wake => Some(WordAction::WakeAll),
            BarrierPc::Check(_) => Some(WordAction::Load),
            BarrierPc::Sleep { gen, cur } => Some(WordAction::Wait(cur)),
            BarrierPc::Done(_) => None,
        }
    }

    /// Takes the answer to the operation that was performed.
    pub fn on_event(&mut self, e: WordEvent)
        requires
            old(self).valid(),
        ensures
            *final(self) == old(self).after(e),
            final(self).valid(),
    {
        if let WordEvent::Value(s) = e {
            proof {
                lemma_word_bounds(s);
            }
        }
        let pc = match (self.pc, e) {
            (BarrierPc::Load, WordEvent::Value(s)) => BarrierPc::Arrive(unpack(s).0),
            (BarrierPc::Arrive(gen), WordEvent::Value(s)) => {
                let (prev_gen, prev_count) = unpack(s);
                if prev_gen != gen {
                    BarrierPc::Done(false)
                } else if prev_count == 1 {
                    BarrierPc::Publish(gen)
                } else {
                    BarrierPc::Check(gen)
                }
            },
            (BarrierPc::Publish(_), WordEvent::Done) => BarrierPc::Wake,
            (BarrierPc::Wake, WordEvent::Done) => BarrierPc::Done(true),
            (BarrierPc::Check(gen), WordEvent::Value(s)) => {
                if unpack(s).0 != gen {
                    BarrierPc::Done(false)
                } else {
                    BarrierPc::Sleep { gen, cur: s }
                }
            },
            (BarrierPc::Sleep { gen, cur }, WordEvent::Done) => BarrierPc::Check(gen),
            (pc, _) => pc,
        };
        self.pc = pc;
    }
}

/// A barrier for a fixed number of threads, which can be used again and again.
pub struct Barrier {
    n: u32,
    state: Word,
}

impl Barrier {
    /// For how many threads the barrier is.
    pub closed spec fn size(self) -> u32 {
        self.n
    }

    /// How many threads are still to arrive.
    pub closed spec fn remaining(self) -> u32 {
        count_of(self.state@)
    }

    /// The generation.
    pub closed spec fn generation(self) -> u32 {
        gen_of(self.state@)
    }

    /// That the barrier is for at least one thread and not for too many.
    pub closed spec fn wf(self) -> bool {
        1 <= self.n < 0x4000_0000
    }

    /// A barrier for `n` threads.
    pub fn new(n: u32) -> (b: Barrier)
        requires
            1 <= n < 0x4000_0000,
        ensures
            b.wf(),
            b.size() == n,
            b.remaining() == n,
            b.generation() == 0,
    {
        proof {
            law_pack_round_trip(0, n);
        }
        Barrier { n, state: Word::new(pack(0, n)) }
    }

    /// How many threads have arrived in this generation.
    pub fn arrived(&self) -> (a: u32)
        ensures
            a == (if self.size() > self.remaining() {
                self.size() - self.remaining()
            } else {
                0
            }),
    {
        let (_, count) = unpack(self.state.get());
        self.n.saturating_sub(count)
    }

    /// Arrives at the barrier and goes as far as that goes without sleeping. The last to arrive
    /// starts the next generation and is through; any other is about to sleep.
    pub fn arrive(&mut self) -> (op: BarrierWaitOp)
        requires
            old(self).wf(),
            old(self).remaining() > 0,
        ensures
            final(self).wf(),
            final(self).size() == old(self).size(),
            op.n == old(self).size(),
            old(self).remaining() == 1 ==> {
                &&& op.pc == BarrierPc::Done(true)
                &&& final(self).remaining() == old(self).size()
                &&& final(self).generation() == (old(self).generation() + 1) % 4
            },
            old(self).remaining() > 1 ==> {
                &&& op.pc matches BarrierPc::Sleep { gen, cur } && gen == old(self).generation()
                    && gen_of(cur) == gen && count_of(cur) == old(self).remaining() - 1
                &&& final(self).remaining() == old(self).remaining() - 1
                &&& final(self).generation() == old(self).generation()
            },
    {
        let mut op = BarrierWaitOp::start(self.n);
        proof {
            lemma_word_bounds(self.state@);
            lemma_arrive(self.state@);
            lemma_next_gen(gen_of(self.state@));
            law_pack_round_trip(((gen_of(self.state@) + 1) as u32) & 3, self.n);
        }
        let e = self.state.perform(WordAction::Load);
        op.on_event(e);
        let e = self.state.perform(WordAction::FetchSub(1));
        op.on_event(e);
        if let Some(a) = op.next_action() {
            let e = self.state.perform(a);
            op.on_event(e);
        }
        if let BarrierPc::Wake = op.pc {
            let e = self.state.perform(WordAction::WakeAll);
            op.on_event(e);
        }
        op
    }

    /// Waits at the barrier; true for the last to arrive. A single thread comes through only as
    /// the last to arrive.
    pub fn wait(&mut self) -> (leader: bool)
        requires
            old(self).wf(),
            old(self).remaining() == 1,
        ensures
            leader,
            final(self).wf(),
            final(self).size() == old(self).size(),
            final(self).remaining() == old(self).size(),
            final(self).generation() == (old(self).generation() + 1) % 4,
    {
        let op = self.arrive();
        match op.pc {
            BarrierPc::Done(leader) => leader,
            _ => false,
        }
    }
}

/// A thread that uses a barrier: its current wait, whether it is asleep, and how many times it
/// has arrived in its life.
pub struct BarrierThread {
    pub op: BarrierWaitOp,
    pub asleep: bool,
    pub arrivals: nat,
}

/// The word of a barrier, the number of rounds that are over, and the threads.
pub struct BarrierSystem {
    pub n: u32,
    pub state: u32,
    pub round: nat,
    pub threads: Seq<BarrierThread>,
}

/// Whether a thread has arrived in the round after `round` others.
pub open spec fn has_arrived(t: BarrierThread, round: nat) -> bool {
    t.arrivals == round + 1
}

/// Whether a thread is about to start the next generation.
pub open spec fn is_publisher(t: BarrierThread) -> bool {
    t.op.pc is Publish
}

/// A thread after it has been woken.
pub open spec fn barrier_woken(t: BarrierThread) -> BarrierThread {
    if t.asleep {
        BarrierThread { op: t.op.after(WordEvent::Done), asleep: false, ..t }
    } else {
        t
    }
}

impl BarrierSystem {
    /// How many threads have arrived in the current round.
    pub open spec fn arrived(self) -> nat {
        counting::count(self.threads, |t: BarrierThread| has_arrived(t, self.round))
    }

    /// What holds of one thread.
    pub open spec fn thread_inv(self, t: BarrierThread) -> bool {
        let gen = (self.round % 4) as u32;
        &&& t.op.n == self.n
        &&& t.op.valid()
        &&& t.arrivals == self.round || t.arrivals == self.round + 1
        &&& t.asleep ==> t.op.pc is Sleep
        &&& match t.op.pc {
            BarrierPc::Load => t.arrivals == self.round,
            BarrierPc::Arrive(g) => t.arrivals == self.round && g == gen,
            BarrierPc::Publish(g) => t.arrivals == self.round + 1 && g == gen,
            BarrierPc::Wake => t.arrivals == self.round,
            BarrierPc::Check(g) => t.arrivals >= 1 && g == (t.arrivals - 1) % 4,
            BarrierPc::Sleep { gen: g, cur } => {
                &&& t.arrivals >= 1
                &&& g == (t.arrivals - 1) % 4
                &&& gen_of(cur) == g
            },
            BarrierPc::Done(_) => t.arrivals == self.round,
        }
    }

    /// Whether a thread whose round is over is asleep.
    pub open spec fn has_stale_sleeper(self) -> bool {
        exists|i: int|
            0 <= i < self.threads.len() && (#[trigger] self.threads[i]).asleep
                && self.threads[i].arrivals == self.round
    }

    /// Whether a thread is about to wake the others.
    pub open spec fn has_waker(self) -> bool {
        exists|i: int| 0 <= i < self.threads.len() && (#[trigger] self.threads[i]).op.pc is Wake
    }

    /// What holds at any moment when exactly `n` threads use the barrier.
    pub open spec fn inv(self) -> bool {
        &&& 1 <= self.n < 0x4000_0000
        &&& self.threads.len() == self.n
        &&& gen_of(self.state) == self.round % 4
        &&& count_of(self.state) == self.n - self.arrived()
        &&& forall|i: int|
            0 <= i < self.threads.len() ==> self.thread_inv(#[trigger] self.threads[i])
        &&& counting::count(self.threads, |t: BarrierThread| is_publisher(t)) == (if self.arrived()
            == self.n {
            1nat
        } else {
            0nat
        })
        &&& self.has_stale_sleeper() ==> self.has_waker()
    }

    /// Whether thread `i` has an operation to perform.
    pub open spec fn enabled(self, i: int) -> bool {
        &&& 0 <= i < self.threads.len()
        &&& !self.threads[i].asleep
        &&& !(self.threads[i].op.pc is Done)
    }

    /// The thread `i` after its next operation.
    pub open spec fn stepped(self, i: int) -> BarrierThread {
        let t = self.threads[i];
        if t.op.pc is Sleep && t.op.pc->cur == self.state {
            BarrierThread { asleep: true, ..t }
        } else {
            BarrierThread {
                op: t.op.after(word::word_event(self.state, t.op.action())),
                asleep: false,
                arrivals: if t.op.pc is Arrive {
                    t.arrivals + 1
                } else {
                    t.arrivals
                },
            }
        }
    }

    /// The system after thread `i` has performed its next operation. A wait on a word that
    /// holds the expected value puts the thread to sleep; waking wakes every sleeper.
    pub open spec fn step(self, i: int) -> BarrierSystem {
        let t = self.threads[i];
        let threads = self.threads.update(i, self.stepped(i));
        BarrierSystem {
            n: self.n,
            state: word::word_after(self.state, t.op.action()),
            round: if t.op.pc is Publish {
                self.round + 1
            } else {
                self.round
            },
            threads: if t.op.pc is Wake {
                threads.map_values(|t: BarrierThread| barrier_woken(t))
            } else {
                threads
            },
        }
    }

    /// The system after thread `i`, which was through, has come to the barrier again.
    pub open spec fn come_again(self, i: int) -> BarrierSystem {
        let t = self.threads[i];
        let op = BarrierWaitOp { n: self.n, pc: BarrierPc::Load };
        BarrierSystem { threads: self.threads.update(i, BarrierThread { op, ..t }), ..self }
    }

    /// The system after sleeper `i` woke up for no reason.
    pub open spec fn wake_spuriously(self, i: int) -> BarrierSystem {
        BarrierSystem { threads: self.threads.update(i, barrier_woken(self.threads[i])), ..self }
    }
}

/// Replacing a thread by one in the same round, without changing who has arrived, who is about
/// to publish or who is about to wake, keeps the invariant.
proof fn lemma_quiet_update(s: BarrierSystem, i: int, t: BarrierThread)
    requires
        s.inv(),
        0 <= i < s.threads.len(),
        s.thread_inv(t),
        t.arrivals == s.threads[i].arrivals,
        is_publisher(t) == is_publisher(s.threads[i]),
        s.threads[i].op.pc is Wake ==> t.op.pc is Wake,
        t.asleep ==> s.threads[i].asleep || t.arrivals == s.round + 1,
    ensures
        (BarrierSystem { threads: s.threads.update(i, t), ..s }).inv(),
{
    let s2 = BarrierSystem { threads: s.threads.update(i, t), ..s };
    counting::lemma_count_update(s.threads, i, t, |t: BarrierThread| has_arrived(t, s.round));
    counting::lemma_count_update(s.threads, i, t, |t: BarrierThread| is_publisher(t));
    assert forall|k: int| 0 <= k < s2.threads.len() implies s2.thread_inv(#[trigger] s2.threads[k]) by {
        if k != i {
            assert(s2.threads[k] == s.threads[k]);
        }
        assert(s.thread_inv(s2.threads[k]));
    }
    if s2.has_stale_sleeper() {
        let k = choose|k: int|
            0 <= k < s2.threads.len() && (#[trigger] s2.threads[k]).asleep && s2.threads[k].arrivals
                == s2.round;
        assert(s.threads[k].asleep);
        assert(s.has_stale_sleeper());
        let w = choose|w: int| 0 <= w < s.threads.len() && (#[trigger] s.threads[w]).op.pc is Wake;
        assert(s2.threads[w].op.pc is Wake);
    }
}

/// However `n` threads interleave at a barrier for `n`, the invariant stays: nobody leaves a
/// round before all have arrived, and no thread whose round is over is left asleep without one
/// that is about to wake it.
pub proof fn law_barrier_step(s: BarrierSystem, i: int)
    requires
        s.inv(),
        s.enabled(i),
    ensures
        s.step(i).inv(),
{
    let s2 = s.step(i);
    let t = s.threads[i];
    let t2 = s.stepped(i);
    let p = |t: BarrierThread| has_arrived(t, s.round);
    let q = |t: BarrierThread| is_publisher(t);
    assert(s.thread_inv(t));
    match t.op.pc {
        BarrierPc::Arrive(g) => {
            assert(!p(t));
            counting::lemma_count_missing(s.threads, i, p);
            lemma_arrive(s.state);
            counting::lemma_count_update(s.threads, i, t2, p);
            counting::lemma_count_update(s.threads, i, t2, q);
            assert(s2.threads == s.threads.update(i, t2));
            assert forall|k: int| 0 <= k < s2.threads.len() implies s2.thread_inv(
                #[trigger] s2.threads[k],
            ) by {
                if k != i {
                    assert(s2.threads[k] == s.threads[k]);
                    assert(s.thread_inv(s.threads[k]));
                }
            }
            if s2.has_stale_sleeper() {
                let k = choose|k: int|
                    0 <= k < s2.threads.len() && (#[trigger] s2.threads[k]).asleep
                        && s2.threads[k].arrivals == s2.round;
                assert(s.threads[k].asleep);
                assert(s.has_stale_sleeper());
                let w = choose|w: int|
                    0 <= w < s.threads.len() && (#[trigger] s.threads[w]).op.pc is Wake;
                assert(s2.threads[w].op.pc is Wake);
            }
        },
        BarrierPc::Publish(g) => {
            counting::lemma_count_member(s.threads, i, q);
            lemma_next_gen(g);
            law_pack_round_trip(((g + 1) as u32) & 3, s.n);
            assert(s2.threads == s.threads.update(i, t2));
            counting::lemma_count_update(s.threads, i, t2, q);
            let p2 = |t: BarrierThread| has_arrived(t, s2.round);
            assert forall|k: int| 0 <= k < s2.threads.len() implies s2.thread_inv(
                #[trigger] s2.threads[k],
            ) && !p2(s2.threads[k]) by {
                assert(s.thread_inv(s.threads[k]));
                if !p(s.threads[k]) {
                    counting::lemma_count_missing(s.threads, k, p);
                }
                if k != i {
                    assert(s2.threads[k] == s.threads[k]);
                    if q(s.threads[k]) {
                        if k < i {
                            counting::lemma_count_two(s.threads, k, i, q);
                        } else {
                            counting::lemma_count_two(s.threads, i, k, q);
                        }
                    }
                }
            }
            if counting::count(s2.threads, p2) >= 1 {
                let k = counting::lemma_count_witness(s2.threads, p2);
            }
            assert(s2.threads[i].op.pc is Wake);
            assert(s2.has_waker());
        },
        BarrierPc::Wake => {
            let mid = s.threads.update(i, t2);
            counting::lemma_count_update(s.threads, i, t2, p);
            counting::lemma_count_update(s.threads, i, t2, q);
            counting::lemma_count_same(mid, s2.threads, p, p);
            assert forall|k: int| 0 <= k < mid.len() implies (q(#[trigger] mid[k]) <==> q(s2.threads[k])) by {
                assert(s2.threads[k] == barrier_woken(mid[k]));
                if k != i {
                    assert(s.thread_inv(s.threads[k]));
                }
            }
            counting::lemma_count_same(mid, s2.threads, q, q);
            assert forall|k: int| 0 <= k < s2.threads.len() implies s2.thread_inv(
                #[trigger] s2.threads[k],
            ) && !s2.threads[k].asleep by {
                assert(s2.threads[k] == barrier_woken(mid[k]));
                if k != i {
                    assert(s.thread_inv(s.threads[k]));
                }
            }
            assert(!s2.has_stale_sleeper());
        },
        BarrierPc::Sleep { gen, cur } => {
            if cur == s.state {
                assert(t.arrivals != s.round);
            }
            lemma_quiet_update(s, i, t2);
        },
        _ => {
            lemma_word_bounds(s.state);
            lemma_quiet_update(s, i, t2);
        },
    }
}

/// A fresh barrier with `n` threads outside satisfies the invariant.
pub proof fn law_barrier_start(s: BarrierSystem)
    requires
        1 <= s.n < 0x4000_0000,
        s.threads.len() == s.n,
        s.state == packed(0, s.n),
        s.round == 0,
        forall|i: int|
            0 <= i < s.threads.len() ==> {
                let t = #[trigger] s.threads[i];
                t.op.n == s.n && t.op.pc is Done && !t.asleep && t.arrivals == 0
            },
    ensures
        s.inv(),
{
    let p = |t: BarrierThread| has_arrived(t, s.round);
    let q = |t: BarrierThread| is_publisher(t);
    law_pack_round_trip(0, s.n);
    if counting::count(s.threads, p) >= 1 {
        let k = counting::lemma_count_witness(s.threads, p);
    }
    if counting::count(s.threads, q) >= 1 {
        let k = counting::lemma_count_witness(s.threads, q);
    }
    assert(!s.has_stale_sleeper());
}

/// Coming to the barrier again, and waking up for no reason, keep the invariant.
pub proof fn law_barrier_again(s: BarrierSystem, i: int)
    requires
        s.inv(),
        0 <= i < s.threads.len(),
    ensures
        s.threads[i].op.pc is Done ==> s.come_again(i).inv(),
        s.wake_spuriously(i).inv(),
{
    let t = s.threads[i];
    assert(s.thread_inv(t));
    if t.op.pc is Done {
        let op = BarrierWaitOp { n: s.n, pc: BarrierPc::Load };
        lemma_quiet_update(s, i, BarrierThread { op, ..t });
    }
    lemma_quiet_update(s, i, barrier_woken(t));
}

/// A thread that is through its round means that every thread has arrived in that round.
pub proof fn law_barrier_nobody_leaves_early(s: BarrierSystem, i: int, j: int)
    requires
        s.inv(),
        0 <= i < s.threads.len(),
        0 <= j < s.threads.len(),
        s.threads[i].op.pc is Done,
    ensures
        s.threads[j].arrivals >= s.threads[i].arrivals,
{
    assert(s.thread_inv(s.threads[i]));
    assert(s.thread_inv(s.threads[j]));
}

/// At most one thread is about to end the round, and only when all have arrived; that thread
/// is the only one that comes through as the last.
pub proof fn law_barrier_one_leader(s: BarrierSystem, i: int, j: int)
    requires
        s.inv(),
        0 <= i < s.threads.len(),
        0 <= j < s.threads.len(),
        s.threads[i].op.pc is Publish,
    ensures
        s.arrived() == s.n,
        s.threads[j].op.pc is Publish ==> i == j,
{
    let q = |t: BarrierThread| is_publisher(t);
    counting::lemma_count_member(s.threads, i, q);
    if s.threads[j].op.pc is Publish && i != j {
        if i < j {
            counting::lemma_count_two(s.threads, i, j, q);
        } else {
            counting::lemma_count_two(s.threads, j, i, q);
        }
    }
}

/// A round ends once, when all have arrived: exactly then one thread, and no other, is about to
/// end it. When it does, the barrier is as it was at the beginning, for the next round, and that
/// thread is the one that comes through as the leader.
pub proof fn law_barrier_round_ends_once(s: BarrierSystem, i: int)
    requires
        s.inv(),
        s.enabled(i),
    ensures
        s.step(i).round == (if s.threads[i].op.pc is Publish {
            s.round + 1
        } else {
            s.round
        }),
        s.threads[i].op.pc is Publish ==> {
            &&& s.arrived() == s.n
            &&& s.step(i).arrived() == 0
            &&& s.step(i).state == packed(((s.round + 1) % 4) as u32, s.n)
        },
        s.step(i).threads[i].op.pc is Wake <==> s.threads[i].op.pc is Publish,
        s.step(i).threads[i].op.pc == BarrierPc::Done(true) <==> s.threads[i].op.pc is Wake,
{
    law_barrier_step(s, i);
    let s2 = s.step(i);
    let t = s.threads[i];
    assert(s.thread_inv(t));
    if let BarrierPc::Publish(g) = t.op.pc {
        law_barrier_one_leader(s, i, i);
        lemma_next_gen(g);
        law_pack_round_trip(((g + 1) as u32) & 3, s.n);
    }
    if t.op.pc is Wake {
        assert(s2.threads[i] == barrier_woken(s.stepped(i)));
    } else {
        assert(s2.threads[i] == s.stepped(i));
    }
}

/// When all have arrived, there is a thread that is about to end the round.
pub proof fn law_barrier_has_a_leader(s: BarrierSystem) -> (i: int)
    requires
        s.inv(),
        s.arrived() == s.n,
    ensures
        0 <= i < s.threads.len(),
        s.threads[i].op.pc is Publish,
        s.enabled(i),
{
    let q = |t: BarrierThread| is_publisher(t);
    let i = counting::lemma_count_witness(s.threads, q);
    assert(s.thread_inv(s.threads[i]));
    i
}

/// A barrier with the threads that ended its rounds, one after the other.
pub struct BarrierRun {
    pub sys: BarrierSystem,
    pub leaders: Seq<int>,
}

impl BarrierRun {
    /// What holds at any moment of a run: as many threads have ended a round as rounds are over,
    /// and who comes through as the leader of a round, or is about to, is the one that ended it.
    pub open spec fn inv(self) -> bool {
        &&& self.sys.inv()
        &&& self.leaders.len() == self.sys.round
        &&& forall|i: int|
            0 <= i < self.sys.threads.len() && #[trigger] leads(self.sys.threads[i]) ==> {
                &&& self.sys.round > 0
                &&& self.leaders[self.sys.threads[i].arrivals - 1] == i
            }
    }

    /// The run after thread `i` has performed its next operation.
    pub open spec fn step(self, i: int) -> BarrierRun {
        BarrierRun {
            sys: self.sys.step(i),
            leaders: if self.sys.threads[i].op.pc is Publish {
                self.leaders.push(i)
            } else {
                self.leaders
            },
        }
    }
}

/// Whether a thread has come through as the leader, or is about to.
pub open spec fn leads(t: BarrierThread) -> bool {
    t.op.pc is Wake || t.op.pc == BarrierPc::Done(true)
}

/// Each round has exactly one leader, over a whole run, however the threads interleave.
pub proof fn law_barrier_one_leader_per_round(r: BarrierRun, i: int)
    requires
        r.inv(),
    ensures
        r.sys.enabled(i) ==> r.step(i).inv(),
        0 <= i < r.sys.threads.len() && r.sys.threads[i].op.pc is Done ==> (BarrierRun {
            sys: r.sys.come_again(i),
            ..r
        }).inv(),
        0 <= i < r.sys.threads.len() ==> (BarrierRun { sys: r.sys.wake_spuriously(i), ..r }).inv(),
{
    let s = r.sys;
    if 0 <= i < s.threads.len() {
        law_barrier_again(s, i);
        assert(s.thread_inv(s.threads[i]));
        let a = s.come_again(i);
        let b = s.wake_spuriously(i);
        assert forall|k: int| 0 <= k < s.threads.len() && #[trigger] leads(a.threads[k]) implies {
            &&& a.round > 0
            &&& r.leaders[a.threads[k].arrivals - 1] == k
        } by {
            assert(leads(s.threads[k]));
        }
        assert forall|k: int| 0 <= k < s.threads.len() && #[trigger] leads(b.threads[k]) implies {
            &&& b.round > 0
            &&& r.leaders[b.threads[k].arrivals - 1] == k
        } by {
            assert(leads(s.threads[k]));
        }
    }
    if s.enabled(i) {
        law_barrier_step(s, i);
        law_barrier_round_ends_once(s, i);
        let r2 = r.step(i);
        let s2 = r2.sys;
        let t = s.threads[i];
        assert forall|k: int| 0 <= k < s2.threads.len() && #[trigger] leads(s2.threads[k]) implies {
            &&& s2.round > 0
            &&& r2.leaders[s2.threads[k].arrivals - 1] == k
        } by {
            assert(s.thread_inv(s.threads[k]));
            assert(s2.thread_inv(s2.threads[k]));
            if k != i {
                if t.op.pc is Wake {
                    assert(s2.threads[k] == barrier_woken(s.threads[k]));
                } else {
                    assert(s2.threads[k] == s.threads[k]);
                }
                assert(leads(s.threads[k]));
            } else if t.op.pc is Wake {
                assert(leads(s.threads[i]));
            }
        }
    }
}

/// A packed word is the generation times two to the thirtieth, plus the count; unpacking is
/// division with remainder.
pub proof fn law_packing_is_arithmetic(gen: u32, count: u32, s: u32)
    ensures
        count < 0x4000_0000 ==> packed(gen, count) == (gen % 4) * 0x4000_0000 + count,
        gen_of(s) == s / 0x4000_0000,
        count_of(s) == s % 0x4000_0000,
        packed(gen_of(s), count_of(s)) == s,
{
    assert(count < 0x4000_0000 ==> ((gen & 3) << 30) | (count & 0x3fff_ffff) == (gen % 4)
        * 0x4000_0000 + count) by (bit_vector);
    assert((s >> 30) & 3 == s / 0x4000_0000) by (bit_vector);
    assert(s & 0x3fff_ffff == s % 0x4000_0000) by (bit_vector);
    assert((((s >> 30) & 3) & 3) << 30 | ((s & 0x3fff_ffff) & 0x3fff_ffff) == s) by (bit_vector);
}

/// A count-down takes exactly one off. The one that found 1 wakes everybody who waits; any other
/// one wakes nobody.
pub proof fn law_the_last_wakes_everybody(op: CountDownOp, prev: u32)
    requires
        op.pc is Subtract,
    ensures
        op.action() == WordAction::FetchSub(1),
        prev != 1 ==> op.after(WordEvent::Value(prev)).pc is Done,
        prev == 1 ==> {
            let last = op.after(WordEvent::Value(prev));
            &&& !(last.pc is Done)
            &&& last.action() == WordAction::WakeAll
            &&& last.after(WordEvent::Done).pc is Done
        },
{
}

/// A wait ends if and only if it reads 0. Otherwise it sleeps while the count is what it read,
/// and then reads again.
pub proof fn law_wait_ends_at_zero(op: LatchWaitOp, v: u32)
    requires
        op.pc is Load,
    ensures
        op.action() == WordAction::Load,
        op.after(WordEvent::Value(v)).pc is Done <==> v == 0,
        v != 0 ==> {
            let asleep = op.after(WordEvent::Value(v));
            &&& asleep.action() == WordAction::Wait(v)
            &&& asleep.after(WordEvent::Done) == op
        },
{
}

/// Who arrives at a barrier takes one off its word. The last of a round is its leader: it
/// publishes the next generation with a full count, and wakes everybody. Everybody else stays
/// until a generation other than its own is read, and is no leader.
pub proof fn law_barrier_goes_by_the_generation(
    op: BarrierWaitOp,
    first: u32,
    prev: u32,
    seen: u32,
)
    requires
        op.valid(),
        op.pc is Load,
    ensures
        op.action() == WordAction::Load,
        ({
            let arriving = op.after(WordEvent::Value(first));
            let arrived = arriving.after(WordEvent::Value(prev));
            let same = first / 0x4000_0000 == prev / 0x4000_0000;
            &&& arriving.action() == WordAction::FetchSub(1)
            &&& !same ==> arrived.pc == BarrierPc::Done(false)
            &&& same && prev % 0x4000_0000 == 1 ==> {
                let published = arrived.after(WordEvent::Done);
                &&& arrived.action() matches WordAction::Store(s) && s / 0x4000_0000 == (first
                    / 0x4000_0000 + 1) % 4 && s % 0x4000_0000 == op.n
                &&& published.action() == WordAction::WakeAll
                &&& !(published.pc is Done)
                &&& published.after(WordEvent::Done).pc == BarrierPc::Done(true)
            }
            &&& same && prev % 0x4000_0000 != 1 ==> {
                let looked = arrived.after(WordEvent::Value(seen));
                &&& arrived.action() == WordAction::Load
                &&& first / 0x4000_0000 != seen / 0x4000_0000 ==> looked.pc == BarrierPc::Done(
                    false,
                )
                &&& first / 0x4000_0000 == seen / 0x4000_0000 ==> {
                    &&& !(looked.pc is Done)
                    &&& looked.action() == WordAction::Wait(seen)
                    &&& looked.after(WordEvent::Done) == arrived
                }
            }
        }),
{
    law_packing_is_arithmetic(0, 0, first);
    law_packing_is_arithmetic(0, 0, prev);
    law_packing_is_arithmetic(0, 0, seen);
    let gen = gen_of(first);
    let next = ((gen + 1) as u32) & 3;
    assert(first / 0x4000_0000 <= 3);
    let up = (gen + 1) as u32;
    assert(up & 3 == up % 4) by (bit_vector);
    law_packing_is_arithmetic(next, op.n, packed(next, op.n));
}

} // verus!
