//! A one-byte lock whose waiting threads stand in a table beside it.
//!
//! The table, the parking lot, maps the address of a lock to the threads that wait for it. A
//! waiting thread enters the table first, looks at the lock again, and only then sleeps; when it
//! wakes up it takes its name off the table before it tries again. Who unlocks sets the byte
//! first and then always wakes one of those in the table.

use std::collections::HashMap;

use vstd::prelude::*;

use crate::counting;

verus! {

broadcast use vstd::std_specs::hash::group_hash_axioms;

/// The byte of a lock that nobody holds.
pub const UNLOCKED: u8 = 0;

/// The byte of a lock that somebody holds.
pub const LOCKED: u8 = 1;

/// Which threads, by their numbers, wait for which lock, by its address.
pub struct ParkingLot {
    queues: HashMap<usize, Vec<u64>>,
}

/// A queue without any mention of thread `id`.
pub open spec fn without(q: Seq<u64>, id: u64) -> Seq<u64> {
    q.filter(|x: u64| x != id)
}

impl ParkingLot {
    /// The addresses that have an entry, be it an empty one.
    pub closed spec fn addresses(self) -> Set<usize> {
        self.queues@.dom()
    }

    /// The threads that wait for the lock at `addr`, who came last standing last.
    pub closed spec fn queue(self, addr: usize) -> Seq<u64> {
        if self.queues@.contains_key(addr) {
            self.queues@[addr]@
        } else {
            Seq::empty()
        }
    }

    /// An empty parking lot.
    pub fn new() -> (lot: ParkingLot)
        ensures
            lot.addresses() == Set::<usize>::empty(),
            forall|a: usize| #[trigger] lot.queue(a) == Seq::<u64>::empty(),
    {
        ParkingLot { queues: HashMap::new() }
    }

    /// Enters thread `id` as waiting for the lock at `addr`.
    pub fn enqueue(&mut self, addr: usize, id: u64)
        ensures
            final(self).addresses() == old(self).addresses().insert(addr),
            final(self).queue(addr) == old(self).queue(addr).push(id),
            forall|a: usize| a != addr ==> #[trigger] final(self).queue(a) == old(self).queue(a),
    {
        let mut q = match self.queues.remove(&addr) {
            Some(q) => q,
            None => Vec::new(),
        };
        q.push(id);
        self.queues.insert(addr, q);
    }

    /// Takes thread `id` off the queue of the lock at `addr`. A queue that is empty afterwards
    /// loses its entry.
    pub fn withdraw(&mut self, addr: usize, id: u64)
        ensures
            final(self).addresses() == (if without(old(self).queue(addr), id).len() == 0 {
                old(self).addresses().remove(addr)
            } else {
                old(self).addresses()
            }),
            final(self).queue(addr) == without(old(self).queue(addr), id),
            forall|a: usize| a != addr ==> #[trigger] final(self).queue(a) == old(self).queue(a),
    {
        proof {
            reveal(Seq::filter);
        }
        if let Some(q) = self.queues.remove(&addr) {
            let mut kept: Vec<u64> = Vec::new();
            let mut i: usize = 0;
            while i < q.len()
                invariant
                    i <= q.len(),
                    kept@ == without(q@.take(i as int), id),
                decreases q.len() - i,
            {
                proof {
                    reveal(Seq::filter);
                    assert(q@.take(i + 1).drop_last() =~= q@.take(i as int));
                }
                if q[i] != id {
                    kept.push(q[i]);
                }
                i += 1;
            }
            assert(q@.take(q@.len() as int) =~= q@);
            if kept.len() > 0 {
                self.queues.insert(addr, kept);
            }
        }
        assert(final(self).addresses() =~= (if without(old(self).queue(addr), id).len() == 0 {
            old(self).addresses().remove(addr)
        } else {
            old(self).addresses()
        }));
    }

    /// Takes the thread that came last off the queue of the lock at `addr`.
    pub fn pop(&mut self, addr: usize) -> (id: Option<u64>)
        ensures
            final(self).addresses() == old(self).addresses(),
            id == (if old(self).queue(addr).len() == 0 {
                None
            } else {
                Some(old(self).queue(addr).last())
            }),
            final(self).queue(addr) == (if old(self).queue(addr).len() == 0 {
                Seq::empty()
            } else {
                old(self).queue(addr).drop_last()
            }),
            forall|a: usize| a != addr ==> #[trigger] final(self).queue(a) == old(self).queue(a),
    {
        match self.queues.remove(&addr) {
            Some(q) => {
                let mut q = q;
                let id = q.pop();
                self.queues.insert(addr, q);
                assert(final(self).addresses() =~= old(self).addresses());
                id
            },
            None => None,
        }
    }
}

/// What a thread at a parking-lot lock wants done.
#[derive(Clone, Copy, Debug, PartialEq, Eq, Structural)]
pub enum LotAction {
    /// Set the byte to locked if it is unlocked.
    TryLock,
    /// Enter the thread into the table.
    Enqueue,
    /// Read the byte.
    Look,
    /// Take the thread off the table.
    Withdraw,
    /// Sleep until woken.
    Park,
    /// Set the byte to unlocked.
    Open,
    /// Take a waiting thread off the table.
    PopWaiter,
    /// Wake the thread of the given number.
    Unpark(u64),
}

/// What a thread at a parking-lot lock is answered.
#[derive(Clone, Copy, Debug, PartialEq, Eq, Structural)]
pub enum LotEvent {
    /// The lock was taken.
    Taken,
    /// The lock is held by another.
    Busy,
    /// What the byte holds.
    Byte(u8),
    /// The thread that was taken off the table, if there was one.
    Popped(Option<u64>),
    /// Nothing to tell.
    Done,
}

/// Where a thread that locks stands.
#[derive(Clone, Copy, Debug, PartialEq, Eq, Structural)]
pub enum LotLockPc {
    /// About to try for the first time.
    Fast,
    /// About to try again.
    Try,
    /// About to enter the table.
    Enqueue,
    /// In the table; about to look at the lock again.
    Recheck,
    /// About to leave the table.
    Withdraw,
    /// In the table; about to sleep.
    Park,
    /// The lock is held.
    Done,
}

/// One locking.
#[derive(Clone, Copy, Debug, PartialEq, Eq, Structural)]
pub struct LotLockOp {
    pub pc: LotLockPc,
}

impl LotLockOp {
    /// What an unfinished locking wants done next.
    pub open spec fn action(self) -> LotAction {
        match self.pc {
            LotLockPc::Enqueue => LotAction::Enqueue,
            LotLockPc::Recheck => LotAction::Look,
            LotLockPc::Withdraw => LotAction::Withdraw,
            LotLockPc::Park => LotAction::Park,
            _ => LotAction::TryLock,
        }
    }

    /// Where a locking stands after an answer. An answer of the wrong kind changes nothing.
    pub open spec fn after(self, e: LotEvent) -> LotLockOp {
        let pc = match (self.pc, e) {
            (LotLockPc::Fast, LotEvent::Taken) => LotLockPc::Done,
            (LotLockPc::Fast, LotEvent::Busy) => LotLockPc::Try,
            (LotLockPc::Try, LotEvent::Taken) => LotLockPc::Done,
            (LotLockPc::Try, LotEvent::Busy) => LotLockPc::Enqueue,
            (LotLockPc::Enqueue, LotEvent::Done) => LotLockPc::Recheck,
            (LotLockPc::Recheck, LotEvent::Byte(b)) => if b == UNLOCKED {
                LotLockPc::Withdraw
            } else {
                LotLockPc::Park
            },
            (LotLockPc::Withdraw, LotEvent::Done) => LotLockPc::Try,
            (LotLockPc::Park, LotEvent::Done) => LotLockPc::Withdraw,
            (pc, _) => pc,
        };
        LotLockOp { pc }
    }

    /// A locking that has done nothing yet.
    pub fn start() -> (op: LotLockOp)
        ensures
            op == (LotLockOp { pc: LotLockPc::Fast }),
    {
        LotLockOp { pc: LotLockPc::Fast }
    }

    /// What to do next, or `None` when the lock is held.
    pub fn next_action(&self) -> (a: Option<LotAction>)
        ensures
            a == (if self.pc is Done { None } else { Some(self.action()) }),
    {
        match self.pc {
            LotLockPc::Fast => Some(LotAction::TryLock),
            LotLockPc::Try => Some(LotAction::TryLock),
            LotLockPc::Enqueue => Some(LotAction::Enqueue),
            LotLockPc::Recheck => Some(LotAction::Look),
            LotLockPc::Withdraw => Some(LotAction::Withdraw),
            LotLockPc::Park => Some(LotAction::Park),
            LotLockPc::Done => None,
        }
    }

    /// Takes the answer to what was done.
    pub fn on_event(&mut self, e: LotEvent)
        ensures
            *final(self) == old(self).after(e),
    {
        let pc = match (self.pc, e) {
            (LotLockPc::Fast, LotEvent::Taken) => LotLockPc::Done,
            (LotLockPc::Fast, LotEvent::Busy) => LotLockPc::Try,
            (LotLockPc::Try, LotEvent::Taken) => LotLockPc::Done,
            (LotLockPc::Try, LotEvent::Busy) => LotLockPc::Enqueue,
            (LotLockPc::Enqueue, LotEvent::Done) => LotLockPc::Recheck,
            (LotLockPc::Recheck, LotEvent::Byte(b)) => {
                if b == UNLOCKED {
                    LotLockPc::Withdraw
                } else {
                    LotLockPc::Park
                }
            },
            (LotLockPc::Withdraw, LotEvent::Done) => LotLockPc::Try,
            (LotLockPc::Park, LotEvent::Done) => LotLockPc::Withdraw,
            (pc, _) => pc,
        };
        self.pc = pc;
    }
}

/// Where a thread that unlocks stands.
#[derive(Clone, Copy, Debug, PartialEq, Eq, Structural)]
pub enum LotUnlockPc {
    /// About to set the byte.
    Open,
    /// About to look for a waiting thread.
    Pop,
    /// About to wake the thread of the given number.
    Unpark(u64),
    /// Nothing is left to do.
    Done,
}

/// One unlocking.
#[derive(Clone, Copy, Debug, PartialEq, Eq, Structural)]
pub struct LotUnlockOp {
    pub pc: LotUnlockPc,
}

impl LotUnlockOp {
    /// What an unfinished unlocking wants done next.
    pub open spec fn action(self) -> LotAction {
        match self.pc {
            LotUnlockPc::Pop => LotAction::PopWaiter,
            LotUnlockPc::Unpark(id) => LotAction::Unpark(id),
            _ => LotAction::Open,
        }
    }

    /// Where an unlocking stands after an answer. An answer of the wrong kind changes nothing.
    pub open spec fn after(self, e: LotEvent) -> LotUnlockOp {
        let pc = match (self.pc, e) {
            (LotUnlockPc::Open, LotEvent::Done) => LotUnlockPc::Pop,
            (LotUnlockPc::Pop, LotEvent::Popped(w)) => match w {
                Some(id) => LotUnlockPc::Unpark(id),
                None => LotUnlockPc::Done,
            },
            (LotUnlockPc::Unpark(_), LotEvent::Done) => LotUnlockPc::Done,
            (pc, _) => pc,
        };
        LotUnlockOp { pc }
    }

    /// An unlocking that has done nothing yet.
    pub fn start() -> (op: LotUnlockOp)
        ensures
            op == (LotUnlockOp { pc: LotUnlockPc::Open }),
    {
        LotUnlockOp { pc: LotUnlockPc::Open }
    }

    /// What to do next, or `None` when the unlocking is finished.
    pub fn next_action(&self) -> (a: Option<LotAction>)
        ensures
            a == (if self.pc is Done { None } else { Some(self.action()) }),
    {
        match self.pc {
            LotUnlockPc::Open => Some(LotAction::Open),
            LotUnlockPc::Pop => Some(LotAction::PopWaiter),
            LotUnlockPc::Unpark(id) => Some(LotAction::Unpark(id)),
            LotUnlockPc::Done => None,
        }
    }

    /// Takes the answer to what was done.
    pub fn on_event(&mut self, e: LotEvent)
        ensures
            *final(self) == old(self).after(e),
    {
        let pc = match (self.pc, e) {
            (LotUnlockPc::Open, LotEvent::Done) => LotUnlockPc::Pop,
            (LotUnlockPc::Pop, LotEvent::Popped(w)) => match w {
                Some(id) => LotUnlockPc::Unpark(id),
                None => LotUnlockPc::Done,
            },
            (LotUnlockPc::Unpark(_), LotEvent::Done) => LotUnlockPc::Done,
            (pc, _) => pc,
        };
        self.pc = pc;
    }
}

/// The byte of a lock.
pub struct ParkingLotMutex {
    state: u8,
}

impl View for ParkingLotMutex {
    type V = bool;

    /// Whether somebody holds the lock.
    closed spec fn view(&self) -> bool {
        self.state == LOCKED
    }
}

impl ParkingLotMutex {
    /// That the byte is one of the two that it can be.
    pub closed spec fn wf(self) -> bool {
        self.state == LOCKED || self.state == UNLOCKED
    }

    /// A lock that nobody holds.
    pub fn new() -> (m: ParkingLotMutex)
        ensures
            m.wf(),
            !m@,
    {
        ParkingLotMutex { state: UNLOCKED }
    }

    /// Takes the lock if nobody holds it.
    fn try_lock(&mut self) -> (e: LotEvent)
        requires
            old(self).wf(),
        ensures
            final(self).wf(),
            final(self)@,
            e == (if old(self)@ { LotEvent::Busy } else { LotEvent::Taken }),
    {
        if self.state == UNLOCKED {
            self.state = LOCKED;
            LotEvent::Taken
        } else {
            LotEvent::Busy
        }
    }

    /// Locks, for thread `id` and a lock at address `addr`, as far as that goes without
    /// sleeping: a lock that nobody holds is taken, otherwise the thread stands in the table
    /// and is about to sleep.
    pub fn lock(&mut self, lot: &mut ParkingLot, addr: usize, id: u64) -> (op: LotLockOp)
        requires
            old(self).wf(),
        ensures
            final(self).wf(),
            final(self)@,
            op.pc == (if old(self)@ { LotLockPc::Park } else { LotLockPc::Done }),
            !old(self)@ ==> *final(lot) == *old(lot),
            old(self)@ ==> {
                &&& final(lot).addresses() == old(lot).addresses().insert(addr)
                &&& final(lot).queue(addr) == old(lot).queue(addr).push(id)
                &&& forall|a: usize| a != addr ==> #[trigger] final(lot).queue(a) == old(lot).queue(a)
            },
    {
        let mut op = LotLockOp::start();
        let e = self.try_lock();
        op.on_event(e);
        if let LotLockPc::Done = op.pc {
            return op;
        }
        self.lock_slow(lot, addr, id, op)
    }

    /// The rest of [`ParkingLotMutex::lock`] when the first try has failed.
    fn lock_slow(&mut self, lot: &mut ParkingLot, addr: usize, id: u64, op: LotLockOp) -> (r:
        LotLockOp)
        requires
            old(self).wf(),
            old(self)@,
            op.pc is Try,
        ensures
            final(self).wf(),
            final(self)@,
            r.pc is Park,
            final(lot).addresses() == old(lot).addresses().insert(addr),
            final(lot).queue(addr) == old(lot).queue(addr).push(id),
            forall|a: usize| a != addr ==> #[trigger] final(lot).queue(a) == old(lot).queue(a),
    {
        let mut op = op;
        let e = self.try_lock();
        op.on_event(e);
        lot.enqueue(addr, id);
        op.on_event(LotEvent::Done);
        op.on_event(LotEvent::Byte(self.state));
        op
    }

    /// Unlocks, and gives the thread to wake: the one that came last of those that wait.
    pub fn unlock(&mut self, lot: &mut ParkingLot, addr: usize) -> (wake: Option<u64>)
        ensures
            final(self).wf(),
            !final(self)@,
            wake == (if old(lot).queue(addr).len() == 0 {
                None
            } else {
                Some(old(lot).queue(addr).last())
            }),
            final(lot).queue(addr) == (if old(lot).queue(addr).len() == 0 {
                Seq::empty()
            } else {
                old(lot).queue(addr).drop_last()
            }),
            final(lot).addresses() == old(lot).addresses(),
            forall|a: usize| a != addr ==> #[trigger] final(lot).queue(a) == old(lot).queue(a),
    {
        let mut op = LotUnlockOp::start();
        self.state = UNLOCKED;
        op.on_event(LotEvent::Done);
        let w = lot.pop(addr);
        op.on_event(LotEvent::Popped(w));
        match op.pc {
            LotUnlockPc::Unpark(id) => Some(id),
            _ => None,
        }
    }
}

impl Default for ParkingLotMutex {
    fn default() -> (m: ParkingLotMutex)
        ensures
            m.wf(),
            !m@,
    {
        ParkingLotMutex::new()
    }
}

/// What a thread that uses a lock is doing.
pub enum LotPhase {
    Idle,
    Locking(LotLockOp),
    Unlocking(LotUnlockOp),
}

/// A thread that uses a lock. The token remembers a wake-up until the thread next sleeps.
pub struct LotThread {
    pub phase: LotPhase,
    pub token: bool,
}

/// A lock, the threads that wait for it, and all threads. A thread's number is its place.
pub struct LotSystem {
    pub locked: bool,
    pub lot: Seq<u64>,
    pub threads: Seq<LotThread>,
}

/// Whether a thread holds the lock.
pub open spec fn holds_lock(t: LotThread) -> bool {
    match t.phase {
        LotPhase::Locking(op) => op.pc is Done,
        LotPhase::Unlocking(op) => op.pc is Open,
        _ => false,
    }
}

/// Whether a thread sleeps until it is woken.
pub open spec fn is_parked(t: LotThread) -> bool {
    t.phase matches LotPhase::Locking(op) && op.pc is Park && !t.token
}

/// Whether a thread may stand in the table.
pub open spec fn may_be_listed(t: LotThread) -> bool {
    t.phase matches LotPhase::Locking(op) && (op.pc is Recheck || op.pc is Withdraw || op.pc is Park)
}

/// Whether a thread is about to wake thread `i`.
pub open spec fn will_wake(t: LotThread, i: int) -> bool {
    t.phase matches LotPhase::Unlocking(op) && (op.pc matches LotUnlockPc::Unpark(id) && id == i)
}

impl LotSystem {
    /// Whether somebody is about to wake thread `i`.
    pub open spec fn wake_pending(self, i: int) -> bool {
        exists|j: int| 0 <= j < self.threads.len() && will_wake(#[trigger] self.threads[j], i)
    }

    /// Whether thread `i` is awake and will try for the lock, or will wake one that sleeps.
    pub open spec fn stirs(self, i: int) -> bool {
        let t = self.threads[i];
        match t.phase {
            LotPhase::Idle => false,
            LotPhase::Locking(op) => !(op.pc is Done) && !is_parked(t),
            LotPhase::Unlocking(op) => match op.pc {
                LotUnlockPc::Pop => true,
                LotUnlockPc::Unpark(id) => is_parked(self.threads[id as int]),
                _ => false,
            },
        }
    }

    /// Whether a thread sleeps.
    pub open spec fn has_parked(self) -> bool {
        exists|i: int| 0 <= i < self.threads.len() && is_parked(#[trigger] self.threads[i])
    }

    /// Whether a thread is awake for the lock.
    pub open spec fn has_stirring(self) -> bool {
        exists|i: int| 0 <= i < self.threads.len() && #[trigger] self.stirs(i)
    }

    /// What holds of thread `i`: a thread to be woken exists; a thread that sleeps, or is about
    /// to look whether it should, is in the table or has been or will be woken.
    pub open spec fn thread_inv(self, i: int) -> bool {
        match self.threads[i].phase {
            LotPhase::Idle => true,
            LotPhase::Locking(op) => (op.pc is Recheck || op.pc is Park) ==> {
                ||| self.threads[i].token
                ||| self.lot.contains(i as u64)
                ||| self.wake_pending(i)
            },
            LotPhase::Unlocking(op) => op.pc matches LotUnlockPc::Unpark(id) ==> id
                < self.threads.len(),
        }
    }

    /// What holds at any moment.
    pub open spec fn inv(self) -> bool {
        &&& self.threads.len() <= u64::MAX
        &&& counting::count(self.threads, |t: LotThread| holds_lock(t)) == (if self.locked {
            1nat
        } else {
            0nat
        })
        &&& forall|k: int|
            0 <= k < self.lot.len() ==> {
                &&& (#[trigger] self.lot[k]) < self.threads.len()
                &&& may_be_listed(self.threads[self.lot[k] as int])
            }
        &&& forall|i: int| 0 <= i < self.threads.len() ==> #[trigger] self.thread_inv(i)
        &&& !self.locked && self.has_parked() ==> self.has_stirring()
    }

    /// Whether thread `i` has something to do at the lock.
    pub open spec fn enabled(self, i: int) -> bool {
        &&& 0 <= i < self.threads.len()
        &&& match self.threads[i].phase {
            LotPhase::Idle => false,
            LotPhase::Locking(op) => !(op.pc is Done) && !is_parked(self.threads[i]),
            LotPhase::Unlocking(op) => !(op.pc is Done),
        }
    }

    /// What thread `i` is answered.
    pub open spec fn event(self, a: LotAction) -> LotEvent {
        match a {
            LotAction::TryLock => if self.locked {
                LotEvent::Busy
            } else {
                LotEvent::Taken
            },
            LotAction::Look => LotEvent::Byte(
                if self.locked {
                    LOCKED
                } else {
                    UNLOCKED
                },
            ),
            LotAction::PopWaiter => LotEvent::Popped(
                if self.lot.len() == 0 {
                    None
                } else {
                    Some(self.lot.last())
                },
            ),
            _ => LotEvent::Done,
        }
    }

    /// The system after thread `i` has done what it wants done next.
    pub open spec fn step(self, i: int) -> LotSystem {
        let t = self.threads[i];
        match t.phase {
            LotPhase::Idle => self,
            LotPhase::Locking(op) => {
                let a = op.action();
                let t2 = LotThread {
                    phase: LotPhase::Locking(op.after(self.event(a))),
                    token: t.token && !(a is Park),
                };
                LotSystem {
                    locked: self.locked || a is TryLock,
                    lot: match a {
                        LotAction::Enqueue => self.lot.push(i as u64),
                        LotAction::Withdraw => without(self.lot, i as u64),
                        _ => self.lot,
                    },
                    threads: self.threads.update(i, t2),
                }
            },
            LotPhase::Unlocking(op) => {
                let a = op.action();
                let t2 = LotThread {
                    phase: LotPhase::Unlocking(op.after(self.event(a))),
                    token: t.token,
                };
                let threads = self.threads.update(i, t2);
                LotSystem {
                    locked: self.locked && !(a is Open),
                    lot: if a is PopWaiter && self.lot.len() > 0 {
                        self.lot.drop_last()
                    } else {
                        self.lot
                    },
                    threads: match a {
                        LotAction::Unpark(id) => threads.update(
                            id as int,
                            LotThread { token: true, ..threads[id as int] },
                        ),
                        _ => threads,
                    },
                }
            },
        }
    }

    /// The system after thread `i`, which was at rest or holds the lock, has begun to lock or
    /// to unlock.
    pub open spec fn begin(self, i: int) -> LotSystem {
        let t = self.threads[i];
        let phase = if t.phase is Idle || (t.phase is Unlocking
            && t.phase->Unlocking_0.pc is Done) {
            LotPhase::Locking(LotLockOp { pc: LotLockPc::Fast })
        } else {
            LotPhase::Unlocking(LotUnlockOp { pc: LotUnlockPc::Open })
        };
        LotSystem { threads: self.threads.update(i, LotThread { phase, ..t }), ..self }
    }

    /// The system after thread `i` woke up for no reason.
    pub open spec fn wake_spuriously(self, i: int) -> LotSystem {
        let t = self.threads[i];
        let phase = LotPhase::Locking(t.phase->Locking_0.after(LotEvent::Done));
        LotSystem { threads: self.threads.update(i, LotThread { phase, ..t }), ..self }
    }
}

/// A pending wake-up stays pending when another thread than the one that is to do it changes.
proof fn lemma_pending(s: LotSystem, s2: LotSystem, i: int, k: int)
    requires
        s2.threads.len() == s.threads.len(),
        forall|j: int|
            0 <= j < s.threads.len() && j != i ==> (#[trigger] s2.threads[j]).phase
                == s.threads[j].phase,
        s.wake_pending(k),
    ensures
        s2.wake_pending(k) || (0 <= i < s.threads.len() && will_wake(s.threads[i], k)),
{
    let j = choose|j: int| 0 <= j < s.threads.len() && will_wake(#[trigger] s.threads[j], k);
    if j != i {
        assert(will_wake(s2.threads[j], k));
    }
}

/// Only the thread itself takes its name off the table by withdrawing.
proof fn lemma_without(q: Seq<u64>, id: u64)
    ensures
        forall|x: u64| #[trigger] without(q, id).contains(x) ==> q.contains(x) && x != id,
        forall|x: u64| #[trigger] q.contains(x) && x != id ==> without(q, id).contains(x),
    decreases q.len(),
{
    reveal(Seq::filter);
    let p = |x: u64| x != id;
    if q.len() > 0 {
        let r = q.drop_last();
        lemma_without(r, id);
        assert(q =~= r.push(q.last()));
        let w = without(r, id);
        assert(q.last() != id ==> without(q, id) == w.push(q.last()));
        assert(q.last() == id ==> without(q, id) == w);
        assert forall|x: u64| #[trigger] without(q, id).contains(x) implies q.contains(x) && x != id by {
            let n = choose|n: int| 0 <= n < without(q, id).len() && without(q, id)[n] == x;
            if n < w.len() {
                assert(w[n] == x);
                assert(w.contains(x));
                let m = choose|m: int| 0 <= m < r.len() && r[m] == x;
                assert(q[m] == x);
            } else {
                assert(q[q.len() - 1] == x);
            }
        }
        assert forall|x: u64| #[trigger] q.contains(x) && x != id implies without(q, id).contains(x) by {
            let n = choose|n: int| 0 <= n < q.len() && q[n] == x;
            if n < r.len() {
                assert(r[n] == x);
                assert(r.contains(x));
                let m = choose|m: int| 0 <= m < w.len() && w[m] == x;
                assert(without(q, id)[m] == x);
            } else {
                assert(without(q, id)[w.len() as int] == x);
            }
        }
    }
}

/// However threads interleave at a lock, the invariant stays: at most one thread holds the
/// lock, and as long as a thread sleeps while the lock is free another one is awake for it.
pub proof fn law_lot_step(s: LotSystem, i: int)
    requires
        s.inv(),
        s.enabled(i),
    ensures
        s.step(i).inv(),
{
    let s2 = s.step(i);
    let p = |t: LotThread| holds_lock(t);
    assert(s.thread_inv(i));
    match s.threads[i].phase {
        LotPhase::Idle => {},
        LotPhase::Locking(op) => {
            let t2 = s2.threads[i];
            assert(s2.threads == s.threads.update(i, t2));
            counting::lemma_count_update(s.threads, i, t2, p);
            lemma_without(s.lot, i as u64);
            assert forall|k: int| 0 <= k < s2.lot.len() implies {
                &&& (#[trigger] s2.lot[k]) < s2.threads.len()
                &&& may_be_listed(s2.threads[s2.lot[k] as int])
            } by {
                if op.pc is Withdraw {
                    assert(s2.lot.contains(s2.lot[k]));
                    let m = choose|m: int| 0 <= m < s.lot.len() && s.lot[m] == s2.lot[k];
                    assert(s.lot[m] == s2.lot[k]);
                } else if op.pc is Enqueue && k == s.lot.len() {
                } else {
                    assert(s.lot[k] == s2.lot[k]);
                }
            }
            assert forall|k: int| 0 <= k < s2.threads.len() implies #[trigger] s2.thread_inv(k) by {
                assert(s.thread_inv(k));
                if s.wake_pending(k) {
                    lemma_pending(s, s2, i, k);
                }
                if s.lot.contains(k as u64) {
                    let m = choose|m: int| 0 <= m < s.lot.len() && s.lot[m] == k as u64;
                    if op.pc is Withdraw {
                        if k != i {
                            assert(s2.lot.contains(k as u64));
                        }
                    } else {
                        assert(s2.lot[m] == k as u64);
                    }
                }
                if k == i && op.pc is Enqueue {
                    assert(s2.lot[s.lot.len() as int] == i as u64);
                }
            }
            if !s2.locked && s2.has_parked() {
                assert(s2.stirs(i));
            }
        },
        LotPhase::Unlocking(op) => {
            let t2 = LotThread {
                phase: LotPhase::Unlocking(op.after(s.event(op.action()))),
                token: s.threads[i].token,
            };
            let mid = s.threads.update(i, t2);
            counting::lemma_count_update(s.threads, i, t2, p);
            if op.pc is Open {
                counting::lemma_count_member(s.threads, i, p);
            }
            if let LotUnlockPc::Unpark(id) = op.pc {
                counting::lemma_count_update(mid, id as int, s2.threads[id as int], p);
            }
            assert forall|k: int| 0 <= k < s2.threads.len() && k != i implies (
            #[trigger] s2.threads[k]).phase == s.threads[k].phase by {}
            assert forall|k: int| 0 <= k < s2.lot.len() implies {
                &&& (#[trigger] s2.lot[k]) < s2.threads.len()
                &&& may_be_listed(s2.threads[s2.lot[k] as int])
            } by {
                assert(s.lot[k] == s2.lot[k]);
            }
            assert forall|k: int| 0 <= k < s2.threads.len() implies #[trigger] s2.thread_inv(k) by {
                assert(s.thread_inv(k));
                if s.wake_pending(k) {
                    lemma_pending(s, s2, i, k);
                }
                if s.lot.contains(k as u64) {
                    let m = choose|m: int| 0 <= m < s.lot.len() && s.lot[m] == k as u64;
                    if op.pc is Pop && m == s.lot.len() - 1 {
                        assert(will_wake(s2.threads[i], k));
                    } else {
                        assert(s2.lot[m] == k as u64);
                    }
                }
                if k == i && op.pc is Pop && s.lot.len() > 0 {
                    assert(s.lot[s.lot.len() - 1] < s.threads.len());
                }
            }
            if !s2.locked && s2.has_parked() {
                let k = choose|k: int| 0 <= k < s2.threads.len() && is_parked(#[trigger] s2.threads[k]);
                match op.pc {
                    LotUnlockPc::Open => {
                        assert(s2.stirs(i));
                    },
                    LotUnlockPc::Pop => {
                        if s.lot.len() > 0 {
                            let x = s.lot[s.lot.len() - 1];
                            assert(may_be_listed(s.threads[x as int]));
                            if is_parked(s2.threads[x as int]) {
                                assert(s2.stirs(i));
                            } else {
                                assert(s2.stirs(x as int));
                            }
                        } else {
                            assert(s2.thread_inv(k));
                            assert(s2.wake_pending(k));
                            let j = choose|j: int|
                                0 <= j < s2.threads.len() && will_wake(#[trigger] s2.threads[j], k);
                            assert(s2.stirs(j));
                        }
                    },
                    LotUnlockPc::Unpark(id) => {
                        assert(is_parked(s.threads[k]));
                        assert(s.has_parked());
                        let j = choose|j: int| 0 <= j < s.threads.len() && #[trigger] s.stirs(j);
                        if j == i {
                            assert(s2.stirs(id as int));
                        } else if s2.stirs(j) {
                        } else {
                            assert(s.thread_inv(j));
                            assert(s2.threads[j].phase == s.threads[j].phase);
                            if let LotPhase::Unlocking(other) = s.threads[j].phase {
                                if let LotUnlockPc::Unpark(x) = other.pc {
                                    assert(is_parked(s.threads[x as int]));
                                    assert(x == id);
                                }
                            }
                            assert(will_wake(s.threads[j], id as int));
                            assert(s2.stirs(id as int));
                        }
                    },
                    LotUnlockPc::Done => {},
                }
            }
        },
    }
}

/// Beginning to lock or to unlock keeps the invariant, and so does waking up for no reason.
pub proof fn law_lot_begin(s: LotSystem, i: int)
    requires
        s.inv(),
        0 <= i < s.threads.len(),
    ensures
        !s.enabled(i) && !is_parked(s.threads[i]) ==> s.begin(i).inv(),
        is_parked(s.threads[i]) ==> s.wake_spuriously(i).inv(),
{
    assert(s.thread_inv(i));
    let p = |t: LotThread| holds_lock(t);
    let s2 = if is_parked(s.threads[i]) {
        s.wake_spuriously(i)
    } else {
        s.begin(i)
    };
    if !s.enabled(i) {
        counting::lemma_count_update(s.threads, i, s2.threads[i], p);
        assert forall|k: int| 0 <= k < s2.lot.len() implies {
            &&& (#[trigger] s2.lot[k]) < s2.threads.len()
            &&& may_be_listed(s2.threads[s2.lot[k] as int])
        } by {
            assert(s.lot[k] == s2.lot[k]);
        }
        assert forall|k: int| 0 <= k < s2.threads.len() implies #[trigger] s2.thread_inv(k) by {
            assert(s.thread_inv(k));
            if s.wake_pending(k) {
                lemma_pending(s, s2, i, k);
            }
        }
        if !s2.locked && s2.has_parked() {
            let k = choose|k: int| 0 <= k < s2.threads.len() && is_parked(#[trigger] s2.threads[k]);
            assert(s.threads[k] == s2.threads[k]);
            assert(s.has_parked());
            let j = choose|j: int| 0 <= j < s.threads.len() && #[trigger] s.stirs(j);
            if s2.threads[i].phase is Locking {
                assert(s2.stirs(i));
            } else {
                counting::lemma_count_member(s2.threads, i, p);
            }
        }
    }
}

/// Threads at rest around a free lock satisfy the invariant.
pub proof fn law_lot_start(s: LotSystem)
    requires
        s.threads.len() <= u64::MAX,
        !s.locked,
        s.lot.len() == 0,
        forall|i: int| 0 <= i < s.threads.len() ==> (#[trigger] s.threads[i]).phase is Idle,
    ensures
        s.inv(),
{
    let p = |t: LotThread| holds_lock(t);
    if counting::count(s.threads, p) >= 1 {
        let k = counting::lemma_count_witness(s.threads, p);
    }
    assert forall|k: int| 0 <= k < s.threads.len() implies #[trigger] s.thread_inv(k) by {
        assert(s.threads[k].phase is Idle);
    }
    assert(!s.has_parked());
}

/// At most one thread holds the lock.
pub proof fn law_lot_mutual_exclusion(s: LotSystem, i: int, j: int)
    requires
        s.inv(),
        0 <= i < s.threads.len(),
        0 <= j < s.threads.len(),
        holds_lock(s.threads[i]),
        holds_lock(s.threads[j]),
    ensures
        i == j,
        s.locked,
{
    let p = |t: LotThread| holds_lock(t);
    counting::lemma_count_member(s.threads, i, p);
    if i < j {
        counting::lemma_count_two(s.threads, i, j, p);
    } else if j < i {
        counting::lemma_count_two(s.threads, j, i, p);
    }
}

/// No wake-up is lost: while a thread sleeps, either somebody holds the lock and will wake one
/// when unlocking, or a thread is awake that will try for the lock or wake a sleeper.
pub proof fn law_lot_no_lost_wakeup(s: LotSystem)
    requires
        s.inv(),
        s.has_parked(),
    ensures
        s.locked || s.has_stirring(),
{
}

/// Whether a thread wants the lock or holds it.
pub open spec fn is_outstanding(t: LotThread) -> bool {
    match t.phase {
        LotPhase::Idle => false,
        LotPhase::Locking(_) => true,
        LotPhase::Unlocking(op) => op.pc is Open,
    }
}

impl LotSystem {
    /// How many threads want the lock or hold it.
    pub open spec fn outstanding(self) -> nat {
        counting::count(self.threads, |t: LotThread| is_outstanding(t))
    }
}

/// Each unlocking leaves one thread less that wants the lock or holds it, and nothing else changes
/// their number but a thread that begins to lock.
pub proof fn law_lot_each_unlock_counts(s: LotSystem, i: int)
    requires
        s.inv(),
        s.enabled(i),
    ensures
        s.step(i).outstanding() == s.outstanding() - (if s.threads[i].phase
            == LotPhase::Unlocking(LotUnlockOp { pc: LotUnlockPc::Open }) {
            1int
        } else {
            0
        }),
{
    let p = |t: LotThread| is_outstanding(t);
    let t = s.threads[i];
    assert(s.thread_inv(i));
    let s2 = s.step(i);
    match t.phase {
        LotPhase::Idle => {},
        LotPhase::Locking(op) => {
            counting::lemma_count_update(s.threads, i, s2.threads[i], p);
        },
        LotPhase::Unlocking(op) => {
            let t2 = LotThread {
                phase: LotPhase::Unlocking(op.after(s.event(op.action()))),
                token: t.token,
            };
            let mid = s.threads.update(i, t2);
            counting::lemma_count_update(s.threads, i, t2, p);
            if let LotUnlockPc::Unpark(id) = op.pc {
                let u = LotThread { token: true, ..mid[id as int] };
                counting::lemma_count_update(mid, id as int, u, p);
            }
        },
    }
}

/// All who lock return in the end: when nobody can go on and nobody holds the lock, nobody wants
/// it any more.
pub proof fn law_lot_all_return(s: LotSystem)
    requires
        s.inv(),
        !s.locked,
        forall|i: int| 0 <= i < s.threads.len() ==> !#[trigger] s.enabled(i),
    ensures
        s.outstanding() == 0,
{
    let p = |t: LotThread| is_outstanding(t);
    if s.outstanding() > 0 {
        let i = counting::lemma_count_witness(s.threads, p);
        assert(!s.enabled(i));
        let t = s.threads[i];
        if holds_lock(t) {
            counting::lemma_count_member(s.threads, i, |t: LotThread| holds_lock(t));
        } else {
            assert(is_parked(t));
            assert(s.has_parked());
            let j = choose|j: int| 0 <= j < s.threads.len() && #[trigger] s.stirs(j);
            assert(s.enabled(j));
        }
    }
}

/// How often the lock is yet to change hands because of a thread: once more if it holds the lock,
/// and twice if it wants it.
pub open spec fn changes_of(t: LotThread) -> nat {
    match t.phase {
        LotPhase::Idle => 0,
        LotPhase::Locking(op) => if op.pc is Done {
            1
        } else {
            2
        },
        LotPhase::Unlocking(op) => if op.pc is Open {
            1
        } else {
            0
        },
    }
}

/// How far a thread is from where it rests, falls asleep or changes the lock, as long as the lock
/// stays as it is. A wake-up that a thread has to come back from counts for one round more.
pub open spec fn distance(t: LotThread, locked: bool) -> nat {
    let way: nat = match t.phase {
        LotPhase::Idle => 0,
        LotPhase::Locking(op) => match op.pc {
            LotLockPc::Fast => if locked {
                4
            } else {
                0
            },
            LotLockPc::Try => if locked {
                3
            } else {
                0
            },
            LotLockPc::Enqueue => if locked {
                2
            } else {
                3
            },
            LotLockPc::Recheck => if locked {
                1
            } else {
                2
            },
            LotLockPc::Withdraw => if locked {
                4
            } else {
                1
            },
            LotLockPc::Park => 0,
            LotLockPc::Done => 1,
        },
        LotPhase::Unlocking(op) => match op.pc {
            LotUnlockPc::Open => 0,
            LotUnlockPc::Pop => 7,
            LotUnlockPc::Unpark(_) => 6,
            LotUnlockPc::Done => 0,
        },
    };
    way + if t.token {
        5nat
    } else {
        0
    }
}

/// [`changes_of`] as a function to add up.
pub open spec fn each_change() -> spec_fn(LotThread) -> nat {
    |t: LotThread| changes_of(t)
}

/// [`distance`] as a function to add up.
pub open spec fn each_distance(locked: bool) -> spec_fn(LotThread) -> nat {
    |t: LotThread| distance(t, locked)
}

impl LotSystem {
    /// How often the lock is yet to be taken or opened.
    pub open spec fn changes(self) -> nat {
        counting::total(self.threads, each_change())
    }

    /// How far all threads are from rest as long as the lock stays as it is.
    pub open spec fn distances(self) -> nat {
        counting::total(self.threads, each_distance(self.locked))
    }

    /// A bound on how much is yet to be done until all who want the lock or hold it have returned.
    /// Whenever the lock changes, each thread may be up to 12 further away than it was.
    pub open spec fn to_go(self) -> nat {
        self.changes() * (12 * self.threads.len() + 1) + self.distances()
    }

    /// Whether thread `i` can go on: at the lock, or as the holder by unlocking.
    pub open spec fn can_go_on(self, i: int) -> bool {
        ||| self.enabled(i)
        ||| 0 <= i < self.threads.len() && self.threads[i].phase == LotPhase::Locking(
            LotLockOp { pc: LotLockPc::Done },
        )
    }

    /// The system after thread `i` has gone on.
    pub open spec fn go_on(self, i: int) -> LotSystem {
        if self.enabled(i) {
            self.step(i)
        } else {
            self.begin(i)
        }
    }

    /// The system after the threads have gone on in the given order.
    pub open spec fn after_run(self, who: Seq<int>) -> LotSystem
        decreases who.len(),
    {
        if who.len() == 0 {
            self
        } else {
            self.after_run(who.drop_last()).go_on(who.last())
        }
    }

    /// Whether the threads can go on in the given order.
    pub open spec fn can_run(self, who: Seq<int>) -> bool
        decreases who.len(),
    {
        who.len() == 0 || self.can_run(who.drop_last()) && self.after_run(
            who.drop_last(),
        ).can_go_on(who.last())
    }
}

/// One thread changes, and a second one at most gets a token.
proof fn lemma_totals(s: LotSystem, mid: Seq<LotThread>, s2: LotSystem, i: int, k: int)
    requires
        0 <= i < s.threads.len(),
        mid == s.threads.update(i, mid[i]),
        0 <= k < s.threads.len(),
        s2.threads == mid.update(k, s2.threads[k]),
        s2.threads[k].phase == mid[k].phase,
    ensures
        s2.changes() + changes_of(s.threads[i]) == s.changes() + changes_of(mid[i]),
        s2.locked == s.locked ==> s2.distances() + distance(s.threads[i], s.locked) + distance(
            mid[k],
            s.locked,
        ) == s.distances() + distance(mid[i], s.locked) + distance(s2.threads[k], s.locked),
        s2.distances() <= 12 * s2.threads.len(),
{
    let c = each_change();
    counting::lemma_total_update(s.threads, i, mid[i], c);
    counting::lemma_total_update(mid, k, s2.threads[k], c);
    let d = each_distance(s.locked);
    counting::lemma_total_update(s.threads, i, mid[i], d);
    counting::lemma_total_update(mid, k, s2.threads[k], d);
    counting::lemma_total_bound(s2.threads, each_distance(s2.locked), 12);
}

/// Whatever a thread does, there is less to go afterwards.
pub proof fn law_lot_comes_to_rest(s: LotSystem, i: int)
    requires
        s.inv(),
        s.can_go_on(i),
    ensures
        s.go_on(i).inv(),
        s.go_on(i).to_go() < s.to_go(),
{
    let s2 = s.go_on(i);
    let t = s.threads[i];
    assert(s.thread_inv(i));
    let n = 12 * s.threads.len() + 1;
    if holds_lock(t) {
        counting::lemma_count_member(s.threads, i, |t: LotThread| holds_lock(t));
    }
    if s.enabled(i) {
        law_lot_step(s, i);
    } else {
        law_lot_begin(s, i);
    }
    match t.phase {
        LotPhase::Unlocking(op) => {
            let t2 = LotThread {
                phase: LotPhase::Unlocking(op.after(s.event(op.action()))),
                token: t.token,
            };
            let mid = s.threads.update(i, t2);
            let k = match op.pc {
                LotUnlockPc::Unpark(id) => id as int,
                _ => i,
            };
            assert(s2.threads =~= mid.update(k, s2.threads[k]));
            lemma_totals(s, mid, s2, i, k);
        },
        _ => {
            assert(s2.threads =~= s2.threads.update(i, s2.threads[i]));
            lemma_totals(s, s2.threads, s2, i, i);
        },
    }
    if s2.locked != s.locked {
        assert(s2.changes() == s.changes() - 1);
        assert((s.changes() - 1) * n + n == s.changes() * n) by (nonlinear_arith);
    } else {
        assert(s2.changes() == s.changes());
    }
}

/// All who lock return. As long as nobody new comes and nobody wakes up for no reason, threads can
/// go on only so often, in whatever order they do; and when none can, the lock is free and nobody
/// wants it any more.
pub proof fn law_lot_rest_is_reached(s: LotSystem, who: Seq<int>)
    requires
        s.inv(),
        s.can_run(who),
    ensures
        s.after_run(who).inv(),
        who.len() + s.after_run(who).to_go() <= s.to_go(),
        (forall|i: int| !#[trigger] s.after_run(who).can_go_on(i)) ==> !s.after_run(who).locked
            && s.after_run(who).outstanding() == 0,
    decreases who.len(),
{
    if who.len() > 0 {
        let before = who.drop_last();
        law_lot_rest_is_reached(s, before);
        law_lot_comes_to_rest(s.after_run(before), who.last());
    }
    let e = s.after_run(who);
    if forall|i: int| !#[trigger] e.can_go_on(i) {
        if e.locked {
            let h = counting::lemma_count_witness(e.threads, |t: LotThread| holds_lock(t));
            assert(e.can_go_on(h));
        }
        assert forall|i: int| 0 <= i < e.threads.len() implies !#[trigger] e.enabled(i) by {
            assert(!e.can_go_on(i));
        }
        law_lot_all_return(e);
    }
}

/// A lock with a value that only the holder touches: what was written, one after the other, and
/// what each thread has read or written since it got the lock.
pub struct GuardedLot {
    pub lot: LotSystem,
    pub value: int,
    pub writes: Seq<int>,
    pub known: Seq<Option<int>>,
}

impl GuardedLot {
    /// What holds at any moment: the value is what was written last, and what the holder has read
    /// or written is still there.
    pub open spec fn inv(self) -> bool {
        &&& self.lot.inv()
        &&& self.known.len() == self.lot.threads.len()
        &&& self.writes.len() > 0
        &&& self.writes.last() == self.value
        &&& forall|i: int|
            0 <= i < self.known.len() && (#[trigger] self.known[i]) is Some ==> holds_lock(
                self.lot.threads[i],
            ) && self.known[i] == Some(self.value)
    }

    /// After the lock has come to be as given, because of something that thread `i` did. A thread
    /// that no longer holds the lock knows nothing any more.
    pub open spec fn with_lot(self, lot: LotSystem, i: int) -> GuardedLot {
        GuardedLot {
            lot,
            known: if holds_lock(lot.threads[i]) {
                self.known
            } else {
                self.known.update(i, None)
            },
            ..self
        }
    }

    /// After thread `i` has done what it wants done next at the lock.
    pub open spec fn step(self, i: int) -> GuardedLot {
        self.with_lot(self.lot.step(i), i)
    }

    /// After thread `i` has begun to lock or to unlock.
    pub open spec fn begin(self, i: int) -> GuardedLot {
        self.with_lot(self.lot.begin(i), i)
    }

    /// After thread `i` woke up for no reason.
    pub open spec fn wake_spuriously(self, i: int) -> GuardedLot {
        self.with_lot(self.lot.wake_spuriously(i), i)
    }

    /// After thread `i` has read the value.
    pub open spec fn read(self, i: int) -> GuardedLot {
        GuardedLot { known: self.known.update(i, Some(self.value)), ..self }
    }

    /// After thread `i` has written a value.
    pub open spec fn write(self, i: int, v: int) -> GuardedLot {
        GuardedLot {
            value: v,
            writes: self.writes.push(v),
            known: self.known.update(i, Some(v)),
            ..self
        }
    }
}

/// However threads interleave, what a holder has read or written stays until the holder writes
/// again or unlocks.
pub proof fn law_lot_value_is_guarded(g: GuardedLot, i: int, v: int)
    requires
        g.inv(),
        0 <= i < g.lot.threads.len(),
    ensures
        g.lot.enabled(i) ==> g.step(i).inv(),
        !g.lot.enabled(i) && !is_parked(g.lot.threads[i]) ==> g.begin(i).inv(),
        is_parked(g.lot.threads[i]) ==> g.wake_spuriously(i).inv(),
        holds_lock(g.lot.threads[i]) ==> g.read(i).inv() && g.write(i, v).inv(),
{
    let s = g.lot;
    assert(s.thread_inv(i));
    if s.enabled(i) {
        law_lot_step(s, i);
        let s2 = s.step(i);
        assert forall|j: int| 0 <= j < s.threads.len() && j != i implies (
        #[trigger] s2.threads[j]).phase == s.threads[j].phase by {}
        lemma_still_guarded(g, s2, i);
    }
    law_lot_begin(s, i);
    if !s.enabled(i) && !is_parked(s.threads[i]) {
        lemma_still_guarded(g, s.begin(i), i);
    }
    if is_parked(s.threads[i]) {
        lemma_still_guarded(g, s.wake_spuriously(i), i);
    }
    if holds_lock(s.threads[i]) {
        let w = g.write(i, v);
        assert forall|j: int| 0 <= j < w.known.len() && (#[trigger] w.known[j]) is Some implies
            holds_lock(w.lot.threads[j]) && w.known[j] == Some(w.value) by {
            if j != i {
                assert(g.known[j] is Some);
                law_lot_mutual_exclusion(s, i, j);
            }
        }
    }
}

/// What the others know stays as it is when thread `i` changes at the lock.
proof fn lemma_still_guarded(g: GuardedLot, s2: LotSystem, i: int)
    requires
        g.inv(),
        0 <= i < g.lot.threads.len(),
        s2.inv(),
        s2.threads.len() == g.lot.threads.len(),
        forall|j: int|
            0 <= j < g.lot.threads.len() && j != i ==> (#[trigger] s2.threads[j]).phase
                == g.lot.threads[j].phase,
    ensures
        g.with_lot(s2, i).inv(),
{
    let h = g.with_lot(s2, i);
    assert forall|j: int| 0 <= j < h.known.len() && (#[trigger] h.known[j]) is Some implies
        holds_lock(h.lot.threads[j]) && h.known[j] == Some(h.value) by {
        assert(g.known[j] is Some);
        if j != i {
            assert(s2.threads[j].phase == g.lot.threads[j].phase);
        }
    }
}

/// A holder reads what the last holder wrote, and what it has read is what it builds on: nobody
/// writes between its reading and its writing, so no update is lost.
pub proof fn law_lot_reads_the_last_write(g: GuardedLot, i: int, d: int)
    requires
        g.inv(),
        0 <= i < g.lot.threads.len(),
        holds_lock(g.lot.threads[i]),
    ensures
        g.read(i).known[i] == Some(g.writes.last()),
        g.known[i] matches Some(x) ==> x == g.writes.last() && g.write(i, x + d).value == g.value
            + d,
{
}

/// A value that nobody has touched yet, behind a lock that satisfies the invariant, is guarded.
pub proof fn law_lot_guarded_start(s: LotSystem, v: int)
    requires
        s.inv(),
    ensures
        (GuardedLot {
            lot: s,
            value: v,
            writes: seq![v],
            known: Seq::new(s.threads.len(), |i: int| None::<int>),
        }).inv(),
{
}

/// Withdrawing leaves everybody else in the queue, in their order, and nobody of the given
/// number.
pub proof fn law_withdrawn_are_gone(q: Seq<u64>, id: u64)
    ensures
        forall|x: u64| #[trigger] without(q, id).contains(x) <==> q.contains(x) && x != id,
        without(seq![id], id) == Seq::<u64>::empty(),
        forall|x: u64| x != id ==> #[trigger] without(seq![x], id) == seq![x],
        forall|r: Seq<u64>| #[trigger] without(q + r, id) == without(q, id) + without(r, id),
{
    lemma_without(q, id);
    reveal_with_fuel(Seq::filter, 2);
    assert forall|x: u64| x != id implies #[trigger] without(seq![x], id) == seq![x] by {
        assert(seq![x].drop_last() =~= Seq::<u64>::empty());
        assert(seq![x].drop_last() + seq![x] =~= seq![x]);
    }
    assert(seq![id].drop_last() =~= Seq::<u64>::empty());
    assert forall|r: Seq<u64>| #[trigger] without(q + r, id) == without(q, id) + without(
        r,
        id,
    ) by {
        broadcast use Seq::filter_distributes_over_add;

    }
}

/// Locking tries the byte first, and is done when that took the lock. It tries once more before
/// it enters the queue; once in the queue it parks if and only if the lock is still taken. It
/// leaves the queue before every further try.
pub proof fn law_lock_queues_before_it_parks(op: LotLockOp, b: u8)
    requires
        op.pc is Fast,
    ensures
        op.action() == LotAction::TryLock,
        op.after(LotEvent::Taken).pc is Done,
        ({
            let again = op.after(LotEvent::Busy);
            let busy = again.after(LotEvent::Busy);
            let listed = busy.after(LotEvent::Done);
            let looked = listed.after(LotEvent::Byte(b));
            let leaving = listed.after(LotEvent::Byte(0));
            &&& !(again.pc is Done)
            &&& again.action() == LotAction::TryLock
            &&& again.after(LotEvent::Taken).pc is Done
            &&& busy.action() == LotAction::Enqueue
            &&& listed.action() == LotAction::Look
            &&& leaving.action() == LotAction::Withdraw
            &&& leaving.after(LotEvent::Done) == again
            &&& b != 0 ==> looked.action() == LotAction::Park && looked.after(LotEvent::Done)
                == leaving
        }),
{
}

/// Nothing ends a locking but a try that took the lock.
pub proof fn law_locked_by_a_try(op: LotLockOp, e: LotEvent)
    requires
        !(op.pc is Done),
        op.after(e).pc is Done,
    ensures
        e is Taken,
        op.action() is TryLock,
{
}

/// Unlocking opens the lock first, then takes one waiter off the queue, and wakes it if there
/// is one.
pub proof fn law_unlock_wakes_who_was_popped(op: LotUnlockOp, id: u64)
    requires
        op.pc is Open,
    ensures
        op.action() == LotAction::Open,
        ({
            let opened = op.after(LotEvent::Done);
            let popped = opened.after(LotEvent::Popped(Some(id)));
            &&& opened.action() == LotAction::PopWaiter
            &&& opened.after(LotEvent::Popped(None)).pc is Done
            &&& !(popped.pc is Done)
            &&& popped.action() == LotAction::Unpark(id)
            &&& popped.after(LotEvent::Done).pc is Done
        }),
{
}

} // verus!
