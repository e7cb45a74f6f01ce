use forge::lockfree::clh::{ClhLock, ClhLockPc};
use forge::lockfree::latch::{Barrier, BarrierPc, Latch, LatchWaitOp, LatchWaitPc};
use forge::lockfree::mcs::{McsAction, McsLock, McsLockPc, McsUnlockOp};
use forge::lockfree::parking_lot::{
    LotAction, LotEvent, LotLockOp, LotLockPc, LotUnlockOp, ParkingLot, ParkingLotMutex, LOCKED,
    UNLOCKED,
};
use forge::lockfree::semaphore::{AcquireOp, ReleaseOp, Semaphore, SemaphoreAction};
use forge::word::{AtomicWord, Word, WordAction, WordEvent};
use std::hint::black_box;

// ---------------------------------------------------------------------------
// Words
// ---------------------------------------------------------------------------

#[test]
fn word_and_atomic_word_agree() {
    let actions = [
        WordAction::Load,
        WordAction::Store(7),
        WordAction::Swap(9),
        WordAction::CompareExchange { current: 9, new: 1 },
        WordAction::CompareExchange { current: 9, new: 2 },
        WordAction::FetchSub(2),
        WordAction::FetchAdd(3),
        WordAction::Load,
        WordAction::Wait(77),
        WordAction::WakeOne,
        WordAction::WakeAll,
    ];
    let mut w = Word::new(5);
    let a = AtomicWord::new(5);
    for action in actions {
        assert_eq!(w.perform(action), a.perform(action), "{:?}", action);
    }
    assert_eq!(w.get(), 2);
    assert_eq!(a.perform(WordAction::Load), WordEvent::Value(2));
}

// ---------------------------------------------------------------------------
// Latch and barrier
// ---------------------------------------------------------------------------

#[test]
fn latch_zero_is_open() {
    let l = Latch::new(0);
    assert!(l.is_open());
    let op = l.wait();
    assert!(op.next_action().is_none());
}

#[test]
fn latch_opens_with_the_last_count() {
    let mut l = Latch::new(2);
    assert!(!l.is_open());
    assert_eq!(l.wait().pc, LatchWaitPc::Sleep(2));
    l.count_down();
    assert_eq!(l.count(), 1);
    assert_eq!(l.wait().pc, LatchWaitPc::Sleep(1));
    l.count_down();
    assert!(l.is_open());
    assert_eq!(l.wait().pc, LatchWaitPc::Done);
}

#[test]
fn latch_waiter_that_is_woken_looks_again() {
    let mut op = LatchWaitOp::start();
    op.on_event(WordEvent::Value(1));
    assert_eq!(op.next_action(), Some(WordAction::Wait(1)));
    op.on_event(WordEvent::Done);
    assert_eq!(op.next_action(), Some(WordAction::Load));
    op.on_event(WordEvent::Value(0));
    assert_eq!(op.next_action(), None);
}

#[test]
fn barrier_single_thread() {
    let mut b = Barrier::new(1);
    let leader = b.wait();
    assert!(leader, "the only thread leads");
}

#[test]
fn barrier_has_one_leader_per_round() {
    let mut b = Barrier::new(3);
    for _ in 0..10 {
        let first = b.arrive();
        assert!(matches!(first.pc, BarrierPc::Sleep { .. }));
        assert_eq!(b.arrived(), 1);
        let second = b.arrive();
        assert!(matches!(second.pc, BarrierPc::Sleep { .. }));
        assert_eq!(b.arrived(), 2);
        assert!(b.wait());
        assert_eq!(b.arrived(), 0);
    }
}

// ---------------------------------------------------------------------------
// Semaphore
// ---------------------------------------------------------------------------

#[test]
fn semaphore_gives_and_takes() {
    let mut s = Semaphore::new(2);
    s.acquire();
    s.acquire();
    s.release();
    s.acquire();
    s.release();
    s.release();
    assert_eq!(s.perform(SemaphoreAction::Permits(WordAction::Load)), WordEvent::Value(2));
}

#[test]
fn two_releases_wake_two_waiters() {
    let mut s = Semaphore::new(0);
    let mut waiters = [AcquireOp::start(), AcquireOp::start()];
    let mut asleep = 0;
    for op in waiters.iter_mut() {
        while let Some(a) = op.next_action() {
            if let SemaphoreAction::Permits(WordAction::Wait(_)) = a {
                asleep += 1;
                break;
            }
            let e = s.perform(a);
            op.on_event(e);
        }
    }
    assert_eq!(asleep, 2);
    let mut woken = 0;
    for _ in 0..2 {
        let mut op = ReleaseOp::start();
        while let Some(a) = op.next_action() {
            if let SemaphoreAction::Permits(WordAction::WakeOne) = a {
                woken += 1;
            }
            let e = s.perform(a);
            op.on_event(e);
        }
    }
    assert_eq!(woken, 2);
    for op in waiters.iter_mut() {
        op.on_event(WordEvent::Done);
        while let Some(a) = op.next_action() {
            let e = s.perform(a);
            op.on_event(e);
        }
    }
    assert_eq!(s.perform(SemaphoreAction::Permits(WordAction::Load)), WordEvent::Value(0));
    assert_eq!(s.perform(SemaphoreAction::Waiters(WordAction::Load)), WordEvent::Value(0));
}

// ---------------------------------------------------------------------------
// Queue locks
// ---------------------------------------------------------------------------

#[test]
fn mcs_lock_uncontended_under_miri() {
    let mut lock = McsLock::new();
    for i in 0..50u64 {
        let g = lock.lock(1);
        black_box(i);
        lock.unlock(g);
    }
    {
        let g = lock.lock(1);
        black_box(99u64);
        lock.unlock(g);
    }
}

#[test]
fn mcs_lock_is_handed_to_who_waits() {
    let mut lock = McsLock::default();
    let g = lock.lock(1);
    let mut waiting = lock.begin_lock(2);
    while let Some(a) = waiting.next_action() {
        if a == McsAction::Park {
            break;
        }
        let e = lock.perform(a);
        waiting.on_event(e);
    }
    assert_eq!(waiting.pc, McsLockPc::Park);
    let mut unlock = McsUnlockOp::start(g);
    let mut unparked = None;
    while let Some(a) = unlock.next_action() {
        if let McsAction::Unpark(id) = a {
            unparked = Some(id);
        }
        let e = lock.perform(a);
        unlock.on_event(e);
    }
    assert_eq!(unparked, Some(2));
    while let Some(a) = waiting.next_action() {
        let e = lock.perform(a);
        waiting.on_event(e);
    }
    assert_eq!(waiting.pc, McsLockPc::Done);
}

#[test]
fn clh_lock_is_handed_on_in_order() {
    let mut lock = ClhLock::new();
    let g = lock.lock();
    let mut second = lock.begin_lock();
    let e = lock.perform(second.next_action().unwrap());
    second.on_event(e);
    for _ in 0..3 {
        let e = lock.perform(second.next_action().unwrap());
        second.on_event(e);
        assert!(matches!(second.pc, ClhLockPc::Spin(_)));
    }
    lock.unlock(g);
    let e = lock.perform(second.next_action().unwrap());
    second.on_event(e);
    assert!(matches!(second.pc, ClhLockPc::Done(_)));
}

#[test]
fn clh_lock_again_and_again() {
    let mut lock = ClhLock::default();
    for _ in 0..100 {
        let g = lock.lock();
        lock.unlock(g);
    }
}

// ---------------------------------------------------------------------------
// Parking lot
// ---------------------------------------------------------------------------

#[test]
fn parking_lot_mutex_parks_and_wakes() {
    let mut lot = ParkingLot::new();
    let mut m = ParkingLotMutex::new();
    let first = m.lock(&mut lot, 16, 1);
    assert_eq!(first.pc, LotLockPc::Done);
    let second = m.lock(&mut lot, 16, 2);
    assert_eq!(second.next_action(), Some(LotAction::Park));
    assert_eq!(m.unlock(&mut lot, 16), Some(2));
    let mut lot2 = ParkingLot::new();
    let mut free = ParkingLotMutex::default();
    let op = free.lock(&mut lot2, 8, 1);
    assert_eq!(op.pc, LotLockPc::Done);
    assert_eq!(free.unlock(&mut lot2, 8), None);
}

/// Three threads that each read a value behind a lock, and write it back increased by one.
struct Increments {
    locked: bool,
    lot: ParkingLot,
    locking: Vec<LotLockOp>,
    unlocking: Vec<Option<LotUnlockOp>>,
    token: Vec<bool>,
    read: Vec<Option<u32>>,
    value: u32,
}

impl Increments {
    /// Lets thread `i` go on, and tells whether it could.
    fn go_on(&mut self, i: usize) -> bool {
        if let Some(mut op) = self.unlocking[i] {
            let e = match op.next_action() {
                Some(LotAction::Open) => {
                    self.locked = false;
                    LotEvent::Done
                }
                Some(LotAction::PopWaiter) => LotEvent::Popped(self.lot.pop(8)),
                Some(LotAction::Unpark(id)) => {
                    self.token[id as usize] = true;
                    LotEvent::Done
                }
                _ => return false,
            };
            op.on_event(e);
            self.unlocking[i] = Some(op);
            return true;
        }
        let e = match self.locking[i].next_action() {
            Some(LotAction::TryLock) if self.locked => LotEvent::Busy,
            Some(LotAction::TryLock) => {
                self.locked = true;
                LotEvent::Taken
            }
            Some(LotAction::Enqueue) => {
                self.lot.enqueue(8, i as u64);
                LotEvent::Done
            }
            Some(LotAction::Look) => {
                LotEvent::Byte(if self.locked { LOCKED } else { UNLOCKED })
            }
            Some(LotAction::Withdraw) => {
                self.lot.withdraw(8, i as u64);
                LotEvent::Done
            }
            Some(LotAction::Park) => {
                if !self.token[i] {
                    return false;
                }
                self.token[i] = false;
                LotEvent::Done
            }
            _ => {
                match self.read[i] {
                    None => self.read[i] = Some(self.value),
                    Some(x) => {
                        assert_eq!(x, self.value, "nobody writes in between");
                        self.value = x + 1;
                        self.unlocking[i] = Some(LotUnlockOp::start());
                    }
                }
                return true;
            }
        };
        self.locking[i].on_event(e);
        true
    }
}

#[test]
fn all_who_lock_return_and_no_update_is_lost() {
    for seed in 0..3_000u64 {
        let mut s = Increments {
            locked: false,
            lot: ParkingLot::new(),
            locking: vec![LotLockOp::start(); 3],
            unlocking: vec![None; 3],
            token: vec![false; 3],
            read: vec![None; 3],
            value: 0,
        };
        let mut state = seed;
        let mut rounds = 0;
        loop {
            state = state.wrapping_mul(6364136223846793005).wrapping_add(1442695040888963407);
            let first = (state >> 33) as usize % 3;
            if !(0..3).any(|k| s.go_on((first + k) % 3)) {
                break;
            }
            rounds += 1;
            assert!(rounds < 500, "seed {}: no end", seed);
        }
        assert_eq!(s.value, 3, "seed {}", seed);
        assert!(!s.locked);
    }
}

#[test]
fn parking_lot_keeps_locks_apart() {
    let mut lot = ParkingLot::new();
    lot.enqueue(1, 10);
    lot.enqueue(2, 20);
    lot.enqueue(1, 11);
    lot.withdraw(1, 10);
    assert_eq!(lot.pop(1), Some(11));
    assert_eq!(lot.pop(1), None);
    assert_eq!(lot.pop(2), Some(20));
    assert_eq!(lot.pop(3), None);
}
