use forge::lockfree::deque::{Deque, DequePopOp, DequePopPc, Steal, StealOp, StealPc, CAP};
use forge::lockfree::epoch::{
    self, EpochGuard, EpochLocal, EpochRegistry, EpochStack, ADVANCE_THRESHOLD, UNPINNED,
};
use forge::lockfree::hazard::{
    self, HazardGuard, HazardLocal, HazardRegistry, HazardStack, MAX_HAZARD_THREADS, SCAN_THRESHOLD,
};
use forge::lockfree::queue::{DequeueOp, DequeuePc, Queue};
use forge::lockfree::rcu::Rcu;
use forge::lockfree::seqlock::{SeqAction, SeqEvent, SeqLock, SeqReadOp};
use forge::lockfree::stack::{PopOp, PopPc, PushPc, Stack};

// ---------------------------------------------------------------------------
// Stack
// ---------------------------------------------------------------------------

#[test]
fn stack_lifo_single_thread() {
    let mut s = Stack::<i32>::new();
    s.push(1);
    s.push(2);
    s.push(3);
    assert_eq!(s.pop(), Some(3));
    assert_eq!(s.pop(), Some(2));
    assert_eq!(s.pop(), Some(1));
    assert_eq!(s.pop(), None);
}

#[test]
fn stack_default_is_empty() {
    let mut s: Stack<u8> = Stack::default();
    assert_eq!(s.top(), None);
    assert_eq!(s.pop(), None);
    s.push(9);
    assert_eq!(s.top(), Some(0));
}

#[test]
fn aba_bug_version_is_red() {
    // A pop that counts before its exchange has succeeded counts a value twice. There is no such
    // pop here: see the test below.
}

#[test]
fn aba_hazard_version_is_green() {
    for schedule in 0..256u32 {
        let mut stack = Stack::new();
        stack.push(42usize);
        let mut ops = [PopOp::start(), PopOp::start()];
        let mut popped = 0usize;
        for step in 0..40 {
            let wanted = if step < 8 { ((schedule >> step) & 1) as usize } else { step % 2 };
            for i in [wanted, 1 - wanted] {
                if ops[i].next_action().is_some() {
                    stack.step_pop(&mut ops[i]);
                    if let PopPc::Won(n) = ops[i].pc {
                        assert_eq!(stack.take_won(n), Some(42));
                        popped += 1;
                    }
                    break;
                }
            }
        }
        assert!(ops.iter().all(|op| op.next_action().is_none()));
        let count = popped;
        assert!(count <= 1, "two pops took one value, count={}", count);
        assert_eq!(count, 1);
    }
}

#[test]
fn a_push_that_is_overtaken_starts_over() {
    let mut s = Stack::new();
    let mut op = s.begin_push(1);
    s.step_push(&mut op);
    s.step_push(&mut op);
    s.push(2);
    s.step_push(&mut op);
    assert!(!matches!(op.pc, PushPc::Done));
    while op.next_action().is_some() {
        s.step_push(&mut op);
    }
    assert_eq!(s.pop(), Some(1));
    assert_eq!(s.pop(), Some(2));
    assert_eq!(s.pop(), None);
}

// ---------------------------------------------------------------------------
// Queue
// ---------------------------------------------------------------------------

#[test]
fn queue_empty_returns_none() {
    let mut q: Queue<i32> = Queue::new();
    assert!(q.dequeue().is_none());
}

#[test]
fn queue_fifo_single_thread() {
    let mut q = Queue::new();
    q.enqueue(1);
    q.enqueue(2);
    q.enqueue(3);
    assert_eq!(q.dequeue(), Some(1));
    assert_eq!(q.dequeue(), Some(2));
    assert_eq!(q.dequeue(), Some(3));
    assert_eq!(q.dequeue(), None);
}

#[test]
fn queue_keeps_the_order_of_interleaved_producers_and_consumers() {
    for schedule in 0..4096u32 {
        let mut q = Queue::default();
        q.enqueue(1u32);
        let mut put = q.begin_enqueue(2);
        let mut get = [DequeueOp::start(), DequeueOp::start()];
        let mut got = Vec::new();
        for step in 0..120 {
            let wanted = if step < 12 { ((schedule >> step) & 1) as usize } else { step % 3 };
            if wanted == 0 && put.next_action().is_some() {
                q.step_enqueue(&mut put);
                continue;
            }
            let i = wanted % 2;
            if get[i].next_action().is_some() {
                q.step_dequeue(&mut get[i]);
                if let DequeuePc::Won(n) = get[i].pc {
                    got.push(q.take_won(n));
                }
            }
        }
        while let Some(v) = q.dequeue() {
            got.push(Some(v));
        }
        assert!(put.next_action().is_none());
        assert_eq!(got, vec![Some(1), Some(2)]);
    }
}

// ---------------------------------------------------------------------------
// Deque
// ---------------------------------------------------------------------------

#[test]
fn stealing_by_a_handle_takes_from_the_deque_itself() {
    let mut d = Deque::new();
    for v in 1..=3 {
        d.push(v);
    }
    let mut thief = d.stealer();
    assert_eq!(thief.steal(), Steal::Success(1));
    assert_eq!(d.pop(), Some(3));
    assert_eq!(d.pop(), Some(2));
    assert_eq!(d.pop(), None);
    assert_eq!(d.stealer().steal(), Steal::Empty);
}

#[test]
fn chaselev_bug_version_is_red() {
    // A deque whose owner and thief do not settle the last item by one exchange hands it out
    // twice. There is no such deque here: see the test below.
}

#[test]
fn chaselev_safe_version_is_green() {
    for schedule in 0..1024u32 {
        let mut dq = Deque::new();
        dq.push(42usize);
        let mut pop = DequePopOp::start();
        let mut steal = StealOp::start();
        let mut taken = 0usize;
        for step in 0..40 {
            let owner = if step < 10 { (schedule >> step) & 1 == 0 } else { step % 2 == 0 };
            for own in [owner, !owner] {
                if own && pop.next_action().is_some() {
                    if let Some(v) = dq.step_pop(&mut pop) {
                        assert_eq!(v, 42);
                        taken += 1;
                    }
                    break;
                }
                if !own && steal.next_action().is_some() {
                    if let Some(v) = dq.step_steal(&mut steal) {
                        assert_eq!(v, 42);
                        taken += 1;
                    }
                    break;
                }
            }
        }
        assert!(matches!(pop.pc, DequePopPc::Won | DequePopPc::Empty));
        assert!(matches!(steal.pc, StealPc::Won | StealPc::Empty | StealPc::Retry));
        let c = taken;
        assert!(c <= 1, "taken={}", c);
        assert_eq!(c, 1);
    }
}

#[test]
fn deque_owner_takes_the_newest_thief_the_oldest() {
    let mut d = Deque::new();
    for i in 0..5u32 {
        d.push(i);
    }
    assert!(matches!(d.steal(), Steal::Success(0)));
    assert_eq!(d.pop(), Some(4));
    {
        let mut s = d.stealer();
        assert!(matches!(s.steal(), Steal::Success(1)));
    }
    assert_eq!(d.pop(), Some(3));
    assert_eq!(d.pop(), Some(2));
    assert_eq!(d.pop(), None);
    assert!(matches!(d.steal(), Steal::Empty));
    assert_eq!(d.pop(), None);
}

#[test]
fn deque_holds_as_many_as_its_ring_and_wraps_around() {
    let mut d = Deque::default();
    for round in 0..3usize {
        for i in 0..CAP {
            d.push(round * CAP + i);
        }
        for i in 0..CAP {
            match d.steal() {
                Steal::Success(v) => assert_eq!(v, round * CAP + i),
                _ => panic!("an item is missing"),
            }
        }
    }
    assert_eq!(d.pop(), None);
}

// ---------------------------------------------------------------------------
// Hazard pointers
// ---------------------------------------------------------------------------

#[test]
fn hazard_stack_lifo_single_thread() {
    let mut reg = HazardRegistry::new();
    let mut me = HazardLocal::new();
    let mut s = HazardStack::<i32>::new();
    s.push(1);
    s.push(2);
    s.push(3);
    assert_eq!(s.pop(&mut reg, &mut me), Some(3));
    assert_eq!(s.pop(&mut reg, &mut me), Some(2));
    assert_eq!(s.pop(&mut reg, &mut me), Some(1));
    assert_eq!(s.pop(&mut reg, &mut me), None);
}

#[test]
fn hazard_stack_reclaim_actually_frees() {
    let mut reg = HazardRegistry::new();
    let mut me = HazardLocal::new();
    let mut s = HazardStack::<Box<[u8; 64]>>::new();
    let mut reclaimed = 0usize;
    for round in 0..1000 {
        for i in 0..64 {
            s.push(Box::new([i as u8; 64]));
        }
        for _ in 0..64 {
            assert!(s.pop(&mut reg, &mut me).is_some());
        }
        hazard::scan_and_reclaim(&reg, &mut me);
        reclaimed += me.take_reclaimed().len();
        let _ = round;
    }
    hazard::flush_local(&reg, &mut me);
    reclaimed += me.take_reclaimed().len();
    assert_eq!(reclaimed, 64_000);
}

#[test]
fn hazard_retire_skips_protected_pointer() {
    let mut reg = HazardRegistry::new();
    let mut reader = HazardLocal::new();
    let mut me = HazardLocal::new();
    let fake_ptr = 0xDEAD_BEEFusize;
    let guard = HazardGuard::protect(&mut reg, &mut reader, Some(fake_ptr));
    hazard::retire(&reg, &mut me, 42);
    hazard::retire(&reg, &mut me, fake_ptr);
    hazard::scan_and_reclaim(&reg, &mut me);
    assert_eq!(me.take_reclaimed(), vec![42]);
    guard.release(&mut reg);
    hazard::flush_local(&reg, &mut me);
    assert_eq!(me.take_reclaimed(), vec![fake_ptr]);
}

#[test]
fn hazard_guard_can_move_to_another_pointer() {
    let mut reg = HazardRegistry::new();
    let mut reader = HazardLocal::new();
    let mut me = HazardLocal::new();
    let mut guard = HazardGuard::protect(&mut reg, &mut reader, Some(1));
    hazard::retire(&reg, &mut me, 1);
    hazard::retire(&reg, &mut me, 2);
    guard.set(&mut reg, Some(2));
    hazard::scan_and_reclaim(&reg, &mut me);
    assert_eq!(me.take_reclaimed(), vec![1]);
    guard.set(&mut reg, None);
    hazard::scan_and_reclaim(&reg, &mut me);
    assert_eq!(me.take_reclaimed(), vec![2]);
    guard.release(&mut reg);
}

#[test]
fn hazard_retire_scans_by_itself_when_the_bag_is_full() {
    let reg = HazardRegistry::new();
    let mut me = HazardLocal::new();
    for p in 0..SCAN_THRESHOLD - 1 {
        hazard::retire(&reg, &mut me, p);
    }
    assert!(me.take_reclaimed().is_empty());
    hazard::retire(&reg, &mut me, 999);
    assert_eq!(me.take_reclaimed().len(), SCAN_THRESHOLD);
    assert_eq!(MAX_HAZARD_THREADS, 128);
}

// ---------------------------------------------------------------------------
// Epochs
// ---------------------------------------------------------------------------

#[test]
fn epoch_stack_lifo_single_thread() {
    let mut reg = EpochRegistry::new();
    let mut me = EpochLocal::new();
    let mut s = EpochStack::<i32>::new();
    s.push(1);
    s.push(2);
    s.push(3);
    assert_eq!(s.pop(&mut reg, &mut me), Some(3));
    assert_eq!(s.pop(&mut reg, &mut me), Some(2));
    assert_eq!(s.pop(&mut reg, &mut me), Some(1));
    assert_eq!(s.pop(&mut reg, &mut me), None);
}

#[test]
fn epoch_stack_reclaim_after_advance() {
    let mut reg = EpochRegistry::new();
    let mut me = EpochLocal::new();
    let mut s = EpochStack::<u32>::new();
    let mut reclaimed = 0usize;
    for round in 0..500 {
        for i in 0..50 {
            s.push(round * 1000 + i);
        }
        for _ in 0..50 {
            assert!(s.pop(&mut reg, &mut me).is_some());
        }
        epoch::try_advance(&mut reg, &mut me);
        epoch::try_advance(&mut reg, &mut me);
        reclaimed += me.take_reclaimed().len();
    }
    epoch::flush_local(&mut reg, &mut me);
    reclaimed += me.take_reclaimed().len();
    assert_eq!(reclaimed, 25_000);
}

#[test]
fn epoch_gc_waits_for_unpin() {
    let mut reg = EpochRegistry::new();
    let mut me = EpochLocal::new();
    let mut destroyed = 0usize;
    let obj_ptr = 42usize;
    {
        let g = EpochGuard::new(&mut reg, &mut me);
        epoch::defer_destroy(&mut reg, &mut me, obj_ptr);
        epoch::try_advance(&mut reg, &mut me);
        epoch::try_advance(&mut reg, &mut me);
        destroyed += me.take_reclaimed().len();
        assert_eq!(destroyed, 0, "nothing is destroyed while pinned");
        g.release(&mut reg, &mut me);
    }
    epoch::try_advance(&mut reg, &mut me);
    destroyed += me.take_reclaimed().len();
    assert_eq!(destroyed, 1, "one advance after unpinning is enough");
}

#[test]
fn epoch_nested_pin() {
    let mut reg = EpochRegistry::new();
    let mut me = EpochLocal::new();
    {
        let g1 = EpochGuard::new(&mut reg, &mut me);
        {
            let g2 = EpochGuard::new(&mut reg, &mut me);
            g2.release(&mut reg, &mut me);
        }
        // Still pinned: the epoch moves at most once.
        epoch::try_advance(&mut reg, &mut me);
        let e = reg.epoch();
        epoch::try_advance(&mut reg, &mut me);
        assert_eq!(reg.epoch(), e);
        g1.release(&mut reg, &mut me);
    }
    let e = reg.epoch();
    epoch::try_advance(&mut reg, &mut me);
    assert_eq!(reg.epoch(), e + 1);
}

#[test]
fn epoch_defer_advances_by_itself_when_the_bag_is_full() {
    let mut reg = EpochRegistry::new();
    let mut me = EpochLocal::new();
    for p in 0..ADVANCE_THRESHOLD {
        epoch::pin(&mut reg, &mut me);
        epoch::defer_destroy(&mut reg, &mut me, p);
        epoch::unpin(&mut reg, &mut me);
    }
    assert!(reg.epoch() > 0);
    epoch::collect(&mut reg, &mut me);
    epoch::flush_local(&mut reg, &mut me);
    let mut all = me.take_reclaimed();
    all.sort();
    assert_eq!(all, (0..ADVANCE_THRESHOLD).collect::<Vec<usize>>());
    assert_eq!(UNPINNED, 0);
}

#[test]
fn epoch_collect_frees_what_another_thread_has_made_old() {
    let mut reg = EpochRegistry::new();
    let mut me = EpochLocal::new();
    let mut other = EpochLocal::new();
    epoch::defer_destroy(&mut reg, &mut me, 77);
    // Another thread moves the epoch on twice; this one has freed nothing.
    epoch::try_advance(&mut reg, &mut other);
    epoch::try_advance(&mut reg, &mut other);
    assert_eq!(reg.epoch(), 2);
    assert!(me.take_reclaimed().is_empty());
    epoch::collect(&mut reg, &mut me);
    assert_eq!(me.take_reclaimed(), vec![77]);
    epoch::collect(&mut reg, &mut me);
    assert!(me.take_reclaimed().is_empty());
}

#[test]
fn epoch_collect_keeps_what_is_too_young() {
    let mut reg = EpochRegistry::new();
    let mut me = EpochLocal::new();
    let mut other = EpochLocal::new();
    epoch::defer_destroy(&mut reg, &mut me, 1);
    epoch::try_advance(&mut reg, &mut other);
    epoch::try_advance(&mut reg, &mut other);
    epoch::defer_destroy(&mut reg, &mut me, 2);
    epoch::pin(&mut reg, &mut other);
    epoch::collect(&mut reg, &mut me);
    assert_eq!(me.take_reclaimed(), vec![1]);
    epoch::collect(&mut reg, &mut me);
    assert!(me.take_reclaimed().is_empty());
    epoch::unpin(&mut reg, &mut other);
    epoch::collect(&mut reg, &mut me);
    assert_eq!(me.take_reclaimed(), vec![2]);
}

// ---------------------------------------------------------------------------
// Rcu and the sequence lock
// ---------------------------------------------------------------------------

#[test]
fn rcu_read_and_update() {
    let mut rcu = Rcu::new(10i32);
    assert_eq!(*rcu.read(), 10);
    assert_eq!(*rcu.update(|v: &i32| *v + 5), 10);
    assert_eq!(*rcu.read(), 15);
    rcu.update(|_| 99);
    assert_eq!(*rcu.read(), 99);
}

#[test]
fn rcu_snapshot_outlives_an_update() {
    let mut rcu = Rcu::new(1u8);
    let snapshot = rcu.read();
    rcu.update(|v: &u8| *v + 1);
    assert_eq!(*snapshot, 1);
    assert_eq!(*rcu.read(), 2);
}

#[test]
fn seqlock_reads_what_was_written() {
    let mut l = SeqLock::new((1u64, 1u64));
    assert_eq!(l.read(), (1, 1));
    let mut g = l.write();
    assert_eq!(g.get(), (1, 1));
    g.set((2, 2));
    g.release();
    assert_eq!(l.read(), (2, 2));
}

#[test]
fn seqlock_read_starts_over_when_a_writer_was_there() {
    let mut op = SeqReadOp::start();
    assert_eq!(op.next_action(), Some(SeqAction::ReadCounter));
    op.on_event(SeqEvent::Counter(1));
    assert_eq!(op.next_action(), Some(SeqAction::ReadCounter));
    op.on_event(SeqEvent::Counter(2));
    assert_eq!(op.next_action(), Some(SeqAction::CopyData));
    op.on_event(SeqEvent::Copied);
    op.on_event(SeqEvent::Counter(4));
    assert_eq!(op.next_action(), Some(SeqAction::ReadCounter));
    op.on_event(SeqEvent::Counter(4));
    op.on_event(SeqEvent::Copied);
    op.on_event(SeqEvent::Counter(4));
    assert_eq!(op.next_action(), None);
}
