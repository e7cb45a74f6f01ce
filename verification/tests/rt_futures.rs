use forge::rt::combinators::{join, race, then, timeout, RaceOutput, Ready, TimeoutOutput};
use forge::rt::future::{Context, Future, Poll};
use forge::rt::{select, Delay, Reactor, SelectOutput};
use std::cell::Cell;
use std::sync::atomic::{AtomicBool, AtomicUsize, Ordering};
use std::sync::Arc;

/// A future that ends with a value once it is told to.
struct Manual<T: Clone> {
    ready: Arc<AtomicBool>,
    value: T,
    polled: Arc<AtomicUsize>,
    drops: Arc<AtomicUsize>,
}

impl<T: Clone> Future for Manual<T> {
    type Output = T;

    fn poll(&mut self, _cx: &mut Context) -> Poll<T> {
        self.polled.fetch_add(1, Ordering::Relaxed);
        if self.ready.load(Ordering::Acquire) {
            Poll::Ready(self.value.clone())
        } else {
            Poll::Pending
        }
    }

    fn leave(&mut self, _reactor: &mut Reactor) {}
}

impl<T: Clone> Drop for Manual<T> {
    fn drop(&mut self) {
        self.drops.fetch_add(1, Ordering::Relaxed);
    }
}

fn make_manual<T: Clone>(
    value: T,
) -> (Manual<T>, Arc<AtomicBool>, Arc<AtomicUsize>, Arc<AtomicUsize>) {
    let ready = Arc::new(AtomicBool::new(false));
    let polled = Arc::new(AtomicUsize::new(0));
    let drops = Arc::new(AtomicUsize::new(0));
    let m = Manual { ready: ready.clone(), value, polled: polled.clone(), drops: drops.clone() };
    (m, ready, polled, drops)
}

fn poll_once<F: Future>(f: &mut F) -> Poll<F::Output> {
    f.poll(&mut Context::new(0, 0))
}

// ---------------------------------------------------------------------------
// Race and join
// ---------------------------------------------------------------------------

#[test]
fn race_left_ready_first_wins() {
    let (a, ready_a, polled_a, _) = make_manual(10u32);
    let (b, _ready_b, polled_b, _) = make_manual(20u32);
    let mut race = race(a, b);
    assert!(poll_once(&mut race).is_pending());
    assert_eq!(polled_a.load(Ordering::Relaxed), 1);
    assert_eq!(polled_b.load(Ordering::Relaxed), 1);
    ready_a.store(true, Ordering::Release);
    match poll_once(&mut race) {
        Poll::Ready(RaceOutput::Left(v, _loser_b)) => {
            assert_eq!(v, 10);
        }
        _ => panic!("the left one should win"),
    }
}

#[test]
fn race_right_ready_first_wins() {
    let (a, _ready_a, _, _) = make_manual(100u32);
    let (b, ready_b, _, _) = make_manual(200u32);
    let mut race = race(a, b);
    assert!(poll_once(&mut race).is_pending());
    ready_b.store(true, Ordering::Release);
    match poll_once(&mut race) {
        Poll::Ready(RaceOutput::Right(v, _loser_a)) => assert_eq!(v, 200),
        _ => panic!("the right one should win"),
    }
    assert!(poll_once(&mut race).is_pending());
}

#[test]
fn join_returns_both_when_ready_in_opposite_order() {
    let (a, ready_a, polled_a, _) = make_manual("a".to_string());
    let (b, ready_b, polled_b, _) = make_manual("b".to_string());
    let mut j = join(a, b);
    assert!(poll_once(&mut j).is_pending());
    assert_eq!(polled_a.load(Ordering::Relaxed), 1);
    assert_eq!(polled_b.load(Ordering::Relaxed), 1);
    ready_b.store(true, Ordering::Release);
    assert!(poll_once(&mut j).is_pending());
    assert_eq!(polled_a.load(Ordering::Relaxed), 2);
    assert_eq!(polled_b.load(Ordering::Relaxed), 2);
    ready_a.store(true, Ordering::Release);
    match poll_once(&mut j) {
        Poll::Ready((va, vb)) => {
            assert_eq!(va, "a");
            assert_eq!(vb, "b");
        }
        Poll::Pending => panic!("both are ready"),
    }
    assert_eq!(polled_b.load(Ordering::Relaxed), 2);
    assert!(poll_once(&mut j).is_pending());
}

#[test]
fn join_with_immediate_futures_returns_immediately() {
    let a = Ready::new(1u32);
    let b = Ready::new(2u32);
    let mut j = join(a, b);
    match poll_once(&mut j) {
        Poll::Ready((x, y)) => {
            assert_eq!(x, 1);
            assert_eq!(y, 2);
        }
        Poll::Pending => panic!("both are ready at once"),
    }
}

#[test]
fn race_with_immediate_left_does_not_poll_right() {
    let a = Ready::new("instant".to_string());
    let (b, _ready_b, polled_b, _) = make_manual("never".to_string());
    let b_polled = polled_b.clone();
    let mut r = race(a, b);
    match poll_once(&mut r) {
        Poll::Ready(RaceOutput::Left(v, _)) => assert_eq!(v, "instant"),
        _ => panic!("the left one should win at once"),
    }
    assert_eq!(b_polled.load(Ordering::Relaxed), 0, "the right one is not polled");
}

// ---------------------------------------------------------------------------
// Chains and deadlines
// ---------------------------------------------------------------------------

#[test]
fn then_chains_first_then_second() {
    let first = Ready::new(3u32);
    let chained = then(first, |v: u32| Ready::new(v * 2));
    let mut f = chained;
    match poll_once(&mut f) {
        Poll::Ready(v) => assert_eq!(v, 6),
        Poll::Pending => match poll_once(&mut f) {
            Poll::Ready(v) => assert_eq!(v, 6),
            Poll::Pending => panic!("the chain should end with 6"),
        },
    }
}

#[test]
fn then_returns_after_first_completes_only() {
    let (first, ready, _, _) = make_manual(42u32);
    let mut f = then(first, |v: u32| Ready::new(v + 1));
    assert!(poll_once(&mut f).is_pending());
    ready.store(true, Ordering::Release);
    match poll_once(&mut f) {
        Poll::Ready(v) => assert_eq!(v, 43),
        Poll::Pending => match poll_once(&mut f) {
            Poll::Ready(v) => assert_eq!(v, 43),
            Poll::Pending => panic!("the chain should end"),
        },
    }
}

#[test]
fn timeout_returns_ok_when_inner_completes_in_time() {
    let inner = Ready::new("hello".to_string());
    let mut t = timeout(inner, 0, 200);
    match poll_once(&mut t) {
        Poll::Ready(TimeoutOutput::Completed(v)) => assert_eq!(v, "hello"),
        _ => panic!("it should end in time"),
    }
    assert!(poll_once(&mut t).is_pending());
}

#[test]
fn timeout_prefers_the_future_to_the_deadline() {
    let (inner, ready, _, _) = make_manual(1u8);
    let mut cx = Context::new(0, 9);
    let mut t = timeout(inner, 0, 50);
    assert!(t.poll(&mut cx).is_pending());
    assert_eq!(cx.reactor.next_deadline(), Some(50));
    ready.store(true, Ordering::Release);
    cx.now = 1000;
    assert!(matches!(t.poll(&mut cx), Poll::Ready(TimeoutOutput::Completed(1))));
    assert_eq!(cx.reactor.next_deadline(), None);
}

// ---------------------------------------------------------------------------
// Select
// ---------------------------------------------------------------------------

#[test]
fn select_returns_first_ready_and_drops_loser() {
    let (a, ready_a, _, _) = make_manual(1u32);
    let (b, _ready_b, polled_b, drops_b) = make_manual(2u32);
    let mut cx = Context::new(0, 0);
    let mut pair = (a, b);
    for round in 0..10 {
        if round == 5 {
            ready_a.store(true, Ordering::Release);
        }
        match select(pair.0, pair.1, &mut cx) {
            Ok(SelectOutput::Left(v, loser_b)) => {
                assert_eq!(v, 1);
                assert_eq!(round, 5);
                assert_eq!(polled_b.load(Ordering::Relaxed), 5);
                let b_drops_before = drops_b.load(Ordering::Relaxed);
                assert_eq!(b_drops_before, 0, "the loser is alive until it is dropped");
                drop(loser_b);
                assert_eq!(drops_b.load(Ordering::Relaxed), 1, "the loser is dropped");
                return;
            }
            Ok(SelectOutput::Right(_, _)) => panic!("the left one should win"),
            Err(rest) => pair = rest,
        }
    }
    panic!("nobody won");
}

#[test]
fn select_gives_the_right_one_when_only_it_is_ready() {
    let (a, _ready, polled_a, _) = make_manual(1u32);
    let mut cx = Context::new(0, 0);
    match select(a, Ready::new(7u8), &mut cx) {
        Ok(SelectOutput::Right(v, _)) => assert_eq!(v, 7),
        _ => panic!("the right one should win"),
    }
    assert_eq!(polled_a.load(Ordering::Relaxed), 1);
}

// ---------------------------------------------------------------------------
// Delays under a clock that the test moves
// ---------------------------------------------------------------------------

#[test]
fn faithful_order_a_ready_before_b() {
    let mut cx = Context::new(0, 0);
    let mut a = Delay::new(cx.now, 10);
    let mut b = Delay::new(cx.now, 20);
    assert!(a.poll(&mut cx).is_pending());
    assert!(b.poll(&mut cx).is_pending());
    cx.now += 10;
    assert_eq!(cx.now, 10);
    assert_eq!(a.poll(&mut cx), Poll::Ready(()));
    assert!(b.poll(&mut cx).is_pending());
    cx.now += 10;
    assert_eq!(cx.now, 20);
    assert_eq!(b.poll(&mut cx), Poll::Ready(()));
}

#[test]
fn out_of_order_both_ready_in_one_tick_poll_b_first() {
    let mut cx = Context::new(0, 0);
    let mut a = Delay::new(cx.now, 10);
    let mut b = Delay::new(cx.now, 20);
    assert!(a.poll(&mut cx).is_pending());
    assert!(b.poll(&mut cx).is_pending());
    cx.now += 20;
    assert_eq!(cx.now, 20);
    assert_eq!(b.poll(&mut cx), Poll::Ready(()));
    assert_eq!(a.poll(&mut cx), Poll::Ready(()));
}

/// A semaphore that takes before it polls, and gives back by reading and writing.
struct BuggySemaphore {
    count: Cell<u32>,
}

impl BuggySemaphore {
    fn new() -> Self {
        Self { count: Cell::new(1) }
    }

    fn count(&self) -> u32 {
        self.count.get()
    }

    fn try_acquire_with_future(&self, f: &mut Delay, cx: &mut Context) -> Poll<bool> {
        let got = self.acquire_once();
        match f.poll(cx) {
            Poll::Ready(()) => Poll::Ready(got),
            Poll::Pending => {
                if got {
                    let cur = self.count.get();
                    self.count.set(cur + 1);
                }
                Poll::Pending
            }
        }
    }

    fn acquire_once(&self) -> bool {
        let c = self.count.get();
        if c >= 1 {
            self.count.set(c - 1);
            true
        } else {
            false
        }
    }
}

#[test]
fn toctou_bug_demonstration() {
    let mut cx = Context::new(0, 0);
    let sem = BuggySemaphore::new();
    let mut a = Delay::new(cx.now, 10);
    for _ in 0..5 {
        let _ = sem.try_acquire_with_future(&mut a, &mut cx);
    }
    assert_eq!(sem.count(), 1, "on one thread the count is back at 1");
    cx.now += 10;
    match sem.try_acquire_with_future(&mut a, &mut cx) {
        Poll::Ready(true) => {}
        other => panic!("should be Ready(true) after the deadline, got {:?}", other.is_ready()),
    }
    assert_eq!(sem.count(), 0, "the count is 0 once it is taken");
}

#[test]
fn delay_invariant_under_random_poll_sequences() {
    for seed in 1..=100u64 {
        let mut cx = Context::new(0, 0);
        let mut delay = Delay::new(cx.now, 50);
        let mut state = seed;
        let mut steps = 0;
        loop {
            state = state.wrapping_mul(6364136223846793005).wrapping_add(1442695040888963407);
            let action = state % 2;
            match action {
                0 => {
                    let p = delay.poll(&mut cx);
                    if cx.now >= delay.deadline {
                        assert!(matches!(p, Poll::Ready(())), "seed {}: late", seed);
                        break;
                    } else {
                        assert!(matches!(p, Poll::Pending), "seed {}: early", seed);
                    }
                }
                _ => {
                    cx.now += 7;
                }
            }
            steps += 1;
            assert!(steps < 500, "seed {}: no end", seed);
        }
    }
}

#[test]
fn mr_delay_does_not_fire_before_deadline() {
    let mut cx = Context::new(0, 1);
    let mut delay = Delay::new(cx.now, 100);
    assert!(delay.poll(&mut cx).is_pending());
    assert_eq!(cx.reactor.next_deadline(), Some(100));
    let fired = cx.reactor.drain_expired(99).0.len();
    assert_eq!(fired, 0, "a timer for 100 is not due at 99");
    assert_eq!(cx.reactor.next_deadline(), Some(100));
    cx.now = 99;
    assert!(delay.poll(&mut cx).is_pending());
}

#[test]
fn mr_delay_fires_at_exact_deadline() {
    let mut cx = Context::new(0, 1);
    let mut delay = Delay::new(cx.now, 100);
    assert!(delay.poll(&mut cx).is_pending());
    let (fired, next) = cx.reactor.drain_expired(100);
    assert_eq!(next, None);
    assert_eq!(fired.len(), 1, "a timer for 100 is due at 100");
    assert_eq!(fired, vec![1]);
    assert_eq!(cx.reactor.next_deadline(), None, "no timer is left");
    cx.now = 100;
    assert_eq!(delay.poll(&mut cx), Poll::Ready(()));
}

#[test]
fn multiple_delays_same_tick_all_fire() {
    let mut cx = Context::new(0, 1);
    let mut a = Delay::new(cx.now, 50);
    let mut b = Delay::new(cx.now, 50);
    let mut c = Delay::new(cx.now, 50);
    assert!(a.poll(&mut cx).is_pending());
    cx.waker = 2;
    assert!(b.poll(&mut cx).is_pending());
    cx.waker = 3;
    assert!(c.poll(&mut cx).is_pending());
    let fired = cx.reactor.drain_expired(50).0;
    assert_eq!(fired.len(), 3);
    assert_eq!(fired, vec![1, 2, 3]);
    cx.now = 50;
    assert_eq!(a.poll(&mut cx), Poll::Ready(()));
    assert_eq!(b.poll(&mut cx), Poll::Ready(()));
    assert_eq!(c.poll(&mut cx), Poll::Ready(()));
}

#[test]
fn fire_only_triggers_due_deadlines() {
    let mut cx = Context::new(0, 1);
    let mut early = Delay::new(cx.now, 10);
    let mut mid = Delay::new(cx.now, 50);
    let mut late = Delay::new(cx.now, 100);
    assert!(early.poll(&mut cx).is_pending());
    assert!(mid.poll(&mut cx).is_pending());
    assert!(late.poll(&mut cx).is_pending());
    let (fired, next) = cx.reactor.drain_expired(50);
    assert_eq!(next, Some(100));
    let fired = fired.len();
    assert_eq!(fired, 2, "those for 10 and 50 are due at 50");
    assert_eq!(cx.reactor.next_deadline(), Some(100), "the late one is not due");
    cx.now = 50;
    assert_eq!(early.poll(&mut cx), Poll::Ready(()));
    assert_eq!(mid.poll(&mut cx), Poll::Ready(()));
    assert!(late.poll(&mut cx).is_pending(), "the late one waits");
    let fired = cx.reactor.drain_expired(100).0.len();
    assert_eq!(fired, 1);
    cx.now = 100;
    assert_eq!(late.poll(&mut cx), Poll::Ready(()));
}

struct CounterFuture {
    count: Arc<AtomicUsize>,
    own_polls: usize,
    target: usize,
    consumed: bool,
}

impl CounterFuture {
    fn new(count: Arc<AtomicUsize>, target: usize) -> Self {
        Self { count, own_polls: 0, target, consumed: false }
    }
}

impl Future for CounterFuture {
    type Output = usize;

    fn poll(&mut self, _cx: &mut Context) -> Poll<usize> {
        if self.consumed {
            return Poll::Ready(self.target);
        }
        self.own_polls += 1;
        self.count.fetch_add(1, Ordering::Relaxed);
        if self.own_polls >= self.target {
            self.consumed = true;
            Poll::Ready(self.own_polls)
        } else {
            Poll::Pending
        }
    }

    fn leave(&mut self, _reactor: &mut Reactor) {}
}

#[test]
fn counter_future_not_double_consumed_under_extra_polls() {
    let count = Arc::new(AtomicUsize::new(0));
    let mut f = CounterFuture::new(count.clone(), 5);
    for _ in 0..4 {
        assert!(poll_once(&mut f).is_pending());
    }
    assert_eq!(count.load(Ordering::Relaxed), 4);
    assert_eq!(poll_once(&mut f), Poll::Ready(5));
    assert_eq!(count.load(Ordering::Relaxed), 5);
    for _ in 0..3 {
        assert_eq!(poll_once(&mut f), Poll::Ready(5));
    }
    assert_eq!(count.load(Ordering::Relaxed), 5, "polls after the end count nothing");
}

#[test]
fn shared_counter_eventually_equals_ready_futures() {
    let count = Arc::new(AtomicUsize::new(0));
    let target = 3;
    let n_futures = 10;
    let mut futures: Vec<CounterFuture> =
        (0..n_futures).map(|_| CounterFuture::new(count.clone(), target)).collect();
    let max_rounds = target + 1;
    let mut all_consumed = false;
    for round in 0..max_rounds {
        all_consumed = true;
        for f in futures.iter_mut() {
            if !f.consumed {
                let _ = poll_once(f);
            }
            if !f.consumed {
                all_consumed = false;
            }
        }
        if all_consumed {
            break;
        }
        assert!(round < max_rounds - 1, "more than {} rounds", max_rounds);
    }
    assert!(all_consumed, "all have ended");
    assert_eq!(count.load(Ordering::Relaxed), target * n_futures);
}

// ---------------------------------------------------------------------------
// The table of timers
// ---------------------------------------------------------------------------

#[test]
fn reactor_serves_timers_in_order_and_once() {
    let mut r = Reactor::new();
    assert_eq!(r.poll_timeout(5), None);
    let a = r.register_timer(30, 3);
    let b = r.register_timer(10, 1);
    let c = r.register_timer(20, 2);
    assert_eq!((a.id, b.id, c.id), (1, 2, 3));
    assert_eq!(r.poll_timeout(4), Some(6));
    assert_eq!(r.poll_timeout(11), Some(0));
    r.unregister(c);
    let (woken, next) = r.drain_expired(30);
    assert_eq!(woken, vec![1, 3]);
    assert_eq!(next, None);
    assert!(r.drain_expired(30).0.is_empty());
    assert_eq!(r.next_deadline(), None);
    r.unregister(a);
    r.unregister(b);
}

#[test]
fn delay_that_is_polled_again_leaves_one_timer() {
    let mut cx = Context::new(0, 1);
    let mut d = Delay::new(0, 10);
    for w in 1..5 {
        cx.waker = w;
        assert!(d.poll(&mut cx).is_pending());
    }
    assert_eq!(cx.reactor.drain_expired(10).0, vec![4]);
    let mut e = Delay::new(0, 10);
    assert!(e.poll(&mut cx).is_pending());
    e.cancel(&mut cx.reactor);
    assert!(cx.reactor.drain_expired(10).0.is_empty());
}

#[test]
fn delay_that_has_ended_keeps_its_timer_until_it_is_given_up() {
    let mut cx = Context::new(0, 1);
    let mut d = Delay::new(0, 10);
    assert!(d.poll(&mut cx).is_pending());
    cx.now = 10;
    assert_eq!(d.poll(&mut cx), Poll::Ready(()));
    assert!(d.registration.is_some());
    assert_eq!(cx.reactor.next_deadline(), Some(10));
    d.leave(&mut cx.reactor);
    assert_eq!(cx.reactor.next_deadline(), None);
}

#[test]
fn combinators_give_up_what_has_ended() {
    let mut cx = Context::new(0, 1);
    let mut r = race(Delay::new(0, 10), Delay::new(0, 20));
    assert!(r.poll(&mut cx).is_pending());
    cx.now = 10;
    match r.poll(&mut cx) {
        Poll::Ready(RaceOutput::Left((), mut rest)) => {
            assert_eq!(cx.reactor.next_deadline(), Some(20));
            rest.leave(&mut cx.reactor);
            assert_eq!(cx.reactor.next_deadline(), None);
        }
        _ => panic!("the earlier delay wins"),
    }

    let mut cx = Context::new(0, 1);
    let mut j = join(Delay::new(0, 10), Delay::new(0, 20));
    assert!(j.poll(&mut cx).is_pending());
    cx.now = 10;
    assert!(j.poll(&mut cx).is_pending());
    assert_eq!(cx.reactor.next_deadline(), Some(20));
    j.leave(&mut cx.reactor);
    assert_eq!(cx.reactor.next_deadline(), None);

    let mut cx = Context::new(0, 1);
    let mut t = timeout(Delay::new(0, 30), 0, 10);
    assert!(t.poll(&mut cx).is_pending());
    cx.now = 10;
    match t.poll(&mut cx) {
        Poll::Ready(TimeoutOutput::Elapsed(mut inner)) => {
            assert_eq!(cx.reactor.next_deadline(), Some(30));
            inner.leave(&mut cx.reactor);
            assert_eq!(cx.reactor.next_deadline(), None);
        }
        _ => panic!("the deadline comes first"),
    }
}
