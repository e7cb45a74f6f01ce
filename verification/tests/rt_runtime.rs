use forge::rt::combinators::{then, timeout, Ready, Then, TimeoutOutput};
use forge::rt::executor::{BlockOn, BlockOnAction, BlockOnEvent, BlockOnOp, ReadyQueue};
use forge::rt::future::{Context, Future, Poll};
use forge::rt::task::{PollOp, PollPc, Task, TaskEvent, WakeOp, WakePc, IDLE, QUEUED, RUNNING};
use forge::rt::{block_on, Delay, Reactor, Runtime};
use forge::sched::{WorkerOp, WorkerPc};
use forge::word::WordEvent;
use std::sync::atomic::{AtomicBool, AtomicUsize, Ordering};
use std::sync::Arc;

/// Runs a future to its end. When it has to wait, the clock moves to the next deadline.
fn run_to_end<F: Future>(future: F, cx: &mut Context) -> F::Output {
    let mut r = block_on(future, cx);
    loop {
        match r {
            Ok(v) => return v,
            Err(rest) => {
                let mut b: BlockOn<F> = rest;
                let next = cx.reactor.next_deadline().expect("nothing to wait for");
                cx.now = next;
                for w in cx.reactor.drain_expired(next).0 {
                    assert_eq!(w, cx.waker);
                    b.wake();
                }
                r = b.run(cx);
            }
        }
    }
}

// ---------------------------------------------------------------------------
// One thread
// ---------------------------------------------------------------------------

#[test]
fn delay_completes_under_block_on() {
    let mut cx = Context::new(0, 1);
    let result = run_to_end(Ready::new(42u32), &mut cx);
    assert_eq!(result, 42);
    assert!(cx.now < 100);
}

#[test]
fn delay_actually_waits_for_reactor() {
    let mut cx = Context::new(0, 1);
    let result = run_to_end(then(Delay::new(0, 80), |_| Ready::new("done")), &mut cx);
    assert_eq!(result, "done");
    let elapsed = cx.now;
    assert!(elapsed >= 70, "the delay did not wait: {:?}", elapsed);
    assert!(elapsed < 500, "the delay took too long: {:?}", elapsed);
}

#[test]
fn block_on_handles_multiple_inner_spawns_via_state_machine() {
    let mut cx = Context::new(0, 1);
    let flag = Arc::new(AtomicBool::new(false));
    let f2 = flag.clone();
    let out = run_to_end(
        then(Delay::new(0, 30), move |_| {
            f2.store(true, Ordering::SeqCst);
            then(Delay::new(30, 30), |_| Ready::new("two_delays"))
        }),
        &mut cx,
    );
    assert_eq!(out, "two_delays");
    assert!(flag.load(Ordering::SeqCst), "the first delay ends before the second");
    assert_eq!(cx.now, 60);
}

#[test]
fn many_concurrent_delays_under_block_on() {
    let mut cx = Context::new(0, 1);
    let out = run_to_end(
        then(Delay::new(0, 40), |_| then(Delay::new(40, 40), |_| Ready::new("two"))),
        &mut cx,
    );
    assert_eq!(out, "two");
    let elapsed = cx.now;
    assert!(elapsed >= 70, "should wait about 80, got {:?}", elapsed);
}

#[test]
fn timeout_returns_elapsed_when_deadline_hits_first() {
    let mut cx = Context::new(0, 1);
    let inner = Delay::new(0, 150);
    let result = run_to_end(timeout(inner, 0, 50), &mut cx);
    let elapsed = cx.now;
    match result {
        TimeoutOutput::Elapsed(_) => {
            assert!(elapsed >= 40, "too early: {:?}", elapsed);
            assert!(elapsed < 300, "too late: {:?}", elapsed);
        }
        TimeoutOutput::Completed(_) => panic!("it should not end within 50"),
    }
}

#[test]
fn block_on_does_not_sleep_on_a_wake_up_that_came_before() {
    let mut op = BlockOnOp::start();
    let mut ready = ReadyQueue::new();
    ready.schedule(0);
    let mut polls = 0;
    let mut slept = 0;
    for _ in 0..12 {
        match op.next_action() {
            Some(BlockOnAction::Pop) => op.on_event(BlockOnEvent::Popped(ready.pop())),
            Some(BlockOnAction::Poll(t)) => {
                assert_eq!(t, 0);
                polls += 1;
                if polls == 1 {
                    ready.schedule(0);
                }
                op.on_event(BlockOnEvent::Polled);
            }
            Some(BlockOnAction::TryRecv) => op.on_event(BlockOnEvent::Received(false)),
            Some(BlockOnAction::Wait) => {
                if ready.try_wait() {
                    op.on_event(BlockOnEvent::Woken);
                } else {
                    slept += 1;
                    break;
                }
            }
            None => break,
        }
    }
    assert_eq!(polls, 2);
    assert!(slept <= 1);
}

// ---------------------------------------------------------------------------
// Tasks
// ---------------------------------------------------------------------------

#[test]
fn task_is_scheduled_once_however_often_it_is_woken() {
    let mut cx = Context::new(0, 1);
    let mut t = Task::spawn(Delay::new(0, 10));
    assert!(!t.wake());
    assert_eq!(t.poll(&mut cx), (None, false));
    assert!(t.wake());
    assert!(!t.wake());
    cx.now = 10;
    assert_eq!(t.poll(&mut cx), (Some(()), false));
    assert!(t.wake());
    assert_eq!(t.poll(&mut cx), (None, false));
}

#[test]
fn task_that_is_woken_while_it_is_polled_is_queued_again() {
    let mut poll = PollOp::start();
    poll.on_event(TaskEvent::Word(WordEvent::Exchanged(QUEUED)));
    poll.on_event(TaskEvent::Taken(true));
    let mut wake = WakeOp::start();
    wake.on_event(TaskEvent::Word(WordEvent::Value(RUNNING)));
    assert_eq!(wake.pc, WakePc::Done);
    poll.on_event(TaskEvent::Ended(false));
    poll.on_event(TaskEvent::Done);
    assert_eq!(poll.pc, PollPc::Rest);
    poll.on_event(TaskEvent::Word(WordEvent::NotExchanged(QUEUED)));
    assert_eq!(poll.pc, PollPc::Schedule);
    poll.on_event(TaskEvent::Done);
    assert_eq!(poll.next_action(), None);
    let mut first = WakeOp::start();
    first.on_event(TaskEvent::Word(WordEvent::Value(IDLE)));
    assert_eq!(first.pc, WakePc::Schedule);
}

// ---------------------------------------------------------------------------
// Many workers
// ---------------------------------------------------------------------------

#[derive(Debug, PartialEq)]
enum Out {
    Number(u64),
    Text(String),
}

#[test]
fn runtime_spawns_and_returns_results() {
    let mut rt = Runtime::new(4, Reactor::new());
    let h1 = rt.spawn(Ready::new(Out::Number(1 + 1)), None);
    let h2 = rt.spawn(Ready::new(Out::Text("hello".to_string())), None);
    let v: u64 = 100;
    let h3 = rt.spawn(Ready::new(Out::Number(v * 2)), None);
    let mut w = 0;
    while rt.run_one(w, 0) {
        w = (w + 1) % 4;
    }
    assert_eq!(h1.recv(&mut rt), Out::Number(2));
    assert_eq!(h2.recv(&mut rt), Out::Text("hello".to_string()));
    assert_eq!(h3.recv(&mut rt), Out::Number(200));
}

fn counted(c: Arc<AtomicUsize>, i: u32) -> Then<Ready<()>, Ready<u32>, impl FnOnce(()) -> Ready<u32>> {
    then(Ready::new(()), move |_| {
        c.fetch_add(1, Ordering::Relaxed);
        Ready::new(i)
    })
}

#[test]
fn runtime_runs_many_tasks_across_workers() {
    let mut rt = Runtime::new(4, Reactor::new());
    let counter = Arc::new(AtomicUsize::new(0));
    let mut handles = Vec::new();
    for i in 0..1000u32 {
        handles.push(rt.spawn(counted(counter.clone(), i), None));
    }
    assert_eq!(rt.n_pending(), 1000);
    let mut w = 0;
    while rt.run_one(w, 0) {
        w = (w + 1) % 4;
    }
    let mut sum: u64 = 0;
    for h in handles {
        sum += h.recv(&mut rt) as u64;
    }
    assert_eq!(counter.load(Ordering::Relaxed), 1000);
    assert_eq!(sum, (0..1000u64).sum::<u64>());
}

#[test]
fn runtime_block_on_returns_value() {
    let mut rt: Runtime<Ready<u32>> = Runtime::new(2, Reactor::new());
    match rt.block_on(Ready::new(7u32), 0, u64::MAX, None) {
        Ok(v) => assert_eq!(v, 7),
        Err(_) => panic!("it ends at once"),
    }
}

#[test]
fn runtime_block_on_waits_for_its_own_waker() {
    let mut rt: Runtime<Delay> = Runtime::new(1, Reactor::new());
    let h = rt.spawn(Delay::new(0, 5), None);
    assert!(rt.run_one(0, 0));
    let mut b = match rt.block_on(Delay::new(0, 5), 0, u64::MAX, None) {
        Ok(_) => panic!("it has to wait"),
        Err(b) => b,
    };
    assert_eq!(rt.fire(5), vec![u64::MAX]);
    b.wake();
    assert!(rt.resume(b, 5, u64::MAX, None).is_ok());
    assert!(rt.run_one(0, 5));
    assert_eq!(h.recv(&mut rt), ());
}

fn counted_delay(
    c: Arc<AtomicUsize>,
) -> Then<Delay, Ready<()>, impl FnOnce(()) -> Ready<()>> {
    then(Delay::new(0, 60), move |_| {
        c.fetch_add(1, Ordering::Relaxed);
        Ready::new(())
    })
}

#[test]
fn runtime_drives_many_concurrent_delays_via_workstealing() {
    let mut rt = Runtime::new(4, Reactor::new());
    let counter = Arc::new(AtomicUsize::new(0));
    let mut handles = Vec::new();
    for _ in 0..8 {
        handles.push(rt.spawn(counted_delay(counter.clone()), None));
    }
    let mut now = 0;
    let mut w = 0;
    loop {
        while rt.run_one(w, now) {
            w = (w + 1) % 4;
        }
        match rt.next_deadline() {
            Some(d) => {
                now = d;
                assert!(rt.fire(now).is_empty());
            }
            None => break,
        }
    }
    for h in handles {
        h.recv(&mut rt);
    }
    let elapsed = now;
    assert_eq!(counter.load(Ordering::Relaxed), 8);
    assert!(elapsed < 400, "they should wait together, got {:?}", elapsed);
    assert_eq!(elapsed, 60);
}

#[test]
fn runtime_lives_as_long_as_a_handle() {
    let mut rt = Runtime::new(1, Reactor::new());
    let h = rt.spawn(Ready::new(1u8), None);
    rt.share();
    rt.release();
    rt.release();
    let mut op = WorkerOp::start();
    assert!(rt.worker_step(0, &mut op, 0));
    assert!(!rt.worker_step(0, &mut op, 0));
    assert!(!rt.worker_step(0, &mut op, 0));
    assert!(!rt.worker_step(0, &mut op, 0));
    assert_eq!(op.pc, WorkerPc::Rest);
    assert_eq!(h.poll(&mut rt), Poll::Ready(1));
    assert_eq!(h.poll(&mut rt), Poll::Pending);
    rt.release();
    while op.pc != WorkerPc::Exit {
        rt.worker_step(0, &mut op, 0);
    }
}

/// A future that wakes itself up `left` times before it ends.
struct Again {
    left: u32,
    polls: u32,
}

impl Future for Again {
    type Output = u32;

    fn poll(&mut self, cx: &mut Context) -> Poll<u32> {
        self.polls += 1;
        if self.left == 0 {
            return Poll::Ready(self.polls);
        }
        self.left -= 1;
        cx.wake_by_ref();
        Poll::Pending
    }

    fn leave(&mut self, _reactor: &mut Reactor) {}
}

#[test]
fn block_on_polls_a_future_that_wakes_itself_up_again() {
    let mut cx = Context::new(0, 1);
    assert!(matches!(block_on(Again { left: 1, polls: 0 }, &mut cx), Ok(2)));
    assert!(matches!(block_on(Again { left: 99, polls: 0 }, &mut cx), Ok(100)));
}

#[test]
fn task_that_wakes_itself_up_stays_queued() {
    let mut cx = Context::new(0, 1);
    let mut t = Task::spawn(Again { left: 1, polls: 0 });
    assert_eq!(t.poll(&mut cx), (None, true));
    assert!(!t.wake());
    assert_eq!(t.poll(&mut cx), (Some(2), false));
}

#[test]
fn runtime_polls_a_task_that_wakes_itself_up_again() {
    let mut rt: Runtime<Again> = Runtime::new(2, Reactor::new());
    let h = rt.spawn(Again { left: 3, polls: 0 }, None);
    for _ in 0..3 {
        assert!(rt.run_one(1, 0));
        assert_eq!(rt.n_pending(), 1);
    }
    assert!(rt.run_one(1, 0));
    assert_eq!(rt.n_pending(), 0);
    assert_eq!(h.recv(&mut rt), 4);
}

#[test]
fn a_worker_that_blocks_helps_with_other_tasks() {
    let mut rt: Runtime<Ready<u32>> = Runtime::new(2, Reactor::new());
    let h = rt.spawn(Ready::new(5), None);
    let b = match rt.block_on(Delay::new(0, 9), 0, u64::MAX, Some(1)) {
        Ok(_) => panic!("the moment has not come"),
        Err(b) => b,
    };
    assert_eq!(rt.n_pending(), 0);
    assert_eq!(h.recv(&mut rt), 5);
    let mut b = match rt.resume(b, 3, u64::MAX, Some(1)) {
        Ok(_) => panic!("the moment has not come"),
        Err(b) => b,
    };
    b.wake();
    assert!(rt.resume(b, 9, u64::MAX, Some(1)).is_ok());
}

#[test]
fn due_tasks_go_to_one_worker_after_the_other() {
    let mut rt: Runtime<Delay> = Runtime::new(2, Reactor::new());
    for _ in 0..3 {
        let _ = rt.spawn(Delay::new(0, 4), None);
    }
    while rt.run_one(0, 0) {}
    assert_eq!(rt.n_pending(), 0);
    assert!(rt.fire(3).is_empty());
    assert_eq!(rt.n_pending(), 0);
    assert!(rt.fire(4).is_empty());
    assert_eq!(rt.n_pending(), 3);
}
