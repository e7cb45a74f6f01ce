use forge::pool::oneshot::{self, Inner, OneshotAction, RecvOp, RecvPc, SendOp};
use forge::pool::task::{run_and_send, JoinAction, JoinEvent, JoinOp};
use forge::pool::v1_shared_queue::Choice;
use forge::pool::v3_stealing::is_on_worker;
use forge::pool::{JoinHandle, SharedQueuePool, StealingPool, Task};
use forge::sched::{LocalQueue, Scheduler, WorkerOp, WorkerPc};
use forge::word::{WordAction, WordEvent};
use std::cell::{Cell, RefCell};
use std::rc::Rc;

type Job = Box<dyn FnOnce()>;

type Shared<T> = Rc<RefCell<Inner<T>>>;

type Pool = Rc<RefCell<StealingPool<Job>>>;

fn job<T: 'static>(f: impl FnOnce() -> T + 'static) -> (Job, JoinHandle<T>, Shared<T>) {
    let (sender, receiver, inner) = oneshot::channel();
    let inner = Rc::new(RefCell::new(inner));
    let there = inner.clone();
    let job: Job = Box::new(move || {
        let v = f();
        assert!(run_and_send(move || v, sender, &mut there.borrow_mut()).is_ok());
    });
    (job, JoinHandle { receiver }, inner)
}

fn run_all_shared(pool: &mut SharedQueuePool<Job>) {
    while let Choice::Run(t) = pool.next_task() {
        Task(t).run();
    }
}

fn spawn<T: 'static>(
    pool: &Pool,
    on_worker: Option<usize>,
    f: impl FnOnce() -> T + 'static,
) -> (JoinHandle<T>, Shared<T>) {
    let (task, handle, inner) = job(f);
    pool.borrow_mut().spawn(task, on_worker);
    (handle, inner)
}

fn run_one(pool: &Pool, worker: usize) -> bool {
    let found = pool.borrow_mut().find_work(worker);
    match found {
        Some(t) => {
            t();
            true
        }
        None => false,
    }
}

/// Waits for a result. A worker helps; from outside, the workers are run until it is there.
fn recv<T>(pool: &Pool, worker: Option<usize>, handle: JoinHandle<T>, inner: &Shared<T>) -> T {
    let mut op = JoinOp::start(is_on_worker(worker));
    let mut got = None;
    let mut idle = 0;
    while let Some(action) = op.next_action() {
        match action {
            JoinAction::TryRecv => {
                got = handle.try_recv(&mut inner.borrow_mut());
                op.on_event(JoinEvent::Got(got.is_some()));
            }
            JoinAction::RunPending => {
                let ran = run_one(pool, worker.unwrap());
                op.on_event(JoinEvent::Ran(ran));
            }
            JoinAction::Yield => {
                idle += 1;
                assert!(idle < 1000, "deadlock");
                op.on_event(JoinEvent::Done);
            }
            JoinAction::Block => {
                let n = pool.borrow().n_workers();
                let mut w = 0;
                while run_one(pool, w) {
                    w = (w + 1) % n;
                }
                op.on_event(JoinEvent::Done);
            }
        }
    }
    match got {
        Some(v) => v,
        None => handle.recv(&mut inner.borrow_mut()),
    }
}

// ---------------------------------------------------------------------------
// Channel
// ---------------------------------------------------------------------------

#[test]
fn oneshot_send_then_recv_returns_value() {
    let (s, r, mut inner) = oneshot::channel();
    s.send(&mut inner, 42).unwrap();
    assert_eq!(r.recv(&mut inner), 42);
}

#[test]
fn oneshot_try_recv_returns_none_before_send() {
    let (_s, r, mut inner) = oneshot::channel::<u32>();
    assert!(r.try_recv(&mut inner).is_none());
}

#[test]
fn oneshot_try_recv_returns_some_after_send() {
    let (s, r, mut inner) = oneshot::channel();
    s.send(&mut inner, "hello").unwrap();
    assert_eq!(r.try_recv(&mut inner), Some("hello"));
    assert_eq!(r.try_recv(&mut inner), None);
}

#[test]
fn oneshot_send_to_nobody_hands_the_message_back() {
    let (s, r, mut inner) = oneshot::channel();
    assert_eq!(r.leave(&mut inner), None);
    assert_eq!(s.send(&mut inner, 5), Err(5));
}

#[test]
fn oneshot_message_that_nobody_took_is_handed_out_at_the_end() {
    let (s, r, mut inner) = oneshot::channel();
    s.send(&mut inner, 5).unwrap();
    assert_eq!(r.leave(&mut inner), Some(5));
}

#[test]
fn oneshot_receiver_learns_that_the_sender_is_gone() {
    let (s, r, mut inner) = oneshot::channel::<u32>();
    s.hang_up(&mut inner);
    assert_eq!(r.try_recv(&mut inner), None);
    let mut op = RecvOp::start();
    op.on_event(WordEvent::Value(oneshot::CLOSED));
    op.on_event(WordEvent::Value(oneshot::CLOSED));
    assert_eq!(op.pc, RecvPc::Closed);
}

#[test]
fn oneshot_sleeping_receiver_is_woken_by_the_send() {
    let mut recv = RecvOp::start();
    recv.on_event(WordEvent::Value(oneshot::EMPTY));
    recv.on_event(WordEvent::Value(oneshot::EMPTY));
    assert_eq!(recv.next_action(), Some(OneshotAction::Word(WordAction::Wait(oneshot::EMPTY))));
    let mut send = SendOp::start();
    send.on_event(WordEvent::Done);
    send.on_event(WordEvent::Exchanged(oneshot::EMPTY));
    assert_eq!(send.next_action(), Some(OneshotAction::Word(WordAction::WakeOne)));
    recv.on_event(WordEvent::Done);
    recv.on_event(WordEvent::Value(oneshot::SENT));
    recv.on_event(WordEvent::Exchanged(oneshot::SENT));
    assert_eq!(recv.next_action(), Some(OneshotAction::Read));
    recv.on_event(WordEvent::Done);
    assert_eq!(recv.pc, RecvPc::Received);
}

// ---------------------------------------------------------------------------
// The pool with one queue
// ---------------------------------------------------------------------------

#[test]
fn v1_pool_runs_a_task_and_returns_value() {
    let mut pool = SharedQueuePool::new(4);
    let (task, h, inner) = job(|| 1 + 2);
    pool.spawn(task);
    run_all_shared(&mut pool);
    assert_eq!(h.recv(&mut inner.borrow_mut()), 3);
}

#[test]
fn v1_pool_runs_many_tasks() {
    let mut pool = SharedQueuePool::new(4);
    let handles: Vec<_> = (0..100)
        .map(|i| {
            let (task, h, inner) = job(move || i * i);
            pool.spawn(task);
            (h, inner)
        })
        .collect();
    run_all_shared(&mut pool);
    let sum: i64 =
        handles.into_iter().map(|(h, inner)| h.recv(&mut inner.borrow_mut()) as i64).sum();
    let expected: i64 = (0..100).map(|i| (i * i) as i64).sum();
    assert_eq!(sum, expected);
}

#[test]
fn v1_pool_drop_waits_for_workers() {
    let counter = Rc::new(Cell::new(0));
    let mut pool = SharedQueuePool::<Job>::new(4);
    assert_eq!(pool.n_workers(), 4);
    for _ in 0..50 {
        let c = counter.clone();
        pool.spawn(Box::new(move || c.set(c.get() + 1)));
    }
    pool.shut_down();
    run_all_shared(&mut pool);
    assert!(matches!(pool.next_task(), Choice::Exit));
    assert_eq!(counter.get(), 50);
}

#[test]
fn v1_worker_waits_when_there_is_nothing_to_do() {
    let mut pool = SharedQueuePool::<u8>::new(1);
    assert!(matches!(pool.next_task(), Choice::Wait));
    pool.spawn(1);
    pool.spawn(2);
    assert!(matches!(pool.next_task(), Choice::Run(1)));
    assert!(matches!(pool.next_task(), Choice::Run(2)));
}

// ---------------------------------------------------------------------------
// The work-stealing pool
// ---------------------------------------------------------------------------

#[test]
fn v3_pool_runs_a_task_and_returns_value() {
    let pool: Pool = Rc::new(RefCell::new(StealingPool::new(4)));
    let (h, inner) = spawn(&pool, None, || 10 * 10);
    assert_eq!(recv(&pool, None, h, &inner), 100);
}

#[test]
fn v3_pool_runs_many_tasks_from_external_thread() {
    let pool: Pool = Rc::new(RefCell::new(StealingPool::new(4)));
    let n = 500;
    let handles: Vec<_> = (0..n).map(|i| spawn(&pool, None, move || i * 2)).collect();
    assert_eq!(pool.borrow().n_pending(), 500);
    let sum: i64 = handles.into_iter().map(|(h, inner)| recv(&pool, None, h, &inner) as i64).sum();
    let expected: i64 = (0..n).map(|i| (i * 2) as i64).sum();
    assert_eq!(sum, expected);
    assert_eq!(pool.borrow().n_pending(), 0);
}

#[test]
fn v3_pool_drop_waits_for_workers() {
    let counter = Rc::new(Cell::new(0));
    let mut pool = StealingPool::<Job>::new(4);
    for _ in 0..50 {
        let c = counter.clone();
        pool.spawn(Box::new(move || c.set(c.get() + 1)), None);
    }
    pool.shut_down();
    let mut ops = [WorkerOp::start(); 4];
    for _ in 0..1000 {
        for w in 0..4 {
            if let Some(t) = pool.worker_step(w, &mut ops[w]) {
                t();
            }
        }
    }
    assert!(ops.iter().all(|op| op.pc == WorkerPc::Exit));
    assert_eq!(counter.get(), 50);
}

#[test]
fn v3_nested_spawn_one_level_does_not_deadlock() {
    let pool: Pool = Rc::new(RefCell::new(StealingPool::new(1)));
    let pool_clone = pool.clone();
    let (h, out) = spawn(&pool, None, move || {
        let (inner_h, inner) = spawn(&pool_clone, Some(0), || 99);
        recv(&pool_clone, Some(0), inner_h, &inner) + 1
    });
    let result = Some(recv(&pool, None, h, &out));
    assert_eq!(result, Some(100), "a nested spawn must not deadlock");
}

#[test]
fn v3_nested_spawn_three_levels_do_not_deadlock() {
    let pool: Pool = Rc::new(RefCell::new(StealingPool::new(2)));
    let pool_clone = pool.clone();
    let (h, out) = spawn(&pool, None, move || {
        let p1 = pool_clone.clone();
        let (h1, o1) = spawn(&pool_clone, Some(0), move || {
            let p2 = p1.clone();
            let (h2, o2) = spawn(&p1, Some(0), move || {
                let (h3, o3) = spawn(&p2, Some(0), || 1);
                recv(&p2, Some(0), h3, &o3) + 1
            });
            recv(&p1, Some(0), h2, &o2) + 1
        });
        recv(&pool_clone, Some(0), h1, &o1) + 1
    });
    let result = Some(recv(&pool, None, h, &out));
    assert_eq!(result, Some(4));
}

#[test]
fn v3_many_nested_spawns_under_load() {
    let pool: Pool = Rc::new(RefCell::new(StealingPool::new(4)));
    let mut handles = Vec::new();
    for i in 0..40 {
        let p = pool.clone();
        handles.push(spawn(&pool, None, move || {
            let mut sub = Vec::new();
            for j in 0..3 {
                sub.push(spawn(&p, Some((i as usize) % 4), move || i * 100 + j));
            }
            sub.into_iter()
                .map(|(h, o)| recv(&p, Some((i as usize) % 4), h, &o))
                .collect::<Vec<i32>>()
        }));
    }
    let all: Vec<Vec<i32>> =
        handles.into_iter().map(|(h, o)| recv(&pool, None, h, &o)).collect();
    assert_eq!(all.len(), 40);
    for (i, v) in all.into_iter().enumerate() {
        assert_eq!(v, vec![(i * 100) as i32, (i * 100 + 1) as i32, (i * 100 + 2) as i32]);
    }
}

#[test]
fn green_recv_helps() {
    let pool: Pool = Rc::new(RefCell::new(StealingPool::new(1)));
    let (h, out) = spawn(&pool, Some(0), || 42u64);
    let v = Some(recv(&pool, Some(0), h, &out));
    assert_eq!(v, Some(42), "who waits on a worker runs the task that it waits for");
}

#[test]
fn v3_worker_takes_its_own_newest_task_first_and_steals_the_oldest() {
    let mut pool = StealingPool::<u32>::new(2);
    pool.spawn(1, Some(0));
    pool.spawn(2, Some(0));
    pool.spawn(10, None);
    pool.spawn(11, None);
    assert_eq!(pool.find_work(0), Some(2));
    assert_eq!(pool.find_work(1), Some(11));
    assert_eq!(pool.find_work(1), Some(10));
    assert_eq!(pool.find_work(1), Some(1));
    assert_eq!(pool.find_work(0), None);
}

#[test]
fn v3_runs_one_pending_task_only_on_a_worker() {
    let ran = Rc::new(Cell::new(false));
    let r = ran.clone();
    let mut pool = StealingPool::<Job>::new(1);
    pool.spawn(Box::new(move || r.set(true)), None);
    assert!(!pool.run_one_pending_task(None));
    assert!(!ran.get());
    assert!(pool.run_one_pending_task(Some(0)));
    assert!(ran.get());
    assert!(!pool.run_one_pending_task(Some(0)));
    assert!(is_on_worker(Some(3)) && !is_on_worker(None));
}

#[test]
fn v3_worker_that_finds_nothing_rests_until_there_is_something() {
    let mut pool = StealingPool::<u32>::new(1);
    let mut op = WorkerOp::start();
    assert_eq!(pool.worker_step(0, &mut op), None);
    assert_eq!(pool.worker_step(0, &mut op), None);
    assert_eq!(op.pc, WorkerPc::Rest);
    assert_eq!(pool.worker_step(0, &mut op), None);
    assert_eq!(op.pc, WorkerPc::Rest);
    pool.spawn(7, None);
    assert_eq!(pool.worker_step(0, &mut op), None);
    assert_eq!(op.pc, WorkerPc::Find);
    assert_eq!(pool.worker_step(0, &mut op), Some(7));
}

#[test]
fn scheduler_hands_tasks_from_outside_to_one_worker_after_the_other() {
    let mut s = Scheduler::<u32>::new(3);
    assert_eq!(s.n_workers(), 3);
    for t in 0..6 {
        s.schedule(t, None);
    }
    assert_eq!(s.n_pending(), 6);
    assert_eq!(s.find_work(1), Some(1));
    assert_eq!(s.find_work(1), Some(4));
    assert_eq!(s.find_work(1), Some(2));
    assert_eq!(s.find_work(0), Some(0));
    let mut q = LocalQueue::new();
    q.push(1);
    q.push(2);
    q.push(3);
    assert_eq!(q.steal(), Some(1));
    assert_eq!(q.pop(), Some(3));
    assert_eq!(q.pop(), Some(2));
    assert_eq!(q.pop(), None);
    assert_eq!(q.steal(), None);
}
