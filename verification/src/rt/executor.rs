//! Running tasks: on one thread until one of them has ended, or on many workers.

use std::collections::VecDeque;

use vstd::prelude::*;

use crate::pool::oneshot;
use crate::pool::oneshot::Inner;
use crate::pool::oneshot::OneshotState;
use crate::pool::oneshot::Receiver;
use crate::pool::oneshot::Sender;
use crate::rt::future;
use crate::rt::future::Context;
use crate::rt::future::ContextView;
use crate::rt::future::Delay;
use crate::rt::future::Future;
use crate::rt::future::Poll;
use crate::rt::future::Ready;
use crate::rt::task::Task;
use crate::rt::task::TaskState;

verus! {

/// A task, and the channel on which it hands over what its future ends with.
pub struct Job<F: Future> {
    task: Task<F>,
    sender: Option<Sender<F::Output>>,
    out: Inner<F::Output>,
}

impl<F: Future> Job<F> {
    /// The sender is there as long as the future is, and has not sent.
    pub closed spec fn wf(self) -> bool {
        &&& self.task.wf()
        &&& self.out.wf()
        &&& self.sender is Some <==> self.task.inner() is Some
        &&& self.sender is Some ==> !(self.out@ is Sent)
        &&& self.task.inner() matches Some(f) ==> f.pollable()
    }

    /// What the task is up to.
    pub closed spec fn task_state(self) -> TaskState {
        self.task.task_state()
    }

    /// The future, until it has ended.
    pub closed spec fn future(self) -> Option<F> {
        self.task.inner()
    }

    /// What the channel holds.
    pub closed spec fn output(self) -> OneshotState<F::Output> {
        self.out@
    }

    /// A task that is to be polled, and the receiving end of its channel.
    pub fn new(future: F) -> (r: (Job<F>, Receiver<F::Output>))
        requires
            future.pollable(),
        ensures
            r.0.wf(),
            r.0.task_state() is Queued,
            r.0.future() == Some(future),
            r.0.output() is Empty,
    {
        let (sender, receiver, out) = oneshot::channel();
        (Job { task: Task::spawn(future), sender: Some(sender), out }, receiver)
    }

    /// Wakes the task up. Tells whether the caller has to put it into a queue.
    pub fn wake(&mut self) -> (schedule: bool)
        requires
            old(self).wf(),
        ensures
            final(self).wf(),
            final(self).task_state() is Queued,
            final(self).future() == old(self).future(),
            final(self).output() == old(self).output(),
            schedule == (old(self).task_state() is Idle),
    {
        self.task.wake()
    }

    /// What a poll makes of the job.
    pub open spec fn polled(before: Self, c0: ContextView, after: Self, c1: ContextView) -> bool {
        if before.task_state() is Queued && before.future() is Some {
            exists|f1: F, p: Poll<F::Output>| #[trigger]
                future::steps(before.future()->0, c0.fresh(), f1, c1, p) && match p {
                    Poll::Ready(v) => {
                        &&& after.task_state() is Idle
                        &&& after.future() is None
                        &&& after.output() == (if before.output() is Closed {
                            before.output()
                        } else {
                            OneshotState::Sent(v)
                        })
                    },
                    Poll::Pending => {
                        &&& after.task_state() is Queued <==> c1.woken
                        &&& after.future() == Some(f1)
                        &&& after.output() == before.output()
                    },
                }
        } else {
            &&& after.task_state() is Idle
            &&& after.future() == before.future()
            &&& after.output() == before.output()
            &&& c1 == c0
        }
    }

    /// Polls the task. What its future ends with goes into the channel, unless the receiver has
    /// left. Tells whether the task was woken up meanwhile and the caller has to put it into a
    /// queue again.
    pub fn poll(&mut self, cx: &mut Context) -> (schedule: bool)
        requires
            old(self).wf(),
            old(cx).wf(),
        ensures
            final(self).wf(),
            final(cx).wf(),
            Self::polled(*old(self), old(cx)@, *final(self), final(cx)@),
            schedule == (final(self).task_state() is Queued),
    {
        let (r, schedule) = self.task.poll(cx);
        if let Some(v) = r {
            if let Some(sender) = self.sender.take() {
                let _ = sender.send(&mut self.out, v);
            }
        }
        schedule
    }

    /// What the future ended with, if it has and nobody has taken it.
    pub fn try_recv(&mut self, receiver: &Receiver<F::Output>) -> (r: Option<F::Output>)
        requires
            old(self).wf(),
        ensures
            final(self).wf(),
            final(self).task_state() == old(self).task_state(),
            final(self).future() == old(self).future(),
            r == (match old(self).output() {
                OneshotState::Sent(v) => Some(v),
                _ => None,
            }),
            final(self).output() == (match old(self).output() {
                OneshotState::Sent(_) => OneshotState::Closed,
                s => s,
            }),
    {
        receiver.try_recv(&mut self.out)
    }

    /// Ends the receiving end of the channel.
    pub fn leave(&mut self, receiver: Receiver<F::Output>) -> (r: Option<F::Output>)
        requires
            old(self).wf(),
        ensures
            final(self).wf(),
            final(self).task_state() == old(self).task_state(),
            final(self).future() == old(self).future(),
            final(self).output() is Closed,
            r == (match old(self).output() {
                OneshotState::Sent(v) => Some(v),
                _ => None,
            }),
    {
        receiver.leave(&mut self.out)
    }
}

/// The tasks that are to be polled, by their numbers, and how often somebody put one there since
/// the thread that polls them last waited.
pub struct ReadyQueue {
    pub queue: VecDeque<usize>,
    pub woken: usize,
}

impl ReadyQueue {
    /// A queue without tasks.
    pub fn new() -> (q: ReadyQueue)
        ensures
            q.queue@ == Seq::<usize>::empty(),
            q.woken == 0,
    {
        ReadyQueue { queue: VecDeque::new(), woken: 0 }
    }

    /// Puts a task behind all others. The thread that polls them is to be told.
    pub fn schedule(&mut self, task: usize)
        requires
            old(self).woken < usize::MAX,
        ensures
            final(self).queue@ == old(self).queue@.push(task),
            final(self).woken == old(self).woken + 1,
    {
        self.queue.push_back(task);
        self.woken = self.woken + 1;
    }

    /// Takes the first task out.
    pub fn pop(&mut self) -> (t: Option<usize>)
        ensures
            final(self).woken == old(self).woken,
            match t {
                Some(x) => old(self).queue@.len() > 0 && x == old(self).queue@[0]
                    && final(self).queue@ == old(self).queue@.drop_first(),
                None => old(self).queue@.len() == 0 && final(self).queue@ == old(self).queue@,
            },
    {
        let t = self.queue.pop_front();
        assert(t is Some ==> self.queue@ =~= old(self).queue@.drop_first());
        t
    }

    /// Whether the thread need not wait. If so, that is noted.
    pub fn try_wait(&mut self) -> (go_on: bool)
        ensures
            go_on == (old(self).woken > 0),
            final(self).queue@ == old(self).queue@,
            final(self).woken == (if old(self).woken > 0 {
                (old(self).woken - 1) as usize
            } else {
                0
            }),
    {
        if self.woken > 0 {
            self.woken = self.woken - 1;
            true
        } else {
            false
        }
    }
}

/// What a thread that runs a future to its end wants done.
#[derive(Clone, Copy, Debug, PartialEq, Eq, Structural)]
pub enum BlockOnAction {
    /// Take a task out of the queue.
    Pop,
    /// Poll that task.
    Poll(usize),
    /// Look whether the future has ended.
    TryRecv,
    /// Sleep until a task was put into the queue, and take that off the count.
    Wait,
}

/// What came back.
#[derive(Clone, Copy, Debug, PartialEq, Eq, Structural)]
pub enum BlockOnEvent {
    /// A task, or none.
    Popped(Option<usize>),
    /// The task was polled.
    Polled,
    /// Whether the future has ended.
    Received(bool),
    /// The thread was woken up.
    Woken,
}

/// Where the thread stands.
#[derive(Clone, Copy, Debug, PartialEq, Eq, Structural)]
pub enum BlockOnPc {
    Pop,
    Poll(usize),
    TryRecv,
    Wait,
    Done,
}

/// One run of a future to its end.
#[derive(Clone, Copy, Debug, PartialEq, Eq, Structural)]
pub struct BlockOnOp {
    pub pc: BlockOnPc,
}

impl BlockOnOp {
    /// What an unfinished run wants done next.
    pub open spec fn action(self) -> BlockOnAction {
        match self.pc {
            BlockOnPc::Poll(t) => BlockOnAction::Poll(t),
            BlockOnPc::TryRecv => BlockOnAction::TryRecv,
            BlockOnPc::Wait => BlockOnAction::Wait,
            _ => BlockOnAction::Pop,
        }
    }

    /// Where a run stands after an answer. An answer of the wrong kind changes nothing.
    pub open spec fn after(self, e: BlockOnEvent) -> BlockOnOp {
        let pc = match (self.pc, e) {
            (BlockOnPc::Pop, BlockOnEvent::Popped(Some(t))) => BlockOnPc::Poll(t),
            (BlockOnPc::Pop, BlockOnEvent::Popped(None)) => BlockOnPc::TryRecv,
            (BlockOnPc::Poll(_), BlockOnEvent::Polled) => BlockOnPc::Pop,
            (BlockOnPc::TryRecv, BlockOnEvent::Received(got)) => if got {
                BlockOnPc::Done
            } else {
                BlockOnPc::Wait
            },
            (BlockOnPc::Wait, BlockOnEvent::Woken) => BlockOnPc::Pop,
            (pc, _) => pc,
        };
        BlockOnOp { pc }
    }

    /// A run that has done nothing yet.
    pub fn start() -> (op: BlockOnOp)
        ensures
            op == (BlockOnOp { pc: BlockOnPc::Pop }),
    {
        BlockOnOp { pc: BlockOnPc::Pop }
    }

    /// What to do next, or `None` when the future has ended.
    pub fn next_action(&self) -> (a: Option<BlockOnAction>)
        ensures
            a == (if self.pc is Done { None } else { Some(self.action()) }),
    {
        match self.pc {
            BlockOnPc::Pop => Some(BlockOnAction::Pop),
            BlockOnPc::Poll(t) => Some(BlockOnAction::Poll(t)),
            BlockOnPc::TryRecv => Some(BlockOnAction::TryRecv),
            BlockOnPc::Wait => Some(BlockOnAction::Wait),
            BlockOnPc::Done => None,
        }
    }

    /// Takes the answer to what was done.
    pub fn on_event(&mut self, e: BlockOnEvent)
        ensures
            *final(self) == old(self).after(e),
    {
        let pc = match (self.pc, e) {
            (BlockOnPc::Pop, BlockOnEvent::Popped(Some(t))) => BlockOnPc::Poll(t),
            (BlockOnPc::Pop, BlockOnEvent::Popped(None)) => BlockOnPc::TryRecv,
            (BlockOnPc::Poll(_), BlockOnEvent::Polled) => BlockOnPc::Pop,
            (BlockOnPc::TryRecv, BlockOnEvent::Received(got)) => {
                if got {
                    BlockOnPc::Done
                } else {
                    BlockOnPc::Wait
                }
            },
            (BlockOnPc::Wait, BlockOnEvent::Woken) => BlockOnPc::Pop,
            (pc, _) => pc,
        };
        self.pc = pc;
    }
}

/// A future that is run to its end on one thread.
pub struct BlockOn<F: Future> {
    job: Job<F>,
    receiver: Receiver<F::Output>,
    ready: ReadyQueue,
}

impl<F: Future> BlockOn<F> {
    /// The future has not ended, and its task is in the queue exactly if it is to be polled.
    pub closed spec fn wf(self) -> bool {
        &&& self.job.wf()
        &&& self.job.future() is Some
        &&& self.job.output() is Empty
        &&& self.ready.queue@ == (if self.job.task_state() is Queued {
            seq![0usize]
        } else {
            Seq::empty()
        })
    }

    /// The future.
    pub closed spec fn future(self) -> F {
        self.job.future()->0
    }

    /// Whether the future was woken up since it was last polled.
    pub closed spec fn is_woken(self) -> bool {
        self.job.task_state() is Queued
    }

    /// How often somebody put the task into the queue since the thread last waited.
    pub closed spec fn wakes(self) -> usize {
        self.ready.woken
    }

    /// A future that is yet to be polled.
    pub fn new(future: F) -> (b: BlockOn<F>)
        requires
            future.pollable(),
        ensures
            b.wf(),
            b.future() == future,
            b.is_woken(),
            b.wakes() == 1,
    {
        let (job, receiver) = Job::new(future);
        let mut ready = ReadyQueue::new();
        ready.schedule(0);
        assert(ready.queue@ =~= seq![0usize]);
        BlockOn { job, receiver, ready }
    }

    /// Wakes the task up.
    pub fn wake(&mut self)
        requires
            old(self).wf(),
            old(self).wakes() < usize::MAX,
        ensures
            final(self).wf(),
            final(self).future() == old(self).future(),
            final(self).is_woken(),
            final(self).wakes() == (if old(self).is_woken() {
                old(self).wakes()
            } else {
                (old(self).wakes() + 1) as usize
            }),
    {
        if self.job.wake() {
            self.ready.schedule(0);
            assert(self.ready.queue@ =~= seq![0usize]);
        }
    }

    /// Runs until the future has ended, or until the thread has to sleep. A future that wakes
    /// itself up is polled again at once, as long as its wake-ups can be counted.
    pub fn run(self, cx: &mut Context) -> (r: Result<F::Output, BlockOn<F>>)
        requires
            self.wf(),
            old(cx).wf(),
        ensures
            final(cx).wf(),
            r matches Err(b) ==> b.wf() && b.wakes() == (if b.is_woken() {
                usize::MAX
            } else {
                0
            }),
            if self.is_woken() {
                run_ends(self.future(), self.wakes(), old(cx)@, final(cx)@, r)
            } else {
                (r matches Err(b) && !b.is_woken() && b.future() == self.future()) && final(cx)@
                    == old(cx)@
            },
    {
        let mut me = self;
        let mut op = BlockOnOp::start();
        let ghost c0 = cx@;
        let ghost mut n: nat = 0;
        loop
            invariant
                me.job.wf(),
                cx.wf(),
                c0 == old(cx)@,
                match op.pc {
                    BlockOnPc::Pop | BlockOnPc::TryRecv | BlockOnPc::Wait => me.ready.queue@ == (
                    if me.job.task_state() is Queued {
                        seq![0usize]
                    } else {
                        Seq::empty()
                    }),
                    BlockOnPc::Poll(t) => me.ready.queue@ == Seq::<usize>::empty()
                        && me.job.task_state() is Queued,
                    BlockOnPc::Done => false,
                },
                op.pc is TryRecv || op.pc is Wait ==> me.job.task_state() is Idle,
                op.pc is Wait ==> me.job.output() is Empty,
                me.job.task_state() is Queued ==> {
                    &&& self.is_woken()
                    &&& me.ready.woken == self.wakes() + n
                    &&& me.job.future() is Some
                    &&& me.job.output() is Empty
                    &&& if n == 0 {
                        me.job.future() == Some(self.future()) && cx@ == c0
                    } else {
                        cx@.woken && runs(
                            self.future(),
                            c0,
                            (n - 1) as nat,
                            me.job.future()->0,
                            cx@,
                            Poll::Pending,
                        )
                    }
                },
                me.job.task_state() is Idle ==> if self.is_woken() {
                    exists|f1: F, p: Poll<F::Output>| #[trigger]
                        runs(self.future(), c0, (n - 1) as nat, f1, cx@, p) && n > 0 && match p {
                            Poll::Ready(v) => me.job.output() == OneshotState::Sent(v),
                            Poll::Pending => me.job.output() is Empty && me.job.future() == Some(
                                f1,
                            ) && !cx@.woken,
                        }
                } else {
                    me.job.future() == Some(self.future()) && me.job.output() is Empty && cx@ == c0
                },
            decreases
                    (if me.job.task_state() is Queued {
                        1int
                    } else {
                        0
                    }),
                    (if me.job.task_state() is Queued {
                        usize::MAX - me.ready.woken
                    } else {
                        me.ready.woken as int
                    }),
                    (match op.pc {
                        BlockOnPc::Pop => 3int,
                        BlockOnPc::Poll(_) => 2,
                        BlockOnPc::TryRecv => 1,
                        _ => 0,
                    }),
        {
            match op.pc {
                BlockOnPc::Pop => {
                    let t = me.ready.pop();
                    op.on_event(BlockOnEvent::Popped(t));
                    assert(t is Some ==> me.ready.queue@ =~= Seq::empty());
                },
                BlockOnPc::Poll(_) => {
                    let ghost before = me.job;
                    let ghost cm = cx@;
                    let schedule = me.job.poll(cx);
                    op.on_event(BlockOnEvent::Polled);
                    proof {
                        let (f1, p) = choose|f1: F, p: Poll<F::Output>| #[trigger]
                            future::steps(before.future()->0, cm.fresh(), f1, cx@, p) && match p {
                                Poll::Ready(v) => me.job.output() == OneshotState::Sent(v)
                                    && me.job.task_state() is Idle,
                                Poll::Pending => me.job.future() == Some(f1)
                                    && me.job.output() is Empty && (me.job.task_state() is Queued
                                    <==> cx@.woken),
                            };
                        lemma_one_more(self.future(), c0, n, before.future()->0, cm, f1, cx@, p);
                        n = n + 1;
                        assert(runs(self.future(), c0, (n - 1) as nat, f1, cx@, p));
                    }
                    if schedule {
                        if me.ready.woken == usize::MAX {
                            me.ready.queue.push_back(0);
                            assert(me.ready.queue@ =~= seq![0usize]);
                            proof {
                                assert(runs(
                                    self.future(),
                                    c0,
                                    (n - 1) as nat,
                                    me.future(),
                                    cx@,
                                    Poll::Pending,
                                ));
                            }
                            return Err(me);
                        }
                        me.ready.schedule(0);
                        assert(me.ready.queue@ =~= seq![0usize]);
                    }
                },
                BlockOnPc::TryRecv => {
                    let ghost out = me.job.output();
                    let got = me.job.try_recv(&me.receiver);
                    op.on_event(BlockOnEvent::Received(got.is_some()));
                    if let Some(v) = got {
                        proof {
                            assert(self.is_woken());
                            let (f1, p) = choose|f1: F, p: Poll<F::Output>| #[trigger]
                                runs(self.future(), c0, (n - 1) as nat, f1, cx@, p) && match p {
                                    Poll::Ready(v) => out == OneshotState::Sent(v),
                                    Poll::Pending => out is Empty,
                                };
                            assert(p == Poll::Ready(v));
                        }
                        return Ok(v);
                    }
                },
                _ => {
                    if !me.ready.try_wait() {
                        proof {
                            if self.is_woken() {
                                let (f1, p) = choose|f1: F, p: Poll<F::Output>| #[trigger]
                                    runs(self.future(), c0, (n - 1) as nat, f1, cx@, p)
                                        && match p {
                                        Poll::Ready(v) => me.job.output() == OneshotState::Sent(v),
                                        Poll::Pending => me.job.output() is Empty
                                            && me.job.future() == Some(f1) && !cx@.woken,
                                    };
                                assert(p is Pending);
                                assert(runs(
                                    self.future(),
                                    c0,
                                    (n - 1) as nat,
                                    me.future(),
                                    cx@,
                                    Poll::Pending,
                                ));
                            }
                        }
                        return Err(me);
                    }
                    op.on_event(BlockOnEvent::Woken);
                },
            }
        }
    }
}

/// Whether polling a future `n + 1` times may leave `f1` and `c1` and have the outcome `r` in the
/// end, where the future waits but wakes itself up in every poll before the last.
pub open spec fn runs<F: Future>(
    f: F,
    c0: ContextView,
    n: nat,
    f1: F,
    c1: ContextView,
    r: Poll<F::Output>,
) -> bool
    decreases n,
{
    if n == 0 {
        future::steps(f, c0.fresh(), f1, c1, r)
    } else {
        exists|g: F, cm: ContextView|
            runs(f, c0, (n - 1) as nat, g, cm, Poll::Pending) && cm.woken && #[trigger]
            future::steps(g, cm.fresh(), f1, c1, r)
    }
}

/// Whether running a future, of which `wakes` wake-ups are counted already, may have the outcome
/// `r`: what the future ends with, or the rest of a future that waits and has not woken itself up,
/// unless it has done so as often as can be counted.
pub open spec fn run_ends<F: Future>(
    f: F,
    wakes: usize,
    c0: ContextView,
    c1: ContextView,
    r: Result<F::Output, BlockOn<F>>,
) -> bool {
    match r {
        Ok(v) => exists|n: nat, f1: F, p: Poll<F::Output>| #[trigger]
            runs(f, c0, n, f1, c1, p) && p == Poll::Ready(v),
        Err(b) => exists|n: nat| #[trigger]
            runs(f, c0, n, b.future(), c1, Poll::Pending) && b.is_woken() == c1.woken && (
            b.is_woken() ==> n == usize::MAX - wakes),
    }
}

/// One poll more.
proof fn lemma_one_more<F: Future>(
    f: F,
    c0: ContextView,
    n: nat,
    g: F,
    cm: ContextView,
    f1: F,
    c1: ContextView,
    r: Poll<F::Output>,
)
    requires
        if n == 0 {
            g == f && cm == c0
        } else {
            cm.woken && runs(f, c0, (n - 1) as nat, g, cm, Poll::Pending)
        },
        future::steps(g, cm.fresh(), f1, c1, r),
    ensures
        runs(f, c0, n, f1, c1, r),
{
}

/// Runs a future on this thread until it has ended, or until the thread has to sleep. A future that
/// wakes itself up is polled again. If the thread has to sleep, what is left to do is handed back:
/// it goes on, by `run`, when it was woken up.
pub fn block_on<F: Future>(future: F, cx: &mut Context) -> (r: Result<F::Output, BlockOn<F>>)
    requires
        future.pollable(),
        old(cx).wf(),
    ensures
        final(cx).wf(),
        r matches Err(b) ==> b.wf() && b.wakes() == (if b.is_woken() {
            usize::MAX
        } else {
            0
        }),
        run_ends(future, 1, old(cx)@, final(cx)@, r),
{
    BlockOn::new(future).run(cx)
}

/// The queue of a thread that runs a future to its end, and those who put tasks into it.
pub struct BlockOnSystem {
    pub queue: Seq<usize>,
    pub count: nat,
    /// How many have put a task into the queue and are about to raise the count.
    pub counting: nat,
    pub op: BlockOnOp,
}

/// What can happen.
pub enum BlockOnStep {
    /// Somebody puts a task into the queue.
    Push { task: usize },
    /// Somebody raises the count and tells the thread.
    Count,
    /// The thread does what it wants done next. Whether the future has ended is up to the future.
    Thread { ended: bool },
}

impl BlockOnSystem {
    /// The count is behind the queue only by those who are about to raise it, and by the task that
    /// the thread is about to take out.
    pub open spec fn inv(self) -> bool {
        self.queue.len() <= self.count + self.counting + (if self.op.pc is Pop {
            1int
        } else {
            0
        })
    }

    /// Whether the thread sleeps.
    pub open spec fn asleep(self) -> bool {
        self.op.pc is Wait && self.count == 0
    }

    /// Whether a step can happen.
    pub open spec fn can(self, step: BlockOnStep) -> bool {
        match step {
            BlockOnStep::Push { .. } => true,
            BlockOnStep::Count => self.counting > 0,
            BlockOnStep::Thread { .. } => !(self.op.pc is Done) && !self.asleep(),
        }
    }

    /// The system after a step.
    pub open spec fn next(self, step: BlockOnStep) -> BlockOnSystem {
        match step {
            BlockOnStep::Push { task } => BlockOnSystem {
                queue: self.queue.push(task),
                counting: self.counting + 1,
                ..self
            },
            BlockOnStep::Count => BlockOnSystem {
                count: self.count + 1,
                counting: (self.counting - 1) as nat,
                ..self
            },
            BlockOnStep::Thread { ended } => match self.op.action() {
                BlockOnAction::Pop => if self.queue.len() > 0 {
                    BlockOnSystem {
                        queue: self.queue.drop_first(),
                        op: self.op.after(BlockOnEvent::Popped(Some(self.queue[0]))),
                        ..self
                    }
                } else {
                    BlockOnSystem { op: self.op.after(BlockOnEvent::Popped(None)), ..self }
                },
                BlockOnAction::Poll(_) => BlockOnSystem {
                    op: self.op.after(BlockOnEvent::Polled),
                    ..self
                },
                BlockOnAction::TryRecv => BlockOnSystem {
                    op: self.op.after(BlockOnEvent::Received(ended)),
                    ..self
                },
                BlockOnAction::Wait => BlockOnSystem {
                    count: (self.count - 1) as nat,
                    op: self.op.after(BlockOnEvent::Woken),
                    ..self
                },
            },
        }
    }
}

/// At the start the task of the future is in the queue.
pub proof fn law_block_on_start()
    ensures
        (BlockOnSystem {
            queue: seq![0usize],
            count: 1,
            counting: 0,
            op: BlockOnOp { pc: BlockOnPc::Pop },
        }).inv(),
{
}

/// Every step keeps the invariant.
pub proof fn law_block_on_step(s: BlockOnSystem, step: BlockOnStep)
    requires
        s.inv(),
        s.can(step),
    ensures
        s.next(step).inv(),
{
}

/// No wake-up is lost: while the thread sleeps no task waits in the queue, but for those whose
/// wakers are about to tell it.
pub proof fn law_block_on_no_lost_wakeup(s: BlockOnSystem)
    requires
        s.inv(),
        s.asleep(),
    ensures
        s.queue.len() <= s.counting,
        s.counting == 0 ==> s.queue.len() == 0,
        s.counting > 0 ==> !s.next(BlockOnStep::Count).asleep(),
{
}

/// Polling a job polls its future once, with the wake-ups of before forgotten. If the future ends,
/// what it ended with is sent, unless nobody listens any more, and the job is done with; if not, the
/// job is queued again exactly if somebody woke it up during the poll. A job that is not queued, or
/// is done with, is left alone.
pub proof fn law_job_polls_its_future<F: Future>(
    before: Job<F>,
    c0: ContextView,
    after: Job<F>,
    c1: ContextView,
)
    requires
        Job::polled(before, c0, after, c1),
    ensures
        before.task_state() is Queued && before.future() is Some ==> exists|
            c: ContextView,
            g: F,
            ck: ContextView,
            p: Poll<F::Output>,
        |
            {
                &&& c == (ContextView { woken: false, ..c0 })
                &&& #[trigger] F::polled(before.future()->0, c, g, ck, p)
                &&& p matches Poll::Ready(v) ==> {
                    &&& after.task_state() is Idle
                    &&& after.future() is None
                    &&& before.output() is Closed ==> after.output() is Closed
                    &&& !(before.output() is Closed) ==> after.output() == OneshotState::Sent(v)
                    &&& c1 == (ContextView { reactor: g.left(ck.reactor), ..ck })
                }
                &&& p is Pending ==> {
                    &&& after.task_state() is Queued <==> ck.woken
                    &&& after.future() == Some(g)
                    &&& after.output() == before.output()
                    &&& c1 == ck
                }
            },
        before.task_state() is Idle || before.future() is None ==> after.future()
            == before.future() && after.output() == before.output() && c1 == c0
            && after.task_state() is Idle,
{
    if before.task_state() is Queued && before.future() is Some {
        let f = before.future()->0;
        let (f1, p) = choose|f1: F, p: Poll<F::Output>| #[trigger]
            future::steps(f, c0.fresh(), f1, c1, p) && match p {
                Poll::Ready(v) => {
                    &&& after.task_state() is Idle
                    &&& after.future() is None
                    &&& after.output() == (if before.output() is Closed {
                        before.output()
                    } else {
                        OneshotState::Sent(v)
                    })
                },
                Poll::Pending => {
                    &&& after.task_state() is Queued <==> c1.woken
                    &&& after.future() == Some(f1)
                    &&& after.output() == before.output()
                },
            };
        future::law_step_polls(f, c0.fresh(), f1, c1, p);
        if p is Ready {
            let (g, ck) = choose|g: F, ck: ContextView| #[trigger]
                F::polled(f, c0.fresh(), g, ck, p) && c1 == (ContextView {
                    reactor: g.left(ck.reactor),
                    ..ck
                });
            assert(F::polled(f, c0.fresh(), g, ck, p));
        } else {
            assert(F::polled(f, c0.fresh(), f1, c1, p));
        }
    }
}

/// A job that waits for a moment ends when it is polled at that moment or later, and not before.
pub proof fn law_job_of_a_delay(
    before: Job<Delay>,
    c0: ContextView,
    after: Job<Delay>,
    c1: ContextView,
)
    requires
        Job::polled(before, c0, after, c1),
        before.task_state() is Queued,
        before.future() is Some,
        !(before.output() is Closed),
    ensures
        c0.now >= before.future()->0.deadline ==> after.output() == OneshotState::Sent(())
            && after.future() is None,
        c0.now < before.future()->0.deadline ==> after.output() == before.output()
            && after.future() is Some && after.task_state() is Idle,
{
    law_job_polls_its_future(before, c0, after, c1);
}

/// The last poll of a run of polls, each of which but the last one ended with a wake-up.
proof fn lemma_last_poll<F: Future>(
    f: F,
    c0: ContextView,
    n: nat,
    f1: F,
    c1: ContextView,
    r: Poll<F::Output>,
) -> (w: (F, ContextView, F, ContextView))
    requires
        runs(f, c0, n, f1, c1, r),
    ensures
        F::polled(w.0, w.1, w.2, w.3, r),
        !w.1.woken,
        n == 0 ==> w.0 == f && w.1 == (ContextView { woken: false, ..c0 }),
        r is Pending ==> f1 == w.2 && c1 == w.3,
        r is Ready ==> c1 == (ContextView { reactor: w.2.left(w.3.reactor), ..w.3 }),
{
    let (g, cm) = if n == 0 {
        (f, c0)
    } else {
        choose|g: F, cm: ContextView|
            runs(f, c0, (n - 1) as nat, g, cm, Poll::Pending) && cm.woken && #[trigger]
            future::steps(g, cm.fresh(), f1, c1, r)
    };
    future::law_step_polls(g, cm.fresh(), f1, c1, r);
    match r {
        Poll::Pending => (g, cm.fresh(), f1, c1),
        Poll::Ready(_) => {
            let (h, ck) = choose|h: F, ck: ContextView| #[trigger]
                F::polled(g, cm.fresh(), h, ck, r) && c1 == (ContextView {
                    reactor: h.left(ck.reactor),
                    ..ck
                });
            (g, cm.fresh(), h, ck)
        },
    }
}

/// Blocking on a future ends with what the future ended with in the last poll, and gives it back
/// unfinished only if the last poll was pending and nobody woke it up during that poll, or it has
/// been woken up as often as can be counted.
pub proof fn law_block_on_gives_what_the_future_gives<F: Future>(
    f: F,
    wakes: usize,
    c0: ContextView,
    c1: ContextView,
    r: Result<F::Output, BlockOn<F>>,
)
    requires
        run_ends(f, wakes, c0, c1, r),
    ensures
        r matches Ok(v) ==> exists|
            g: F,
            cb: ContextView,
            h: F,
            ck: ContextView,
            p: Poll<F::Output>,
        | #[trigger]
            F::polled(g, cb, h, ck, p) && p == Poll::Ready(v) && !cb.woken && c1 == (ContextView {
                reactor: h.left(ck.reactor),
                ..ck
            }),
        r matches Err(b) ==> b.is_woken() == c1.woken && exists|
            g: F,
            cb: ContextView,
            p: Poll<F::Output>,
        | #[trigger]
            F::polled(g, cb, b.future(), c1, p) && p is Pending && !cb.woken,
{
    match r {
        Ok(v) => {
            let (n, f1, p) = choose|n: nat, f1: F, p: Poll<F::Output>| #[trigger]
                runs(f, c0, n, f1, c1, p) && p == Poll::Ready(v);
            let w = lemma_last_poll(f, c0, n, f1, c1, p);
            assert(F::polled(w.0, w.1, w.2, w.3, p));
        },
        Err(b) => {
            let n = choose|n: nat| #[trigger]
                runs(f, c0, n, b.future(), c1, Poll::Pending) && b.is_woken() == c1.woken && (
                b.is_woken() ==> n == usize::MAX - wakes);
            let w = lemma_last_poll(f, c0, n, b.future(), c1, Poll::Pending);
            assert(F::polled(w.0, w.1, b.future(), c1, Poll::Pending));
        },
    }
}

/// Blocking on a delay ends at once if the moment has come, and otherwise gives the delay back, with
/// its timer in the table: it is polled once.
pub proof fn law_block_on_a_delay(
    d: Delay,
    wakes: usize,
    c0: ContextView,
    c1: ContextView,
    r: Result<(), BlockOn<Delay>>,
)
    requires
        run_ends(d, wakes, c0, c1, r),
    ensures
        r is Ok <==> c0.now >= d.deadline,
        r matches Err(b) ==> {
            &&& !b.is_woken()
            &&& b.future().deadline == d.deadline
            &&& b.future().registration matches Some(reg) && c1.reactor.slots.contains_key(reg.id)
                && c1.reactor.slots[reg.id].deadline == d.deadline && c1.reactor.slots[reg.id].waker
                == Some(c0.waker)
        },
{
    match r {
        Ok(v) => {
            let (n, f1, p) = choose|n: nat, f1: Delay, p: Poll<()>| #[trigger]
                runs(d, c0, n, f1, c1, p) && p == Poll::Ready(v);
            lemma_delay_polled_once(d, c0, n, f1, c1, p);
            let w = lemma_last_poll(d, c0, n, f1, c1, p);
        },
        Err(b) => {
            let n = choose|n: nat| #[trigger]
                runs(d, c0, n, b.future(), c1, Poll::Pending) && b.is_woken() == c1.woken && (
                b.is_woken() ==> n == usize::MAX - wakes);
            lemma_delay_polled_once(d, c0, n, b.future(), c1, Poll::Pending);
            let w = lemma_last_poll(d, c0, n, b.future(), c1, Poll::Pending);
        },
    }
}

/// A delay does not wake itself up, so it is polled once.
proof fn lemma_delay_polled_once(
    d: Delay,
    c0: ContextView,
    n: nat,
    f1: Delay,
    c1: ContextView,
    r: Poll<()>,
)
    requires
        runs(d, c0, n, f1, c1, r),
    ensures
        n == 0,
{
    if n > 0 {
        let (g, cm) = choose|g: Delay, cm: ContextView|
            runs(d, c0, (n - 1) as nat, g, cm, Poll::Pending) && cm.woken && #[trigger]
            future::steps(g, cm.fresh(), f1, c1, r);
        let w = lemma_last_poll(d, c0, (n - 1) as nat, g, cm, Poll::Pending);
        assert(!cm.woken);
    }
}

/// Blocking on what has ended already gives its value.
pub proof fn law_block_on_what_is_ready<T>(
    f: Ready<T>,
    wakes: usize,
    c0: ContextView,
    c1: ContextView,
    r: Result<T, BlockOn<Ready<T>>>,
)
    requires
        run_ends(f, wakes, c0, c1, r),
    ensures
        r matches Ok(v) && f.0 == Some(v),
{
    match r {
        Ok(v) => {
            let (n, f1, p) = choose|n: nat, f1: Ready<T>, p: Poll<T>| #[trigger]
                runs(f, c0, n, f1, c1, p) && p == Poll::Ready(v);
            if n > 0 {
                let (g, cm) = choose|g: Ready<T>, cm: ContextView|
                    runs(f, c0, (n - 1) as nat, g, cm, Poll::Pending) && cm.woken && #[trigger]
                    future::steps(g, cm.fresh(), f1, c1, p);
                let w = lemma_last_poll(f, c0, (n - 1) as nat, g, cm, Poll::Pending);
            }
            let w = lemma_last_poll(f, c0, n, f1, c1, p);
        },
        Err(b) => {
            let n = choose|n: nat| #[trigger]
                runs(f, c0, n, b.future(), c1, Poll::Pending) && b.is_woken() == c1.woken && (
                b.is_woken() ==> n == usize::MAX - wakes);
            let w = lemma_last_poll(f, c0, n, b.future(), c1, Poll::Pending);
        },
    }
}

/// A run polls every task that it pops, looks for the result only when there is none, and sleeps
/// only when the result is not there; woken up, it pops again.
pub proof fn law_run_sleeps_only_without_a_task(op: BlockOnOp, t: usize)
    requires
        op.pc is Pop,
    ensures
        op.action() == BlockOnAction::Pop,
        ({
            let popped = op.after(BlockOnEvent::Popped(Some(t)));
            let dry = op.after(BlockOnEvent::Popped(None));
            let asleep = dry.after(BlockOnEvent::Received(false));
            &&& popped.action() == BlockOnAction::Poll(t)
            &&& popped.after(BlockOnEvent::Polled) == op
            &&& dry.action() == BlockOnAction::TryRecv
            &&& dry.after(BlockOnEvent::Received(true)).pc is Done
            &&& asleep.action() == BlockOnAction::Wait
            &&& asleep.after(BlockOnEvent::Woken) == op
            &&& !(popped.pc is Done) && !(dry.pc is Done) && !(asleep.pc is Done)
        }),
{
}

} // verus!
