//! Tasks, and the handle with which the result of a task is awaited.
//!
//! Who waits on a worker thread never sleeps: it looks whether the result is there, and if not
//! runs a task that waits, or yields. A worker that slept could be the only one able to run the
//! very task whose result it waits for.

use vstd::prelude::*;

use crate::pool::oneshot::Inner;
use crate::pool::oneshot::OneshotState;
use crate::pool::oneshot::Receiver;
use crate::pool::oneshot::Sender;

verus! {

/// Something that can be called once.
pub trait FnOnceOnce: Sized {
    /// Whether it may be called.
    spec fn callable(self) -> bool;

    /// What is known when it has been called.
    spec fn called(self) -> bool;

    /// Calls it.
    fn call_once_boxed(self)
        requires
            self.callable(),
        ensures
            self.called(),
    ;
}

impl<F: FnOnce()> FnOnceOnce for F {
    open spec fn callable(self) -> bool {
        call_requires(self, ())
    }

    open spec fn called(self) -> bool {
        call_ensures(self, (), ())
    }

    fn call_once_boxed(self) {
        self()
    }
}

/// Every closure is something that can be called once: as its own contract says.
pub proof fn law_closures_can_be_called_once<F: FnOnce()>(f: F)
    ensures
        f.callable() == call_requires(f, ()),
        f.called() == call_ensures(f, (), ()),
{
}

/// A task.
pub struct Task<F: FnOnceOnce>(pub F);

impl<F: FnOnceOnce> Task<F> {
    /// Runs the task.
    pub fn run(self)
        requires
            self.0.callable(),
        ensures
            self.0.called(),
    {
        self.0.call_once_boxed()
    }
}

/// What a task does: it runs `f` and sends the result. A result that nobody waits for any more
/// is handed back to be dropped.
pub fn run_and_send<F: FnOnce() -> T, T>(f: F, sender: Sender<T>, inner: &mut Inner<T>) -> (r: Result<
    (),
    T,
>)
    requires
        call_requires(f, ()),
        old(inner).wf(),
        !(old(inner)@ is Sent),
    ensures
        final(inner).wf(),
        old(inner)@ is Empty ==> {
            &&& r is Ok
            &&& final(inner)@ matches OneshotState::Sent(v) && call_ensures(f, (), v)
        },
        old(inner)@ is Closed ==> {
            &&& final(inner)@ is Closed
            &&& r matches Err(v) && call_ensures(f, (), v)
        },
{
    let value = f();
    sender.send(inner, value)
}

/// What a thread that waits for a result does next.
#[derive(Clone, Copy, Debug, PartialEq, Eq, Structural)]
pub enum JoinAction {
    /// Look whether the result is there.
    TryRecv,
    /// Run a task that waits.
    RunPending,
    /// Let other threads run.
    Yield,
    /// Sleep until the result is there.
    Block,
}

/// What a thread that waits for a result is answered.
#[derive(Clone, Copy, Debug, PartialEq, Eq, Structural)]
pub enum JoinEvent {
    /// Whether the result was there.
    Got(bool),
    /// Whether a task was run.
    Ran(bool),
    /// Nothing to tell.
    Done,
}

/// Where a wait for a result stands.
#[derive(Clone, Copy, Debug, PartialEq, Eq, Structural)]
pub enum JoinPc {
    Try,
    Help,
    Yield,
    Block,
    Done,
}

/// One wait for a result, on a worker or elsewhere.
#[derive(Clone, Copy, Debug, PartialEq, Eq, Structural)]
pub struct JoinOp {
    pub on_worker: bool,
    pub pc: JoinPc,
}

impl JoinOp {
    /// That a wait on a worker never sleeps, and one elsewhere does nothing else.
    pub open spec fn valid(self) -> bool {
        self.pc is Block ==> !self.on_worker
    }

    /// What an unfinished wait does next.
    pub open spec fn action(self) -> JoinAction {
        match self.pc {
            JoinPc::Help => JoinAction::RunPending,
            JoinPc::Yield => JoinAction::Yield,
            JoinPc::Block => JoinAction::Block,
            _ => JoinAction::TryRecv,
        }
    }

    /// Where a wait stands after an answer. An answer of the wrong kind changes nothing.
    pub open spec fn after(self, e: JoinEvent) -> JoinOp {
        let pc = match (self.pc, e) {
            (JoinPc::Try, JoinEvent::Got(got)) => if got {
                JoinPc::Done
            } else {
                JoinPc::Help
            },
            (JoinPc::Help, JoinEvent::Ran(ran)) => if ran {
                JoinPc::Try
            } else {
                JoinPc::Yield
            },
            (JoinPc::Yield, JoinEvent::Done) => JoinPc::Try,
            (JoinPc::Block, JoinEvent::Done) => JoinPc::Done,
            (pc, _) => pc,
        };
        JoinOp { on_worker: self.on_worker, pc }
    }

    /// A wait that has done nothing yet.
    pub fn start(on_worker: bool) -> (op: JoinOp)
        ensures
            op == (JoinOp {
                on_worker,
                pc: if on_worker {
                    JoinPc::Try
                } else {
                    JoinPc::Block
                },
            }),
            op.valid(),
    {
        if on_worker {
            JoinOp { on_worker, pc: JoinPc::Try }
        } else {
            JoinOp { on_worker, pc: JoinPc::Block }
        }
    }

    /// What to do next, or `None` when the result has come. On a worker this is never to sleep.
    pub fn next_action(&self) -> (a: Option<JoinAction>)
        ensures
            a == (if self.pc is Done { None } else { Some(self.action()) }),
            self.valid() && self.on_worker ==> a != Some(JoinAction::Block),
    {
        match self.pc {
            JoinPc::Try => Some(JoinAction::TryRecv),
            JoinPc::Help => Some(JoinAction::RunPending),
            JoinPc::Yield => Some(JoinAction::Yield),
            JoinPc::Block => Some(JoinAction::Block),
            JoinPc::Done => None,
        }
    }

    /// Takes the answer to what was done.
    pub fn on_event(&mut self, e: JoinEvent)
        ensures
            *final(self) == old(self).after(e),
            old(self).valid() ==> final(self).valid(),
    {
        let pc = match (self.pc, e) {
            (JoinPc::Try, JoinEvent::Got(got)) => {
                if got {
                    JoinPc::Done
                } else {
                    JoinPc::Help
                }
            },
            (JoinPc::Help, JoinEvent::Ran(ran)) => {
                if ran {
                    JoinPc::Try
                } else {
                    JoinPc::Yield
                }
            },
            (JoinPc::Yield, JoinEvent::Done) => JoinPc::Try,
            (JoinPc::Block, JoinEvent::Done) => JoinPc::Done,
            (pc, _) => pc,
        };
        self.pc = pc;
    }
}

/// The handle of a spawned task.
pub struct JoinHandle<T> {
    pub receiver: Receiver<T>,
}

impl<T> JoinHandle<T> {
    /// The result of a task that has ended.
    pub fn recv(self, inner: &mut Inner<T>) -> (v: T)
        requires
            old(inner).wf(),
            old(inner)@ is Sent,
        ensures
            final(inner).wf(),
            old(inner)@ == OneshotState::Sent(v),
            final(inner)@ is Closed,
    {
        self.receiver.recv(inner)
    }

    /// The result, if the task has ended.
    pub fn try_recv(&self, inner: &mut Inner<T>) -> (r: Option<T>)
        requires
            old(inner).wf(),
        ensures
            final(inner).wf(),
            r == (match old(inner)@ {
                OneshotState::Sent(v) => Some(v),
                _ => None,
            }),
            final(inner)@ == (match old(inner)@ {
                OneshotState::Sent(_) => OneshotState::Closed,
                s => s,
            }),
    {
        self.receiver.try_recv(inner)
    }
}

/// A wait on a worker looks for the result first. While that is not there it runs a task that
/// waits, yields where there was none, and looks again. A wait elsewhere sleeps until the result
/// is there.
pub proof fn law_join_helps_until_the_result_is_there(op: JoinOp)
    requires
        op.pc is Try,
    ensures
        op.action() == JoinAction::TryRecv,
        op.after(JoinEvent::Got(true)).pc is Done,
        ({
            let not_yet = op.after(JoinEvent::Got(false));
            let idle = not_yet.after(JoinEvent::Ran(false));
            &&& not_yet.action() == JoinAction::RunPending
            &&& not_yet.after(JoinEvent::Ran(true)) == op
            &&& idle.action() == JoinAction::Yield
            &&& idle.after(JoinEvent::Done) == op
            &&& !(not_yet.pc is Done) && !(idle.pc is Done)
        }),
        ({
            let asleep = JoinOp { pc: JoinPc::Block, ..op };
            asleep.action() == JoinAction::Block && asleep.after(JoinEvent::Done).pc is Done
        }),
{
}

} // verus!
