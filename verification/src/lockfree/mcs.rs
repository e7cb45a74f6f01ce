//! A queue lock in which each thread sleeps on its own node until the thread before it hands
//! the lock over.
//!
//! Who wants the lock puts a node at the tail of the queue in one exchange. If another stood
//! there, the newcomer tells that node who comes next and sleeps until its own node is marked
//! granted. Who unlocks either takes its node off an otherwise empty queue or marks the next
//! node granted and wakes its owner. The owner of the next node is read before the mark is set:
//! from then on that node may be freed at any moment.

use vstd::prelude::*;

verus! {

/// A node: whether the lock has been handed to its owner, which node comes next, which thread
/// owns it, and whether it has been freed.
#[derive(Clone, Copy, Debug, PartialEq, Eq, Structural)]
pub struct McsNode {
    pub granted: bool,
    pub next: Option<usize>,
    pub owner: u64,
    pub freed: bool,
}

/// What a thread at a lock wants done.
#[derive(Clone, Copy, Debug, PartialEq, Eq, Structural)]
pub enum McsAction {
    /// Put the node at the tail and learn which stood there.
    Swap(usize),
    /// Tell the node `before` that `node` comes next.
    Link { before: usize, node: usize },
    /// Read whether the lock has been handed to the node.
    ReadGranted(usize),
    /// Sleep until woken.
    Park,
    /// Read which node comes after the node.
    ReadNext(usize),
    /// Empty the queue if the node stands at its tail.
    ClearTail(usize),
    /// Read which thread owns the node.
    ReadOwner(usize),
    /// Mark the node granted.
    Grant(usize),
    /// Wake the thread of the given number.
    Unpark(u64),
    /// Free the node.
    Free(usize),
}

/// What a thread at a lock is answered.
#[derive(Clone, Copy, Debug, PartialEq, Eq, Structural)]
pub enum McsEvent {
    /// The node that was read, if there is one.
    Node(Option<usize>),
    /// Whether it is so, or was done.
    Flag(bool),
    /// The thread that was read.
    Thread(u64),
    /// Nothing to tell.
    Done,
}

/// The memory of a lock: the tail, and every node ever made.
#[verifier::ext_equal]
pub struct McsMem {
    pub tail: Option<usize>,
    pub nodes: Seq<McsNode>,
}

impl McsMem {
    /// Whether a node is there.
    pub open spec fn live(self, n: usize) -> bool {
        n < self.nodes.len() && !self.nodes[n as int].freed
    }

    /// Whether an action reaches only nodes that are there.
    pub open spec fn action_valid(self, a: McsAction) -> bool {
        match a {
            McsAction::Swap(n) => self.live(n),
            McsAction::Link { before, node } => self.live(before) && self.live(node),
            McsAction::ReadGranted(n) => self.live(n),
            McsAction::Park => true,
            McsAction::ReadNext(n) => self.live(n),
            McsAction::ClearTail(n) => self.live(n),
            McsAction::ReadOwner(n) => self.live(n),
            McsAction::Grant(n) => self.live(n),
            McsAction::Unpark(_) => true,
            McsAction::Free(n) => self.live(n),
        }
    }

    /// The memory with another node in place of `n`.
    pub open spec fn with(self, n: usize, node: McsNode) -> McsMem {
        McsMem { nodes: self.nodes.update(n as int, node), ..self }
    }

    /// The memory after an action.
    pub open spec fn after(self, a: McsAction) -> McsMem {
        match a {
            McsAction::Swap(n) => McsMem { tail: Some(n), ..self },
            McsAction::Link { before, node } => self.with(
                before,
                McsNode { next: Some(node), ..self.nodes[before as int] },
            ),
            McsAction::ClearTail(n) => if self.tail == Some(n) {
                McsMem { tail: None, ..self }
            } else {
                self
            },
            McsAction::Grant(n) => self.with(n, McsNode { granted: true, ..self.nodes[n as int] }),
            McsAction::Free(n) => self.with(n, McsNode { freed: true, ..self.nodes[n as int] }),
            _ => self,
        }
    }

    /// What an action is answered.
    pub open spec fn event(self, a: McsAction) -> McsEvent {
        match a {
            McsAction::Swap(_) => McsEvent::Node(self.tail),
            McsAction::ReadGranted(n) => McsEvent::Flag(self.nodes[n as int].granted),
            McsAction::ReadNext(n) => McsEvent::Node(self.nodes[n as int].next),
            McsAction::ClearTail(n) => McsEvent::Flag(self.tail == Some(n)),
            McsAction::ReadOwner(n) => McsEvent::Thread(self.nodes[n as int].owner),
            _ => McsEvent::Done,
        }
    }
}

/// Where a thread that locks stands.
#[derive(Clone, Copy, Debug, PartialEq, Eq, Structural)]
pub enum McsLockPc {
    /// About to put its node at the tail.
    Swap,
    /// About to tell the node before who comes next.
    Link(usize),
    /// About to look whether the lock was handed over.
    Look,
    /// About to sleep.
    Park,
    /// The lock is held.
    Done,
}

/// One locking, with the node made for it.
#[derive(Clone, Copy, Debug, PartialEq, Eq, Structural)]
pub struct McsLockOp {
    pub node: usize,
    pub pc: McsLockPc,
}

impl McsLockOp {
    /// What an unfinished locking wants done next.
    pub open spec fn action(self) -> McsAction {
        match self.pc {
            McsLockPc::Link(before) => McsAction::Link { before, node: self.node },
            McsLockPc::Look => McsAction::ReadGranted(self.node),
            McsLockPc::Park => McsAction::Park,
            _ => McsAction::Swap(self.node),
        }
    }

    /// Where a locking stands after an answer. An answer of the wrong kind changes nothing.
    pub open spec fn after(self, e: McsEvent) -> McsLockOp {
        let pc = match (self.pc, e) {
            (McsLockPc::Swap, McsEvent::Node(b)) => match b {
                Some(before) => McsLockPc::Link(before),
                None => McsLockPc::Done,
            },
            (McsLockPc::Link(_), McsEvent::Done) => McsLockPc::Look,
            (McsLockPc::Look, McsEvent::Flag(granted)) => if granted {
                McsLockPc::Done
            } else {
                McsLockPc::Park
            },
            (McsLockPc::Park, McsEvent::Done) => McsLockPc::Look,
            (pc, _) => pc,
        };
        McsLockOp { node: self.node, pc }
    }

    /// A locking with a fresh node.
    pub fn start(node: usize) -> (op: McsLockOp)
        ensures
            op == (McsLockOp { node, pc: McsLockPc::Swap }),
    {
        McsLockOp { node, pc: McsLockPc::Swap }
    }

    /// What to do next, or `None` when the lock is held.
    pub fn next_action(&self) -> (a: Option<McsAction>)
        ensures
            a == (if self.pc is Done { None } else { Some(self.action()) }),
    {
        match self.pc {
            McsLockPc::Swap => Some(McsAction::Swap(self.node)),
            McsLockPc::Link(before) => Some(McsAction::Link { before, node: self.node }),
            McsLockPc::Look => Some(McsAction::ReadGranted(self.node)),
            McsLockPc::Park => Some(McsAction::Park),
            McsLockPc::Done => None,
        }
    }

    /// Takes the answer to what was done.
    pub fn on_event(&mut self, e: McsEvent)
        ensures
            *final(self) == old(self).after(e),
    {
        let pc = match (self.pc, e) {
            (McsLockPc::Swap, McsEvent::Node(b)) => match b {
                Some(before) => McsLockPc::Link(before),
                None => McsLockPc::Done,
            },
            (McsLockPc::Link(_), McsEvent::Done) => McsLockPc::Look,
            (McsLockPc::Look, McsEvent::Flag(granted)) => {
                if granted {
                    McsLockPc::Done
                } else {
                    McsLockPc::Park
                }
            },
            (McsLockPc::Park, McsEvent::Done) => McsLockPc::Look,
            (pc, _) => pc,
        };
        self.pc = pc;
    }
}

/// Where a thread that unlocks stands.
#[derive(Clone, Copy, Debug, PartialEq, Eq, Structural)]
pub enum McsUnlockPc {
    /// About to look who comes next.
    ReadNext,
    /// Nobody was seen; about to empty the queue.
    Clear,
    /// Somebody is coming; about to look again who comes next.
    Spin,
    /// About to read who owns the next node.
    ReadOwner(usize),
    /// About to hand the lock over.
    Grant { next: usize, owner: u64 },
    /// About to wake the thread that the lock was handed to.
    Unpark(u64),
    /// About to free the own node.
    Free,
    /// Nothing is left to do.
    Done,
}

/// One unlocking, with the node that the lock was taken with.
#[derive(Clone, Copy, Debug, PartialEq, Eq, Structural)]
pub struct McsUnlockOp {
    pub node: usize,
    pub pc: McsUnlockPc,
}

impl McsUnlockOp {
    /// What an unfinished unlocking wants done next.
    pub open spec fn action(self) -> McsAction {
        match self.pc {
            McsUnlockPc::Clear => McsAction::ClearTail(self.node),
            McsUnlockPc::ReadOwner(n) => McsAction::ReadOwner(n),
            McsUnlockPc::Grant { next, owner } => McsAction::Grant(next),
            McsUnlockPc::Unpark(owner) => McsAction::Unpark(owner),
            McsUnlockPc::Free => McsAction::Free(self.node),
            _ => McsAction::ReadNext(self.node),
        }
    }

    /// Where an unlocking stands after an answer. An answer of the wrong kind changes nothing.
    pub open spec fn after(self, e: McsEvent) -> McsUnlockOp {
        let pc = match (self.pc, e) {
            (McsUnlockPc::ReadNext, McsEvent::Node(n)) => match n {
                Some(next) => McsUnlockPc::ReadOwner(next),
                None => McsUnlockPc::Clear,
            },
            (McsUnlockPc::Clear, McsEvent::Flag(cleared)) => if cleared {
                McsUnlockPc::Free
            } else {
                McsUnlockPc::Spin
            },
            (McsUnlockPc::Spin, McsEvent::Node(n)) => match n {
                Some(next) => McsUnlockPc::ReadOwner(next),
                None => McsUnlockPc::Spin,
            },
            (McsUnlockPc::ReadOwner(next), McsEvent::Thread(owner)) => McsUnlockPc::Grant {
                next,
                owner,
            },
            (McsUnlockPc::Grant { next, owner }, McsEvent::Done) => McsUnlockPc::Unpark(owner),
            (McsUnlockPc::Unpark(_), McsEvent::Done) => McsUnlockPc::Free,
            (McsUnlockPc::Free, McsEvent::Done) => McsUnlockPc::Done,
            (pc, _) => pc,
        };
        McsUnlockOp { node: self.node, pc }
    }

    /// The unlocking of a lock that was taken with `guard`.
    pub fn start(guard: McsGuard) -> (op: McsUnlockOp)
        ensures
            op == (McsUnlockOp { node: guard.node, pc: McsUnlockPc::ReadNext }),
    {
        McsUnlockOp { node: guard.node, pc: McsUnlockPc::ReadNext }
    }

    /// What to do next, or `None` when the unlocking is finished.
    pub fn next_action(&self) -> (a: Option<McsAction>)
        ensures
            a == (if self.pc is Done { None } else { Some(self.action()) }),
    {
        match self.pc {
            McsUnlockPc::ReadNext => Some(McsAction::ReadNext(self.node)),
            McsUnlockPc::Clear => Some(McsAction::ClearTail(self.node)),
            McsUnlockPc::Spin => Some(McsAction::ReadNext(self.node)),
            McsUnlockPc::ReadOwner(n) => Some(McsAction::ReadOwner(n)),
            McsUnlockPc::Grant { next, owner } => Some(McsAction::Grant(next)),
            McsUnlockPc::Unpark(owner) => Some(McsAction::Unpark(owner)),
            McsUnlockPc::Free => Some(McsAction::Free(self.node)),
            McsUnlockPc::Done => None,
        }
    }

    /// Takes the answer to what was done.
    pub fn on_event(&mut self, e: McsEvent)
        ensures
            *final(self) == old(self).after(e),
    {
        let pc = match (self.pc, e) {
            (McsUnlockPc::ReadNext, McsEvent::Node(n)) => match n {
                Some(next) => McsUnlockPc::ReadOwner(next),
                None => McsUnlockPc::Clear,
            },
            (McsUnlockPc::Clear, McsEvent::Flag(cleared)) => {
                if cleared {
                    McsUnlockPc::Free
                } else {
                    McsUnlockPc::Spin
                }
            },
            (McsUnlockPc::Spin, McsEvent::Node(n)) => match n {
                Some(next) => McsUnlockPc::ReadOwner(next),
                None => McsUnlockPc::Spin,
            },
            (McsUnlockPc::ReadOwner(next), McsEvent::Thread(owner)) => {
                McsUnlockPc::Grant { next, owner }
            },
            (McsUnlockPc::Grant { next, owner }, McsEvent::Done) => McsUnlockPc::Unpark(owner),
            (McsUnlockPc::Unpark(_), McsEvent::Done) => McsUnlockPc::Free,
            (McsUnlockPc::Free, McsEvent::Done) => McsUnlockPc::Done,
            (pc, _) => pc,
        };
        self.pc = pc;
    }
}

/// What the holder of a lock remembers: its node.
pub struct McsGuard {
    pub node: usize,
}

/// The tail of the queue and the nodes.
pub struct McsLock {
    tail: Option<usize>,
    nodes: Vec<McsNode>,
}

impl View for McsLock {
    type V = McsMem;

    closed spec fn view(&self) -> McsMem {
        McsMem { tail: self.tail, nodes: self.nodes@ }
    }
}

/// The node of a thread that has just begun to lock.
pub open spec fn fresh(owner: u64) -> McsNode {
    McsNode { granted: false, next: None, owner, freed: false }
}

impl McsLock {
    /// A lock that nobody holds.
    pub fn new() -> (l: McsLock)
        ensures
            l@ == (McsMem { tail: None, nodes: Seq::empty() }),
    {
        McsLock { tail: None, nodes: Vec::new() }
    }

    /// Makes a node for thread `me`, and begins to lock with it.
    pub fn begin_lock(&mut self, me: u64) -> (op: McsLockOp)
        ensures
            op == (McsLockOp { node: old(self)@.nodes.len() as usize, pc: McsLockPc::Swap }),
            old(self)@.nodes.len() <= usize::MAX,
            final(self)@ == (McsMem { nodes: old(self)@.nodes.push(fresh(me)), ..old(self)@ }),
    {
        let node: usize = self.nodes.len();
        self.nodes.push(McsNode { granted: false, next: None, owner: me, freed: false });
        McsLockOp::start(node)
    }

    /// Performs one action.
    pub fn perform(&mut self, a: McsAction) -> (e: McsEvent)
        requires
            old(self)@.action_valid(a),
        ensures
            final(self)@ == old(self)@.after(a),
            e == old(self)@.event(a),
    {
        match a {
            McsAction::Swap(n) => {
                let before = self.tail;
                self.tail = Some(n);
                McsEvent::Node(before)
            },
            McsAction::Link { before, node } => {
                self.nodes[before].next = Some(node);
                McsEvent::Done
            },
            McsAction::ReadGranted(n) => McsEvent::Flag(self.nodes[n].granted),
            McsAction::Park => McsEvent::Done,
            McsAction::ReadNext(n) => McsEvent::Node(self.nodes[n].next),
            McsAction::ClearTail(n) => {
                match self.tail {
                    Some(t) => {
                        if t == n {
                            self.tail = None;
                            McsEvent::Flag(true)
                        } else {
                            McsEvent::Flag(false)
                        }
                    },
                    None => McsEvent::Flag(false),
                }
            },
            McsAction::ReadOwner(n) => McsEvent::Thread(self.nodes[n].owner),
            McsAction::Grant(n) => {
                self.nodes[n].granted = true;
                McsEvent::Done
            },
            McsAction::Unpark(_) => McsEvent::Done,
            McsAction::Free(n) => {
                self.nodes[n].freed = true;
                McsEvent::Done
            },
        }
    }

    /// Locks, for thread `me`. A single thread can only take a lock that is free.
    pub fn lock(&mut self, me: u64) -> (g: McsGuard)
        requires
            old(self)@.tail is None,
        ensures
            g.node == old(self)@.nodes.len(),
            final(self)@ == (McsMem {
                tail: Some(g.node),
                nodes: old(self)@.nodes.push(fresh(me)),
            }),
    {
        let mut op = self.begin_lock(me);
        let e = self.perform(McsAction::Swap(op.node));
        op.on_event(e);
        assert(op.pc is Done);
        McsGuard { node: op.node }
    }

    /// Unlocks a lock that nobody else wants.
    pub fn unlock(&mut self, guard: McsGuard)
        requires
            old(self)@.tail == Some(guard.node),
            old(self)@.live(guard.node),
            old(self)@.nodes[guard.node as int].next is None,
        ensures
            final(self)@ == (McsMem {
                tail: None,
                nodes: old(self)@.nodes.update(
                    guard.node as int,
                    McsNode { freed: true, ..old(self)@.nodes[guard.node as int] },
                ),
            }),
    {
        let mut op = McsUnlockOp::start(guard);
        let e = self.perform(McsAction::ReadNext(op.node));
        op.on_event(e);
        let e = self.perform(McsAction::ClearTail(op.node));
        op.on_event(e);
        let e = self.perform(McsAction::Free(op.node));
        op.on_event(e);
        assert(op.pc is Done);
    }
}

impl Default for McsLock {
    fn default() -> (l: McsLock)
        ensures
            l@ == (McsMem { tail: None, nodes: Seq::empty() }),
    {
        McsLock::new()
    }
}

/// What a thread that uses a lock is doing.
pub enum McsPhase {
    Idle,
    Locking(McsLockOp),
    Unlocking(McsUnlockOp),
}

/// A thread that uses a lock. The token remembers a wake-up until the thread next sleeps.
pub struct McsThread {
    pub phase: McsPhase,
    pub token: bool,
}

/// A lock, its queue from the thread whose turn it is to the last, and the threads. A thread's
/// number is its place.
pub struct McsSystem {
    pub mem: McsMem,
    pub queue: Seq<usize>,
    pub threads: Seq<McsThread>,
}

/// Whether a thread holds the lock.
pub open spec fn mcs_holds(t: McsThread) -> bool {
    match t.phase {
        McsPhase::Idle => false,
        McsPhase::Locking(op) => op.pc is Done,
        McsPhase::Unlocking(op) => !(op.pc is Unpark || op.pc is Free || op.pc is Done),
    }
}

/// The node of a thread that stands in the queue.
pub open spec fn queued(t: McsThread) -> Option<usize> {
    match t.phase {
        McsPhase::Idle => None,
        McsPhase::Locking(op) => if op.pc is Swap {
            None
        } else {
            Some(op.node)
        },
        McsPhase::Unlocking(op) => if mcs_holds(t) {
            Some(op.node)
        } else {
            None
        },
    }
}

/// The node of a thread that has one which does not stand in the queue.
pub open spec fn aside(t: McsThread) -> Option<usize> {
    match t.phase {
        McsPhase::Idle => None,
        McsPhase::Locking(op) => if op.pc is Swap {
            Some(op.node)
        } else {
            None
        },
        McsPhase::Unlocking(op) => if op.pc is Unpark || op.pc is Free {
            Some(op.node)
        } else {
            None
        },
    }
}

/// Whether a thread has yet to tell the node before it that it comes next.
pub open spec fn unlinked(t: McsThread) -> bool {
    t.phase matches McsPhase::Locking(op) && op.pc is Link
}

/// Whether a thread sleeps until it is woken.
pub open spec fn mcs_parked(t: McsThread) -> bool {
    t.phase matches McsPhase::Locking(op) && op.pc is Park && !t.token
}

/// Whether a thread is about to wake thread `i`.
pub open spec fn mcs_will_wake(t: McsThread, i: int) -> bool {
    t.phase matches McsPhase::Unlocking(op) && (op.pc matches McsUnlockPc::Unpark(id) && id == i)
}

impl McsSystem {
    /// The thread that owns the node at place `k` of the queue.
    pub open spec fn owner(self, k: int) -> int {
        self.mem.nodes[self.queue[k] as int].owner as int
    }

    /// Whether somebody is about to wake thread `i`.
    pub open spec fn wake_pending(self, i: int) -> bool {
        exists|j: int| 0 <= j < self.threads.len() && mcs_will_wake(#[trigger] self.threads[j], i)
    }

    /// What holds of the place `k` of the queue, whose owner is thread `i`.
    pub open spec fn placed(self, i: int, k: int) -> bool {
        let t = self.threads[i];
        let node = self.mem.nodes[self.queue[k] as int];
        &&& queued(t) == Some(self.queue[k])
        &&& match t.phase {
            McsPhase::Idle => false,
            McsPhase::Locking(op) => match op.pc {
                McsLockPc::Swap => false,
                McsLockPc::Link(before) => k > 0 && before == self.queue[k - 1] && !node.granted,
                McsLockPc::Look => node.granted == (k == 0),
                McsLockPc::Park => node.granted == (k == 0),
                McsLockPc::Done => k == 0,
            },
            McsPhase::Unlocking(op) => k == 0 && match op.pc {
                McsUnlockPc::Spin => self.queue.len() >= 2,
                McsUnlockPc::ReadOwner(n) => node.next == Some(n),
                McsUnlockPc::Grant { next, owner } => {
                    &&& node.next == Some(next)
                    &&& owner == self.mem.nodes[next as int].owner
                },
                _ => true,
            },
        }
    }

    /// What holds of the place `k` of the queue.
    pub open spec fn place_inv(self, k: int) -> bool {
        let node = self.mem.nodes[self.queue[k] as int];
        &&& self.mem.live(self.queue[k])
        &&& node.owner < self.threads.len()
        &&& self.placed(node.owner as int, k)
        &&& node.next == (if k + 1 < self.queue.len() && !unlinked(
            self.threads[self.owner(k + 1)],
        ) {
            Some(self.queue[k + 1])
        } else {
            None
        })
    }

    /// What holds of thread `i`.
    pub open spec fn thread_inv(self, i: int) -> bool {
        let t = self.threads[i];
        &&& queued(t) matches Some(n) ==> self.queue.contains(n) && self.mem.nodes[n as int].owner
            == i
        &&& aside(t) matches Some(n) ==> {
            &&& self.mem.live(n)
            &&& self.mem.nodes[n as int].owner == i
            &&& !self.queue.contains(n)
        }
        &&& t.phase matches McsPhase::Locking(op) ==> op.pc is Swap ==> self.mem.nodes[op.node as int]
            == fresh(i as u64)
        &&& t.phase matches McsPhase::Locking(op) ==> op.pc is Park
            && self.mem.nodes[op.node as int].granted ==> t.token || self.wake_pending(i)
        &&& t.phase matches McsPhase::Unlocking(op) ==> (op.pc matches McsUnlockPc::Unpark(id)
            ==> id < self.threads.len())
    }

    /// What holds at any moment.
    pub open spec fn inv(self) -> bool {
        &&& self.threads.len() <= u64::MAX
        &&& self.mem.tail == (if self.queue.len() == 0 {
            None
        } else {
            Some(self.queue.last())
        })
        &&& self.queue.no_duplicates()
        &&& forall|k: int| 0 <= k < self.queue.len() ==> #[trigger] self.place_inv(k)
        &&& forall|i: int| 0 <= i < self.threads.len() ==> #[trigger] self.thread_inv(i)
    }

    /// Whether thread `i` has something to do at the lock.
    pub open spec fn enabled(self, i: int) -> bool {
        &&& 0 <= i < self.threads.len()
        &&& match self.threads[i].phase {
            McsPhase::Idle => false,
            McsPhase::Locking(op) => !(op.pc is Done) && !mcs_parked(self.threads[i]),
            McsPhase::Unlocking(op) => !(op.pc is Done),
        }
    }

    /// What thread `i` wants done next.
    pub open spec fn action(self, i: int) -> McsAction {
        match self.threads[i].phase {
            McsPhase::Locking(op) => op.action(),
            McsPhase::Unlocking(op) => op.action(),
            McsPhase::Idle => McsAction::Park,
        }
    }

    /// The thread `i` after it was given the answer `e`.
    pub open spec fn told(self, i: int, e: McsEvent) -> McsThread {
        let t = self.threads[i];
        McsThread {
            phase: match t.phase {
                McsPhase::Idle => McsPhase::Idle,
                McsPhase::Locking(op) => McsPhase::Locking(op.after(e)),
                McsPhase::Unlocking(op) => McsPhase::Unlocking(op.after(e)),
            },
            token: t.token && !(self.action(i) is Park),
        }
    }

    /// The system after thread `i` has done what it wants done next.
    pub open spec fn step(self, i: int) -> McsSystem {
        let a = self.action(i);
        let e = self.mem.event(a);
        let threads = self.threads.update(i, self.told(i, e));
        McsSystem {
            mem: self.mem.after(a),
            queue: match a {
                McsAction::Swap(n) => self.queue.push(n),
                McsAction::ClearTail(n) => if self.mem.tail == Some(n) {
                    Seq::empty()
                } else {
                    self.queue
                },
                McsAction::Grant(n) => self.queue.drop_first(),
                _ => self.queue,
            },
            threads: match a {
                McsAction::Unpark(id) => threads.update(
                    id as int,
                    McsThread { token: true, ..threads[id as int] },
                ),
                _ => threads,
            },
        }
    }

    /// The system after thread `i`, which was at rest, has begun to lock with a fresh node.
    pub open spec fn begin_lock(self, i: int) -> McsSystem {
        let node = self.mem.nodes.len() as usize;
        let phase = McsPhase::Locking(McsLockOp { node, pc: McsLockPc::Swap });
        McsSystem {
            mem: McsMem { nodes: self.mem.nodes.push(fresh(i as u64)), ..self.mem },
            threads: self.threads.update(i, McsThread { phase, ..self.threads[i] }),
            ..self
        }
    }

    /// The system after thread `i`, which holds the lock, has begun to unlock.
    pub open spec fn begin_unlock(self, i: int) -> McsSystem {
        let node = self.threads[i].phase->Locking_0.node;
        let phase = McsPhase::Unlocking(McsUnlockOp { node, pc: McsUnlockPc::ReadNext });
        McsSystem {
            threads: self.threads.update(i, McsThread { phase, ..self.threads[i] }),
            ..self
        }
    }

    /// The system after thread `i` woke up for no reason.
    pub open spec fn wake_spuriously(self, i: int) -> McsSystem {
        let op = self.threads[i].phase->Locking_0;
        let phase = McsPhase::Locking(op.after(McsEvent::Done));
        McsSystem {
            threads: self.threads.update(i, McsThread { phase, ..self.threads[i] }),
            ..self
        }
    }
}

/// A pending wake-up stays pending when another thread than the one that is to do it changes.
proof fn lemma_mcs_pending(s: McsSystem, s2: McsSystem, i: int, k: int)
    requires
        s2.threads.len() == s.threads.len(),
        forall|j: int|
            0 <= j < s.threads.len() && j != i ==> (#[trigger] s2.threads[j]).phase
                == s.threads[j].phase,
        s.wake_pending(k),
    ensures
        s2.wake_pending(k) || (0 <= i < s.threads.len() && mcs_will_wake(s.threads[i], k)),
{
    let j = choose|j: int| 0 <= j < s.threads.len() && mcs_will_wake(#[trigger] s.threads[j], k);
    if j != i {
        assert(mcs_will_wake(s2.threads[j], k));
    }
}

/// The place at which the node of a queued thread stands, and what is known there.
proof fn lemma_place(s: McsSystem, i: int) -> (k: int)
    requires
        s.inv(),
        0 <= i < s.threads.len(),
        queued(s.threads[i]) is Some,
    ensures
        0 <= k < s.queue.len(),
        Some(s.queue[k]) == queued(s.threads[i]),
        s.owner(k) == i,
        s.place_inv(k),
{
    assert(s.thread_inv(i));
    let n = queued(s.threads[i])->0;
    let k = choose|k: int| 0 <= k < s.queue.len() && s.queue[k] == n;
    assert(s.place_inv(k));
    k
}

/// However threads interleave at a lock, the invariant stays, and nobody touches a node that
/// has been freed.
#[verifier::rlimit(60)]
pub proof fn law_mcs_step(s: McsSystem, i: int)
    requires
        s.inv(),
        s.enabled(i),
    ensures
        s.mem.action_valid(s.action(i)),
        s.step(i).inv(),
{
    let s2 = s.step(i);
    let t = s.threads[i];
    assert(s.thread_inv(i));
    assert forall|j: int| 0 <= j < s.threads.len() && j != i implies (#[trigger] s2.threads[j]).phase
        == s.threads[j].phase by {}
    match t.phase {
        McsPhase::Idle => {},
        McsPhase::Locking(op) => match op.pc {
            McsLockPc::Swap => {
                lemma_swap(s, i);
            },
            McsLockPc::Link(before) => {
                let k = lemma_place(s, i);
                assert(s.place_inv(k - 1));
                lemma_link(s, i, k);
            },
            _ => {
                let k = lemma_place(s, i);
                lemma_quiet(s, s2, i, k);
            },
        },
        McsPhase::Unlocking(op) => match op.pc {
            McsUnlockPc::Unpark(id) => {
                lemma_unpark(s, i, id);
            },
            McsUnlockPc::Free => {
                lemma_free(s, i);
            },
            McsUnlockPc::Grant { next, owner } => {
                let k = lemma_place(s, i);
                lemma_grant(s, i);
            },
            McsUnlockPc::Clear => {
                let k = lemma_place(s, i);
                assert(k == 0);
                if s.mem.tail == Some(op.node) {
                    assert(s.queue.last() == s.queue[s.queue.len() - 1]);
                    assert(s.queue.len() == 1);
                    assert forall|j: int| 0 <= j < s2.threads.len() implies #[trigger] s2.thread_inv(j) by {
                        assert(s.thread_inv(j));
                        if j != i && queued(s.threads[j]) is Some {
                            let m = lemma_place(s, j);
                            assert(m == 0);
                        }
                        if s.wake_pending(j) {
                            lemma_mcs_pending(s, s2, i, j);
                        }
                    }
                } else {
                    lemma_quiet(s, s2, i, k);
                }
            },
            _ => {
                let k = lemma_place(s, i);
                assert(k == 0);
                if s.queue.len() >= 2 {
                    assert(s.place_inv(1));
                }
                lemma_quiet(s, s2, i, k);
            },
        },
    }
}

/// A step that changes only the thread that takes it keeps the invariant.
proof fn lemma_quiet(s: McsSystem, s2: McsSystem, i: int, k: int)
    requires
        s.inv(),
        0 <= i < s.threads.len(),
        0 <= k < s.queue.len(),
        s.owner(k) == i,
        s.place_inv(k),
        s2.mem == s.mem,
        s2.queue == s.queue,
        s2.threads == s.threads.update(i, s2.threads[i]),
        queued(s2.threads[i]) == queued(s.threads[i]),
        !unlinked(s.threads[i]),
        !unlinked(s2.threads[i]),
        s2.placed(i, k),
        s2.threads[i].phase matches McsPhase::Locking(op) ==> op.pc is Park ==> {
            ||| !s.mem.nodes[op.node as int].granted
            ||| s2.threads[i].token
            ||| s.wake_pending(i)
        },
        !mcs_will_wake(s.threads[i], i),
        forall|j: int| !mcs_will_wake(s.threads[i], j),
    ensures
        s2.inv(),
{
    assert forall|m: int| 0 <= m < s2.queue.len() implies #[trigger] s2.place_inv(m) by {
        assert(s.place_inv(m));
        if m + 1 < s.queue.len() {
            assert(s.place_inv(m + 1));
        }
        if s.owner(m) == i {
            assert(s.queue[m] == s.queue[k]);
            assert(m == k);
        } else {
            assert(s2.threads[s.owner(m)] == s.threads[s.owner(m)]);
            assert(s2.placed(s.owner(m), m));
        }
    }
    assert forall|j: int| 0 <= j < s2.threads.len() implies #[trigger] s2.thread_inv(j) by {
        assert(s.thread_inv(j));
        if s.wake_pending(j) {
            lemma_mcs_pending(s, s2, i, j);
        }
    }
}

proof fn lemma_swap(s: McsSystem, i: int)
    requires
        s.inv(),
        s.enabled(i),
        s.threads[i].phase matches McsPhase::Locking(op) && op.pc is Swap,
    ensures
        s.mem.action_valid(s.action(i)),
        s.step(i).inv(),
{
    let s2 = s.step(i);
    let len = s.queue.len() as int;
    let node = s.threads[i].phase->Locking_0.node;
    assert(s.thread_inv(i));
    assert(s2.queue[len] == node);
    assert(s2.owner(len) == i);
    if len > 0 {
        assert(s.place_inv(len - 1));
        assert(s2.queue[len - 1] == s.queue.last());
    }
    assert(s2.placed(i, len));
    assert forall|m: int| 0 <= m < s2.queue.len() implies #[trigger] s2.place_inv(m) by {
        if m < len {
            assert(s.place_inv(m));
            assert(s2.queue[m] == s.queue[m]);
            assert(s.owner(m) != i);
            if m + 1 < len {
                assert(s.place_inv(m + 1));
                assert(s2.queue[m + 1] == s.queue[m + 1]);
            } else {
                assert(unlinked(s2.threads[i]));
            }
            if m > 0 {
                assert(s2.queue[m - 1] == s.queue[m - 1]);
            }
            assert(s2.placed(s.owner(m), m));
        }
    }
    assert forall|j: int| 0 <= j < s2.threads.len() implies #[trigger] s2.thread_inv(j) by {
        assert(s.thread_inv(j));
        if j != i {
            if let Some(n) = queued(s.threads[j]) {
                let m = lemma_place(s, j);
                assert(s2.queue[m] == n);
            }
        }
        if s.wake_pending(j) {
            lemma_mcs_pending(s, s2, i, j);
        }
    }
}

proof fn lemma_link(s: McsSystem, i: int, k: int)
    requires
        s.inv(),
        s.enabled(i),
        s.threads[i].phase matches McsPhase::Locking(op) && op.pc is Link,
        0 < k < s.queue.len(),
        s.owner(k) == i,
        s.place_inv(k),
        s.place_inv(k - 1),
    ensures
        s.mem.action_valid(s.action(i)),
        s.step(i).inv(),
{
    let s2 = s.step(i);
    let before = s.queue[k - 1];
    assert(s.threads[i].phase->Locking_0.pc->Link_0 == before);
    assert forall|m: int| 0 <= m < s2.queue.len() implies #[trigger] s2.place_inv(m) by {
        assert(s.place_inv(m));
        if m + 1 < s.queue.len() {
            assert(s.place_inv(m + 1));
            assert(s.queue[m + 1] == s2.queue[m + 1]);
            if s.owner(m + 1) == i {
                assert(s.queue[m + 1] == s.queue[k]);
            }
        }
        if s.owner(m) == i {
            assert(s.queue[m] == s.queue[k]);
            assert(s2.placed(i, m));
        } else {
            assert(s2.threads[s.owner(m)] == s.threads[s.owner(m)]);
            if m != k - 1 {
                assert(s.queue[m] != s.queue[k - 1]);
            }
            assert(s2.placed(s.owner(m), m));
        }
    }
    assert forall|j: int| 0 <= j < s2.threads.len() implies #[trigger] s2.thread_inv(j) by {
        assert(s.thread_inv(j));
        if s.wake_pending(j) {
            lemma_mcs_pending(s, s2, i, j);
        }
        if queued(s.threads[j]) is Some {
            let m = lemma_place(s, j);
        }
        if let Some(n) = aside(s.threads[j]) {
            assert(n != before) by {
                assert(s.queue.contains(before));
            }
        }
    }
}

proof fn lemma_grant(s: McsSystem, i: int)
    requires
        s.inv(),
        s.enabled(i),
        s.threads[i].phase matches McsPhase::Unlocking(op) && op.pc is Grant,
    ensures
        s.mem.action_valid(s.action(i)),
        s.step(i).inv(),
{
    let s2 = s.step(i);
    let k = lemma_place(s, i);
    assert(k == 0);
    let op = s.threads[i].phase->Unlocking_0;
    let next = op.pc->Grant_next;
    assert(s.queue.len() >= 2 && s.queue[1] == next);
    assert(s.place_inv(1));
    let o = s.owner(1);
    assert(o != i);
    assert forall|m: int| 0 <= m < s2.queue.len() implies #[trigger] s2.place_inv(m) by {
        assert(s2.queue[m] == s.queue[m + 1]);
        assert(s.place_inv(m + 1));
        assert(s.queue[m + 1] != s.queue[0]);
        assert(s.owner(m + 1) != i);
        if m + 1 < s2.queue.len() {
            assert(s2.queue[m + 1] == s.queue[m + 2]);
            assert(s.place_inv(m + 2));
            assert(s.queue[m + 2] != s.queue[0]);
        }
        if m > 0 {
            assert(s2.queue[m - 1] == s.queue[m]);
            assert(s.queue[m + 1] != s.queue[1]);
        }
        assert(s2.placed(s.owner(m + 1), m));
    }
    assert(s2.queue.no_duplicates());
    assert(mcs_will_wake(s2.threads[i], o));
    assert forall|j: int| 0 <= j < s2.threads.len() implies #[trigger] s2.thread_inv(j) by {
        assert(s.thread_inv(j));
        if j != i {
            if let Some(n) = queued(s.threads[j]) {
                let m = lemma_place(s, j);
                assert(m != 0);
                assert(s2.queue[m - 1] == n);
                if n == next {
                    assert(s.owner(m) == o);
                    assert(s2.wake_pending(j));
                }
            }
            if let Some(n) = aside(s.threads[j]) {
                assert(s.queue.contains(next));
                if s2.queue.contains(n) {
                    let m = choose|m: int| 0 <= m < s2.queue.len() && s2.queue[m] == n;
                    assert(s.queue[m + 1] == n);
                }
            }
        } else {
            if s2.queue.contains(op.node) {
                let m = choose|m: int| 0 <= m < s2.queue.len() && s2.queue[m] == op.node;
                assert(s.queue[m + 1] == s.queue[0]);
            }
        }
        if s.wake_pending(j) {
            lemma_mcs_pending(s, s2, i, j);
        }
    }
}

proof fn lemma_unpark(s: McsSystem, i: int, id: u64)
    requires
        s.inv(),
        s.enabled(i),
        s.threads[i].phase matches McsPhase::Unlocking(op) && op.pc == McsUnlockPc::Unpark(id),
    ensures
        s.step(i).inv(),
{
    let s2 = s.step(i);
    assert(s.thread_inv(i));
    assert forall|m: int| 0 <= m < s2.queue.len() implies #[trigger] s2.place_inv(m) by {
        assert(s.place_inv(m));
        assert(s.owner(m) != i);
        if m + 1 < s.queue.len() {
            assert(s.place_inv(m + 1));
            assert(s.owner(m + 1) != i);
        }
        assert(s2.placed(s.owner(m), m));
    }
    assert forall|j: int| 0 <= j < s2.threads.len() implies #[trigger] s2.thread_inv(j) by {
        assert(s.thread_inv(j));
        if s.wake_pending(j) {
            lemma_mcs_pending(s, s2, i, j);
        }
    }
}

proof fn lemma_free(s: McsSystem, i: int)
    requires
        s.inv(),
        s.enabled(i),
        s.threads[i].phase matches McsPhase::Unlocking(op) && op.pc is Free,
    ensures
        s.mem.action_valid(s.action(i)),
        s.step(i).inv(),
{
    let s2 = s.step(i);
    assert(s.thread_inv(i));
    let n = s.threads[i].phase->Unlocking_0.node;
    assert forall|m: int| 0 <= m < s2.queue.len() implies #[trigger] s2.place_inv(m) by {
        assert(s.place_inv(m));
        assert(s.queue.contains(s.queue[m]));
        if m + 1 < s.queue.len() {
            assert(s.place_inv(m + 1));
            assert(s.queue.contains(s.queue[m + 1]));
        }
        assert(s2.placed(s.owner(m), m));
    }
    assert forall|j: int| 0 <= j < s2.threads.len() implies #[trigger] s2.thread_inv(j) by {
        assert(s.thread_inv(j));
        if s.wake_pending(j) {
            lemma_mcs_pending(s, s2, i, j);
        }
        if queued(s.threads[j]) is Some {
            let m = lemma_place(s, j);
            assert(s.queue.contains(s.queue[m]));
        }
    }
}

/// Beginning to lock with a fresh node, beginning to unlock, and waking up for no reason keep
/// the invariant.
#[verifier::rlimit(30)]
pub proof fn law_mcs_begin(s: McsSystem, i: int)
    requires
        s.inv(),
        0 <= i < s.threads.len(),
        s.mem.nodes.len() <= usize::MAX,
    ensures
        queued(s.threads[i]) is None && aside(s.threads[i]) is None ==> s.begin_lock(i).inv(),
        s.threads[i].phase is Locking && mcs_holds(s.threads[i]) ==> s.begin_unlock(i).inv(),
        mcs_parked(s.threads[i]) ==> s.wake_spuriously(i).inv(),
{
    assert(s.thread_inv(i));
    if queued(s.threads[i]) is None && aside(s.threads[i]) is None {
        let s2 = s.begin_lock(i);
        let node = s.mem.nodes.len() as usize;
        assert(!s.queue.contains(node)) by {
            if s.queue.contains(node) {
                let k = choose|k: int| 0 <= k < s.queue.len() && s.queue[k] == node;
                assert(s.place_inv(k));
            }
        }
        assert forall|m: int| 0 <= m < s2.queue.len() implies #[trigger] s2.place_inv(m) by {
            assert(s.place_inv(m));
            if m + 1 < s.queue.len() {
                assert(s.place_inv(m + 1));
            }
            if m == 0 {
                if s.queue.len() >= 2 {
                    assert(s.place_inv(1));
                }
            }
            assert(s.owner(m) != i);
            assert(s2.placed(s.owner(m), m));
        }
        assert forall|j: int| 0 <= j < s2.threads.len() implies #[trigger] s2.thread_inv(j) by {
            assert(s.thread_inv(j));
            if s.wake_pending(j) {
                lemma_mcs_pending(s, s2, i, j);
            }
            if j != i && queued(s.threads[j]) is Some {
                let m = lemma_place(s, j);
            }
        }
    }
    if s.threads[i].phase is Locking && mcs_holds(s.threads[i]) {
        let k = lemma_place(s, i);
        lemma_quiet(s, s.begin_unlock(i), i, k);
    }
    if mcs_parked(s.threads[i]) {
        let k = lemma_place(s, i);
        lemma_quiet(s, s.wake_spuriously(i), i, k);
    }
}

/// A lock that nobody has used satisfies the invariant.
pub proof fn law_mcs_start(s: McsSystem)
    requires
        s.threads.len() <= u64::MAX,
        s.mem == (McsMem { tail: None, nodes: Seq::empty() }),
        s.queue.len() == 0,
        forall|i: int| 0 <= i < s.threads.len() ==> (#[trigger] s.threads[i]).phase is Idle,
    ensures
        s.inv(),
{
    assert forall|i: int| 0 <= i < s.threads.len() implies #[trigger] s.thread_inv(i) by {
        assert(s.threads[i].phase is Idle);
    }
}

/// At most one thread holds the lock, and it is the one at the head of the queue. As nodes join
/// the queue at its end only and leave it at its head only, the threads hold the lock in the
/// order in which their nodes came.
pub proof fn law_mcs_mutual_exclusion_in_order(s: McsSystem, i: int, j: int)
    requires
        s.inv(),
        0 <= i < s.threads.len(),
        0 <= j < s.threads.len(),
        mcs_holds(s.threads[i]),
    ensures
        s.queue.len() > 0,
        queued(s.threads[i]) == Some(s.queue[0]),
        mcs_holds(s.threads[j]) ==> i == j,
{
    let k = lemma_place(s, i);
    if mcs_holds(s.threads[j]) {
        let m = lemma_place(s, j);
    }
}

/// No hand-over is lost: a thread that sleeps although the lock was handed to it has another
/// that is about to wake it.
pub proof fn law_mcs_no_lost_wakeup(s: McsSystem, i: int)
    requires
        s.inv(),
        0 <= i < s.threads.len(),
        mcs_parked(s.threads[i]),
    ensures
        s.mem.nodes[s.threads[i].phase->Locking_0.node as int].granted ==> s.wake_pending(i),
{
    assert(s.thread_inv(i));
}

/// A locking makes its node the tail. Where there was no tail before, the lock is taken at once;
/// otherwise it links its node behind the former tail and parks until the lock was granted to
/// its node.
pub proof fn law_mcs_waits_for_its_grant(op: McsLockOp, before: usize)
    requires
        op.pc is Swap,
    ensures
        op.action() == McsAction::Swap(op.node),
        op.after(McsEvent::Node(None)).pc is Done,
        ({
            let behind = op.after(McsEvent::Node(Some(before)));
            let linked = behind.after(McsEvent::Done);
            let parked = linked.after(McsEvent::Flag(false));
            &&& behind.action() == McsAction::Link { before, node: op.node }
            &&& linked.action() == McsAction::ReadGranted(op.node)
            &&& linked.after(McsEvent::Flag(true)).pc is Done
            &&& parked.action() == McsAction::Park
            &&& parked.after(McsEvent::Done) == linked
            &&& !(behind.pc is Done) && !(linked.pc is Done) && !(parked.pc is Done)
        }),
{
}

/// An unlocking hands the lock to the node behind its own: it reads the owner, grants the lock,
/// wakes the owner and frees its own node, in this order. Where there is no node behind, it
/// clears the tail; if that fails, it waits for the node that is on its way.
pub proof fn law_mcs_hands_over(op: McsUnlockOp, next: usize, owner: u64)
    requires
        op.pc is ReadNext,
    ensures
        op.action() == McsAction::ReadNext(op.node),
        ({
            let behind = op.after(McsEvent::Node(Some(next)));
            let owned = behind.after(McsEvent::Thread(owner));
            let granted = owned.after(McsEvent::Done);
            let woken = granted.after(McsEvent::Done);
            let alone = op.after(McsEvent::Node(None));
            let late = alone.after(McsEvent::Flag(false));
            &&& behind.action() == McsAction::ReadOwner(next)
            &&& owned.action() == McsAction::Grant(next)
            &&& granted.action() == McsAction::Unpark(owner)
            &&& woken.action() == McsAction::Free(op.node)
            &&& woken.after(McsEvent::Done).pc is Done
            &&& alone.action() == McsAction::ClearTail(op.node)
            &&& alone.after(McsEvent::Flag(true)) == woken
            &&& late.action() == McsAction::ReadNext(op.node)
            &&& late.after(McsEvent::Node(None)) == late
            &&& late.after(McsEvent::Node(Some(next))) == behind
            &&& !(behind.pc is Done) && !(owned.pc is Done) && !(granted.pc is Done)
            &&& !(woken.pc is Done) && !(alone.pc is Done) && !(late.pc is Done)
        }),
{
}

/// What each operation does to the nodes: it changes the one mark that it names, and nothing of
/// any other node.
pub proof fn law_mcs_accesses(m: McsMem, n: usize, to: usize, k: int)
    requires
        n < m.nodes.len(),
        0 <= k < m.nodes.len(),
    ensures
        m.after(McsAction::Swap(n)).tail == Some(n),
        m.after(McsAction::Swap(n)).nodes == m.nodes,
        m.event(McsAction::Swap(n)) == McsEvent::Node(m.tail),
        ({
            let linked = m.after(McsAction::Link { before: n, node: to });
            &&& linked.nodes[n as int] == McsNode { next: Some(to), ..m.nodes[n as int] }
            &&& linked.tail == m.tail
            &&& k != n ==> linked.nodes[k] == m.nodes[k]
        }),
        ({
            let granted = m.after(McsAction::Grant(n));
            &&& granted.nodes[n as int] == McsNode { granted: true, ..m.nodes[n as int] }
            &&& granted.tail == m.tail
            &&& k != n ==> granted.nodes[k] == m.nodes[k]
        }),
        ({
            let freed = m.after(McsAction::Free(n));
            &&& freed.nodes[n as int] == McsNode { freed: true, ..m.nodes[n as int] }
            &&& freed.tail == m.tail
            &&& k != n ==> freed.nodes[k] == m.nodes[k]
        }),
        m.tail == Some(n) ==> m.after(McsAction::ClearTail(n)).tail is None,
        m.tail != Some(n) ==> m.after(McsAction::ClearTail(n)).tail == m.tail,
        m.after(McsAction::ClearTail(n)).nodes == m.nodes,
        m.event(McsAction::ClearTail(n)) == McsEvent::Flag(m.tail == Some(n)),
        m.event(McsAction::ReadGranted(n)) == McsEvent::Flag(m.nodes[n as int].granted),
        m.event(McsAction::ReadNext(n)) == McsEvent::Node(m.nodes[n as int].next),
        m.event(McsAction::ReadOwner(n)) == McsEvent::Thread(m.nodes[n as int].owner),
        m.after(McsAction::ReadGranted(n)) == m,
        m.after(McsAction::ReadNext(n)) == m,
        m.after(McsAction::ReadOwner(n)) == m,
{
}

} // verus!
