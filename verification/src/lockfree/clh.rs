//! A queue lock in which each thread waits on the node of the thread before it.
//!
//! Who wants the lock makes a node that says so, puts it at the tail of the queue in one
//! exchange, and waits until the node that stood there before says that its owner has let go.
//! Letting go is one write to the own node. The node before is then nobody else's concern and is
//! freed; the own node is freed by whoever comes next.

use vstd::prelude::*;

verus! {

/// A node: whether its owner wants or holds the lock, and whether the node has been freed.
#[derive(Clone, Copy, Debug, PartialEq, Eq, Structural)]
pub struct ClhNode {
    pub locked: bool,
    pub freed: bool,
}

/// What a thread at a lock wants done.
#[derive(Clone, Copy, Debug, PartialEq, Eq, Structural)]
pub enum ClhAction {
    /// Put the node at the tail and learn which stood there.
    Swap(usize),
    /// Read whether the owner of the node has let go.
    Look(usize),
    /// Mark the node as let go.
    Open(usize),
    /// Free the node.
    Free(usize),
}

/// What a thread at a lock is answered.
#[derive(Clone, Copy, Debug, PartialEq, Eq, Structural)]
pub enum ClhEvent {
    /// The node that stood at the tail, if there was one.
    Before(Option<usize>),
    /// Whether the owner of the node still wants or holds the lock.
    Locked(bool),
    /// Nothing to tell.
    Done,
}

/// The memory of a lock: the tail, and every node ever made.
#[verifier::ext_equal]
pub struct ClhMem {
    pub tail: Option<usize>,
    pub nodes: Seq<ClhNode>,
}

impl ClhMem {
    /// Whether an action reaches only nodes that are there.
    pub open spec fn action_valid(self, a: ClhAction) -> bool {
        match a {
            ClhAction::Swap(n) => n < self.nodes.len() && !self.nodes[n as int].freed,
            ClhAction::Look(n) => n < self.nodes.len() && !self.nodes[n as int].freed,
            ClhAction::Open(n) => n < self.nodes.len() && !self.nodes[n as int].freed,
            ClhAction::Free(n) => n < self.nodes.len() && !self.nodes[n as int].freed,
        }
    }

    /// The memory after an action.
    pub open spec fn after(self, a: ClhAction) -> ClhMem {
        match a {
            ClhAction::Swap(n) => ClhMem { tail: Some(n), ..self },
            ClhAction::Look(_) => self,
            ClhAction::Open(n) => ClhMem {
                nodes: self.nodes.update(
                    n as int,
                    ClhNode { locked: false, ..self.nodes[n as int] },
                ),
                ..self
            },
            ClhAction::Free(n) => ClhMem {
                nodes: self.nodes.update(
                    n as int,
                    ClhNode { freed: true, ..self.nodes[n as int] },
                ),
                ..self
            },
        }
    }

    /// What an action is answered.
    pub open spec fn event(self, a: ClhAction) -> ClhEvent {
        match a {
            ClhAction::Swap(_) => ClhEvent::Before(self.tail),
            ClhAction::Look(n) => ClhEvent::Locked(self.nodes[n as int].locked),
            _ => ClhEvent::Done,
        }
    }
}

/// Where a thread that locks stands.
#[derive(Clone, Copy, Debug, PartialEq, Eq, Structural)]
pub enum ClhLockPc {
    /// About to put its node at the tail.
    Swap,
    /// Waiting for the owner of the node before.
    Spin(usize),
    /// The lock is held; the node before, if there is one, is to be freed.
    Done(Option<usize>),
}

/// One locking, with the node made for it.
#[derive(Clone, Copy, Debug, PartialEq, Eq, Structural)]
pub struct ClhLockOp {
    pub node: usize,
    pub pc: ClhLockPc,
}

impl ClhLockOp {
    /// What an unfinished locking wants done next.
    pub open spec fn action(self) -> ClhAction {
        match self.pc {
            ClhLockPc::Spin(p) => ClhAction::Look(p),
            _ => ClhAction::Swap(self.node),
        }
    }

    /// Where a locking stands after an answer. An answer of the wrong kind changes nothing.
    pub open spec fn after(self, e: ClhEvent) -> ClhLockOp {
        let pc = match (self.pc, e) {
            (ClhLockPc::Swap, ClhEvent::Before(b)) => match b {
                Some(p) => ClhLockPc::Spin(p),
                None => ClhLockPc::Done(None),
            },
            (ClhLockPc::Spin(p), ClhEvent::Locked(l)) => if l {
                ClhLockPc::Spin(p)
            } else {
                ClhLockPc::Done(Some(p))
            },
            (pc, _) => pc,
        };
        ClhLockOp { node: self.node, pc }
    }

    /// A locking with a fresh node.
    pub fn start(node: usize) -> (op: ClhLockOp)
        ensures
            op == (ClhLockOp { node, pc: ClhLockPc::Swap }),
    {
        ClhLockOp { node, pc: ClhLockPc::Swap }
    }

    /// What to do next, or `None` when the lock is held.
    pub fn next_action(&self) -> (a: Option<ClhAction>)
        ensures
            a == (if self.pc is Done { None } else { Some(self.action()) }),
    {
        match self.pc {
            ClhLockPc::Swap => Some(ClhAction::Swap(self.node)),
            ClhLockPc::Spin(p) => Some(ClhAction::Look(p)),
            ClhLockPc::Done(_) => None,
        }
    }

    /// Takes the answer to what was done.
    pub fn on_event(&mut self, e: ClhEvent)
        ensures
            *final(self) == old(self).after(e),
    {
        let pc = match (self.pc, e) {
            (ClhLockPc::Swap, ClhEvent::Before(b)) => match b {
                Some(p) => ClhLockPc::Spin(p),
                None => ClhLockPc::Done(None),
            },
            (ClhLockPc::Spin(p), ClhEvent::Locked(l)) => {
                if l {
                    ClhLockPc::Spin(p)
                } else {
                    ClhLockPc::Done(Some(p))
                }
            },
            (pc, _) => pc,
        };
        self.pc = pc;
    }
}

/// Where a thread that unlocks stands.
#[derive(Clone, Copy, Debug, PartialEq, Eq, Structural)]
pub enum ClhUnlockPc {
    /// About to let go.
    Open,
    /// About to free the node before.
    Free(usize),
    /// Nothing is left to do.
    Done,
}

/// One unlocking: the own node, and the node before.
#[derive(Clone, Copy, Debug, PartialEq, Eq, Structural)]
pub struct ClhUnlockOp {
    pub node: usize,
    pub before: Option<usize>,
    pub pc: ClhUnlockPc,
}

impl ClhUnlockOp {
    /// What an unfinished unlocking wants done next.
    pub open spec fn action(self) -> ClhAction {
        match self.pc {
            ClhUnlockPc::Free(p) => ClhAction::Free(p),
            _ => ClhAction::Open(self.node),
        }
    }

    /// Where an unlocking stands after an answer. An answer of the wrong kind changes nothing.
    pub open spec fn after(self, e: ClhEvent) -> ClhUnlockOp {
        let pc = match (self.pc, e) {
            (ClhUnlockPc::Open, ClhEvent::Done) => match self.before {
                Some(p) => ClhUnlockPc::Free(p),
                None => ClhUnlockPc::Done,
            },
            (ClhUnlockPc::Free(_), ClhEvent::Done) => ClhUnlockPc::Done,
            (pc, _) => pc,
        };
        ClhUnlockOp { node: self.node, before: self.before, pc }
    }

    /// The unlocking of a lock that was taken with `guard`.
    pub fn start(guard: ClhGuard) -> (op: ClhUnlockOp)
        ensures
            op == (ClhUnlockOp { node: guard.node, before: guard.before, pc: ClhUnlockPc::Open }),
    {
        ClhUnlockOp { node: guard.node, before: guard.before, pc: ClhUnlockPc::Open }
    }

    /// What to do next, or `None` when the unlocking is finished.
    pub fn next_action(&self) -> (a: Option<ClhAction>)
        ensures
            a == (if self.pc is Done { None } else { Some(self.action()) }),
    {
        match self.pc {
            ClhUnlockPc::Open => Some(ClhAction::Open(self.node)),
            ClhUnlockPc::Free(p) => Some(ClhAction::Free(p)),
            ClhUnlockPc::Done => None,
        }
    }

    /// Takes the answer to what was done.
    pub fn on_event(&mut self, e: ClhEvent)
        ensures
            *final(self) == old(self).after(e),
    {
        let pc = match (self.pc, e) {
            (ClhUnlockPc::Open, ClhEvent::Done) => match self.before {
                Some(p) => ClhUnlockPc::Free(p),
                None => ClhUnlockPc::Done,
            },
            (ClhUnlockPc::Free(_), ClhEvent::Done) => ClhUnlockPc::Done,
            (pc, _) => pc,
        };
        self.pc = pc;
    }
}

/// What the holder of a lock remembers: its node, and the node before.
pub struct ClhGuard {
    pub node: usize,
    pub before: Option<usize>,
}

/// The tail of the queue and the nodes.
pub struct ClhLock {
    tail: Option<usize>,
    nodes: Vec<ClhNode>,
}

impl View for ClhLock {
    type V = ClhMem;

    closed spec fn view(&self) -> ClhMem {
        ClhMem { tail: self.tail, nodes: self.nodes@ }
    }
}

impl ClhLock {
    /// That nobody wants or holds the lock, and the node at the tail is still there.
    pub open spec fn is_free(self) -> bool {
        self@.tail matches Some(t) ==> t < self@.nodes.len() && !self@.nodes[t as int].freed
            && !self@.nodes[t as int].locked
    }

    /// A lock that nobody holds.
    pub fn new() -> (l: ClhLock)
        ensures
            l@ == (ClhMem { tail: None, nodes: Seq::empty() }),
            l.is_free(),
    {
        ClhLock { tail: None, nodes: Vec::new() }
    }

    /// Makes a node that says that its owner wants the lock, and begins to lock with it.
    pub fn begin_lock(&mut self) -> (op: ClhLockOp)
        ensures
            op == (ClhLockOp { node: old(self)@.nodes.len() as usize, pc: ClhLockPc::Swap }),
            old(self)@.nodes.len() <= usize::MAX,
            final(self)@ == (ClhMem {
                nodes: old(self)@.nodes.push(ClhNode { locked: true, freed: false }),
                ..old(self)@
            }),
    {
        let node: usize = self.nodes.len();
        self.nodes.push(ClhNode { locked: true, freed: false });
        ClhLockOp::start(node)
    }

    /// Performs one action.
    pub fn perform(&mut self, a: ClhAction) -> (e: ClhEvent)
        requires
            old(self)@.action_valid(a),
        ensures
            final(self)@ == old(self)@.after(a),
            e == old(self)@.event(a),
    {
        match a {
            ClhAction::Swap(n) => {
                let before = self.tail;
                self.tail = Some(n);
                ClhEvent::Before(before)
            },
            ClhAction::Look(n) => ClhEvent::Locked(self.nodes[n].locked),
            ClhAction::Open(n) => {
                self.nodes[n].locked = false;
                ClhEvent::Done
            },
            ClhAction::Free(n) => {
                self.nodes[n].freed = true;
                ClhEvent::Done
            },
        }
    }

    /// Locks. A single thread can only take a lock that is free.
    pub fn lock(&mut self) -> (g: ClhGuard)
        requires
            old(self).is_free(),
        ensures
            g.node == old(self)@.nodes.len(),
            g.before == old(self)@.tail,
            final(self)@.tail == Some(g.node),
            final(self)@.nodes == old(self)@.nodes.push(ClhNode { locked: true, freed: false }),
    {
        let mut op = self.begin_lock();
        let e = self.perform(ClhAction::Swap(op.node));
        op.on_event(e);
        if let Some(a) = op.next_action() {
            let e = self.perform(a);
            op.on_event(e);
        }
        match op.pc {
            ClhLockPc::Done(before) => ClhGuard { node: op.node, before },
            _ => ClhGuard { node: op.node, before: None },
        }
    }

    /// Unlocks: lets go of the own node and frees the one before.
    pub fn unlock(&mut self, guard: ClhGuard)
        requires
            guard.node < old(self)@.nodes.len(),
            !old(self)@.nodes[guard.node as int].freed,
            guard.before matches Some(p) ==> p < old(self)@.nodes.len() && p != guard.node
                && !old(self)@.nodes[p as int].freed,
        ensures
            final(self)@ == (match guard.before {
                Some(p) => old(self)@.after(ClhAction::Open(guard.node)).after(ClhAction::Free(p)),
                None => old(self)@.after(ClhAction::Open(guard.node)),
            }),
    {
        let mut op = ClhUnlockOp::start(guard);
        let e = self.perform(ClhAction::Open(op.node));
        op.on_event(e);
        if let Some(a) = op.next_action() {
            let e = self.perform(a);
            op.on_event(e);
        }
    }
}

impl Default for ClhLock {
    fn default() -> (l: ClhLock)
        ensures
            l@ == (ClhMem { tail: None, nodes: Seq::empty() }),
            l.is_free(),
    {
        ClhLock::new()
    }
}

/// What a thread that uses a lock is doing.
pub enum ClhThread {
    Idle,
    Locking(ClhLockOp),
    Unlocking(ClhUnlockOp),
}

/// A lock, the nodes in the order in which they came to the tail, how many owners have let go,
/// and the threads.
pub struct ClhSystem {
    pub mem: ClhMem,
    pub order: Seq<usize>,
    pub gone: nat,
    pub threads: Seq<ClhThread>,
}

/// The node of a thread that has put one at the tail and has not finished with it.
pub open spec fn node_of(t: ClhThread) -> Option<usize> {
    match t {
        ClhThread::Idle => None,
        ClhThread::Locking(op) => if op.pc is Swap {
            None
        } else {
            Some(op.node)
        },
        ClhThread::Unlocking(op) => if op.pc is Done {
            None
        } else {
            Some(op.node)
        },
    }
}

/// Whether a thread holds the lock.
pub open spec fn clh_holds(t: ClhThread) -> bool {
    match t {
        ClhThread::Idle => false,
        ClhThread::Locking(op) => op.pc is Done,
        ClhThread::Unlocking(op) => op.pc is Open,
    }
}

impl ClhSystem {
    /// The node that came before the one at place `k`.
    pub open spec fn before(self, k: int) -> Option<usize> {
        if k == 0 {
            None
        } else {
            Some(self.order[k - 1])
        }
    }

    /// What holds of a thread whose node came at place `k`.
    pub open spec fn placed(self, t: ClhThread, k: int) -> bool {
        &&& 0 <= k < self.order.len()
        &&& node_of(t) == Some(self.order[k])
        &&& k > 0 ==> !self.mem.nodes[self.order[k - 1] as int].freed
        &&& match t {
            ClhThread::Idle => false,
            ClhThread::Locking(op) => match op.pc {
                ClhLockPc::Swap => false,
                ClhLockPc::Spin(p) => k >= self.gone && self.before(k) == Some(p),
                ClhLockPc::Done(b) => k == self.gone && b == self.before(k),
            },
            ClhThread::Unlocking(op) => {
                &&& op.before == self.before(k)
                &&& match op.pc {
                    ClhUnlockPc::Open => k == self.gone,
                    ClhUnlockPc::Free(p) => k < self.gone && self.before(k) == Some(p),
                    ClhUnlockPc::Done => false,
                }
            },
        }
    }

    /// What holds of a thread.
    pub open spec fn thread_inv(self, t: ClhThread) -> bool {
        match t {
            ClhThread::Locking(op) if op.pc is Swap => {
                &&& op.node < self.mem.nodes.len()
                &&& self.mem.nodes[op.node as int] == (ClhNode { locked: true, freed: false })
                &&& !self.order.contains(op.node)
            },
            _ => node_of(t) is Some ==> exists|k: int| #[trigger] self.placed(t, k),
        }
    }

    /// The node that a thread has made or put at the tail.
    pub open spec fn owns(t: ClhThread, n: usize) -> bool {
        match t {
            ClhThread::Idle => false,
            ClhThread::Locking(op) => op.node == n,
            ClhThread::Unlocking(op) => op.node == n && !(op.pc is Done),
        }
    }

    /// What holds at any moment.
    pub open spec fn inv(self) -> bool {
        &&& self.gone <= self.order.len()
        &&& self.mem.tail == (if self.order.len() == 0 {
            None
        } else {
            Some(self.order.last())
        })
        &&& self.order.no_duplicates()
        &&& forall|k: int|
            0 <= k < self.order.len() ==> {
                &&& (#[trigger] self.order[k]) < self.mem.nodes.len()
                &&& self.mem.nodes[self.order[k] as int].locked == (k >= self.gone)
                &&& self.mem.nodes[self.order[k] as int].freed ==> k + 1 < self.gone
            }
        &&& forall|i: int| 0 <= i < self.threads.len() ==> self.thread_inv(#[trigger] self.threads[i])
        &&& forall|i: int, j: int, n: usize|
            0 <= i < self.threads.len() && 0 <= j < self.threads.len() && i != j
                && #[trigger] Self::owns(self.threads[i], n) ==> !#[trigger] Self::owns(
                self.threads[j],
                n,
            )
    }

    /// Whether thread `i` has something to do at the lock.
    pub open spec fn enabled(self, i: int) -> bool {
        &&& 0 <= i < self.threads.len()
        &&& match self.threads[i] {
            ClhThread::Idle => false,
            ClhThread::Locking(op) => !(op.pc is Done),
            ClhThread::Unlocking(op) => !(op.pc is Done),
        }
    }

    /// What thread `i` wants done next.
    pub open spec fn action(self, i: int) -> ClhAction {
        match self.threads[i] {
            ClhThread::Unlocking(op) => op.action(),
            ClhThread::Locking(op) => op.action(),
            ClhThread::Idle => ClhAction::Look(0),
        }
    }

    /// The system after thread `i` has done what it wants done next.
    pub open spec fn step(self, i: int) -> ClhSystem {
        let a = self.action(i);
        let e = self.mem.event(a);
        ClhSystem {
            mem: self.mem.after(a),
            order: match a {
                ClhAction::Swap(n) => self.order.push(n),
                _ => self.order,
            },
            gone: if a is Open {
                self.gone + 1
            } else {
                self.gone
            },
            threads: self.threads.update(
                i,
                match self.threads[i] {
                    ClhThread::Idle => ClhThread::Idle,
                    ClhThread::Locking(op) => ClhThread::Locking(op.after(e)),
                    ClhThread::Unlocking(op) => ClhThread::Unlocking(op.after(e)),
                },
            ),
        }
    }

    /// The system after thread `i`, which was at rest, has begun to lock with a fresh node.
    pub open spec fn begin_lock(self, i: int) -> ClhSystem {
        let node = self.mem.nodes.len() as usize;
        ClhSystem {
            mem: ClhMem {
                nodes: self.mem.nodes.push(ClhNode { locked: true, freed: false }),
                ..self.mem
            },
            threads: self.threads.update(
                i,
                ClhThread::Locking(ClhLockOp { node, pc: ClhLockPc::Swap }),
            ),
            ..self
        }
    }

    /// The system after thread `i`, which holds the lock, has begun to unlock.
    pub open spec fn begin_unlock(self, i: int) -> ClhSystem {
        let op = self.threads[i]->Locking_0;
        ClhSystem {
            threads: self.threads.update(
                i,
                ClhThread::Unlocking(
                    ClhUnlockOp { node: op.node, before: op.pc->Done_0, pc: ClhUnlockPc::Open },
                ),
            ),
            ..self
        }
    }
}

/// A thread whose node is placed stays so while its own node and the places around it do.
proof fn lemma_stays(s: ClhSystem, s2: ClhSystem, t: ClhThread)
    requires
        s.thread_inv(t),
        s.mem.nodes.len() <= s2.mem.nodes.len(),
        s.order.len() <= s2.order.len(),
        forall|k: int| 0 <= k < s.order.len() ==> s2.order[k] == s.order[k],
        forall|k: int|
            #![trigger s.order[k]]
            0 <= k < s.order.len() && s.placed(t, k) ==> {
                &&& s2.gone == s.gone || k != s.gone
                &&& k > 0 ==> s.mem.nodes[s.order[k - 1] as int].freed
                    == s2.mem.nodes[s.order[k - 1] as int].freed
            },
        s2.gone == s.gone || s2.gone == s.gone + 1,
        t matches ClhThread::Locking(op) ==> op.pc is Swap ==> s2.mem.nodes[op.node as int]
            == s.mem.nodes[op.node as int] && !s2.order.contains(op.node),
    ensures
        s2.thread_inv(t),
{
    match t {
        ClhThread::Locking(op) if op.pc is Swap => {},
        _ => {
            if node_of(t) is Some {
                let k = choose|k: int| #[trigger] s.placed(t, k);
                assert(s.order[k] == s2.order[k]);
                assert(s2.placed(t, k));
            }
        },
    }
}

/// However threads interleave at a lock, the invariant stays, and nobody touches a node that
/// has been freed.
#[verifier::rlimit(50)]
pub proof fn law_clh_step(s: ClhSystem, i: int)
    requires
        s.inv(),
        s.enabled(i),
    ensures
        s.mem.action_valid(s.action(i)),
        s.step(i).inv(),
{
    let s2 = s.step(i);
    let t = s.threads[i];
    assert(s.thread_inv(t));
    assert forall|x: int, y: int, n: usize|
        0 <= x < s2.threads.len() && 0 <= y < s2.threads.len() && x != y && #[trigger] ClhSystem::owns(
            s2.threads[x],
            n,
        ) implies !#[trigger] ClhSystem::owns(s2.threads[y], n) by {
        assert(ClhSystem::owns(s2.threads[i], n) ==> ClhSystem::owns(s.threads[i], n));
        assert(ClhSystem::owns(s.threads[x], n));
        if ClhSystem::owns(s2.threads[y], n) {
            assert(ClhSystem::owns(s.threads[y], n));
        }
    }
    match t {
        ClhThread::Idle => {},
        ClhThread::Locking(op) => match op.pc {
            ClhLockPc::Swap => {
                let len = s.order.len() as int;
                assert(s2.order[len] == op.node);
                if len > 0 {
                    assert(s.order[len - 1] == s.order.last());
                    assert(s2.order[len - 1] == s.order[len - 1]);
                }
                assert(s2.placed(s2.threads[i], len)) by {
                    if len == 0 {
                        assert(s.gone == 0);
                    }
                }
                assert forall|k: int| 0 <= k < s2.threads.len() implies s2.thread_inv(
                    #[trigger] s2.threads[k],
                ) by {
                    if k != i {
                        assert(s.thread_inv(s.threads[k]));
                        assert(ClhSystem::owns(t, op.node));
                        if let ClhThread::Locking(other) = s.threads[k] {
                            assert(ClhSystem::owns(s.threads[k], other.node));
                        }
                        lemma_stays(s, s2, s.threads[k]);
                    }
                }
                assert forall|k: int| 0 <= k < s2.order.len() implies {
                    &&& (#[trigger] s2.order[k]) < s2.mem.nodes.len()
                    &&& s2.mem.nodes[s2.order[k] as int].locked == (k >= s2.gone)
                    &&& s2.mem.nodes[s2.order[k] as int].freed ==> k + 1 < s2.gone
                } by {
                    if k < len {
                        assert(s.order[k] == s2.order[k]);
                    }
                }
            },
            ClhLockPc::Spin(p) => {
                let k = choose|k: int| #[trigger] s.placed(t, k);
                assert(s.order[k - 1] == p);
                assert(s2.placed(s2.threads[i], k));
                assert forall|m: int| 0 <= m < s2.threads.len() implies s2.thread_inv(
                    #[trigger] s2.threads[m],
                ) by {
                    if m != i {
                        assert(s.thread_inv(s.threads[m]));
                        lemma_stays(s, s2, s.threads[m]);
                    }
                }
            },
            ClhLockPc::Done(_) => {},
        },
        ClhThread::Unlocking(op) => {
            let k = choose|k: int| #[trigger] s.placed(t, k);
            assert(s.order[k] == op.node);
            assert(ClhSystem::owns(t, op.node));
            match op.pc {
                ClhUnlockPc::Open => {
                    if k > 0 {
                        assert(s2.placed(s2.threads[i], k)) by {
                            assert(s.order[k - 1] != s.order[k]);
                        }
                    }
                    assert forall|m: int| 0 <= m < s2.threads.len() implies s2.thread_inv(
                        #[trigger] s2.threads[m],
                    ) by {
                        if m != i {
                            assert(s.thread_inv(s.threads[m]));
                            assert forall|x: int|
                                #![trigger s.order[x]]
                                0 <= x < s.order.len() && s.placed(s.threads[m], x) implies {
                                &&& s2.gone == s.gone || x != s.gone
                                &&& x > 0 ==> s.mem.nodes[s.order[x - 1] as int].freed
                                    == s2.mem.nodes[s.order[x - 1] as int].freed
                            } by {
                                assert(ClhSystem::owns(s.threads[m], s.order[x]));
                            }
                            if let ClhThread::Locking(other) = s.threads[m] {
                                assert(ClhSystem::owns(s.threads[m], other.node));
                            }
                            lemma_stays(s, s2, s.threads[m]);
                        }
                    }
                },
                ClhUnlockPc::Free(p) => {
                    assert(s.order[k - 1] == p);
                    assert forall|m: int| 0 <= m < s2.threads.len() implies s2.thread_inv(
                        #[trigger] s2.threads[m],
                    ) by {
                        if m != i {
                            assert(s.thread_inv(s.threads[m]));
                            assert forall|x: int|
                                #![trigger s.order[x]]
                                0 <= x < s.order.len() && s.placed(s.threads[m], x) implies {
                                &&& s2.gone == s.gone || x != s.gone
                                &&& x > 0 ==> s.mem.nodes[s.order[x - 1] as int].freed
                                    == s2.mem.nodes[s.order[x - 1] as int].freed
                            } by {
                                assert(ClhSystem::owns(s.threads[m], s.order[x]));
                                assert(x != k);
                                if x > 0 {
                                    assert(s.order[x - 1] != s.order[k - 1]);
                                }
                            }
                            if let ClhThread::Locking(other) = s.threads[m] {
                                assert(ClhSystem::owns(s.threads[m], other.node));
                            }
                            lemma_stays(s, s2, s.threads[m]);
                        }
                    }
                },
                ClhUnlockPc::Done => {},
            }
        },
    }
}

/// Beginning to lock with a fresh node, and beginning to unlock, keep the invariant.
pub proof fn law_clh_begin(s: ClhSystem, i: int)
    requires
        s.inv(),
        0 <= i < s.threads.len(),
        s.mem.nodes.len() <= usize::MAX,
    ensures
        node_of(s.threads[i]) is None && !s.enabled(i) ==> s.begin_lock(i).inv(),
        s.threads[i] is Locking && clh_holds(s.threads[i]) ==> s.begin_unlock(i).inv(),
{
    let t = s.threads[i];
    assert(s.thread_inv(t));
    if node_of(t) is None && !s.enabled(i) {
        let s2 = s.begin_lock(i);
        let node = s.mem.nodes.len() as usize;
        assert(!s.order.contains(node)) by {
            if s.order.contains(node) {
                let k = choose|k: int| 0 <= k < s.order.len() && s.order[k] == node;
                assert(s.order[k] < s.mem.nodes.len());
            }
        }
        assert forall|k: int| 0 <= k < s2.threads.len() implies s2.thread_inv(
            #[trigger] s2.threads[k],
        ) by {
            if k != i {
                assert(s.thread_inv(s.threads[k]));
                assert forall|x: int|
                    #![trigger s.order[x]]
                    0 <= x < s.order.len() && s.placed(s.threads[k], x) implies {
                    &&& s2.gone == s.gone || x != s.gone
                    &&& x > 0 ==> s.mem.nodes[s.order[x - 1] as int].freed
                        == s2.mem.nodes[s.order[x - 1] as int].freed
                } by {
                    if x > 0 {
                        assert(s.order[x - 1] < s.mem.nodes.len());
                    }
                }
                lemma_stays(s, s2, s.threads[k]);
            }
        }
        assert forall|k: int| 0 <= k < s.threads.len() && k != i implies !ClhSystem::owns(
            #[trigger] s.threads[k],
            node,
        ) by {
            assert(s.thread_inv(s.threads[k]));
            if ClhSystem::owns(s.threads[k], node) {
                if node_of(s.threads[k]) is Some {
                    let x = choose|x: int| #[trigger] s.placed(s.threads[k], x);
                    assert(s.order[x] < s.mem.nodes.len());
                }
            }
        }
    }
    if t is Locking && clh_holds(t) {
        let s2 = s.begin_unlock(i);
        let k = choose|k: int| #[trigger] s.placed(t, k);
        assert(s2.placed(s2.threads[i], k));
        assert forall|m: int| 0 <= m < s2.threads.len() implies s2.thread_inv(
            #[trigger] s2.threads[m],
        ) by {
            if m != i {
                assert(s.thread_inv(s.threads[m]));
                lemma_stays(s, s2, s.threads[m]);
            }
        }
        let op = t->Locking_0;
        assert forall|a: int, b: int, n: usize|
            0 <= a < s2.threads.len() && 0 <= b < s2.threads.len() && a != b
                && #[trigger] ClhSystem::owns(s2.threads[a], n) implies !#[trigger] ClhSystem::owns(
            s2.threads[b],
            n,
        ) by {
            assert(ClhSystem::owns(s2.threads[i], n) == ClhSystem::owns(s.threads[i], n));
            assert(ClhSystem::owns(s.threads[a], n));
        }
    }
}

/// A lock that nobody has used satisfies the invariant.
pub proof fn law_clh_start(s: ClhSystem)
    requires
        s.mem == (ClhMem { tail: None, nodes: Seq::empty() }),
        s.order.len() == 0,
        s.gone == 0,
        forall|i: int| 0 <= i < s.threads.len() ==> #[trigger] s.threads[i] is Idle,
    ensures
        s.inv(),
{
    assert forall|i: int| 0 <= i < s.threads.len() implies s.thread_inv(#[trigger] s.threads[i]) by {
        assert(s.threads[i] is Idle);
    }
}

/// At most one thread holds the lock, and it is the one whose turn it is: the threads hold the
/// lock in the order in which their nodes came to the tail.
pub proof fn law_clh_mutual_exclusion_in_order(s: ClhSystem, i: int, j: int)
    requires
        s.inv(),
        0 <= i < s.threads.len(),
        0 <= j < s.threads.len(),
        clh_holds(s.threads[i]),
    ensures
        s.gone < s.order.len(),
        node_of(s.threads[i]) == Some(s.order[s.gone as int]),
        clh_holds(s.threads[j]) ==> i == j,
{
    assert(s.thread_inv(s.threads[i]));
    assert(s.thread_inv(s.threads[j]));
    let k = choose|k: int| #[trigger] s.placed(s.threads[i], k);
    if clh_holds(s.threads[j]) {
        let m = choose|m: int| #[trigger] s.placed(s.threads[j], m);
        assert(ClhSystem::owns(s.threads[i], s.order[k]));
        assert(ClhSystem::owns(s.threads[j], s.order[m]));
    }
}

/// A locking makes its node the tail. Where there was no tail before, the lock is taken at once;
/// otherwise it looks at the node before its own until that is open.
pub proof fn law_clh_waits_for_the_one_before(op: ClhLockOp, p: usize)
    requires
        op.pc is Swap,
    ensures
        op.action() == ClhAction::Swap(op.node),
        op.after(ClhEvent::Before(None)).pc == ClhLockPc::Done(None),
        ({
            let waiting = op.after(ClhEvent::Before(Some(p)));
            &&& !(waiting.pc is Done)
            &&& waiting.action() == ClhAction::Look(p)
            &&& waiting.after(ClhEvent::Locked(true)) == waiting
            &&& waiting.after(ClhEvent::Locked(false)).pc == ClhLockPc::Done(Some(p))
        }),
{
}

/// An unlocking opens its own node first and then frees the node before it, if there was one.
pub proof fn law_clh_opens_then_frees(op: ClhUnlockOp)
    requires
        op.pc is Open,
    ensures
        op.action() == ClhAction::Open(op.node),
        op.before is None ==> op.after(ClhEvent::Done).pc is Done,
        op.before matches Some(p) ==> {
            let opened = op.after(ClhEvent::Done);
            &&& !(opened.pc is Done)
            &&& opened.action() == ClhAction::Free(p)
            &&& opened.after(ClhEvent::Done).pc is Done
        },
{
}

/// What each operation does to the nodes: a swap moves only the tail and tells the former one, a
/// look tells whether the node is locked, and opening or freeing a node changes that one mark.
pub proof fn law_clh_accesses(m: ClhMem, n: usize, k: int)
    requires
        n < m.nodes.len(),
        0 <= k < m.nodes.len(),
    ensures
        m.after(ClhAction::Swap(n)).tail == Some(n),
        m.after(ClhAction::Swap(n)).nodes == m.nodes,
        m.event(ClhAction::Swap(n)) == ClhEvent::Before(m.tail),
        m.after(ClhAction::Look(n)) == m,
        m.event(ClhAction::Look(n)) == ClhEvent::Locked(m.nodes[n as int].locked),
        !m.after(ClhAction::Open(n)).nodes[n as int].locked,
        m.after(ClhAction::Open(n)).nodes[n as int].freed == m.nodes[n as int].freed,
        m.after(ClhAction::Free(n)).nodes[n as int].freed,
        m.after(ClhAction::Free(n)).nodes[n as int].locked == m.nodes[n as int].locked,
        m.after(ClhAction::Open(n)).tail == m.tail,
        m.after(ClhAction::Free(n)).tail == m.tail,
        k != n ==> m.after(ClhAction::Open(n)).nodes[k] == m.nodes[k],
        k != n ==> m.after(ClhAction::Free(n)).nodes[k] == m.nodes[k],
{
}

} // verus!
