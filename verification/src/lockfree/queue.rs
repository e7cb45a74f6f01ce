//! A multi-producer multi-consumer FIFO queue after Michael and Scott.
//!
//! The queue is a linked list that always keeps one dummy node at its front. `head` is
//! the dummy, `tail` is the last node or, for a moment, the one before it. An enqueue
//! takes two exchanges: it links its node behind the tail, then it moves the tail on.
//! Whoever finds the tail lagging moves it on first, so that nobody waits for anybody.
//!
//! [`EnqueueOp`] and [`DequeueOp`] decide, one atomic operation after another, what a
//! thread does next. [`Queue`] is the memory that they work on. Nodes are never freed while
//! the queue lives, so an address never stands for two nodes.

use vstd::prelude::*;

verus! {

/// One atomic operation on the memory of a queue. Nodes are named by their address.
#[derive(Clone, Copy, Debug, PartialEq, Eq, Structural)]
pub enum QueueAction {
    /// Read the head.
    LoadHead,
    /// Read the tail.
    LoadTail,
    /// Read the link of a node.
    LoadNext(usize),
    /// Set the link of `node` to `new` if it is null.
    CasNext { node: usize, new: usize },
    /// Move the head from `current` to `new`.
    CasHead { current: usize, new: usize },
    /// Move the tail from `current` to `new`.
    CasTail { current: usize, new: usize },
}

/// What an operation on the memory of a queue gave back.
#[derive(Clone, Copy, Debug, PartialEq, Eq)]
pub enum QueueEvent {
    /// The address that was read.
    Addr(usize),
    /// The link that was read; `None` is null.
    Link(Option<usize>),
    /// Whether the exchange took place.
    Exchanged(bool),
}

/// The links, the head and the tail of a queue.
#[verifier::ext_equal]
pub struct QueueMem {
    pub next: Seq<Option<usize>>,
    pub head: usize,
    pub tail: usize,
}

/// The memory after an operation.
pub open spec fn mem_after(m: QueueMem, a: QueueAction) -> QueueMem {
    match a {
        QueueAction::CasNext { node, new } => if m.next[node as int] is None {
            QueueMem { next: m.next.update(node as int, Some(new)), ..m }
        } else {
            m
        },
        QueueAction::CasHead { current, new } => if m.head == current {
            QueueMem { head: new, ..m }
        } else {
            m
        },
        QueueAction::CasTail { current, new } => if m.tail == current {
            QueueMem { tail: new, ..m }
        } else {
            m
        },
        _ => m,
    }
}

/// What an operation gives back.
pub open spec fn mem_event(m: QueueMem, a: QueueAction) -> QueueEvent {
    match a {
        QueueAction::LoadHead => QueueEvent::Addr(m.head),
        QueueAction::LoadTail => QueueEvent::Addr(m.tail),
        QueueAction::LoadNext(n) => QueueEvent::Link(m.next[n as int]),
        QueueAction::CasNext { node, new } => QueueEvent::Exchanged(m.next[node as int] is None),
        QueueAction::CasHead { current, new } => QueueEvent::Exchanged(m.head == current),
        QueueAction::CasTail { current, new } => QueueEvent::Exchanged(m.tail == current),
    }
}

/// Whether every node that an operation names exists.
pub open spec fn action_valid(m: QueueMem, a: QueueAction) -> bool {
    match a {
        QueueAction::LoadNext(n) => n < m.next.len(),
        QueueAction::CasNext { node, new } => node < m.next.len() && new < m.next.len(),
        QueueAction::CasHead { current, new } => new < m.next.len(),
        QueueAction::CasTail { current, new } => new < m.next.len(),
        _ => true,
    }
}

/// Where an enqueue stands.
#[allow(inconsistent_fields)]
#[derive(Clone, Copy, Debug, PartialEq, Eq)]
pub enum EnqueuePc {
    /// About to read the tail.
    LoadTail,
    /// About to read the link of `tail`.
    ReadNext { tail: usize },
    /// About to read the tail again.
    Recheck { tail: usize, next: Option<usize> },
    /// About to link the new node behind `tail`.
    Link { tail: usize },
    /// Linked; about to move the tail on to the new node.
    Swing { tail: usize },
    /// About to move the lagging tail on to `next`.
    Help { tail: usize, next: usize },
    /// The node is in the queue.
    Done,
}

/// One enqueue of the node `node`.
#[derive(Clone, Copy, Debug, PartialEq, Eq)]
pub struct EnqueueOp {
    pub node: usize,
    pub pc: EnqueuePc,
}

impl EnqueueOp {
    /// The operation that an unfinished enqueue performs next.
    pub open spec fn action(self) -> QueueAction {
        match self.pc {
            EnqueuePc::LoadTail => QueueAction::LoadTail,
            EnqueuePc::ReadNext { tail } => QueueAction::LoadNext(tail),
            EnqueuePc::Recheck { tail, next } => QueueAction::LoadTail,
            EnqueuePc::Link { tail } => QueueAction::CasNext { node: tail, new: self.node },
            EnqueuePc::Swing { tail } => QueueAction::CasTail { current: tail, new: self.node },
            EnqueuePc::Help { tail, next } => QueueAction::CasTail { current: tail, new: next },
            EnqueuePc::Done => QueueAction::LoadTail,
        }
    }

    /// Where an enqueue stands after an answer. An answer of the wrong kind changes nothing.
    pub open spec fn after(self, e: QueueEvent) -> EnqueueOp {
        let pc = match (self.pc, e) {
            (EnqueuePc::LoadTail, QueueEvent::Addr(t)) => EnqueuePc::ReadNext { tail: t },
            (EnqueuePc::ReadNext { tail }, QueueEvent::Link(next)) => EnqueuePc::Recheck {
                tail,
                next,
            },
            (EnqueuePc::Recheck { tail, next }, QueueEvent::Addr(now)) => if tail != now {
                EnqueuePc::LoadTail
            } else {
                match next {
                    None => EnqueuePc::Link { tail },
                    Some(n) => EnqueuePc::Help { tail, next: n },
                }
            },
            (EnqueuePc::Link { tail }, QueueEvent::Exchanged(ok)) => if ok {
                EnqueuePc::Swing { tail }
            } else {
                EnqueuePc::LoadTail
            },
            (EnqueuePc::Swing { tail }, QueueEvent::Exchanged(_)) => EnqueuePc::Done,
            (EnqueuePc::Help { tail, next }, QueueEvent::Exchanged(_)) => EnqueuePc::LoadTail,
            (pc, _) => pc,
        };
        EnqueueOp { node: self.node, pc }
    }

    /// An enqueue of `node` that has done nothing yet.
    pub fn start(node: usize) -> (op: EnqueueOp)
        ensures
            op == (EnqueueOp { node, pc: EnqueuePc::LoadTail }),
    {
        EnqueueOp { node, pc: EnqueuePc::LoadTail }
    }

    /// The operation to perform next, or `None` when the enqueue is finished.
    pub fn next_action(&self) -> (a: Option<QueueAction>)
        ensures
            a == (if self.pc is Done { None } else { Some(self.action()) }),
    {
        match self.pc {
            EnqueuePc::LoadTail => Some(QueueAction::LoadTail),
            EnqueuePc::ReadNext { tail } => Some(QueueAction::LoadNext(tail)),
            EnqueuePc::Recheck { tail, next } => Some(QueueAction::LoadTail),
            EnqueuePc::Link { tail } => Some(QueueAction::CasNext { node: tail, new: self.node }),
            EnqueuePc::Swing { tail } => Some(
                QueueAction::CasTail { current: tail, new: self.node },
            ),
            EnqueuePc::Help { tail, next } => Some(
                QueueAction::CasTail { current: tail, new: next },
            ),
            EnqueuePc::Done => None,
        }
    }

    /// Takes the answer to the operation that was performed.
    pub fn on_event(&mut self, e: QueueEvent)
        ensures
            *final(self) == old(self).after(e),
    {
        let pc = match (self.pc, e) {
            (EnqueuePc::LoadTail, QueueEvent::Addr(t)) => EnqueuePc::ReadNext { tail: t },
            (EnqueuePc::ReadNext { tail }, QueueEvent::Link(next)) => EnqueuePc::Recheck {
                tail,
                next,
            },
            (EnqueuePc::Recheck { tail, next }, QueueEvent::Addr(now)) => {
                if tail != now {
                    EnqueuePc::LoadTail
                } else {
                    match next {
                        None => EnqueuePc::Link { tail },
                        Some(n) => EnqueuePc::Help { tail, next: n },
                    }
                }
            },
            (EnqueuePc::Link { tail }, QueueEvent::Exchanged(ok)) => {
                if ok {
                    EnqueuePc::Swing { tail }
                } else {
                    EnqueuePc::LoadTail
                }
            },
            (EnqueuePc::Swing { tail }, QueueEvent::Exchanged(_)) => EnqueuePc::Done,
            (EnqueuePc::Help { tail, next }, QueueEvent::Exchanged(_)) => EnqueuePc::LoadTail,
            (pc, _) => pc,
        };
        self.pc = pc;
    }
}

/// Where a dequeue stands.
#[allow(inconsistent_fields)]
#[derive(Clone, Copy, Debug, PartialEq, Eq)]
pub enum DequeuePc {
    /// About to read the head.
    LoadHead,
    /// About to read the tail.
    LoadTail { head: usize },
    /// About to read the link of `head`.
    ReadNext { head: usize, tail: usize },
    /// About to read the head again.
    Recheck { head: usize, tail: usize, next: Option<usize> },
    /// About to move the lagging tail on to `next`.
    Help { tail: usize, next: usize },
    /// About to move the head on to `next`.
    Advance { head: usize, next: usize },
    /// The queue was empty.
    Empty,
    /// The value of the node belongs to this dequeue.
    Won(usize),
}

/// One dequeue.
#[derive(Clone, Copy, Debug, PartialEq, Eq)]
pub struct DequeueOp {
    pub pc: DequeuePc,
}

impl DequeueOp {
    /// Whether the dequeue has come to its end.
    pub open spec fn finished(self) -> bool {
        self.pc is Empty || self.pc is Won
    }

    /// The operation that an unfinished dequeue performs next.
    pub open spec fn action(self) -> QueueAction {
        match self.pc {
            DequeuePc::LoadHead => QueueAction::LoadHead,
            DequeuePc::LoadTail { head } => QueueAction::LoadTail,
            DequeuePc::ReadNext { head, tail } => QueueAction::LoadNext(head),
            DequeuePc::Recheck { head, tail, next } => QueueAction::LoadHead,
            DequeuePc::Help { tail, next } => QueueAction::CasTail { current: tail, new: next },
            DequeuePc::Advance { head, next } => QueueAction::CasHead { current: head, new: next },
            _ => QueueAction::LoadHead,
        }
    }

    /// Where a dequeue stands after an answer. An answer of the wrong kind changes nothing.
    pub open spec fn after(self, e: QueueEvent) -> DequeueOp {
        let pc = match (self.pc, e) {
            (DequeuePc::LoadHead, QueueEvent::Addr(h)) => DequeuePc::LoadTail { head: h },
            (DequeuePc::LoadTail { head }, QueueEvent::Addr(t)) => DequeuePc::ReadNext {
                head,
                tail: t,
            },
            (DequeuePc::ReadNext { head, tail }, QueueEvent::Link(next)) => DequeuePc::Recheck {
                head,
                tail,
                next,
            },
            (DequeuePc::Recheck { head, tail, next }, QueueEvent::Addr(now)) => if head != now {
                DequeuePc::LoadHead
            } else {
                match next {
                    None => if head == tail {
                        DequeuePc::Empty
                    } else {
                        DequeuePc::LoadHead
                    },
                    Some(n) => if head == tail {
                        DequeuePc::Help { tail, next: n }
                    } else {
                        DequeuePc::Advance { head, next: n }
                    },
                }
            },
            (DequeuePc::Help { tail, next }, QueueEvent::Exchanged(_)) => DequeuePc::LoadHead,
            (DequeuePc::Advance { head, next }, QueueEvent::Exchanged(ok)) => if ok {
                DequeuePc::Won(next)
            } else {
                DequeuePc::LoadHead
            },
            (pc, _) => pc,
        };
        DequeueOp { pc }
    }

    /// A dequeue that has done nothing yet.
    pub fn start() -> (op: DequeueOp)
        ensures
            op == (DequeueOp { pc: DequeuePc::LoadHead }),
    {
        DequeueOp { pc: DequeuePc::LoadHead }
    }

    /// The operation to perform next, or `None` when the dequeue is finished.
    pub fn next_action(&self) -> (a: Option<QueueAction>)
        ensures
            a == (if self.finished() { None } else { Some(self.action()) }),
    {
        match self.pc {
            DequeuePc::LoadHead => Some(QueueAction::LoadHead),
            DequeuePc::LoadTail { head } => Some(QueueAction::LoadTail),
            DequeuePc::ReadNext { head, tail } => Some(QueueAction::LoadNext(head)),
            DequeuePc::Recheck { head, tail, next } => Some(QueueAction::LoadHead),
            DequeuePc::Help { tail, next } => Some(
                QueueAction::CasTail { current: tail, new: next },
            ),
            DequeuePc::Advance { head, next } => Some(
                QueueAction::CasHead { current: head, new: next },
            ),
            DequeuePc::Empty => None,
            DequeuePc::Won(_) => None,
        }
    }

    /// Takes the answer to the operation that was performed.
    pub fn on_event(&mut self, e: QueueEvent)
        ensures
            *final(self) == old(self).after(e),
    {
        let pc = match (self.pc, e) {
            (DequeuePc::LoadHead, QueueEvent::Addr(h)) => DequeuePc::LoadTail { head: h },
            (DequeuePc::LoadTail { head }, QueueEvent::Addr(t)) => DequeuePc::ReadNext {
                head,
                tail: t,
            },
            (DequeuePc::ReadNext { head, tail }, QueueEvent::Link(next)) => DequeuePc::Recheck {
                head,
                tail,
                next,
            },
            (DequeuePc::Recheck { head, tail, next }, QueueEvent::Addr(now)) => {
                if head != now {
                    DequeuePc::LoadHead
                } else {
                    match next {
                        None => {
                            if head == tail {
                                DequeuePc::Empty
                            } else {
                                DequeuePc::LoadHead
                            }
                        },
                        Some(n) => {
                            if head == tail {
                                DequeuePc::Help { tail, next: n }
                            } else {
                                DequeuePc::Advance { head, next: n }
                            }
                        },
                    }
                }
            },
            (DequeuePc::Help { tail, next }, QueueEvent::Exchanged(_)) => DequeuePc::LoadHead,
            (DequeuePc::Advance { head, next }, QueueEvent::Exchanged(ok)) => {
                if ok {
                    DequeuePc::Won(next)
                } else {
                    DequeuePc::LoadHead
                }
            },
            (pc, _) => pc,
        };
        self.pc = pc;
    }
}

/// The list behind the memory: the nodes in the order in which they were linked, the
/// position of the head in it and the position of the tail.
#[verifier::ext_equal]
pub struct QueueList {
    pub order: Seq<usize>,
    pub h: int,
    pub t: int,
}

impl QueueList {
    /// The nodes that hold what is in the queue, oldest first.
    pub open spec fn waiting(self) -> Seq<usize> {
        self.order.skip(self.h + 1)
    }
}

/// Whether `l` is the list that the memory holds.
pub open spec fn mem_holds(m: QueueMem, l: QueueList) -> bool {
    &&& 0 <= l.h <= l.t < l.order.len()
    &&& l.order.no_duplicates()
    &&& m.head == l.order[l.h]
    &&& m.tail == l.order[l.t]
    &&& forall|i: int| 0 <= i < l.order.len() ==> #[trigger] l.order[i] < m.next.len()
    &&& forall|i: int|
        0 <= i < l.order.len() - 1 ==> m.next[(#[trigger] l.order[i]) as int] == Some(
            l.order[i + 1],
        )
    &&& m.next[l.order.last() as int] is None
    &&& forall|n: int|
        0 <= n < m.next.len() && !l.order.contains(n as usize) ==> (#[trigger] m.next[n]) is None
}

/// The list after an operation that was performed on memory that holds `l`.
pub open spec fn list_after(m: QueueMem, l: QueueList, a: QueueAction) -> QueueList {
    match a {
        QueueAction::CasNext { node, new } => if m.next[node as int] is None {
            QueueList { order: l.order.push(new), ..l }
        } else {
            l
        },
        QueueAction::CasHead { current, new } => if m.head == current {
            QueueList { h: l.h + 1, ..l }
        } else {
            l
        },
        QueueAction::CasTail { current, new } => if m.tail == current {
            QueueList { t: l.t + 1, ..l }
        } else {
            l
        },
        _ => l,
    }
}

/// Whether `n` is in the list, at a position from `lo` to `hi`.
pub open spec fn in_range(l: QueueList, n: usize, lo: int, hi: int) -> bool {
    exists|i: int| lo <= i <= hi && 0 <= i < l.order.len() && #[trigger] l.order[i] == n
}

/// What holds of an enqueue under way.
pub open spec fn enqueue_inv(m: QueueMem, l: QueueList, op: EnqueueOp) -> bool {
    &&& op.node < m.next.len()
    &&& (!(op.pc is Swing) && !(op.pc is Done)) ==> !l.order.contains(op.node)
    &&& match op.pc {
        EnqueuePc::LoadTail => true,
        EnqueuePc::ReadNext { tail } => in_range(l, tail, 0, l.t),
        EnqueuePc::Recheck { tail, next } => in_range(l, tail, 0, l.t) && (next is Some
            ==> m.next[tail as int] == next),
        EnqueuePc::Link { tail } => in_range(l, tail, 0, l.t),
        EnqueuePc::Swing { tail } => in_range(l, tail, 0, l.order.len() - 2) && m.next[tail as int]
            == Some(op.node),
        EnqueuePc::Help { tail, next } => in_range(l, tail, 0, l.t) && m.next[tail as int] == Some(
            next,
        ),
        EnqueuePc::Done => l.order.contains(op.node),
    }
}

/// Whether `head` is a past or present head and `tail` was the tail no earlier.
pub open spec fn cursors(l: QueueList, head: usize, tail: usize) -> bool {
    exists|i: int, j: int|
        0 <= i <= l.h && i <= j <= l.t && #[trigger] l.order[i] == head && #[trigger] l.order[j]
            == tail
}

/// What holds of a dequeue under way.
pub open spec fn dequeue_inv(m: QueueMem, l: QueueList, op: DequeueOp) -> bool {
    match op.pc {
        DequeuePc::LoadHead => true,
        DequeuePc::LoadTail { head } => in_range(l, head, 0, l.h),
        DequeuePc::ReadNext { head, tail } => cursors(l, head, tail),
        DequeuePc::Recheck { head, tail, next } => {
            &&& cursors(l, head, tail)
            &&& next is Some ==> m.next[head as int] == next
            &&& head != tail ==> next is Some
        },
        DequeuePc::Help { tail, next } => in_range(l, tail, 0, l.t) && m.next[tail as int] == Some(
            next,
        ),
        DequeuePc::Advance { head, next } => {
            &&& in_range(l, head, 0, l.t - 1)
            &&& m.next[head as int] == Some(next)
        },
        DequeuePc::Empty => true,
        DequeuePc::Won(n) => in_range(l, n, 1, l.h),
    }
}

/// An operation of an enqueue or a dequeue under way leaves memory that holds the list
/// that [`list_after`] names.
pub proof fn lemma_mem_step(m: QueueMem, l: QueueList, a: QueueAction)
    requires
        mem_holds(m, l),
        action_valid(m, a),
        match a {
            QueueAction::CasNext { node, new } => {
                &&& l.order.contains(node)
                &&& !l.order.contains(new)
            },
            QueueAction::CasHead { current, new } => {
                &&& in_range(l, current, 0, l.t - 1)
                &&& m.next[current as int] == Some(new)
            },
            QueueAction::CasTail { current, new } => {
                &&& l.order.contains(current)
                &&& m.next[current as int] == Some(new)
            },
            _ => true,
        },
    ensures
        mem_holds(mem_after(m, a), list_after(m, l, a)),
{
    let m2 = mem_after(m, a);
    let l2 = list_after(m, l, a);
    match a {
        QueueAction::CasNext { node, new } => {
            if m.next[node as int] is None {
                let i = choose|i: int| 0 <= i < l.order.len() && l.order[i] == node;
                assert(i == l.order.len() - 1);
                assert forall|k: int| 0 <= k < l2.order.len() implies #[trigger] l2.order[k]
                    < m2.next.len() by {
                    if k < l.order.len() {
                        assert(l2.order[k] == l.order[k]);
                    }
                }
                assert(l2.order.no_duplicates());
                assert forall|k: int| 0 <= k < l2.order.len() - 1 implies m2.next[(
                #[trigger] l2.order[k]) as int] == Some(l2.order[k + 1]) by {
                    assert(l2.order[k] == l.order[k]);
                    if k < l.order.len() - 1 {
                        assert(l.order[k] != node);
                        assert(l2.order[k + 1] == l.order[k + 1]);
                    }
                }
                assert(l2.order.last() == new);
                assert forall|n: int|
                    0 <= n < m2.next.len() && !l2.order.contains(n as usize) implies (
                #[trigger] m2.next[n]) is None by {
                    assert(l2.order[i] == node);
                    assert(n != node);
                    if l.order.contains(n as usize) {
                        let k = choose|k: int| 0 <= k < l.order.len() && l.order[k] == n as usize;
                        assert(l2.order[k] == n as usize);
                    }
                }
            }
        },
        QueueAction::CasHead { current, new } => {
            if m.head == current {
                let i = choose|i: int|
                    0 <= i <= l.t - 1 && 0 <= i < l.order.len() && l.order[i] == current;
                assert(i == l.h);
                assert(l.order[i + 1] == new);
            }
        },
        QueueAction::CasTail { current, new } => {
            if m.tail == current {
                let i = choose|i: int| 0 <= i < l.order.len() && l.order[i] == current;
                assert(i == l.t);
                if i == l.order.len() - 1 {
                    assert(m.next[l.order.last() as int] is None);
                }
                assert(l.order[i + 1] == new);
            }
        },
        _ => {},
    }
}

/// A thread that works on the queue.
pub enum QueueThread {
    Enqueue(EnqueueOp),
    Dequeue(DequeueOp),
}

impl QueueThread {
    /// Whether the operation of the thread has come to its end.
    pub open spec fn finished(self) -> bool {
        match self {
            QueueThread::Enqueue(op) => op.pc is Done,
            QueueThread::Dequeue(op) => op.finished(),
        }
    }

    /// The operation that the thread performs next.
    pub open spec fn action(self) -> QueueAction {
        match self {
            QueueThread::Enqueue(op) => op.action(),
            QueueThread::Dequeue(op) => op.action(),
        }
    }

    /// Where the thread stands after an answer.
    pub open spec fn after(self, e: QueueEvent) -> QueueThread {
        match self {
            QueueThread::Enqueue(op) => QueueThread::Enqueue(op.after(e)),
            QueueThread::Dequeue(op) => QueueThread::Dequeue(op.after(e)),
        }
    }

    /// What holds of the thread.
    pub open spec fn inv(self, m: QueueMem, l: QueueList) -> bool {
        match self {
            QueueThread::Enqueue(op) => enqueue_inv(m, l, op),
            QueueThread::Dequeue(op) => dequeue_inv(m, l, op),
        }
    }
}

/// The memory of a queue, the list that it holds, and any number of threads at work on it.
pub struct QueueSystem {
    pub mem: QueueMem,
    pub list: QueueList,
    pub threads: Seq<QueueThread>,
}

impl QueueSystem {
    /// What holds at any moment: the memory holds the list, every thread is where its
    /// invariant puts it, no two enqueues own the same node, and no two dequeues won the
    /// same node.
    pub open spec fn inv(self) -> bool {
        &&& mem_holds(self.mem, self.list)
        &&& forall|i: int|
            0 <= i < self.threads.len() ==> (#[trigger] self.threads[i]).inv(self.mem, self.list)
        &&& forall|i: int, j: int|
            0 <= i < self.threads.len() && 0 <= j < self.threads.len() && i != j ==> match (
                #[trigger] self.threads[i],
                #[trigger] self.threads[j],
            ) {
                (QueueThread::Enqueue(a), QueueThread::Enqueue(b)) => a.node != b.node,
                (QueueThread::Dequeue(a), QueueThread::Dequeue(b)) => match (a.pc, b.pc) {
                    (DequeuePc::Won(x), DequeuePc::Won(y)) => x != y,
                    _ => true,
                },
                _ => true,
            }
    }

    /// The system after thread `i` has performed its next operation.
    pub open spec fn step(self, i: int) -> QueueSystem {
        let a = self.threads[i].action();
        QueueSystem {
            mem: mem_after(self.mem, a),
            list: list_after(self.mem, self.list, a),
            threads: self.threads.update(i, self.threads[i].after(mem_event(self.mem, a))),
        }
    }

    /// The system after a thread has allocated a node and joined to enqueue it.
    pub open spec fn join_enqueue(self) -> QueueSystem {
        let op = EnqueueOp { node: self.mem.next.len() as usize, pc: EnqueuePc::LoadTail };
        QueueSystem {
            mem: QueueMem { next: self.mem.next.push(None), ..self.mem },
            list: self.list,
            threads: self.threads.push(QueueThread::Enqueue(op)),
        }
    }

    /// The system after a thread has joined to dequeue.
    pub open spec fn join_dequeue(self) -> QueueSystem {
        QueueSystem {
            threads: self.threads.push(
                QueueThread::Dequeue(DequeueOp { pc: DequeuePc::LoadHead }),
            ),
            ..self
        }
    }
}

/// An operation of one thread keeps what holds of another: lists only grow, the head and
/// the tail only move forward, and a link that is set never changes.
proof fn lemma_thread_stable(
    m: QueueMem,
    l: QueueList,
    a: QueueAction,
    m2: QueueMem,
    l2: QueueList,
    th: QueueThread,
)
    requires
        mem_holds(m, l),
        mem_holds(m2, l2),
        th.inv(m, l),
        action_valid(m, a),
        m2 == mem_after(m, a),
        l2 == list_after(m, l, a),
        match (a, th) {
            (QueueAction::CasNext { node, new }, QueueThread::Enqueue(op)) => new != op.node,
            _ => true,
        },
    ensures
        th.inv(m2, l2),
{
    assert(l.order.len() <= l2.order.len());
    assert(l.h <= l2.h && l.t <= l2.t);
    assert forall|i: int| 0 <= i < l.order.len() implies l2.order[i] == #[trigger] l.order[i] by {}
    assert forall|n: int| 0 <= n < m.next.len() && (#[trigger] m.next[n]) is Some implies m2.next[n]
        == m.next[n] by {}
    match th {
        QueueThread::Enqueue(op) => {
            match op.pc {
                EnqueuePc::Recheck { tail, next } => {
                    lemma_in_range_exists(m, l, tail, 0, l.t);
                },
                EnqueuePc::Swing { tail } => {
                    lemma_in_range_exists(m, l, tail, 0, l.order.len() - 2);
                },
                EnqueuePc::Help { tail, next } => {
                    lemma_in_range_exists(m, l, tail, 0, l.t);
                },
                _ => {},
            }
            if !l.order.contains(op.node) {
                if l2.order.contains(op.node) {
                    let k = choose|k: int| 0 <= k < l2.order.len() && l2.order[k] == op.node;
                    if k < l.order.len() {
                        assert(l.order[k] == op.node);
                    }
                    assert(false);
                }
            } else {
                let k = choose|k: int| 0 <= k < l.order.len() && l.order[k] == op.node;
                assert(l2.order[k] == op.node);
            }
            match op.pc {
                EnqueuePc::ReadNext { tail } => {
                    lemma_in_range_stable(l, l2, tail, 0, l.t, l2.t);
                },
                EnqueuePc::Recheck { tail, next } => {
                    lemma_in_range_stable(l, l2, tail, 0, l.t, l2.t);
                },
                EnqueuePc::Link { tail } => {
                    lemma_in_range_stable(l, l2, tail, 0, l.t, l2.t);
                },
                EnqueuePc::Swing { tail } => {
                    lemma_in_range_stable(
                        l,
                        l2,
                        tail,
                        0,
                        l.order.len() - 2,
                        l2.order.len() - 2,
                    );
                },
                EnqueuePc::Help { tail, next } => {
                    lemma_in_range_stable(l, l2, tail, 0, l.t, l2.t);
                },
                _ => {},
            }
        },
        QueueThread::Dequeue(op) => {
            match op.pc {
                DequeuePc::LoadTail { head } => {
                    lemma_in_range_stable(l, l2, head, 0, l.h, l2.h);
                },
                DequeuePc::ReadNext { head, tail } => {
                    lemma_cursors_stable(l, l2, head, tail);
                },
                DequeuePc::Recheck { head, tail, next } => {
                    lemma_cursors_stable(l, l2, head, tail);
                },
                DequeuePc::Help { tail, next } => {
                    lemma_in_range_stable(l, l2, tail, 0, l.t, l2.t);
                },
                DequeuePc::Advance { head, next } => {
                    lemma_in_range_stable(l, l2, head, 0, l.t - 1, l2.t - 1);
                },
                DequeuePc::Won(n) => {
                    lemma_in_range_stable(l, l2, n, 1, l.h, l2.h);
                },
                _ => {},
            }
        },
    }
}

proof fn lemma_in_range_exists(m: QueueMem, l: QueueList, n: usize, lo: int, hi: int)
    requires
        mem_holds(m, l),
        in_range(l, n, lo, hi),
    ensures
        n < m.next.len(),
{
    let i = choose|i: int| lo <= i <= hi && 0 <= i < l.order.len() && l.order[i] == n;
    assert(l.order[i] < m.next.len());
}

proof fn lemma_in_range_stable(l: QueueList, l2: QueueList, n: usize, lo: int, hi: int, hi2: int)
    requires
        in_range(l, n, lo, hi),
        hi <= hi2,
        l.order.len() <= l2.order.len(),
        forall|i: int| 0 <= i < l.order.len() ==> l2.order[i] == #[trigger] l.order[i],
    ensures
        in_range(l2, n, lo, hi2),
{
    let i = choose|i: int| lo <= i <= hi && 0 <= i < l.order.len() && l.order[i] == n;
    assert(l2.order[i] == n);
}

proof fn lemma_cursors_stable(l: QueueList, l2: QueueList, head: usize, tail: usize)
    requires
        cursors(l, head, tail),
        l.h <= l2.h,
        l.t <= l2.t < l2.order.len(),
        l.t < l.order.len() <= l2.order.len(),
        forall|i: int| 0 <= i < l.order.len() ==> l2.order[i] == #[trigger] l.order[i],
        l.h <= l.t,
    ensures
        cursors(l2, head, tail),
{
    let (i, j) = choose|i: int, j: int|
        0 <= i <= l.h && i <= j <= l.t && #[trigger] l.order[i] == head && #[trigger] l.order[j]
            == tail;
    assert(l2.order[i] == head && l2.order[j] == tail);
}

/// The next operation of a thread names nodes that exist and is one that keeps the list.
proof fn lemma_action_fits(m: QueueMem, l: QueueList, th: QueueThread)
    requires
        mem_holds(m, l),
        th.inv(m, l),
        !th.finished(),
    ensures
        action_valid(m, th.action()),
        mem_holds(mem_after(m, th.action()), list_after(m, l, th.action())),
        th.action() matches QueueAction::CasNext { node, new } ==> th matches QueueThread::Enqueue(
            op,
        ) && op.node == new,
{
    let a = th.action();
    match th {
        QueueThread::Enqueue(op) => {
            match op.pc {
                EnqueuePc::ReadNext { tail } => {
                    let i = choose|i: int| 0 <= i <= l.t && l.order[i] == tail;
                    assert(l.order[i] < m.next.len());
                },
                EnqueuePc::Link { tail } => {
                    let i = choose|i: int| 0 <= i <= l.t && l.order[i] == tail;
                    assert(l.order[i] < m.next.len());
                    assert(l.order.contains(tail));
                },
                EnqueuePc::Swing { tail } => {
                    let i = choose|i: int| 0 <= i <= l.order.len() - 2 && l.order[i] == tail;
                    assert(l.order.contains(tail));
                },
                EnqueuePc::Help { tail, next } => {
                    let i = choose|i: int| 0 <= i <= l.t && l.order[i] == tail;
                    assert(l.order[i] < m.next.len());
                    assert(l.order.contains(tail));
                    assert(i < l.order.len() - 1);
                    assert(l.order[i + 1] == next);
                    assert(l.order[i + 1] < m.next.len());
                },
                _ => {},
            }
        },
        QueueThread::Dequeue(op) => {
            match op.pc {
                DequeuePc::ReadNext { head, tail } => {
                    let (i, j) = choose|i: int, j: int|
                        0 <= i <= l.h && i <= j <= l.t && #[trigger] l.order[i] == head
                            && #[trigger] l.order[j] == tail;
                    assert(l.order[i] < m.next.len());
                },
                DequeuePc::Help { tail, next } => {
                    let i = choose|i: int| 0 <= i <= l.t && l.order[i] == tail;
                    assert(l.order.contains(tail));
                    assert(i < l.order.len() - 1);
                    assert(l.order[i + 1] == next);
                    assert(l.order[i + 1] < m.next.len());
                },
                DequeuePc::Advance { head, next } => {
                    let i = choose|i: int| 0 <= i <= l.t - 1 && l.order[i] == head;
                    assert(i < l.order.len() - 1);
                    assert(l.order[i + 1] == next);
                    assert(l.order[i + 1] < m.next.len());
                },
                _ => {},
            }
        },
    }
    lemma_mem_step(m, l, a);
}

/// The thread that performs its operation is where its invariant puts it afterwards.
proof fn lemma_own_step(m: QueueMem, l: QueueList, th: QueueThread)
    requires
        mem_holds(m, l),
        th.inv(m, l),
        !th.finished(),
    ensures
        ({
            let a = th.action();
            th.after(mem_event(m, a)).inv(mem_after(m, a), list_after(m, l, a))
        }),
{
    lemma_action_fits(m, l, th);
    let a = th.action();
    let m2 = mem_after(m, a);
    let l2 = list_after(m, l, a);
    match th {
        QueueThread::Enqueue(op) => {
            match op.pc {
                EnqueuePc::LoadTail => {
                    assert(l.order[l.t] == m.tail);
                },
                EnqueuePc::Link { tail } => {
                    if m.next[tail as int] is None {
                        let i = choose|i: int| 0 <= i <= l.t && l.order[i] == tail;
                        assert(i == l.order.len() - 1);
                        assert(l2.order[i] == tail);
                    }
                },
                EnqueuePc::Swing { tail } => {
                    let i = choose|i: int| 0 <= i <= l.order.len() - 2 && l.order[i] == tail;
                    assert(l.order[i + 1] == op.node);
                    assert(l2.order.contains(op.node));
                },
                _ => {},
            }
        },
        QueueThread::Dequeue(op) => {
            match op.pc {
                DequeuePc::LoadHead => {
                    assert(l.order[l.h] == m.head);
                },
                DequeuePc::LoadTail { head } => {
                    let i = choose|i: int| 0 <= i <= l.h && l.order[i] == head;
                    assert(l.order[i] == head && l.order[l.t] == m.tail);
                },
                DequeuePc::ReadNext { head, tail } => {
                    let (i, j) = choose|i: int, j: int|
                        0 <= i <= l.h && i <= j <= l.t && #[trigger] l.order[i] == head
                            && #[trigger] l.order[j] == tail;
                    if head != tail {
                        assert(i < l.order.len() - 1);
                    }
                },
                DequeuePc::Recheck { head, tail, next } => {
                    let (i, j) = choose|i: int, j: int|
                        0 <= i <= l.h && i <= j <= l.t && #[trigger] l.order[i] == head
                            && #[trigger] l.order[j] == tail;
                    assert(in_range(l, tail, 0, l.t));
                    if head != tail {
                        assert(in_range(l, head, 0, l.t - 1));
                    }
                },
                DequeuePc::Advance { head, next } => {
                    let i = choose|i: int| 0 <= i <= l.t - 1 && l.order[i] == head;
                    if m.head == head {
                        assert(i == l.h);
                        assert(l2.order[i + 1] == next);
                    }
                },
                _ => {},
            }
        },
    }
}

/// However the threads interleave, the list, the threads' invariants and the ownership of
/// nodes are kept: no node is enqueued twice and none is won by two dequeues.
pub proof fn law_step_keeps_inv(s: QueueSystem, i: int)
    requires
        s.inv(),
        0 <= i < s.threads.len(),
        !s.threads[i].finished(),
    ensures
        s.step(i).inv(),
{
    let th = s.threads[i];
    let a = th.action();
    let s2 = s.step(i);
    lemma_action_fits(s.mem, s.list, th);
    lemma_own_step(s.mem, s.list, th);
    assert forall|k: int| 0 <= k < s2.threads.len() implies (#[trigger] s2.threads[k]).inv(
        s2.mem,
        s2.list,
    ) by {
        if k != i {
            assert(s2.threads[k] == s.threads[k]);
            assert(s.threads[i] == th && s.threads[k].inv(s.mem, s.list));
            lemma_thread_stable(s.mem, s.list, a, s2.mem, s2.list, s.threads[k]);
        }
    }
    assert forall|x: int, y: int|
        0 <= x < s2.threads.len() && 0 <= y < s2.threads.len() && x != y implies match (
        #[trigger] s2.threads[x],
        #[trigger] s2.threads[y],
    ) {
        (QueueThread::Enqueue(a), QueueThread::Enqueue(b)) => a.node != b.node,
        (QueueThread::Dequeue(a), QueueThread::Dequeue(b)) => match (a.pc, b.pc) {
            (DequeuePc::Won(x), DequeuePc::Won(y)) => x != y,
            _ => true,
        },
        _ => true,
    } by {
        assert(s.threads[x].inv(s.mem, s.list) && s.threads[y].inv(s.mem, s.list));
        if let QueueThread::Dequeue(op) = th {
            if let DequeuePc::Advance { head, next } = op.pc {
                if s.mem.head == head {
                    let p = choose|p: int|
                        0 <= p <= s.list.t - 1 && 0 <= p < s.list.order.len() && s.list.order[p]
                            == head;
                    assert(p == s.list.h);
                    assert(s.list.order[s.list.h + 1] == next);
                    let z = if x == i { y } else { x };
                    if let QueueThread::Dequeue(other) = s.threads[z] {
                        if let DequeuePc::Won(n) = other.pc {
                            let q = choose|q: int|
                                1 <= q <= s.list.h && 0 <= q < s.list.order.len()
                                    && s.list.order[q] == n;
                            assert(n != next);
                        }
                    }
                }
            }
        }
    }
}

/// A queue with nothing but its first node, that nobody works on, satisfies the invariant.
pub proof fn law_queue_start(s: QueueSystem)
    requires
        s.mem.next == seq![None::<usize>],
        s.mem.head == 0,
        s.mem.tail == 0,
        s.list == (QueueList { order: seq![0usize], h: 0, t: 0 }),
        s.threads.len() == 0,
    ensures
        s.inv(),
        s.list.waiting().len() == 0,
{
    assert(s.list.order[0] == 0);
    assert(s.list.order.contains(0));
}

/// A thread may join at any moment, with a node that nobody else has, as long as there is
/// an address for it.
pub proof fn law_join_keeps_inv(s: QueueSystem)
    requires
        s.inv(),
        s.mem.next.len() <= usize::MAX,
    ensures
        s.join_enqueue().inv(),
        s.join_dequeue().inv(),
{
    let s2 = s.join_enqueue();
    let fresh = s.mem.next.len() as usize;
    assert(!s.list.order.contains(fresh)) by {
        if s.list.order.contains(fresh) {
            let k = choose|k: int| 0 <= k < s.list.order.len() && s.list.order[k] == fresh;
            assert(s.list.order[k] < s.mem.next.len());
        }
    }
    assert forall|k: int| 0 <= k < s2.threads.len() implies (#[trigger] s2.threads[k]).inv(
        s2.mem,
        s2.list,
    ) by {
        if k < s.threads.len() {
            assert(s2.threads[k] == s.threads[k]);
            assert(s.threads[k].inv(s.mem, s.list));
            lemma_grow_stable(s.mem, s2.mem, s.list, s.threads[k]);
        }
    }
    assert(mem_holds(s2.mem, s2.list));
    assert forall|x: int, y: int|
        0 <= x < s2.threads.len() && 0 <= y < s2.threads.len() && x != y implies match (
        #[trigger] s2.threads[x],
        #[trigger] s2.threads[y],
    ) {
        (QueueThread::Enqueue(a), QueueThread::Enqueue(b)) => a.node != b.node,
        (QueueThread::Dequeue(a), QueueThread::Dequeue(b)) => match (a.pc, b.pc) {
            (DequeuePc::Won(x), DequeuePc::Won(y)) => x != y,
            _ => true,
        },
        _ => true,
    } by {
        if x < s.threads.len() {
            assert(s.threads[x].inv(s.mem, s.list));
        }
        if y < s.threads.len() {
            assert(s.threads[y].inv(s.mem, s.list));
        }
    }
}

proof fn lemma_grow_stable(m: QueueMem, m2: QueueMem, l: QueueList, th: QueueThread)
    requires
        mem_holds(m, l),
        th.inv(m, l),
        m2 == (QueueMem { next: m.next.push(None), ..m }),
    ensures
        th.inv(m2, l),
{
    assert forall|n: int| 0 <= n < l.order.len() implies m2.next[(#[trigger] l.order[n]) as int]
        == m.next[l.order[n] as int] by {}
}

/// The queue is a FIFO whatever the interleaving. Each step either puts the node of the
/// enqueue that takes it behind all that is waiting, or hands the oldest waiting node to the
/// dequeue that takes it, or leaves what is waiting as it is.
pub proof fn law_steps_are_fifo(s: QueueSystem, i: int)
    requires
        s.inv(),
        0 <= i < s.threads.len(),
        !s.threads[i].finished(),
    ensures
        ({
            let before = s.list.waiting();
            let after = s.step(i).list.waiting();
            match (s.threads[i], s.step(i).threads[i]) {
                (QueueThread::Enqueue(a), QueueThread::Enqueue(b)) => if a.pc is Link
                    && b.pc is Swing {
                    after == before.push(a.node)
                } else {
                    after == before
                },
                (QueueThread::Dequeue(a), QueueThread::Dequeue(b)) => match b.pc {
                    DequeuePc::Won(n) => {
                        &&& before.len() > 0
                        &&& n == before[0]
                        &&& after == before.drop_first()
                    },
                    _ => after == before,
                },
                _ => false,
            }
        }),
{
    law_step_keeps_inv(s, i);
    lemma_action_fits(s.mem, s.list, s.threads[i]);
    let l = s.list;
    let l2 = s.step(i).list;
    match s.threads[i] {
        QueueThread::Enqueue(op) => {
            match op.pc {
                EnqueuePc::Link { tail } => {
                    if s.mem.next[tail as int] is None {
                        assert(l2.waiting() =~= l.waiting().push(op.node));
                    }
                },
                _ => {},
            }
        },
        QueueThread::Dequeue(op) => {
            match op.pc {
                DequeuePc::Advance { head, next } => {
                    if s.mem.head == head {
                        let p = choose|p: int|
                            0 <= p <= l.t - 1 && 0 <= p < l.order.len() && l.order[p] == head;
                        assert(p == l.h);
                        assert(l.order[l.h + 1] == next);
                        assert(l2.waiting() =~= l.waiting().drop_first());
                    }
                },
                _ => {},
            }
        },
    }
}

/// A dequeue that ends with `Empty` read a null link behind the head at a moment at which
/// nothing was waiting.
pub proof fn law_empty_was_empty(s: QueueSystem, i: int, head: usize)
    requires
        s.inv(),
        0 <= i < s.threads.len(),
        s.threads[i] == QueueThread::Dequeue(
            DequeueOp { pc: DequeuePc::ReadNext { head, tail: head } },
        ),
        s.step(i).threads[i] == QueueThread::Dequeue(
            DequeueOp { pc: DequeuePc::Recheck { head, tail: head, next: None } },
        ),
    ensures
        s.list.waiting() == Seq::<usize>::empty(),
{
    let l = s.list;
    assert(s.threads[i].inv(s.mem, l));
    let (p, q) = choose|p: int, q: int|
        0 <= p <= l.h && p <= q <= l.t && #[trigger] l.order[p] == head && #[trigger] l.order[q]
            == head;
    assert(s.mem.next[head as int] is None);
    assert(p == l.order.len() - 1);
    assert(l.waiting() =~= Seq::<usize>::empty());
}

/// A queue with the nodes that were ever put in and those that ever left it, in their orders.
pub struct QueueRun {
    pub sys: QueueSystem,
    pub put: Seq<usize>,
    pub got: Seq<usize>,
}

impl QueueRun {
    /// What holds at any moment of a run.
    pub open spec fn inv(self) -> bool {
        &&& self.sys.inv()
        &&& self.put == self.sys.list.order.skip(1)
        &&& self.got == self.sys.list.order.subrange(1, self.sys.list.h + 1)
    }

    /// The run after thread `i` has performed its next operation.
    pub open spec fn step(self, i: int) -> QueueRun {
        let s2 = self.sys.step(i);
        QueueRun {
            sys: s2,
            put: match (self.sys.threads[i], s2.threads[i]) {
                (QueueThread::Enqueue(a), QueueThread::Enqueue(b)) if a.pc is Link
                    && b.pc is Swing => self.put.push(a.node),
                _ => self.put,
            },
            got: match s2.threads[i] {
                QueueThread::Dequeue(b) => match b.pc {
                    DequeuePc::Won(n) => self.got.push(n),
                    _ => self.got,
                },
                _ => self.got,
            },
        }
    }
}

/// Over a whole run, however enqueues and dequeues interleave, the nodes leave in the order in
/// which they were put in, each at most once, and what has not left waits.
pub proof fn law_run_is_fifo(r: QueueRun)
    requires
        r.inv(),
    ensures
        r.put == r.got + r.sys.list.waiting(),
        r.got == r.put.take(r.got.len() as int),
        r.put.no_duplicates(),
        r.got.no_duplicates(),
{
    let l = r.sys.list;
    assert(r.put =~= r.got + l.waiting());
    assert(r.got =~= r.put.take(r.got.len() as int));
    assert forall|i: int, j: int| 0 <= i < r.put.len() && 0 <= j < r.put.len() && i != j implies r.put[i]
        != r.put[j] by {
        assert(l.order[i + 1] != l.order[j + 1]);
    }
}

/// A run goes on with every operation of a thread, and with every thread that joins.
pub proof fn law_run_step(r: QueueRun, i: int)
    requires
        r.inv(),
    ensures
        0 <= i < r.sys.threads.len() && !r.sys.threads[i].finished() ==> r.step(i).inv(),
        r.sys.mem.next.len() <= usize::MAX ==> (QueueRun {
            sys: r.sys.join_enqueue(),
            ..r
        }).inv() && (QueueRun { sys: r.sys.join_dequeue(), ..r }).inv(),
{
    let s = r.sys;
    if s.mem.next.len() <= usize::MAX {
        law_join_keeps_inv(s);
    }
    if 0 <= i < s.threads.len() && !s.threads[i].finished() {
        law_step_keeps_inv(s, i);
        law_steps_are_fifo(s, i);
        lemma_action_fits(s.mem, s.list, s.threads[i]);
        let r2 = r.step(i);
        let l = s.list;
        let l2 = r2.sys.list;
        let before = l.waiting();
        let after = l2.waiting();
        match (s.threads[i], r2.sys.threads[i]) {
            (QueueThread::Enqueue(a), QueueThread::Enqueue(b)) => {
                if a.pc is Link && b.pc is Swing {
                    assert(l2.order =~= l.order.push(a.node));
                }
            },
            (QueueThread::Dequeue(a), QueueThread::Dequeue(b)) => {
                assert(l2.order == l.order);
                if b.pc is Won {
                    assert(before[0] == l.order[l.h + 1]);
                    assert(after.len() == before.len() - 1);
                } else {
                    assert(after.len() == before.len());
                }
            },
            _ => {},
        }
        assert(r2.put =~= l2.order.skip(1));
        assert(r2.got =~= l2.order.subrange(1, l2.h + 1));
    }
}

/// A run begins with a queue that holds nothing but its first node.
pub proof fn law_run_start(r: QueueRun)
    requires
        r.sys.mem.next == seq![None::<usize>],
        r.sys.mem.head == 0,
        r.sys.mem.tail == 0,
        r.sys.list == (QueueList { order: seq![0usize], h: 0, t: 0 }),
        r.sys.threads.len() == 0,
        r.put.len() == 0,
        r.got.len() == 0,
    ensures
        r.inv(),
{
    law_queue_start(r.sys);
    assert(r.put =~= r.sys.list.order.skip(1));
    assert(r.got =~= r.sys.list.order.subrange(1, 1));
}

struct Node<T> {
    /// The value, until a dequeue takes it; the first dummy node never has one.
    value: Option<T>,
    next: Option<usize>,
}

/// The memory of a queue with the values in it.
pub struct Queue<T> {
    nodes: Vec<Node<T>>,
    head: usize,
    tail: usize,
    list: Ghost<QueueList>,
}

impl<T> View for Queue<T> {
    type V = Seq<T>;

    /// What is in the queue, oldest first.
    closed spec fn view(&self) -> Seq<T> {
        self.list@.waiting().map_values(|n: usize| self.nodes@[n as int].value->0)
    }
}

impl<T> Queue<T> {
    /// The links, the head and the tail.
    pub closed spec fn mem(&self) -> QueueMem {
        QueueMem {
            next: self.nodes@.map_values(|n: Node<T>| n.next),
            head: self.head,
            tail: self.tail,
        }
    }

    /// The list that the memory holds.
    pub closed spec fn list(&self) -> QueueList {
        self.list@
    }

    /// The value that a node holds.
    pub closed spec fn value_at(&self, n: usize) -> Option<T> {
        self.nodes@[n as int].value
    }

    /// Whether the memory holds its list, and every node has a value that is waiting or
    /// still to be linked.
    pub open spec fn wf(&self) -> bool {
        &&& mem_holds(self.mem(), self.list())
        &&& forall|n: usize|
            n < self.mem().next.len() && !in_range(self.list(), n, 0, self.list().h)
                ==> #[trigger] self.value_at(n) is Some
    }

    /// An empty queue, with its dummy node.
    pub fn new() -> (q: Queue<T>)
        ensures
            q.wf(),
            q@ == Seq::<T>::empty(),
    {
        let mut nodes: Vec<Node<T>> = Vec::new();
        nodes.push(Node { value: None, next: None });
        let q = Queue {
            nodes,
            head: 0,
            tail: 0,
            list: Ghost(QueueList { order: seq![0usize], h: 0, t: 0 }),
        };
        proof {
            assert(q.list@.order[0] == 0usize);
            assert(q.list@.order.contains(0usize));
            assert(q@ =~= Seq::<T>::empty());
        }
        q
    }

    /// Performs one atomic operation on the memory.
    fn perform(&mut self, a: QueueAction) -> (e: QueueEvent)
        requires
            action_valid(old(self).mem(), a),
        ensures
            final(self).mem() == mem_after(old(self).mem(), a),
            e == mem_event(old(self).mem(), a),
            final(self).list() == old(self).list(),
            forall|n: usize|
                n < old(self).mem().next.len() ==> #[trigger] final(self).value_at(n) == old(
                    self,
                ).value_at(n),
    {
        match a {
            QueueAction::LoadHead => QueueEvent::Addr(self.head),
            QueueAction::LoadTail => QueueEvent::Addr(self.tail),
            QueueAction::LoadNext(n) => QueueEvent::Link(self.nodes[n].next),
            QueueAction::CasNext { node, new } => {
                if self.nodes[node].next.is_none() {
                    self.nodes[node].next = Some(new);
                    proof {
                        assert(self.mem().next =~= old(self).mem().next.update(
                            node as int,
                            Some(new),
                        ));
                    }
                    QueueEvent::Exchanged(true)
                } else {
                    QueueEvent::Exchanged(false)
                }
            },
            QueueAction::CasHead { current, new } => {
                if self.head == current {
                    self.head = new;
                    QueueEvent::Exchanged(true)
                } else {
                    QueueEvent::Exchanged(false)
                }
            },
            QueueAction::CasTail { current, new } => {
                if self.tail == current {
                    self.tail = new;
                    QueueEvent::Exchanged(true)
                } else {
                    QueueEvent::Exchanged(false)
                }
            },
        }
    }

    /// Allocates a node for `value` and begins to enqueue it.
    pub fn begin_enqueue(&mut self, value: T) -> (op: EnqueueOp)
        requires
            old(self).wf(),
        ensures
            final(self).wf(),
            op == (EnqueueOp {
                node: old(self).mem().next.len() as usize,
                pc: EnqueuePc::LoadTail,
            }),
            enqueue_inv(final(self).mem(), final(self).list(), op),
            final(self).mem() == (QueueMem {
                next: old(self).mem().next.push(None),
                ..old(self).mem()
            }),
            final(self).list() == old(self).list(),
            final(self).value_at(op.node) == Some(value),
            forall|n: usize|
                n < old(self).mem().next.len() ==> #[trigger] final(self).value_at(n) == old(
                    self,
                ).value_at(n),
            final(self)@ == old(self)@,
    {
        let id: usize = self.nodes.len();
        self.nodes.push(Node { value: Some(value), next: None });
        proof {
            let l = self.list@;
            assert(self.mem().next =~= old(self).mem().next.push(None));
            assert forall|i: int| 0 <= i < l.order.len() implies (#[trigger] l.order[i]) < id by {
                assert(l.order[i] < old(self).mem().next.len());
            }
            assert(!l.order.contains(id));
            assert forall|i: int| 0 <= i < l.waiting().len() implies self@[i] == old(self)@[i] by {
                assert(l.order[l.h + 1 + i] < id);
            }
            assert(self@ =~= old(self)@);
            assert forall|n: usize|
                n < self.mem().next.len() && !in_range(l, n, 0, l.h) implies #[trigger] self.value_at(
                n,
            ) is Some by {
                if n < id {
                    assert(old(self).value_at(n) is Some);
                }
            }
        }
        EnqueueOp::start(id)
    }

    /// Performs the next operation of an enqueue.
    pub fn step_enqueue(&mut self, op: &mut EnqueueOp)
        requires
            old(self).wf(),
            enqueue_inv(old(self).mem(), old(self).list(), *old(op)),
            !(old(op).pc is Done),
        ensures
            final(self).wf(),
            enqueue_inv(final(self).mem(), final(self).list(), *final(op)),
            final(self).mem() == mem_after(old(self).mem(), old(op).action()),
            final(self).list() == list_after(
                old(self).mem(),
                old(self).list(),
                old(op).action(),
            ),
            *final(op) == old(op).after(mem_event(old(self).mem(), old(op).action())),
            forall|n: usize|
                n < old(self).mem().next.len() ==> #[trigger] final(self).value_at(n) == old(
                    self,
                ).value_at(n),
            old(op).pc is Link && final(op).pc is Swing ==> final(self)@ == old(self)@.push(
                old(self).value_at(old(op).node)->0,
            ),
            !(old(op).pc is Link && final(op).pc is Swing) ==> final(self)@ == old(self)@,
    {
        let ghost m = self.mem();
        let ghost l = self.list@;
        let ghost th = QueueThread::Enqueue(*op);
        let ghost a = op.action();
        proof {
            lemma_action_fits(m, l, th);
            lemma_own_step(m, l, th);
        }
        if let Some(a) = op.next_action() {
            let e = self.perform(a);
            op.on_event(e);
        }
        let ghost mid = *self;
        proof {
            self.list = Ghost(list_after(m, l, a));
            let l2 = self.list@;
            assert forall|n: usize| n < m.next.len() implies #[trigger] self.value_at(n) == old(
                self,
            ).value_at(n) by {
                assert(mid.value_at(n) == old(self).value_at(n));
            }
            assert(th.after(mem_event(m, a)) == QueueThread::Enqueue(*op));
            assert forall|i: int| 0 <= i < l.order.len() implies l2.order[i] == l.order[i]
                && #[trigger] l.order[i] < m.next.len() by {}
            assert forall|n: usize|
                n < self.mem().next.len() && !in_range(l2, n, 0, l2.h) implies #[trigger] self.value_at(
                n,
            ) is Some by {
                if in_range(l, n, 0, l.h) {
                    lemma_in_range_stable(l, l2, n, 0, l.h, l2.h);
                }
                assert(old(self).value_at(n) is Some);
            }
            assert(l2.h == l.h);
            assert forall|i: int| 0 <= i < l.waiting().len() implies self@[i] == old(self)@[i] by {
                assert(l2.order[l.h + 1 + i] == l.order[l.h + 1 + i]);
                assert(self.value_at(l.order[l.h + 1 + i]) == old(self).value_at(
                    l.order[l.h + 1 + i],
                ));
            }
            if old(op).pc is Link && op.pc is Swing {
                assert(self.value_at(old(op).node) == old(self).value_at(old(op).node));
                assert(self@ =~= old(self)@.push(old(self).value_at(old(op).node)->0));
            } else {
                assert(self@ =~= old(self)@);
            }
        }
    }

    /// Performs the next operation of a dequeue.
    pub fn step_dequeue(&mut self, op: &mut DequeueOp)
        requires
            old(self).wf(),
            dequeue_inv(old(self).mem(), old(self).list(), *old(op)),
            !old(op).finished(),
        ensures
            final(self).wf(),
            dequeue_inv(final(self).mem(), final(self).list(), *final(op)),
            final(self).mem() == mem_after(old(self).mem(), old(op).action()),
            final(self).list() == list_after(
                old(self).mem(),
                old(self).list(),
                old(op).action(),
            ),
            *final(op) == old(op).after(mem_event(old(self).mem(), old(op).action())),
            forall|n: usize|
                n < old(self).mem().next.len() ==> #[trigger] final(self).value_at(n) == old(
                    self,
                ).value_at(n),
            match final(op).pc {
                DequeuePc::Won(n) => {
                    &&& old(self)@.len() > 0
                    &&& final(self).value_at(n) == Some(old(self)@[0])
                    &&& final(self)@ == old(self)@.drop_first()
                },
                _ => final(self)@ == old(self)@,
            },
    {
        let ghost m = self.mem();
        let ghost l = self.list@;
        let ghost th = QueueThread::Dequeue(*op);
        let ghost a = op.action();
        proof {
            lemma_action_fits(m, l, th);
            lemma_own_step(m, l, th);
        }
        if let Some(a) = op.next_action() {
            let e = self.perform(a);
            op.on_event(e);
        }
        let ghost mid = *self;
        proof {
            self.list = Ghost(list_after(m, l, a));
            let l2 = self.list@;
            assert forall|n: usize| n < m.next.len() implies #[trigger] self.value_at(n) == old(
                self,
            ).value_at(n) by {
                assert(mid.value_at(n) == old(self).value_at(n));
            }
            assert(th.after(mem_event(m, a)) == QueueThread::Dequeue(*op));
            assert(l2.order == l.order);
            assert forall|i: int| 0 <= i < l.order.len() implies #[trigger] l.order[i]
                < m.next.len() by {}
            assert forall|n: usize|
                n < self.mem().next.len() && !in_range(l2, n, 0, l2.h) implies #[trigger] self.value_at(
                n,
            ) is Some by {
                if in_range(l, n, 0, l.h) {
                    lemma_in_range_stable(l, l2, n, 0, l.h, l2.h);
                }
                assert(old(self).value_at(n) is Some);
            }
            assert forall|i: int| 0 <= i < l2.waiting().len() implies self@[i] == old(self)@[i
                + l2.h - l.h] by {
                assert(self.value_at(l.order[l2.h + 1 + i]) == old(self).value_at(
                    l.order[l2.h + 1 + i],
                ));
            }
            if let DequeuePc::Won(n) = op.pc {
                assert(l2.h == l.h + 1);
                let i = choose|i: int|
                    0 <= i <= l.t - 1 && 0 <= i < l.order.len() && l.order[i] == m.head;
                assert(l.order[l.h + 1] == n);
                assert(!in_range(l, n, 0, l.h));
                assert(self.value_at(n) == old(self).value_at(n));
                assert(self@ =~= old(self)@.drop_first());
            } else {
                assert(self@ =~= old(self)@);
            }
        }
    }

    /// Takes the value out of a node that a dequeue has won.
    pub fn take_won(&mut self, n: usize) -> (r: Option<T>)
        requires
            old(self).wf(),
            in_range(old(self).list(), n, 1, old(self).list().h),
        ensures
            final(self).wf(),
            r == old(self).value_at(n),
            final(self).mem() == old(self).mem(),
            final(self).list() == old(self).list(),
            final(self).value_at(n) is None,
            forall|k: usize|
                k < old(self).mem().next.len() && k != n ==> #[trigger] final(self).value_at(k)
                    == old(self).value_at(k),
            final(self)@ == old(self)@,
    {
        proof {
            lemma_in_range_exists(self.mem(), self.list@, n, 1, self.list@.h);
        }
        let value = self.nodes[n].value.take();
        proof {
            let l = self.list@;
            let p = choose|p: int| 1 <= p <= l.h && l.order[p] == n;
            assert(self.mem().next =~= old(self).mem().next);
            assert forall|k: usize|
                k < self.mem().next.len() && !in_range(l, k, 0, l.h) implies #[trigger] self.value_at(
                k,
            ) is Some by {
                assert(old(self).value_at(k) is Some);
                if k == n {
                    assert(in_range(l, k, 0, l.h)) by {
                        assert(l.order[p] == k);
                    }
                }
            }
            assert forall|i: int| 0 <= i < l.waiting().len() implies self@[i] == old(self)@[i] by {
                assert(l.order[l.h + 1 + i] != l.order[p]);
                assert(l.order[l.h + 1 + i] < old(self).mem().next.len());
            }
            assert(self@ =~= old(self)@);
        }
        value
    }

    /// Puts `value` behind all that is in the queue.
    pub fn enqueue(&mut self, value: T)
        requires
            old(self).wf(),
        ensures
            final(self).wf(),
            final(self)@ == old(self)@.push(value),
    {
        let mut op = self.begin_enqueue(value);
        while op.next_action().is_some()
            invariant
                self.wf(),
                enqueue_inv(self.mem(), self.list(), op),
                self.value_at(op.node) == Some(value),
                op.pc is Swing || op.pc is Done ==> self@ == old(self)@.push(value),
                !(op.pc is Swing || op.pc is Done) ==> self@ == old(self)@,
                match op.pc {
                    EnqueuePc::ReadNext { tail } => tail == self.mem().tail,
                    EnqueuePc::Recheck { tail, next } => tail == self.mem().tail && next
                        == self.mem().next[tail as int],
                    EnqueuePc::Link { tail } => tail == self.mem().tail
                        && self.mem().next[tail as int] is None,
                    EnqueuePc::Help { tail, next } => tail == self.mem().tail,
                    _ => true,
                },
            decreases
                    if op.pc is Swing || op.pc is Done {
                        0int
                    } else {
                        1int
                    },
                    if op.pc is Swing || op.pc is Done {
                        0int
                    } else {
                        self.list().order.len() - self.list().t
                    },
                    match op.pc {
                        EnqueuePc::LoadTail => 4int,
                        EnqueuePc::ReadNext { tail } => 3,
                        EnqueuePc::Recheck { tail, next } => 2,
                        EnqueuePc::Done => 0,
                        _ => 1,
                    },
        {
            self.step_enqueue(&mut op);
        }
    }

    /// Takes the oldest value out of the queue; `None` if there is none.
    pub fn dequeue(&mut self) -> (r: Option<T>)
        requires
            old(self).wf(),
        ensures
            final(self).wf(),
            match r {
                Some(v) => {
                    &&& old(self)@.len() > 0
                    &&& v == old(self)@[0]
                    &&& final(self)@ == old(self)@.drop_first()
                },
                None => {
                    &&& old(self)@.len() == 0
                    &&& final(self)@ == old(self)@
                },
            },
    {
        let mut op = DequeueOp::start();
        while op.next_action().is_some()
            invariant
                self.wf(),
                dequeue_inv(self.mem(), self.list(), op),
                match op.pc {
                    DequeuePc::LoadTail { head } => head == self.mem().head,
                    DequeuePc::ReadNext { head, tail } => {
                        &&& head == self.mem().head
                        &&& tail == self.mem().tail
                    },
                    DequeuePc::Recheck { head, tail, next } => {
                        &&& head == self.mem().head
                        &&& tail == self.mem().tail
                        &&& next == self.mem().next[head as int]
                    },
                    DequeuePc::Help { tail, next } => tail == self.mem().tail,
                    DequeuePc::Advance { head, next } => head == self.mem().head,
                    DequeuePc::Empty => old(self)@.len() == 0,
                    DequeuePc::Won(n) => {
                        &&& old(self)@.len() > 0
                        &&& self@ == old(self)@.drop_first()
                        &&& self.value_at(n) == Some(old(self)@[0])
                    },
                    _ => true,
                },
                !(op.pc is Won) ==> self@ == old(self)@,
            decreases
                    if op.pc is Won {
                        0int
                    } else {
                        1int
                    },
                    if op.pc is Won {
                        0int
                    } else {
                        self.list().order.len() - self.list().t
                    },
                    match op.pc {
                        DequeuePc::LoadHead => 5int,
                        DequeuePc::LoadTail { head } => 4,
                        DequeuePc::ReadNext { head, tail } => 3,
                        DequeuePc::Recheck { head, tail, next } => 2,
                        DequeuePc::Help { tail, next } => 1,
                        DequeuePc::Advance { head, next } => 1,
                        _ => 0,
                    },
        {
            proof {
                let m = self.mem();
                let l = self.list();
                if m.next[m.head as int] is None {
                    if l.h < l.order.len() - 1 {
                        assert(m.next[l.order[l.h] as int] == Some(l.order[l.h + 1]));
                    }
                    assert(self@.len() == 0);
                }
            }
            self.step_dequeue(&mut op);
        }
        match op.pc {
            DequeuePc::Won(n) => self.take_won(n),
            _ => None,
        }
    }
}

impl<T> Default for Queue<T> {
    fn default() -> (q: Queue<T>)
        ensures
            q.wf(),
            q@ == Seq::<T>::empty(),
    {
        Queue::new()
    }
}

/// An enqueue reads the tail and its link, and reads the tail again. If the tail has moved, it
/// starts over. If nothing is linked behind the tail, it links its node there, and then moves the
/// tail on to its node; if something is, it moves the tail on to that and starts over.
pub proof fn law_enqueue_links_behind_the_tail(op: EnqueueOp, t: usize, now: usize, n: usize)
    requires
        op.pc is LoadTail,
    ensures
        op.action() == QueueAction::LoadTail,
        ({
            let read = op.after(QueueEvent::Addr(t));
            let last = read.after(QueueEvent::Link(None));
            let link = last.after(QueueEvent::Addr(t));
            let linked = link.after(QueueEvent::Exchanged(true));
            &&& read.action() == QueueAction::LoadNext(t)
            &&& last.action() == QueueAction::LoadTail
            &&& now != t ==> last.after(QueueEvent::Addr(now)) == op
            &&& link.action() == QueueAction::CasNext { node: t, new: op.node }
            &&& link.after(QueueEvent::Exchanged(false)) == op
            &&& linked.action() == QueueAction::CasTail { current: t, new: op.node }
            &&& linked.after(QueueEvent::Exchanged(true)).pc is Done
            &&& linked.after(QueueEvent::Exchanged(false)).pc is Done
            &&& !(read.pc is Done) && !(last.pc is Done)
            &&& !(link.pc is Done) && !(linked.pc is Done)
        }),
        ({
            let lagging = op.after(QueueEvent::Addr(t)).after(QueueEvent::Link(Some(n)));
            let help = lagging.after(QueueEvent::Addr(t));
            &&& lagging.action() == QueueAction::LoadTail
            &&& now != t ==> lagging.after(QueueEvent::Addr(now)) == op
            &&& help.action() == QueueAction::CasTail { current: t, new: n }
            &&& help.after(QueueEvent::Exchanged(true)) == op
            &&& help.after(QueueEvent::Exchanged(false)) == op
            &&& !(lagging.pc is Done) && !(help.pc is Done)
        }),
{
}

/// A dequeue reads the head, the tail and the link of the head, and reads the head again. If the
/// head has moved, it starts over. It finds the queue empty only where the head is the tail and
/// nothing is linked behind it; otherwise it takes what is linked behind the head by moving the
/// head on to it, after it has moved a lagging tail on.
pub proof fn law_dequeue_takes_what_is_behind_the_head(
    op: DequeueOp,
    h: usize,
    t: usize,
    n: usize,
    now: usize,
)
    requires
        op.pc is LoadHead,
    ensures
        op.action() == QueueAction::LoadHead,
        ({
            let head = op.after(QueueEvent::Addr(h));
            let tail = head.after(QueueEvent::Addr(t));
            let last = tail.after(QueueEvent::Link(None));
            let more = tail.after(QueueEvent::Link(Some(n)));
            let act = more.after(QueueEvent::Addr(h));
            &&& head.action() == QueueAction::LoadTail
            &&& tail.action() == QueueAction::LoadNext(h)
            &&& last.action() == QueueAction::LoadHead
            &&& more.action() == QueueAction::LoadHead
            &&& !head.finished() && !tail.finished() && !last.finished() && !more.finished()
            &&& now != h ==> last.after(QueueEvent::Addr(now)) == op && more.after(
                QueueEvent::Addr(now),
            ) == op
            &&& h == t ==> last.after(QueueEvent::Addr(h)).pc is Empty
            &&& h != t ==> last.after(QueueEvent::Addr(h)) == op
            &&& !act.finished()
            &&& h == t ==> {
                &&& act.action() == QueueAction::CasTail { current: t, new: n }
                &&& act.after(QueueEvent::Exchanged(true)) == op
                &&& act.after(QueueEvent::Exchanged(false)) == op
            }
            &&& h != t ==> {
                &&& act.action() == QueueAction::CasHead { current: h, new: n }
                &&& act.after(QueueEvent::Exchanged(true)).pc == DequeuePc::Won(n)
                &&& act.after(QueueEvent::Exchanged(false)) == op
            }
        }),
{
}

/// What each operation does to the links, the head and the tail: an exchange takes place if and
/// only if what was expected is there, and no operation changes more than what it names.
pub proof fn law_queue_accesses(m: QueueMem, n: usize, to: usize, cur: usize, k: usize)
    requires
        n < m.next.len(),
        k < m.next.len(),
    ensures
        ({
            let a = QueueAction::CasNext { node: n, new: to };
            let x = mem_after(m, a);
            &&& x.head == m.head && x.tail == m.tail && x.next.len() == m.next.len()
            &&& mem_event(m, a) == QueueEvent::Exchanged(m.next[n as int] is None)
            &&& m.next[n as int] is None ==> x.next[n as int] == Some(to)
            &&& m.next[n as int] is Some ==> x.next[n as int] == m.next[n as int]
            &&& k != n ==> x.next[k as int] == m.next[k as int]
        }),
        ({
            let a = QueueAction::CasHead { current: cur, new: to };
            let x = mem_after(m, a);
            &&& x.next == m.next && x.tail == m.tail
            &&& mem_event(m, a) == QueueEvent::Exchanged(m.head == cur)
            &&& x.head == if m.head == cur { to } else { m.head }
        }),
        ({
            let a = QueueAction::CasTail { current: cur, new: to };
            let x = mem_after(m, a);
            &&& x.next == m.next && x.head == m.head
            &&& mem_event(m, a) == QueueEvent::Exchanged(m.tail == cur)
            &&& x.tail == if m.tail == cur { to } else { m.tail }
        }),
        mem_event(m, QueueAction::LoadHead) == QueueEvent::Addr(m.head),
        mem_event(m, QueueAction::LoadTail) == QueueEvent::Addr(m.tail),
        mem_event(m, QueueAction::LoadNext(k)) == QueueEvent::Link(m.next[k as int]),
        mem_after(m, QueueAction::LoadHead) == m,
        mem_after(m, QueueAction::LoadTail) == m,
        mem_after(m, QueueAction::LoadNext(k)) == m,
{
}

} // verus!
