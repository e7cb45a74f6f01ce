//! A stack after Treiber: a linked list whose head is moved by compare-and-exchange.
//!
//! A push points its node at the head and exchanges the head for the node. A pop reads the
//! head, reads the link behind it, and exchanges the head for that link; only the pop whose
//! exchange takes place owns the value. A popped node is not freed while the stack lives, so
//! an address that comes back at the head is the same node with the same link, and a stale
//! exchange cannot corrupt the list.
//!
//! [`PushOp`] and [`PopOp`] decide what a thread does next; [`Stack`] is the memory.

use vstd::prelude::*;

verus! {

/// One atomic operation on the memory of a stack. Nodes are named by their address, `None`
/// is null.
#[derive(Clone, Copy, Debug, PartialEq, Eq)]
pub enum StackAction {
    /// Read the head.
    LoadHead,
    /// Set the link of a node that no other thread has seen yet.
    WriteNext { node: usize, next: Option<usize> },
    /// Read the link of a node.
    ReadNext(usize),
    /// Move the head from `current` to `new`; the exchange may fail for no reason.
    CasHead { current: Option<usize>, new: Option<usize> },
}

/// What an operation on the memory of a stack gave back.
#[derive(Clone, Copy, Debug, PartialEq, Eq)]
pub enum StackEvent {
    /// The operation has no result.
    Written,
    /// The head or the link that was read.
    Link(Option<usize>),
    /// The exchange took place.
    Exchanged,
    /// The exchange did not take place; the head that was found.
    Found(Option<usize>),
}

/// The links and the head of a stack.
#[verifier::ext_equal]
pub struct StackMem {
    pub next: Seq<Option<usize>>,
    pub head: Option<usize>,
}

/// The memory after an operation; `spurious` makes an exchange fail for no reason.
pub open spec fn mem_after(m: StackMem, a: StackAction, spurious: bool) -> StackMem {
    match a {
        StackAction::WriteNext { node, next } => StackMem {
            next: m.next.update(node as int, next),
            ..m
        },
        StackAction::CasHead { current, new } => if m.head == current && !spurious {
            StackMem { head: new, ..m }
        } else {
            m
        },
        _ => m,
    }
}

/// What an operation gives back.
pub open spec fn mem_event(m: StackMem, a: StackAction, spurious: bool) -> StackEvent {
    match a {
        StackAction::LoadHead => StackEvent::Link(m.head),
        StackAction::WriteNext { node, next } => StackEvent::Written,
        StackAction::ReadNext(n) => StackEvent::Link(m.next[n as int]),
        StackAction::CasHead { current, new } => if m.head == current && !spurious {
            StackEvent::Exchanged
        } else {
            StackEvent::Found(m.head)
        },
    }
}

/// Whether every node that an operation names exists.
pub open spec fn action_valid(m: StackMem, a: StackAction) -> bool {
    match a {
        StackAction::WriteNext { node, next } => node < m.next.len(),
        StackAction::ReadNext(n) => n < m.next.len(),
        _ => true,
    }
}

/// Where a push stands.
#[derive(Clone, Copy, Debug, PartialEq, Eq)]
pub enum PushPc {
    /// About to read the head.
    Load,
    /// About to point the node at `old`.
    Write { old: Option<usize> },
    /// About to exchange the head `old` for the node.
    Exchange { old: Option<usize> },
    /// The node is on the stack.
    Done,
}

/// One push of the node `node`.
#[derive(Clone, Copy, Debug, PartialEq, Eq)]
pub struct PushOp {
    pub node: usize,
    pub pc: PushPc,
}

impl PushOp {
    /// The operation that an unfinished push performs next.
    pub open spec fn action(self) -> StackAction {
        match self.pc {
            PushPc::Load => StackAction::LoadHead,
            PushPc::Write { old } => StackAction::WriteNext { node: self.node, next: old },
            PushPc::Exchange { old } => StackAction::CasHead { current: old, new: Some(self.node) },
            PushPc::Done => StackAction::LoadHead,
        }
    }

    /// Where a push stands after an answer. An answer of the wrong kind changes nothing.
    pub open spec fn after(self, e: StackEvent) -> PushOp {
        let pc = match (self.pc, e) {
            (PushPc::Load, StackEvent::Link(h)) => PushPc::Write { old: h },
            (PushPc::Write { old }, StackEvent::Written) => PushPc::Exchange { old },
            (PushPc::Exchange { old }, StackEvent::Exchanged) => PushPc::Done,
            (PushPc::Exchange { old }, StackEvent::Found(h)) => PushPc::Write { old: h },
            (pc, _) => pc,
        };
        PushOp { node: self.node, pc }
    }

    /// A push of `node` that has done nothing yet.
    pub fn start(node: usize) -> (op: PushOp)
        ensures
            op == (PushOp { node, pc: PushPc::Load }),
    {
        PushOp { node, pc: PushPc::Load }
    }

    /// The operation to perform next, or `None` when the push is finished.
    pub fn next_action(&self) -> (a: Option<StackAction>)
        ensures
            a == (if self.pc is Done { None } else { Some(self.action()) }),
    {
        match self.pc {
            PushPc::Load => Some(StackAction::LoadHead),
            PushPc::Write { old } => Some(StackAction::WriteNext { node: self.node, next: old }),
            PushPc::Exchange { old } => Some(
                StackAction::CasHead { current: old, new: Some(self.node) },
            ),
            PushPc::Done => None,
        }
    }

    /// Takes the answer to the operation that was performed.
    pub fn on_event(&mut self, e: StackEvent)
        ensures
            *final(self) == old(self).after(e),
    {
        let pc = match (self.pc, e) {
            (PushPc::Load, StackEvent::Link(h)) => PushPc::Write { old: h },
            (PushPc::Write { old }, StackEvent::Written) => PushPc::Exchange { old },
            (PushPc::Exchange { old }, StackEvent::Exchanged) => PushPc::Done,
            (PushPc::Exchange { old }, StackEvent::Found(h)) => PushPc::Write { old: h },
            (pc, _) => pc,
        };
        self.pc = pc;
    }
}

/// Where a pop stands.
#[derive(Clone, Copy, Debug, PartialEq, Eq)]
pub enum PopPc {
    /// About to read the head.
    Load,
    /// About to read the link of `old`.
    ReadNext { old: usize },
    /// About to exchange the head `old` for `next`.
    Exchange { old: usize, next: Option<usize> },
    /// The stack was empty.
    Empty,
    /// The value of the node belongs to this pop.
    Won(usize),
}

/// One pop.
#[derive(Clone, Copy, Debug, PartialEq, Eq)]
pub struct PopOp {
    pub pc: PopPc,
}

impl PopOp {
    /// Whether the pop has come to its end.
    pub open spec fn finished(self) -> bool {
        self.pc is Empty || self.pc is Won
    }

    /// The operation that an unfinished pop performs next.
    pub open spec fn action(self) -> StackAction {
        match self.pc {
            PopPc::Load => StackAction::LoadHead,
            PopPc::ReadNext { old } => StackAction::ReadNext(old),
            PopPc::Exchange { old, next } => StackAction::CasHead { current: Some(old), new: next },
            _ => StackAction::LoadHead,
        }
    }

    /// Where a pop stands after an answer. An answer of the wrong kind changes nothing.
    pub open spec fn after(self, e: StackEvent) -> PopOp {
        let pc = match (self.pc, e) {
            (PopPc::Load, StackEvent::Link(h)) => match h {
                None => PopPc::Empty,
                Some(n) => PopPc::ReadNext { old: n },
            },
            (PopPc::ReadNext { old }, StackEvent::Link(next)) => PopPc::Exchange { old, next },
            (PopPc::Exchange { old, next }, StackEvent::Exchanged) => PopPc::Won(old),
            (PopPc::Exchange { old, next }, StackEvent::Found(_)) => PopPc::Load,
            (pc, _) => pc,
        };
        PopOp { pc }
    }

    /// A pop that has done nothing yet.
    pub fn start() -> (op: PopOp)
        ensures
            op == (PopOp { pc: PopPc::Load }),
    {
        PopOp { pc: PopPc::Load }
    }

    /// The operation to perform next, or `None` when the pop is finished.
    pub fn next_action(&self) -> (a: Option<StackAction>)
        ensures
            a == (if self.finished() { None } else { Some(self.action()) }),
    {
        match self.pc {
            PopPc::Load => Some(StackAction::LoadHead),
            PopPc::ReadNext { old } => Some(StackAction::ReadNext(old)),
            PopPc::Exchange { old, next } => Some(
                StackAction::CasHead { current: Some(old), new: next },
            ),
            PopPc::Empty => None,
            PopPc::Won(_) => None,
        }
    }

    /// Takes the answer to the operation that was performed.
    pub fn on_event(&mut self, e: StackEvent)
        ensures
            *final(self) == old(self).after(e),
    {
        let pc = match (self.pc, e) {
            (PopPc::Load, StackEvent::Link(h)) => match h {
                None => PopPc::Empty,
                Some(n) => PopPc::ReadNext { old: n },
            },
            (PopPc::ReadNext { old }, StackEvent::Link(next)) => PopPc::Exchange { old, next },
            (PopPc::Exchange { old, next }, StackEvent::Exchanged) => PopPc::Won(old),
            (PopPc::Exchange { old, next }, StackEvent::Found(_)) => PopPc::Load,
            (pc, _) => pc,
        };
        self.pc = pc;
    }
}

/// The list behind the memory: the nodes on the stack, top first, and all nodes that ever
/// were on it.
#[verifier::ext_equal]
pub struct StackList {
    pub chain: Seq<usize>,
    pub published: Set<usize>,
}

/// The node on top of a chain.
pub open spec fn first_of(chain: Seq<usize>) -> Option<usize> {
    if chain.len() == 0 {
        None
    } else {
        Some(chain[0])
    }
}

/// Whether `l` is the list that the memory holds.
pub open spec fn mem_holds(m: StackMem, l: StackList) -> bool {
    &&& m.head == first_of(l.chain)
    &&& l.chain.no_duplicates()
    &&& forall|i: int| 0 <= i < l.chain.len() ==> l.published.contains(#[trigger] l.chain[i])
    &&& forall|i: int|
        0 <= i < l.chain.len() ==> m.next[(#[trigger] l.chain[i]) as int] == first_of(
            l.chain.skip(i + 1),
        )
    &&& forall|n: usize| #[trigger]
        l.published.contains(n) ==> n < m.next.len() && (m.next[n as int] is Some
            ==> l.published.contains(m.next[n as int]->0))
}

/// The list after an operation that was performed on memory that holds `l`.
pub open spec fn list_after(
    m: StackMem,
    l: StackList,
    a: StackAction,
    spurious: bool,
) -> StackList {
    match a {
        StackAction::CasHead { current, new } => if m.head == current && !spurious {
            if new is Some && !l.published.contains(new->0) {
                StackList {
                    chain: seq![new->0] + l.chain,
                    published: l.published.insert(new->0),
                }
            } else {
                StackList { chain: l.chain.drop_first(), ..l }
            }
        } else {
            l
        },
        _ => l,
    }
}

/// What holds of a push under way: until it is done no other thread has seen its node.
pub open spec fn push_inv(m: StackMem, l: StackList, op: PushOp) -> bool {
    &&& op.node < m.next.len()
    &&& match op.pc {
        PushPc::Done => l.published.contains(op.node),
        PushPc::Exchange { old } => !l.published.contains(op.node) && m.next[op.node as int] == old,
        _ => !l.published.contains(op.node),
    }
}

/// What holds of a pop under way: the node that it read was on the stack, and the link that
/// it read is the link of that node for good.
pub open spec fn pop_inv(m: StackMem, l: StackList, op: PopOp) -> bool {
    match op.pc {
        PopPc::ReadNext { old } => l.published.contains(old),
        PopPc::Exchange { old, next } => l.published.contains(old) && m.next[old as int] == next
            && (next is Some ==> l.published.contains(next->0)),
        PopPc::Won(n) => l.published.contains(n) && !l.chain.contains(n),
        _ => true,
    }
}

/// A thread that works on the stack.
pub enum StackThread {
    Push(PushOp),
    Pop(PopOp),
}

impl StackThread {
    /// Whether the operation of the thread has come to its end.
    pub open spec fn finished(self) -> bool {
        match self {
            StackThread::Push(op) => op.pc is Done,
            StackThread::Pop(op) => op.finished(),
        }
    }

    /// The operation that the thread performs next.
    pub open spec fn action(self) -> StackAction {
        match self {
            StackThread::Push(op) => op.action(),
            StackThread::Pop(op) => op.action(),
        }
    }

    /// Where the thread stands after an answer.
    pub open spec fn after(self, e: StackEvent) -> StackThread {
        match self {
            StackThread::Push(op) => StackThread::Push(op.after(e)),
            StackThread::Pop(op) => StackThread::Pop(op.after(e)),
        }
    }

    /// What holds of the thread.
    pub open spec fn inv(self, m: StackMem, l: StackList) -> bool {
        match self {
            StackThread::Push(op) => push_inv(m, l, op),
            StackThread::Pop(op) => pop_inv(m, l, op),
        }
    }
}

/// The memory of a stack, the list that it holds, and any number of threads at work on it.
pub struct StackSystem {
    pub mem: StackMem,
    pub list: StackList,
    pub threads: Seq<StackThread>,
}

/// Whether two threads own different nodes.
pub open spec fn apart(a: StackThread, b: StackThread) -> bool {
    match (a, b) {
        (StackThread::Push(a), StackThread::Push(b)) => a.node != b.node,
        (StackThread::Pop(a), StackThread::Pop(b)) => match (a.pc, b.pc) {
            (PopPc::Won(x), PopPc::Won(y)) => x != y,
            _ => true,
        },
        _ => true,
    }
}

impl StackSystem {
    /// What holds at any moment: the memory holds the list, every thread is where its
    /// invariant puts it, no two pushes own the same node, and no two pops won the same node.
    pub open spec fn inv(self) -> bool {
        &&& mem_holds(self.mem, self.list)
        &&& forall|i: int|
            0 <= i < self.threads.len() ==> (#[trigger] self.threads[i]).inv(self.mem, self.list)
        &&& forall|i: int, j: int|
            0 <= i < self.threads.len() && 0 <= j < self.threads.len() && i != j ==> apart(
                #[trigger] self.threads[i],
                #[trigger] self.threads[j],
            )
    }

    /// The system after thread `i` has performed its next operation.
    pub open spec fn step(self, i: int, spurious: bool) -> StackSystem {
        let a = self.threads[i].action();
        StackSystem {
            mem: mem_after(self.mem, a, spurious),
            list: list_after(self.mem, self.list, a, spurious),
            threads: self.threads.update(
                i,
                self.threads[i].after(mem_event(self.mem, a, spurious)),
            ),
        }
    }

    /// The system after a thread has allocated a node and joined to push it.
    pub open spec fn join_push(self) -> StackSystem {
        let op = PushOp { node: self.mem.next.len() as usize, pc: PushPc::Load };
        StackSystem {
            mem: StackMem { next: self.mem.next.push(None), ..self.mem },
            list: self.list,
            threads: self.threads.push(StackThread::Push(op)),
        }
    }

    /// The system after a thread has joined to pop.
    pub open spec fn join_pop(self) -> StackSystem {
        StackSystem {
            threads: self.threads.push(StackThread::Pop(PopOp { pc: PopPc::Load })),
            ..self
        }
    }
}

/// What one operation of a thread does to the memory, to the list and to the thread.
proof fn lemma_own_step(m: StackMem, l: StackList, th: StackThread, spurious: bool)
    requires
        mem_holds(m, l),
        th.inv(m, l),
        !th.finished(),
    ensures
        action_valid(m, th.action()),
        mem_holds(
            mem_after(m, th.action(), spurious),
            list_after(m, l, th.action(), spurious),
        ),
        th.after(mem_event(m, th.action(), spurious)).inv(
            mem_after(m, th.action(), spurious),
            list_after(m, l, th.action(), spurious),
        ),
{
    let a = th.action();
    let m2 = mem_after(m, a, spurious);
    let l2 = list_after(m, l, a, spurious);
    match th {
        StackThread::Push(op) => {
            match op.pc {
                PushPc::Write { old } => {
                    assert forall|i: int| 0 <= i < l.chain.len() implies m2.next[(
                    #[trigger] l.chain[i]) as int] == first_of(l.chain.skip(i + 1)) by {
                        assert(l.published.contains(l.chain[i]));
                    }
                },
                PushPc::Exchange { old } => {
                    if m.head == old && !spurious {
                        assert(l2.chain == seq![op.node] + l.chain);
                        if l.chain.len() > 0 {
                            assert(l.published.contains(l.chain[0]));
                        }
                        assert forall|i: int| 0 <= i < l2.chain.len() implies m2.next[(
                        #[trigger] l2.chain[i]) as int] == first_of(l2.chain.skip(i + 1)) by {
                            if i == 0 {
                                assert(l2.chain.skip(1) =~= l.chain);
                            } else {
                                assert(l2.chain[i] == l.chain[i - 1]);
                                assert(l2.chain.skip(i + 1) =~= l.chain.skip(i));
                            }
                        }
                        assert forall|i: int| 0 <= i < l2.chain.len() implies l2.published.contains(
                            #[trigger] l2.chain[i],
                        ) by {
                            if i > 0 {
                                assert(l2.chain[i] == l.chain[i - 1]);
                            }
                        }
                        assert(l2.chain.no_duplicates());
                    }
                },
                _ => {},
            }
        },
        StackThread::Pop(op) => {
            match op.pc {
                PopPc::Load => {
                    if l.chain.len() > 0 {
                        assert(l.published.contains(l.chain[0]));
                    }
                },
                PopPc::Exchange { old, next } => {
                    if m.head == Some(old) && !spurious {
                        assert(l.chain[0] == old);
                        assert(next == first_of(l.chain.skip(1)));
                        assert(l.chain.drop_first() =~= l.chain.skip(1));
                        assert forall|i: int| 0 <= i < l2.chain.len() implies m2.next[(
                        #[trigger] l2.chain[i]) as int] == first_of(l2.chain.skip(i + 1)) by {
                            assert(l2.chain[i] == l.chain[i + 1]);
                            assert(l2.chain.skip(i + 1) =~= l.chain.skip(i + 2));
                        }
                        assert forall|i: int| 0 <= i < l2.chain.len() implies l2.published.contains(
                            #[trigger] l2.chain[i],
                        ) by {
                            assert(l2.chain[i] == l.chain[i + 1]);
                        }
                        assert(!l2.chain.contains(old));
                    }
                },
                _ => {},
            }
        },
    }
}

/// An operation of one thread keeps what holds of another: what was published stays
/// published, and the link of a published node never changes.
proof fn lemma_thread_stable(
    m: StackMem,
    l: StackList,
    by: StackThread,
    spurious: bool,
    th: StackThread,
)
    requires
        mem_holds(m, l),
        by.inv(m, l),
        !by.finished(),
        th.inv(m, l),
        apart(by, th),
    ensures
        th.inv(
            mem_after(m, by.action(), spurious),
            list_after(m, l, by.action(), spurious),
        ),
        apart(by.after(mem_event(m, by.action(), spurious)), th),
{
    lemma_own_step(m, l, by, spurious);
    let a = by.action();
    let m2 = mem_after(m, a, spurious);
    let l2 = list_after(m, l, a, spurious);
    assert(l.published.subset_of(l2.published));
    assert forall|n: usize| #[trigger] l.published.contains(n) implies m2.next[n as int]
        == m.next[n as int] by {}
    if let StackThread::Pop(op) = th {
        if let PopPc::Won(n) = op.pc {
            if l2.chain.contains(n) {
                let i = choose|i: int| 0 <= i < l2.chain.len() && l2.chain[i] == n;
                if l2.chain.len() > l.chain.len() {
                    assert(i > 0);
                    assert(l.chain[i - 1] == n);
                } else if l2.chain.len() < l.chain.len() {
                    assert(l.chain[i + 1] == n);
                } else {
                    assert(l.chain[i] == n);
                }
                assert(false);
            }
            if let StackThread::Pop(other) = by {
                if let PopPc::Exchange { old, next } = other.pc {
                    if m.head == Some(old) && !spurious {
                        assert(l.chain[0] == old);
                        assert(l.chain.contains(old));
                    }
                }
            }
        }
    }
}

/// However the threads interleave, and whichever exchanges fail for no reason, the list and
/// the ownership of nodes are kept: no node is pushed twice and none is won by two pops.
pub proof fn law_step_keeps_inv(s: StackSystem, i: int, spurious: bool)
    requires
        s.inv(),
        0 <= i < s.threads.len(),
        !s.threads[i].finished(),
    ensures
        s.step(i, spurious).inv(),
{
    let s2 = s.step(i, spurious);
    let th = s.threads[i];
    lemma_own_step(s.mem, s.list, th, spurious);
    assert forall|k: int| 0 <= k < s2.threads.len() implies (#[trigger] s2.threads[k]).inv(
        s2.mem,
        s2.list,
    ) by {
        if k != i {
            assert(apart(s.threads[i], s.threads[k]));
            lemma_thread_stable(s.mem, s.list, th, spurious, s.threads[k]);
        }
    }
    assert forall|x: int, y: int|
        0 <= x < s2.threads.len() && 0 <= y < s2.threads.len() && x != y implies apart(
        #[trigger] s2.threads[x],
        #[trigger] s2.threads[y],
    ) by {
        assert(apart(s.threads[x], s.threads[y]));
        if x == i {
            lemma_thread_stable(s.mem, s.list, th, spurious, s.threads[y]);
        } else if y == i {
            assert(apart(s.threads[y], s.threads[x]));
            lemma_thread_stable(s.mem, s.list, th, spurious, s.threads[x]);
        }
    }
}

/// An empty stack that nobody works on satisfies the invariant.
pub proof fn law_stack_start(s: StackSystem)
    requires
        s.mem.head is None,
        s.list.chain.len() == 0,
        s.list.published == Set::<usize>::empty(),
        s.threads.len() == 0,
    ensures
        s.inv(),
{
}

/// A thread may join at any moment, with a node that nobody else has, as long as there is
/// an address for it.
pub proof fn law_join_keeps_inv(s: StackSystem)
    requires
        s.inv(),
        s.mem.next.len() <= usize::MAX,
    ensures
        s.join_push().inv(),
        s.join_pop().inv(),
{
    let s2 = s.join_push();
    let fresh = s.mem.next.len() as usize;
    assert(!s.list.published.contains(fresh));
    assert forall|i: int| 0 <= i < s.list.chain.len() implies s2.mem.next[(
    #[trigger] s.list.chain[i]) as int] == first_of(s.list.chain.skip(i + 1)) by {
        assert(s.list.published.contains(s.list.chain[i]));
    }
    assert(mem_holds(s2.mem, s2.list));
    assert forall|k: int| 0 <= k < s2.threads.len() implies (#[trigger] s2.threads[k]).inv(
        s2.mem,
        s2.list,
    ) by {
        if k < s.threads.len() {
            assert(s.threads[k].inv(s.mem, s.list));
        }
    }
    assert forall|x: int, y: int|
        0 <= x < s2.threads.len() && 0 <= y < s2.threads.len() && x != y implies apart(
        #[trigger] s2.threads[x],
        #[trigger] s2.threads[y],
    ) by {
        if x < s.threads.len() {
            assert(s.threads[x].inv(s.mem, s.list));
        }
        if y < s.threads.len() {
            assert(s.threads[y].inv(s.mem, s.list));
        }
    }
}

/// The stack is a LIFO whatever the interleaving. Each step either puts the node of the push
/// that takes it on top, or hands the top node to the pop that takes it, or leaves the stack
/// as it is.
pub proof fn law_steps_are_lifo(s: StackSystem, i: int, spurious: bool)
    requires
        s.inv(),
        0 <= i < s.threads.len(),
        !s.threads[i].finished(),
    ensures
        ({
            let before = s.list.chain;
            let after = s.step(i, spurious).list.chain;
            match (s.threads[i], s.step(i, spurious).threads[i]) {
                (StackThread::Push(a), StackThread::Push(b)) => if b.pc is Done {
                    after == seq![a.node] + before
                } else {
                    after == before
                },
                (StackThread::Pop(a), StackThread::Pop(b)) => match b.pc {
                    PopPc::Won(n) => {
                        &&& before.len() > 0
                        &&& n == before[0]
                        &&& after == before.drop_first()
                    },
                    PopPc::Empty => before.len() == 0 && after == before,
                    _ => after == before,
                },
                _ => false,
            }
        }),
{
    lemma_own_step(s.mem, s.list, s.threads[i], spurious);
}

struct Node<T> {
    /// The value, until a pop takes it.
    value: Option<T>,
    next: Option<usize>,
}

/// The memory of a stack with the values in it.
pub struct Stack<T> {
    nodes: Vec<Node<T>>,
    head: Option<usize>,
    list: Ghost<StackList>,
}

impl<T> View for Stack<T> {
    type V = Seq<T>;

    /// What is on the stack, top first.
    closed spec fn view(&self) -> Seq<T> {
        self.list@.chain.map_values(|n: usize| self.nodes@[n as int].value->0)
    }
}

impl<T> Stack<T> {
    /// The links and the head.
    pub closed spec fn mem(&self) -> StackMem {
        StackMem { next: self.nodes@.map_values(|n: Node<T>| n.next), head: self.head }
    }

    /// The list that the memory holds.
    pub closed spec fn list(&self) -> StackList {
        self.list@
    }

    /// The value that a node holds.
    pub closed spec fn value_at(&self, n: usize) -> Option<T> {
        self.nodes@[n as int].value
    }

    /// Whether the memory holds its list, and every node has a value that is on the stack or
    /// was never on it.
    pub open spec fn wf(&self) -> bool {
        &&& mem_holds(self.mem(), self.list())
        &&& forall|n: usize|
            n < self.mem().next.len() && (self.list().chain.contains(n)
                || !self.list().published.contains(n)) ==> #[trigger] self.value_at(n) is Some
    }

    /// An empty stack.
    pub fn new() -> (s: Stack<T>)
        ensures
            s.wf(),
            s@ == Seq::<T>::empty(),
    {
        let s = Stack {
            nodes: Vec::new(),
            head: None,
            list: Ghost(StackList { chain: Seq::empty(), published: Set::empty() }),
        };
        proof {
            assert(s@ =~= Seq::<T>::empty());
        }
        s
    }

    /// Performs one atomic operation on the memory.
    fn perform(&mut self, a: StackAction) -> (e: StackEvent)
        requires
            action_valid(old(self).mem(), a),
        ensures
            final(self).mem() == mem_after(old(self).mem(), a, false),
            e == mem_event(old(self).mem(), a, false),
            final(self).list() == old(self).list(),
            forall|n: usize|
                n < old(self).mem().next.len() ==> #[trigger] final(self).value_at(n) == old(
                    self,
                ).value_at(n),
    {
        match a {
            StackAction::LoadHead => StackEvent::Link(self.head),
            StackAction::WriteNext { node, next } => {
                self.nodes[node].next = next;
                proof {
                    assert(self.mem().next =~= old(self).mem().next.update(node as int, next));
                }
                StackEvent::Written
            },
            StackAction::ReadNext(n) => StackEvent::Link(self.nodes[n].next),
            StackAction::CasHead { current, new } => {
                if self.head == current {
                    self.head = new;
                    StackEvent::Exchanged
                } else {
                    StackEvent::Found(self.head)
                }
            },
        }
    }

    /// The address of the node on top.
    pub fn top(&self) -> (n: Option<usize>)
        ensures
            n == self.mem().head,
    {
        self.head
    }

    /// Allocates a node for `value` and begins to push it.
    pub fn begin_push(&mut self, value: T) -> (op: PushOp)
        requires
            old(self).wf(),
        ensures
            final(self).wf(),
            op == (PushOp { node: old(self).mem().next.len() as usize, pc: PushPc::Load }),
            push_inv(final(self).mem(), final(self).list(), op),
            final(self).mem() == (StackMem {
                next: old(self).mem().next.push(None),
                ..old(self).mem()
            }),
            final(self).list() == old(self).list(),
            final(self).value_at(op.node) == Some(value),
            forall|n: usize|
                n < old(self).mem().next.len() ==> #[trigger] final(self).value_at(n) == old(
                    self,
                ).value_at(n),
            final(self)@ == old(self)@,
    {
        let id: usize = self.nodes.len();
        self.nodes.push(Node { value: Some(value), next: None });
        proof {
            let l = self.list@;
            assert(self.mem().next =~= old(self).mem().next.push(None));
            assert(!l.published.contains(id));
            assert forall|i: int| 0 <= i < l.chain.len() implies (#[trigger] l.chain[i]) < id by {
                assert(l.published.contains(l.chain[i]));
            }
            assert forall|n: usize|
                n < self.mem().next.len() && (l.chain.contains(n) || !l.published.contains(
                    n,
                )) implies #[trigger] self.value_at(n) is Some by {
                if n < id {
                    assert(old(self).value_at(n) is Some);
                }
            }
            assert(self@ =~= old(self)@);
        }
        PushOp::start(id)
    }

    /// Performs the next operation of a push.
    pub fn step_push(&mut self, op: &mut PushOp)
        requires
            old(self).wf(),
            push_inv(old(self).mem(), old(self).list(), *old(op)),
            !(old(op).pc is Done),
        ensures
            final(self).wf(),
            push_inv(final(self).mem(), final(self).list(), *final(op)),
            final(self).mem() == mem_after(old(self).mem(), old(op).action(), false),
            final(self).list() == list_after(
                old(self).mem(),
                old(self).list(),
                old(op).action(),
                false,
            ),
            *final(op) == old(op).after(mem_event(old(self).mem(), old(op).action(), false)),
            forall|n: usize|
                n < old(self).mem().next.len() ==> #[trigger] final(self).value_at(n) == old(
                    self,
                ).value_at(n),
            final(op).pc is Done ==> final(self)@ == seq![old(self).value_at(old(op).node)->0]
                + old(self)@,
            !(final(op).pc is Done) ==> final(self)@ == old(self)@,
    {
        let ghost m = self.mem();
        let ghost l = self.list@;
        let ghost th = StackThread::Push(*op);
        let ghost a = op.action();
        proof {
            lemma_own_step(m, l, th, false);
        }
        if let Some(a) = op.next_action() {
            let e = self.perform(a);
            op.on_event(e);
        }
        let ghost mid = *self;
        proof {
            self.list = Ghost(list_after(m, l, a, false));
            let l2 = self.list@;
            assert(th.after(mem_event(m, a, false)) == StackThread::Push(*op));
            assert forall|n: usize| n < m.next.len() implies #[trigger] self.value_at(n) == old(
                self,
            ).value_at(n) by {
                assert(mid.value_at(n) == old(self).value_at(n));
            }
            assert forall|i: int| 0 <= i < l.chain.len() implies (#[trigger] l.chain[i])
                < m.next.len() by {
                assert(l.published.contains(l.chain[i]));
            }
            assert forall|n: usize|
                n < self.mem().next.len() && (l2.chain.contains(n) || !l2.published.contains(
                    n,
                )) implies #[trigger] self.value_at(n) is Some by {
                if l2.chain.contains(n) && n != op.node {
                    let i = choose|i: int| 0 <= i < l2.chain.len() && l2.chain[i] == n;
                    if op.pc is Done {
                        assert(l.chain[i - 1] == n);
                    }
                }
                assert(old(self).value_at(n) is Some);
            }
            if op.pc is Done {
                assert(self.value_at(op.node) == old(self).value_at(op.node));
                assert forall|i: int| 0 <= i < l.chain.len() implies self@[i + 1] == old(self)@[i] by {
                    assert(l2.chain[i + 1] == l.chain[i]);
                    assert(self.value_at(l.chain[i]) == old(self).value_at(l.chain[i]));
                }
                assert(self@ =~= seq![old(self).value_at(old(op).node)->0] + old(self)@);
            } else {
                assert forall|i: int| 0 <= i < l.chain.len() implies self@[i] == old(self)@[i] by {
                    assert(self.value_at(l.chain[i]) == old(self).value_at(l.chain[i]));
                }
                assert(self@ =~= old(self)@);
            }
        }
    }

    /// Performs the next operation of a pop.
    pub fn step_pop(&mut self, op: &mut PopOp)
        requires
            old(self).wf(),
            pop_inv(old(self).mem(), old(self).list(), *old(op)),
            !old(op).finished(),
        ensures
            final(self).wf(),
            pop_inv(final(self).mem(), final(self).list(), *final(op)),
            final(self).mem() == mem_after(old(self).mem(), old(op).action(), false),
            final(self).list() == list_after(
                old(self).mem(),
                old(self).list(),
                old(op).action(),
                false,
            ),
            *final(op) == old(op).after(mem_event(old(self).mem(), old(op).action(), false)),
            forall|n: usize|
                n < old(self).mem().next.len() ==> #[trigger] final(self).value_at(n) == old(
                    self,
                ).value_at(n),
            match final(op).pc {
                PopPc::Won(n) => {
                    &&& old(self)@.len() > 0
                    &&& final(self).value_at(n) == Some(old(self)@[0])
                    &&& final(self)@ == old(self)@.drop_first()
                },
                PopPc::Empty => old(self)@.len() == 0 && final(self)@ == old(self)@,
                _ => final(self)@ == old(self)@,
            },
    {
        let ghost m = self.mem();
        let ghost l = self.list@;
        let ghost th = StackThread::Pop(*op);
        let ghost a = op.action();
        proof {
            lemma_own_step(m, l, th, false);
        }
        if let Some(a) = op.next_action() {
            let e = self.perform(a);
            op.on_event(e);
        }
        let ghost mid = *self;
        proof {
            self.list = Ghost(list_after(m, l, a, false));
            let l2 = self.list@;
            assert(th.after(mem_event(m, a, false)) == StackThread::Pop(*op));
            assert forall|n: usize| n < m.next.len() implies #[trigger] self.value_at(n) == old(
                self,
            ).value_at(n) by {
                assert(mid.value_at(n) == old(self).value_at(n));
            }
            assert forall|i: int| 0 <= i < l.chain.len() implies (#[trigger] l.chain[i])
                < m.next.len() by {
                assert(l.published.contains(l.chain[i]));
            }
            assert forall|n: usize|
                n < self.mem().next.len() && (l2.chain.contains(n) || !l2.published.contains(
                    n,
                )) implies #[trigger] self.value_at(n) is Some by {
                if l2.chain.contains(n) {
                    let i = choose|i: int| 0 <= i < l2.chain.len() && l2.chain[i] == n;
                    if op.pc is Won {
                        assert(l.chain[i + 1] == n);
                    }
                }
                assert(old(self).value_at(n) is Some);
            }
            if let PopPc::Won(n) = op.pc {
                assert(l.chain[0] == n);
                assert(l.chain.contains(n));
                assert(self.value_at(n) == old(self).value_at(n));
                assert(old(self).value_at(n) is Some);
                assert forall|i: int| 0 <= i < l2.chain.len() implies self@[i] == old(self)@[i
                    + 1] by {
                    assert(l2.chain[i] == l.chain[i + 1]);
                    assert(self.value_at(l.chain[i + 1]) == old(self).value_at(l.chain[i + 1]));
                }
                assert(self@ =~= old(self)@.drop_first());
            } else {
                assert forall|i: int| 0 <= i < l.chain.len() implies self@[i] == old(self)@[i] by {
                    assert(self.value_at(l.chain[i]) == old(self).value_at(l.chain[i]));
                }
                assert(self@ =~= old(self)@);
            }
        }
    }

    /// Takes the value out of a node that a pop has won.
    pub fn take_won(&mut self, n: usize) -> (r: Option<T>)
        requires
            old(self).wf(),
            old(self).list().published.contains(n),
            !old(self).list().chain.contains(n),
        ensures
            final(self).wf(),
            r == old(self).value_at(n),
            final(self).mem() == old(self).mem(),
            final(self).list() == old(self).list(),
            final(self).value_at(n) is None,
            forall|k: usize|
                k < old(self).mem().next.len() && k != n ==> #[trigger] final(self).value_at(k)
                    == old(self).value_at(k),
            final(self)@ == old(self)@,
    {
        let value = self.nodes[n].value.take();
        proof {
            let l = self.list@;
            assert(self.mem().next =~= old(self).mem().next);
            assert forall|k: usize|
                k < self.mem().next.len() && (l.chain.contains(k) || !l.published.contains(
                    k,
                )) implies #[trigger] self.value_at(k) is Some by {
                assert(old(self).value_at(k) is Some);
            }
            assert forall|i: int| 0 <= i < l.chain.len() implies self@[i] == old(self)@[i] by {
                assert(l.chain.contains(l.chain[i]));
                assert(l.published.contains(l.chain[i]));
            }
            assert(self@ =~= old(self)@);
        }
        value
    }

    /// Puts `value` on top of the stack.
    pub fn push(&mut self, value: T)
        requires
            old(self).wf(),
        ensures
            final(self).wf(),
            final(self)@ == seq![value] + old(self)@,
    {
        let mut op = self.begin_push(value);
        while op.next_action().is_some()
            invariant
                self.wf(),
                push_inv(self.mem(), self.list(), op),
                self.value_at(op.node) == Some(value),
                op.pc is Done ==> self@ == seq![value] + old(self)@,
                !(op.pc is Done) ==> self@ == old(self)@,
                match op.pc {
                    PushPc::Write { old } => old == self.mem().head,
                    PushPc::Exchange { old } => old == self.mem().head,
                    _ => true,
                },
            decreases
                    match op.pc {
                        PushPc::Load => 3int,
                        PushPc::Write { old } => 2,
                        PushPc::Exchange { old } => 1,
                        PushPc::Done => 0,
                    },
        {
            self.step_push(&mut op);
        }
    }

    /// Takes the value from the top of the stack; `None` if the stack is empty.
    pub fn pop(&mut self) -> (r: Option<T>)
        requires
            old(self).wf(),
        ensures
            final(self).wf(),
            match r {
                Some(v) => {
                    &&& old(self)@.len() > 0
                    &&& v == old(self)@[0]
                    &&& final(self)@ == old(self)@.drop_first()
                },
                None => {
                    &&& old(self)@.len() == 0
                    &&& final(self)@ == old(self)@
                },
            },
    {
        let mut op = PopOp::start();
        while op.next_action().is_some()
            invariant
                self.wf(),
                pop_inv(self.mem(), self.list(), op),
                match op.pc {
                    PopPc::ReadNext { old } => Some(old) == self.mem().head,
                    PopPc::Exchange { old, next } => Some(old) == self.mem().head,
                    PopPc::Empty => old(self)@.len() == 0,
                    PopPc::Won(n) => {
                        &&& old(self)@.len() > 0
                        &&& self@ == old(self)@.drop_first()
                        &&& self.value_at(n) == Some(old(self)@[0])
                    },
                    _ => true,
                },
                !(op.pc is Won) ==> self@ == old(self)@,
            decreases
                    match op.pc {
                        PopPc::Load => 3int,
                        PopPc::ReadNext { old } => 2,
                        PopPc::Exchange { old, next } => 1,
                        _ => 0,
                    },
        {
            self.step_pop(&mut op);
        }
        match op.pc {
            PopPc::Won(n) => self.take_won(n),
            _ => None,
        }
    }
}

impl<T> Default for Stack<T> {
    fn default() -> (s: Stack<T>)
        ensures
            s.wf(),
            s@ == Seq::<T>::empty(),
    {
        Stack::new()
    }
}

/// A push reads the head, points its node at what it read, and exchanges exactly that for its
/// node. It ends when the exchange took place, and goes on from the head that was found when it
/// did not.
pub proof fn law_push_exchanges_what_it_read(op: PushOp, h: Option<usize>, found: Option<usize>)
    requires
        op.pc is Load,
    ensures
        op.action() == StackAction::LoadHead,
        ({
            let read = op.after(StackEvent::Link(h));
            let pointed = read.after(StackEvent::Written);
            &&& read.action() == StackAction::WriteNext { node: op.node, next: h }
            &&& pointed.action() == StackAction::CasHead { current: h, new: Some(op.node) }
            &&& pointed.after(StackEvent::Exchanged).pc is Done
            &&& pointed.after(StackEvent::Found(found)) == op.after(StackEvent::Link(found))
            &&& !(read.pc is Done) && !(pointed.pc is Done)
        }),
{
}

/// A pop of a stack whose head is null finds it empty. Otherwise it reads the link of the node
/// on top and exchanges exactly that node for the link; the node is its own when the exchange
/// took place, and it starts over when it did not.
pub proof fn law_pop_exchanges_what_it_read(
    op: PopOp,
    n: usize,
    next: Option<usize>,
    found: Option<usize>,
)
    requires
        op.pc is Load,
    ensures
        op.action() == StackAction::LoadHead,
        op.after(StackEvent::Link(None)).pc is Empty,
        ({
            let read = op.after(StackEvent::Link(Some(n)));
            let ready = read.after(StackEvent::Link(next));
            &&& read.action() == StackAction::ReadNext(n)
            &&& ready.action() == StackAction::CasHead { current: Some(n), new: next }
            &&& ready.after(StackEvent::Exchanged).pc == PopPc::Won(n)
            &&& ready.after(StackEvent::Found(found)) == op
            &&& !read.finished() && !ready.finished()
        }),
{
}

/// What each operation does to the links and the head: a written link is read back, an exchange
/// moves the head if and only if it held what was expected and nothing disturbed it, and no
/// operation changes more than what it names.
pub proof fn law_stack_accesses(
    m: StackMem,
    n: usize,
    k: usize,
    l: Option<usize>,
    cur: Option<usize>,
    spurious: bool,
)
    requires
        n < m.next.len(),
        k < m.next.len(),
    ensures
        ({
            let w = mem_after(m, StackAction::WriteNext { node: n, next: l }, spurious);
            &&& w.head == m.head
            &&& w.next.len() == m.next.len()
            &&& mem_event(w, StackAction::ReadNext(n), spurious) == StackEvent::Link(l)
            &&& k != n ==> w.next[k as int] == m.next[k as int]
        }),
        ({
            let x = mem_after(m, StackAction::CasHead { current: cur, new: l }, spurious);
            let e = mem_event(m, StackAction::CasHead { current: cur, new: l }, spurious);
            &&& x.next == m.next
            &&& m.head == cur && !spurious ==> x.head == l && e is Exchanged
            &&& m.head != cur || spurious ==> x.head == m.head && e == StackEvent::Found(m.head)
        }),
        mem_event(m, StackAction::LoadHead, spurious) == StackEvent::Link(m.head),
        mem_event(m, StackAction::ReadNext(k), spurious) == StackEvent::Link(m.next[k as int]),
        mem_after(m, StackAction::LoadHead, spurious) == m,
        mem_after(m, StackAction::ReadNext(k), spurious) == m,
{
}

} // verus!
