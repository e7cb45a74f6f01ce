//! A work-stealing deque after Chase and Lev, with a fixed capacity.
//!
//! The owner pushes and pops at the bottom, last in first out; thieves steal at the top,
//! first in first out. The owner takes an item without an exchange unless it is the last
//! one: for that one, owner and thieves all try to move the top on, and whoever succeeds has
//! the item.
//!
//! [`DequePushOp`], [`DequePopOp`] and [`StealOp`] decide what a thread does next;
//! [`Deque`] is the memory.

use vstd::multiset::Multiset;
use vstd::prelude::*;

verus! {

/// How many items a deque can hold.
pub const CAP: usize = 4096;

/// One atomic operation on the memory of a deque. Positions count all items ever pushed; the
/// slot of a position is its remainder by the capacity.
#[derive(Clone, Copy, Debug, PartialEq, Eq, Structural)]
pub enum DequeAction {
    /// Read the bottom.
    LoadBottom,
    /// Read the top.
    LoadTop,
    /// Overwrite the bottom.
    StoreBottom(isize),
    /// Write the owner's item into the slot of a position.
    WriteSlot(isize),
    /// Read the slot of a position.
    ReadSlot(isize),
    /// Move the top from `current` to the next position.
    CasTop { current: isize },
}

/// What an operation on the memory of a deque gave back.
#[derive(Clone, Copy, Debug, PartialEq, Eq, Structural)]
pub enum DequeEvent {
    /// The operation has no result, or one that the thread keeps for itself.
    Done,
    /// The position that was read.
    Position(isize),
    /// Whether the exchange took place.
    Exchanged(bool),
}

/// Where a push stands.
#[derive(Clone, Copy, Debug, PartialEq, Eq, Structural)]
pub enum DequePushPc {
    /// About to read the bottom.
    LoadBottom,
    /// About to read the top.
    LoadTop { b: isize },
    /// About to write the slot.
    Write { b: isize },
    /// About to make the item visible.
    Publish { b: isize },
    /// The item is in the deque.
    Done,
    /// The deque was full; nothing was written.
    Full,
}

/// One push by the owner.
#[derive(Clone, Copy, Debug, PartialEq, Eq, Structural)]
pub struct DequePushOp {
    pub pc: DequePushPc,
}

impl DequePushOp {
    /// Whether the push has come to its end.
    pub open spec fn finished(self) -> bool {
        self.pc is Done || self.pc is Full
    }

    /// The operation that an unfinished push performs next.
    pub open spec fn action(self) -> DequeAction {
        match self.pc {
            DequePushPc::LoadTop { b } => DequeAction::LoadTop,
            DequePushPc::Write { b } => DequeAction::WriteSlot(b),
            DequePushPc::Publish { b } => DequeAction::StoreBottom((b + 1) as isize),
            _ => DequeAction::LoadBottom,
        }
    }

    /// Where a push stands after an answer. An answer of the wrong kind changes nothing.
    pub open spec fn after(self, e: DequeEvent) -> DequePushOp {
        let pc = match (self.pc, e) {
            (DequePushPc::LoadBottom, DequeEvent::Position(b)) => DequePushPc::LoadTop { b },
            (DequePushPc::LoadTop { b }, DequeEvent::Position(t)) => if b - t < CAP {
                DequePushPc::Write { b }
            } else {
                DequePushPc::Full
            },
            (DequePushPc::Write { b }, DequeEvent::Done) => DequePushPc::Publish { b },
            (DequePushPc::Publish { b }, DequeEvent::Done) => DequePushPc::Done,
            (pc, _) => pc,
        };
        DequePushOp { pc }
    }

    /// A push that has done nothing yet.
    pub fn start() -> (op: DequePushOp)
        ensures
            op == (DequePushOp { pc: DequePushPc::LoadBottom }),
    {
        DequePushOp { pc: DequePushPc::LoadBottom }
    }

    /// The operation to perform next, or `None` when the push is finished.
    pub fn next_action(&self) -> (a: Option<DequeAction>)
        requires
            self.pc matches DequePushPc::Publish { b } ==> b < isize::MAX,
        ensures
            a == (if self.finished() { None } else { Some(self.action()) }),
    {
        match self.pc {
            DequePushPc::LoadBottom => Some(DequeAction::LoadBottom),
            DequePushPc::LoadTop { b } => Some(DequeAction::LoadTop),
            DequePushPc::Write { b } => Some(DequeAction::WriteSlot(b)),
            DequePushPc::Publish { b } => Some(DequeAction::StoreBottom(b + 1)),
            DequePushPc::Done => None,
            DequePushPc::Full => None,
        }
    }

    /// Takes the answer to the operation that was performed.
    pub fn on_event(&mut self, e: DequeEvent)
        requires
            old(self).pc matches DequePushPc::LoadTop { b } ==> b >= 0,
            e matches DequeEvent::Position(p) ==> p >= 0,
        ensures
            *final(self) == old(self).after(e),
    {
        let pc = match (self.pc, e) {
            (DequePushPc::LoadBottom, DequeEvent::Position(b)) => DequePushPc::LoadTop { b },
            (DequePushPc::LoadTop { b }, DequeEvent::Position(t)) => {
                if b - t < CAP as isize {
                    DequePushPc::Write { b }
                } else {
                    DequePushPc::Full
                }
            },
            (DequePushPc::Write { b }, DequeEvent::Done) => DequePushPc::Publish { b },
            (DequePushPc::Publish { b }, DequeEvent::Done) => DequePushPc::Done,
            (pc, _) => pc,
        };
        self.pc = pc;
    }
}

/// Where a pop stands.
#[derive(Clone, Copy, Debug, PartialEq, Eq, Structural)]
pub enum DequePopPc {
    /// About to read the bottom.
    LoadBottom,
    /// About to lower the bottom to `b`.
    Lower { b: isize },
    /// About to read the top.
    LoadTop { b: isize },
    /// More than one item was there; about to read the slot of `b`.
    Read { b: isize },
    /// One item was there; about to read the slot of `b`.
    ReadLast { b: isize },
    /// About to compete for the last item.
    Exchange { b: isize },
    /// About to put the bottom back; `won` tells whether the item belongs to this pop.
    Restore { b: isize, won: bool },
    /// The pop has the item.
    Won,
    /// The pop has no item.
    Empty,
}

/// One pop by the owner.
#[derive(Clone, Copy, Debug, PartialEq, Eq, Structural)]
pub struct DequePopOp {
    pub pc: DequePopPc,
}

impl DequePopOp {
    /// Whether the pop has come to its end.
    pub open spec fn finished(self) -> bool {
        self.pc is Won || self.pc is Empty
    }

    /// The operation that an unfinished pop performs next.
    pub open spec fn action(self) -> DequeAction {
        match self.pc {
            DequePopPc::Lower { b } => DequeAction::StoreBottom(b),
            DequePopPc::LoadTop { b } => DequeAction::LoadTop,
            DequePopPc::Read { b } => DequeAction::ReadSlot(b),
            DequePopPc::ReadLast { b } => DequeAction::ReadSlot(b),
            DequePopPc::Exchange { b } => DequeAction::CasTop { current: b },
            DequePopPc::Restore { b, won } => DequeAction::StoreBottom((b + 1) as isize),
            _ => DequeAction::LoadBottom,
        }
    }

    /// Where a pop stands after an answer. An answer of the wrong kind changes nothing.
    pub open spec fn after(self, e: DequeEvent) -> DequePopOp {
        let pc = match (self.pc, e) {
            (DequePopPc::LoadBottom, DequeEvent::Position(b)) => DequePopPc::Lower {
                b: (b - 1) as isize,
            },
            (DequePopPc::Lower { b }, DequeEvent::Done) => DequePopPc::LoadTop { b },
            (DequePopPc::LoadTop { b }, DequeEvent::Position(t)) => if t < b {
                DequePopPc::Read { b }
            } else if t == b {
                DequePopPc::ReadLast { b }
            } else {
                DequePopPc::Restore { b, won: false }
            },
            (DequePopPc::Read { b }, DequeEvent::Done) => DequePopPc::Won,
            (DequePopPc::ReadLast { b }, DequeEvent::Done) => DequePopPc::Exchange { b },
            (DequePopPc::Exchange { b }, DequeEvent::Exchanged(ok)) => DequePopPc::Restore {
                b,
                won: ok,
            },
            (DequePopPc::Restore { b, won }, DequeEvent::Done) => if won {
                DequePopPc::Won
            } else {
                DequePopPc::Empty
            },
            (pc, _) => pc,
        };
        DequePopOp { pc }
    }

    /// A pop that has done nothing yet.
    pub fn start() -> (op: DequePopOp)
        ensures
            op == (DequePopOp { pc: DequePopPc::LoadBottom }),
    {
        DequePopOp { pc: DequePopPc::LoadBottom }
    }

    /// The operation to perform next, or `None` when the pop is finished.
    pub fn next_action(&self) -> (a: Option<DequeAction>)
        requires
            self.pc matches DequePopPc::Restore { b, won } ==> b < isize::MAX,
        ensures
            a == (if self.finished() { None } else { Some(self.action()) }),
    {
        match self.pc {
            DequePopPc::LoadBottom => Some(DequeAction::LoadBottom),
            DequePopPc::Lower { b } => Some(DequeAction::StoreBottom(b)),
            DequePopPc::LoadTop { b } => Some(DequeAction::LoadTop),
            DequePopPc::Read { b } => Some(DequeAction::ReadSlot(b)),
            DequePopPc::ReadLast { b } => Some(DequeAction::ReadSlot(b)),
            DequePopPc::Exchange { b } => Some(DequeAction::CasTop { current: b }),
            DequePopPc::Restore { b, won } => Some(DequeAction::StoreBottom(b + 1)),
            DequePopPc::Won => None,
            DequePopPc::Empty => None,
        }
    }

    /// Takes the answer to the operation that was performed.
    pub fn on_event(&mut self, e: DequeEvent)
        requires
            e matches DequeEvent::Position(p) ==> p >= 0,
        ensures
            *final(self) == old(self).after(e),
    {
        let pc = match (self.pc, e) {
            (DequePopPc::LoadBottom, DequeEvent::Position(b)) => DequePopPc::Lower { b: b - 1 },
            (DequePopPc::Lower { b }, DequeEvent::Done) => DequePopPc::LoadTop { b },
            (DequePopPc::LoadTop { b }, DequeEvent::Position(t)) => {
                if t < b {
                    DequePopPc::Read { b }
                } else if t == b {
                    DequePopPc::ReadLast { b }
                } else {
                    DequePopPc::Restore { b, won: false }
                }
            },
            (DequePopPc::Read { b }, DequeEvent::Done) => DequePopPc::Won,
            (DequePopPc::ReadLast { b }, DequeEvent::Done) => DequePopPc::Exchange { b },
            (DequePopPc::Exchange { b }, DequeEvent::Exchanged(ok)) => DequePopPc::Restore {
                b,
                won: ok,
            },
            (DequePopPc::Restore { b, won }, DequeEvent::Done) => {
                if won {
                    DequePopPc::Won
                } else {
                    DequePopPc::Empty
                }
            },
            (pc, _) => pc,
        };
        self.pc = pc;
    }
}

/// Where a steal stands.
#[derive(Clone, Copy, Debug, PartialEq, Eq, Structural)]
pub enum StealPc {
    /// About to read the top.
    LoadTop,
    /// About to read the bottom.
    LoadBottom { t: isize },
    /// About to read the slot of `t`.
    Read { t: isize },
    /// About to move the top on from `t`.
    Exchange { t: isize },
    /// The steal has the item.
    Won,
    /// There was nothing to steal.
    Empty,
    /// Another thread was faster.
    Retry,
}

/// One steal by a thief.
#[derive(Clone, Copy, Debug, PartialEq, Eq, Structural)]
pub struct StealOp {
    pub pc: StealPc,
}

impl StealOp {
    /// Whether the steal has come to its end.
    pub open spec fn finished(self) -> bool {
        self.pc is Won || self.pc is Empty || self.pc is Retry
    }

    /// The operation that an unfinished steal performs next.
    pub open spec fn action(self) -> DequeAction {
        match self.pc {
            StealPc::LoadBottom { t } => DequeAction::LoadBottom,
            StealPc::Read { t } => DequeAction::ReadSlot(t),
            StealPc::Exchange { t } => DequeAction::CasTop { current: t },
            _ => DequeAction::LoadTop,
        }
    }

    /// Where a steal stands after an answer. An answer of the wrong kind changes nothing.
    pub open spec fn after(self, e: DequeEvent) -> StealOp {
        let pc = match (self.pc, e) {
            (StealPc::LoadTop, DequeEvent::Position(t)) => StealPc::LoadBottom { t },
            (StealPc::LoadBottom { t }, DequeEvent::Position(b)) => if t >= b {
                StealPc::Empty
            } else {
                StealPc::Read { t }
            },
            (StealPc::Read { t }, DequeEvent::Done) => StealPc::Exchange { t },
            (StealPc::Exchange { t }, DequeEvent::Exchanged(ok)) => if ok {
                StealPc::Won
            } else {
                StealPc::Retry
            },
            (pc, _) => pc,
        };
        StealOp { pc }
    }

    /// A steal that has done nothing yet.
    pub fn start() -> (op: StealOp)
        ensures
            op == (StealOp { pc: StealPc::LoadTop }),
    {
        StealOp { pc: StealPc::LoadTop }
    }

    /// The operation to perform next, or `None` when the steal is finished.
    pub fn next_action(&self) -> (a: Option<DequeAction>)
        ensures
            a == (if self.finished() { None } else { Some(self.action()) }),
    {
        match self.pc {
            StealPc::LoadTop => Some(DequeAction::LoadTop),
            StealPc::LoadBottom { t } => Some(DequeAction::LoadBottom),
            StealPc::Read { t } => Some(DequeAction::ReadSlot(t)),
            StealPc::Exchange { t } => Some(DequeAction::CasTop { current: t }),
            StealPc::Won => None,
            StealPc::Empty => None,
            StealPc::Retry => None,
        }
    }

    /// Takes the answer to the operation that was performed.
    pub fn on_event(&mut self, e: DequeEvent)
        ensures
            *final(self) == old(self).after(e),
    {
        let pc = match (self.pc, e) {
            (StealPc::LoadTop, DequeEvent::Position(t)) => StealPc::LoadBottom { t },
            (StealPc::LoadBottom { t }, DequeEvent::Position(b)) => {
                if t >= b {
                    StealPc::Empty
                } else {
                    StealPc::Read { t }
                }
            },
            (StealPc::Read { t }, DequeEvent::Done) => StealPc::Exchange { t },
            (StealPc::Exchange { t }, DequeEvent::Exchanged(ok)) => {
                if ok {
                    StealPc::Won
                } else {
                    StealPc::Retry
                }
            },
            (pc, _) => pc,
        };
        self.pc = pc;
    }
}

/// What the owner is doing. `item` is what it pushes, `held` is what it read out of a slot,
/// and `taken` is what it took out of the deque.
#[allow(inconsistent_fields)]
pub enum Owner {
    Idle,
    Push { op: DequePushOp, item: int },
    Pop { op: DequePopOp, held: int, taken: Option<int> },
}

/// A thief. `held` is what it read out of a slot, `taken` is what it took out of the deque.
pub struct Thief {
    pub op: StealOp,
    pub held: int,
    pub taken: Option<int>,
}

/// The memory of a deque, the items in it, its owner and any number of thieves. `full` is
/// the position behind the last item; while the owner pops, `bottom` may be one less.
pub struct DequeSystem {
    pub bottom: int,
    pub top: int,
    pub slots: Seq<int>,
    pub full: int,
    pub items: Seq<int>,
    pub owner: Owner,
    pub thieves: Seq<Thief>,
}

impl DequeSystem {
    /// The memory holds the items: item `i` is in the slot of position `top + i`.
    pub open spec fn holds(self) -> bool {
        &&& self.slots.len() == CAP
        &&& 0 <= self.top <= self.full <= self.top + CAP
        &&& self.full < isize::MAX
        &&& self.items.len() == self.full - self.top
        &&& forall|p: int|
            self.top <= p < self.full ==> self.slots[#[trigger] (p % CAP as int)]
                == self.items[p - self.top]
    }

    /// What holds of the owner.
    pub open spec fn owner_inv(self) -> bool {
        match self.owner {
            Owner::Idle => self.bottom == self.full,
            Owner::Push { op, item } => {
                &&& self.bottom == self.full
                &&& match op.pc {
                    DequePushPc::LoadTop { b } => b == self.full,
                    DequePushPc::Write { b } => b == self.full && self.full < self.top + CAP,
                    DequePushPc::Publish { b } => b == self.full && self.full < self.top + CAP
                        && self.slots[self.full % CAP as int] == item,
                    _ => true,
                }
            },
            Owner::Pop { op, held, taken } => match op.pc {
                DequePopPc::LoadBottom => self.bottom == self.full && taken is None,
                DequePopPc::Lower { b } => self.bottom == self.full && b == self.full - 1
                    && taken is None,
                DequePopPc::LoadTop { b } => self.bottom == b && b == self.full - 1
                    && taken is None,
                DequePopPc::Read { b } => self.bottom == b && b == self.full && b >= 0 && taken
                    == Some(self.slots[b as int % CAP as int]),
                DequePopPc::ReadLast { b } => self.bottom == b && b == self.full - 1 && 0 <= b
                    <= self.top && taken is None,
                DequePopPc::Exchange { b } => self.bottom == b && b == self.full - 1 && 0 <= b
                    <= self.top && taken is None && (self.top == b ==> held == self.items[0]),
                DequePopPc::Restore { b, won } => self.bottom == b && b == self.full - 1
                    && self.top == self.full && taken == (if won {
                    Some(held)
                } else {
                    None
                }),
                DequePopPc::Won => self.bottom == self.full && taken == Some(held),
                DequePopPc::Empty => self.bottom == self.full && taken is None,
            },
        }
    }

    /// What holds of a thief: as long as the top has not moved, the item at the position that
    /// it read is still there and is what it read.
    pub open spec fn thief_inv(self, th: Thief) -> bool {
        match th.op.pc {
            StealPc::LoadTop => th.taken is None,
            StealPc::LoadBottom { t } => 0 <= t <= self.top && th.taken is None,
            StealPc::Read { t } => 0 <= t <= self.top && th.taken is None && (self.top == t
                ==> self.full > t),
            StealPc::Exchange { t } => 0 <= t <= self.top && th.taken is None && (self.top == t
                ==> self.full > t && th.held == self.items[0]),
            StealPc::Won => th.taken == Some(th.held),
            StealPc::Empty => th.taken is None,
            StealPc::Retry => th.taken is None,
        }
    }

    /// What holds at any moment.
    pub open spec fn inv(self) -> bool {
        &&& self.holds()
        &&& self.owner_inv()
        &&& forall|i: int|
            0 <= i < self.thieves.len() ==> self.thief_inv(#[trigger] self.thieves[i])
    }

    /// Whether the owner has an operation to perform.
    pub open spec fn owner_busy(self) -> bool {
        match self.owner {
            Owner::Idle => false,
            Owner::Push { op, item } => !op.finished(),
            Owner::Pop { op, held, taken } => !op.finished(),
        }
    }

    /// The system after the owner has begun to push an item.
    pub open spec fn begin_push(self, item: int) -> DequeSystem {
        let op = DequePushOp { pc: DequePushPc::LoadBottom };
        DequeSystem { owner: Owner::Push { op, item }, ..self }
    }

    /// The system after the owner has begun to pop.
    pub open spec fn begin_pop(self) -> DequeSystem {
        let op = DequePopOp { pc: DequePopPc::LoadBottom };
        DequeSystem { owner: Owner::Pop { op, held: 0, taken: None }, ..self }
    }

    /// The system after another thief has come.
    pub open spec fn join(self) -> DequeSystem {
        let th = Thief { op: StealOp { pc: StealPc::LoadTop }, held: 0, taken: None };
        DequeSystem { thieves: self.thieves.push(th), ..self }
    }

    /// The system after the owner has performed its next operation.
    pub open spec fn step_owner(self) -> DequeSystem {
        match self.owner {
            Owner::Idle => self,
            Owner::Push { op, item } => match op.action() {
                DequeAction::LoadBottom => DequeSystem {
                    owner: Owner::Push {
                        op: op.after(DequeEvent::Position(self.bottom as isize)),
                        item,
                    },
                    ..self
                },
                DequeAction::LoadTop => DequeSystem {
                    owner: Owner::Push {
                        op: op.after(DequeEvent::Position(self.top as isize)),
                        item,
                    },
                    ..self
                },
                DequeAction::WriteSlot(p) => DequeSystem {
                    slots: self.slots.update(p as int % CAP as int, item),
                    owner: Owner::Push { op: op.after(DequeEvent::Done), item },
                    ..self
                },
                DequeAction::StoreBottom(b) => DequeSystem {
                    bottom: b as int,
                    full: b as int,
                    items: self.items.push(item),
                    owner: Owner::Push { op: op.after(DequeEvent::Done), item },
                    ..self
                },
                _ => self,
            },
            Owner::Pop { op, held, taken } => match op.action() {
                DequeAction::LoadBottom => DequeSystem {
                    owner: Owner::Pop {
                        op: op.after(DequeEvent::Position(self.bottom as isize)),
                        held,
                        taken,
                    },
                    ..self
                },
                DequeAction::LoadTop => {
                    let op2 = op.after(DequeEvent::Position(self.top as isize));
                    if op2.pc is Read {
                        DequeSystem {
                            full: self.full - 1,
                            items: self.items.drop_last(),
                            owner: Owner::Pop { op: op2, held, taken: Some(self.items.last()) },
                            ..self
                        }
                    } else {
                        DequeSystem { owner: Owner::Pop { op: op2, held, taken }, ..self }
                    }
                },
                DequeAction::StoreBottom(b) => DequeSystem {
                    bottom: b as int,
                    owner: Owner::Pop { op: op.after(DequeEvent::Done), held, taken },
                    ..self
                },
                DequeAction::ReadSlot(p) => DequeSystem {
                    owner: Owner::Pop {
                        op: op.after(DequeEvent::Done),
                        held: self.slots[p as int % CAP as int],
                        taken,
                    },
                    ..self
                },
                DequeAction::CasTop { current } => if self.top == current {
                    DequeSystem {
                        top: self.top + 1,
                        items: self.items.drop_first(),
                        owner: Owner::Pop {
                            op: op.after(DequeEvent::Exchanged(true)),
                            held,
                            taken: Some(self.items[0]),
                        },
                        ..self
                    }
                } else {
                    DequeSystem {
                        owner: Owner::Pop {
                            op: op.after(DequeEvent::Exchanged(false)),
                            held,
                            taken,
                        },
                        ..self
                    }
                },
                _ => self,
            },
        }
    }

    /// The system after thief `i` has performed its next operation.
    pub open spec fn step_thief(self, i: int) -> DequeSystem {
        let th = self.thieves[i];
        match th.op.action() {
            DequeAction::LoadTop => DequeSystem {
                thieves: self.thieves.update(
                    i,
                    Thief { op: th.op.after(DequeEvent::Position(self.top as isize)), ..th },
                ),
                ..self
            },
            DequeAction::LoadBottom => DequeSystem {
                thieves: self.thieves.update(
                    i,
                    Thief { op: th.op.after(DequeEvent::Position(self.bottom as isize)), ..th },
                ),
                ..self
            },
            DequeAction::ReadSlot(p) => DequeSystem {
                thieves: self.thieves.update(
                    i,
                    Thief {
                        op: th.op.after(DequeEvent::Done),
                        held: self.slots[p as int % CAP as int],
                        ..th
                    },
                ),
                ..self
            },
            DequeAction::CasTop { current } => if self.top == current {
                DequeSystem {
                    top: self.top + 1,
                    items: self.items.drop_first(),
                    thieves: self.thieves.update(
                        i,
                        Thief {
                            op: th.op.after(DequeEvent::Exchanged(true)),
                            taken: Some(self.items[0]),
                            ..th
                        },
                    ),
                    ..self
                }
            } else {
                DequeSystem {
                    thieves: self.thieves.update(
                        i,
                        Thief { op: th.op.after(DequeEvent::Exchanged(false)), ..th },
                    ),
                    ..self
                }
            },
            _ => self,
        }
    }
}

/// Positions less than a capacity apart have different slots.
proof fn lemma_slots_differ(p: int, q: int)
    requires
        0 <= p < q < p + CAP,
    ensures
        p % CAP as int != q % CAP as int,
{
}

/// However owner and thieves interleave, every step of the owner keeps the invariant; and it
/// either puts its item behind all items, or takes the last item, or takes the only item in
/// competition with the thieves, or leaves the items as they are. What it has at the end of a
/// pop is what it took.
pub proof fn law_owner_step(s: DequeSystem)
    requires
        s.inv(),
        s.owner_busy(),
        s.full < isize::MAX - 1,
    ensures
        s.step_owner().inv(),
        match (s.owner, s.step_owner().owner) {
            (Owner::Push { op: a, item }, Owner::Push { op: b, item: item2 }) => {
                &&& item == item2
                &&& if b.pc is Done {
                    s.step_owner().items == s.items.push(item)
                } else {
                    s.step_owner().items == s.items
                }
            },
            (
                Owner::Pop { op: a, held, taken },
                Owner::Pop { op: b, held: held2, taken: taken2 },
            ) => if taken is None && taken2 is Some {
                &&& s.items.len() > 0
                &&& s.step_owner().items == s.items.drop_last()
                &&& taken2 == Some(s.items.last())
            } else {
                s.step_owner().items == s.items && taken2 == taken
            },
            _ => false,
        },
{
    let s2 = s.step_owner();
    match s.owner {
        Owner::Idle => {},
        Owner::Push { op, item } => {
            match op.pc {
                DequePushPc::Write { b } => {
                    assert forall|p: int| s2.top <= p < s2.full implies s2.slots[#[trigger] (p
                        % CAP as int)] == s2.items[p - s2.top] by {
                        lemma_slots_differ(p, b as int);
                    }
                },
                DequePushPc::Publish { b } => {
                    assert forall|p: int| s2.top <= p < s2.full implies s2.slots[#[trigger] (p
                        % CAP as int)] == s2.items[p - s2.top] by {
                        if p < s.full {
                            assert(s.slots[p % CAP as int] == s.items[p - s.top]);
                        }
                    }
                },
                _ => {},
            }
        },
        Owner::Pop { op, held, taken } => {
            match op.pc {
                DequePopPc::LoadTop { b } => {
                    if s.top < b {
                        assert(s.slots[b as int % CAP as int] == s.items[b - s.top]);
                    }
                },
                DequePopPc::ReadLast { b } => {
                    if s.top == b {
                        assert(s.slots[b as int % CAP as int] == s.items[b - s.top]);
                    }
                },
                DequePopPc::Exchange { b } => {
                    if s.top == b {
                        assert(s.items.drop_first() =~= s.items.drop_last());
                    }
                },
                _ => {},
            }
        },
    }
    assert(s2.holds());
    assert forall|i: int| 0 <= i < s2.thieves.len() implies s2.thief_inv(
        #[trigger] s2.thieves[i],
    ) by {
        assert(s.thief_inv(s.thieves[i]));
    }
}

/// However owner and thieves interleave, every step of a thief keeps the invariant; and it
/// either takes the first item or leaves the items as they are. What a successful thief has
/// read is what it took.
pub proof fn law_thief_step(s: DequeSystem, i: int)
    requires
        s.inv(),
        0 <= i < s.thieves.len(),
        !s.thieves[i].op.finished(),
    ensures
        s.step_thief(i).inv(),
        ({
            let a = s.thieves[i];
            let b = s.step_thief(i).thieves[i];
            if b.op.pc is Won {
                &&& s.items.len() > 0
                &&& s.step_thief(i).items == s.items.drop_first()
                &&& b.taken == Some(s.items[0])
                &&& b.held == s.items[0]
            } else {
                s.step_thief(i).items == s.items && b.taken == a.taken
            }
        }),
{
    let s2 = s.step_thief(i);
    let th = s.thieves[i];
    assert(s.thief_inv(th));
    match th.op.pc {
        StealPc::Read { t } => {
            if s.top == t {
                assert(s.slots[t as int % CAP as int] == s.items[t - s.top]);
            }
        },
        StealPc::Exchange { t } => {
            if s.top == t {
                assert forall|p: int| s2.top <= p < s2.full implies s2.slots[#[trigger] (p
                    % CAP as int)] == s2.items[p - s2.top] by {
                    assert(s.slots[p % CAP as int] == s.items[p - s.top]);
                }
            }
        },
        _ => {},
    }
    assert(s2.holds());
    assert forall|k: int| 0 <= k < s2.thieves.len() implies s2.thief_inv(
        #[trigger] s2.thieves[k],
    ) by {
        if k != i {
            assert(s.thief_inv(s.thieves[k]));
        }
    }
}

/// An empty deque whose owner has no operation, without thieves, satisfies the invariant.
pub proof fn law_deque_start(s: DequeSystem)
    requires
        s.slots.len() == CAP,
        s.bottom == 0,
        s.top == 0,
        s.full == 0,
        s.items.len() == 0,
        s.owner is Idle,
        s.thieves.len() == 0,
    ensures
        s.inv(),
{
}

/// The owner may begin an operation when it has none.
pub proof fn law_begin_keeps_inv(s: DequeSystem, item: int)
    requires
        s.inv(),
        !s.owner_busy(),
    ensures
        s.begin_push(item).inv(),
        s.begin_pop().inv(),
{
    let s1 = s.begin_push(item);
    let s2 = s.begin_pop();
    assert forall|k: int| 0 <= k < s.thieves.len() implies s1.thief_inv(#[trigger] s.thieves[k])
        && s2.thief_inv(s.thieves[k]) by {}
}

/// A thief may join at any moment.
pub proof fn law_join_keeps_inv(s: DequeSystem)
    requires
        s.inv(),
    ensures
        s.join().inv(),
{
    let s2 = s.join();
    assert forall|k: int| 0 <= k < s2.thieves.len() implies s2.thief_inv(
        #[trigger] s2.thieves[k],
    ) by {
        if k < s.thieves.len() {
            assert(s.thief_inv(s.thieves[k]));
        }
    }
}

/// A deque with all that was ever pushed and all that was ever taken by pops and steals.
pub struct DequeRun {
    pub sys: DequeSystem,
    pub pushed: Multiset<int>,
    pub taken: Multiset<int>,
}

/// What a pop took in a step.
pub open spec fn popped(before: Owner, after: Owner) -> Multiset<int> {
    match (before, after) {
        (Owner::Pop { op: _, held: _, taken: None }, Owner::Pop { op: _, held: _, taken: Some(v) }) => {
            Multiset::singleton(v)
        },
        _ => Multiset::empty(),
    }
}

/// What a push put in in a step.
pub open spec fn published(before: Owner, after: Owner) -> Multiset<int> {
    match (before, after) {
        (Owner::Push { op: a, item: _ }, Owner::Push { op: b, item }) => if b.pc is Done {
            Multiset::singleton(item)
        } else {
            Multiset::empty()
        },
        _ => Multiset::empty(),
    }
}

impl DequeRun {
    /// What holds at any moment of a run.
    pub open spec fn inv(self) -> bool {
        &&& self.sys.inv()
        &&& self.pushed == self.taken.add(self.sys.items.to_multiset())
    }

    /// The run after a step of the owner.
    pub open spec fn step_owner(self) -> DequeRun {
        let s2 = self.sys.step_owner();
        DequeRun {
            sys: s2,
            pushed: self.pushed.add(published(self.sys.owner, s2.owner)),
            taken: self.taken.add(popped(self.sys.owner, s2.owner)),
        }
    }

    /// The run after a step of thief `i`.
    pub open spec fn step_thief(self, i: int) -> DequeRun {
        let s2 = self.sys.step_thief(i);
        DequeRun {
            sys: s2,
            pushed: self.pushed,
            taken: if s2.thieves[i].op.pc is Won {
                self.taken.insert(s2.thieves[i].held)
            } else {
                self.taken
            },
        }
    }
}

/// Over a whole run, however owner and thieves interleave, what pops and steals have taken,
/// together with what is still in the deque, is exactly what was pushed: nothing is lost and
/// nothing is taken twice.
pub proof fn law_run_loses_nothing(r: DequeRun, i: int)
    requires
        r.inv(),
    ensures
        r.sys.owner_busy() && r.sys.full < isize::MAX - 1 ==> r.step_owner().inv(),
        0 <= i < r.sys.thieves.len() && !r.sys.thieves[i].op.finished() ==> r.step_thief(
            i,
        ).inv(),
        r.sys.items.len() == 0 ==> r.taken == r.pushed,
{
    broadcast use vstd::seq_lib::group_to_multiset_ensures;

    let s = r.sys;
    if s.owner_busy() && s.full < isize::MAX - 1 {
        law_owner_step(s);
        let r2 = r.step_owner();
        if s.items.len() > 0 {
            assert(s.items.remove(s.items.len() - 1) =~= s.items.drop_last());
            assert(s.items.contains(s.items[s.items.len() - 1]));
        }
        assert(r2.pushed =~= r2.taken.add(r2.sys.items.to_multiset()));
    }
    if 0 <= i < s.thieves.len() && !s.thieves[i].op.finished() {
        law_thief_step(s, i);
        let r2 = r.step_thief(i);
        if s.items.len() > 0 {
            assert(s.items.remove(0) =~= s.items.drop_first());
            assert(s.items.contains(s.items[0]));
        }
        assert(r2.pushed =~= r2.taken.add(r2.sys.items.to_multiset()));
    }
    if s.items.len() == 0 {
        assert(s.items.to_multiset().len() == 0);
        assert(r.taken =~= r.pushed);
    }
}

/// A run begins with nothing pushed and nothing taken, and goes on when the owner begins an
/// operation or a thief comes.
pub proof fn law_run_begins(r: DequeRun, item: int)
    ensures
        r.sys.inv() && r.sys.items.len() == 0 && r.pushed == Multiset::<int>::empty() && r.taken
            == Multiset::<int>::empty() ==> r.inv(),
        r.inv() && !r.sys.owner_busy() ==> (DequeRun { sys: r.sys.begin_push(item), ..r }).inv(),
        r.inv() && !r.sys.owner_busy() ==> (DequeRun { sys: r.sys.begin_pop(), ..r }).inv(),
        r.inv() ==> (DequeRun { sys: r.sys.join(), ..r }).inv(),
{
    broadcast use vstd::seq_lib::group_to_multiset_ensures;

    if r.sys.inv() {
        law_join_keeps_inv(r.sys);
        if !r.sys.owner_busy() {
            law_begin_keeps_inv(r.sys, item);
        }
        if r.sys.items.len() == 0 && r.pushed == Multiset::<int>::empty() && r.taken
            == Multiset::<int>::empty() {
            assert(r.sys.items.to_multiset().len() == 0);
            assert(r.pushed =~= r.taken.add(r.sys.items.to_multiset()));
        }
    }
}

/// What a steal came to.
#[derive(Debug, PartialEq, Eq)]
pub enum Steal<T> {
    /// The item at the top.
    Success(T),
    /// There was nothing to steal.
    Empty,
    /// Another thread was faster; it is worth trying again.
    Retry,
}

/// The memory of a deque with the items in it.
pub struct Deque<T> {
    bottom: isize,
    top: isize,
    buffer: Vec<Option<T>>,
    full: Ghost<int>,
}

impl<T> View for Deque<T> {
    type V = Seq<T>;

    /// The items, top first.
    closed spec fn view(&self) -> Seq<T> {
        Seq::new(
            (self.full@ - self.top) as nat,
            |i: int| self.buffer@[(self.top + i) % CAP as int]->0,
        )
    }
}

impl<T> Deque<T> {
    /// The bottom.
    pub closed spec fn bottom(&self) -> int {
        self.bottom as int
    }

    /// The top.
    pub closed spec fn top(&self) -> int {
        self.top as int
    }

    /// The position behind the last item.
    pub closed spec fn full(&self) -> int {
        self.full@
    }

    /// What is in the slot of a position.
    pub closed spec fn slot(&self, p: int) -> Option<T> {
        self.buffer@[p % CAP as int]
    }

    /// Whether the slots from the top on hold the items, and the bottom is behind the last
    /// item or, while the owner pops, on it.
    pub open spec fn wf(&self) -> bool {
        &&& self.sized()
        &&& 0 <= self.top() <= self.full() <= self.top() + CAP
        &&& self.full() < isize::MAX
        &&& self.bottom() == self.full() || self.bottom() == self.full() - 1
        &&& forall|p: int| self.top() <= p < self.full() ==> (#[trigger] self.slot(p)) is Some
        &&& self@.len() == self.full() - self.top()
        &&& forall|i: int| 0 <= i < self@.len() ==> self.slot(self.top() + i) == Some(
            #[trigger] self@[i],
        )
    }

    /// Whether there is a slot for every position.
    pub closed spec fn sized(&self) -> bool {
        self.buffer@.len() == CAP
    }

    /// Whether no pop is under way.
    pub open spec fn settled(&self) -> bool {
        self.bottom() == self.full()
    }

    /// What holds of a pop under way.
    pub open spec fn pop_inv(&self, op: DequePopOp) -> bool {
        match op.pc {
            DequePopPc::LoadBottom => self.settled(),
            DequePopPc::Lower { b } => self.settled() && b == self.full() - 1,
            DequePopPc::LoadTop { b } => self.bottom() == b && b == self.full() - 1,
            DequePopPc::Read { b } => self.settled() && b == self.full() && self.full()
                < self.top() + CAP && self.slot(b as int) is Some,
            DequePopPc::ReadLast { b } => self.bottom() == b && b == self.full() - 1 && b
                <= self.top(),
            DequePopPc::Exchange { b } => self.bottom() == b && b == self.full() - 1 && b
                <= self.top(),
            DequePopPc::Restore { b, won } => self.bottom() == b && b == self.full() - 1
                && self.top() == self.full(),
            _ => self.settled(),
        }
    }

    /// What holds of a steal under way.
    pub open spec fn steal_inv(&self, op: StealOp) -> bool {
        match op.pc {
            StealPc::LoadBottom { t } => 0 <= t <= self.top(),
            StealPc::Read { t } => 0 <= t <= self.top() && (self.top() == t ==> self.full() > t),
            StealPc::Exchange { t } => 0 <= t <= self.top() && (self.top() == t ==> self.full()
                > t),
            _ => true,
        }
    }

    /// An empty deque.
    pub fn new() -> (d: Deque<T>)
        ensures
            d.wf(),
            d.settled(),
            d.full() == 0,
            d@ == Seq::<T>::empty(),
    {
        let mut buffer: Vec<Option<T>> = Vec::new();
        let mut i: usize = 0;
        while i < CAP
            invariant
                i <= CAP,
                buffer@.len() == i,
            decreases CAP - i,
        {
            buffer.push(None);
            i = i + 1;
        }
        let d = Deque { bottom: 0, top: 0, buffer, full: Ghost(0) };
        assert(d@ =~= Seq::<T>::empty());
        d
    }

    /// Pushes an item at the bottom.
    pub fn push(&mut self, value: T)
        requires
            old(self).wf(),
            old(self).settled(),
            old(self)@.len() < CAP,
            old(self).full() < isize::MAX - 1,
        ensures
            final(self).wf(),
            final(self).settled(),
            final(self).full() == old(self).full() + 1,
            final(self)@ == old(self)@.push(value),
    {
        let mut op = DequePushOp::start();
        op.on_event(DequeEvent::Position(self.bottom));
        op.on_event(DequeEvent::Position(self.top));
        let b: isize = self.bottom;
        let at: usize = b as usize % CAP;
        self.buffer.set(at, Some(value));
        op.on_event(DequeEvent::Done);
        let ghost written = *self;
        if let Some(DequeAction::StoreBottom(next)) = op.next_action() {
            self.bottom = next;
            op.on_event(DequeEvent::Done);
        }
        proof {
            self.full = Ghost(self.full@ + 1);
            assert(self.bottom == b + 1);
            assert forall|p: int| self.top <= p < b implies (#[trigger] self.slot(p)) == old(self).slot(p) by {
                lemma_slots_differ(p, b as int);
            }
            assert forall|i: int| 0 <= i < old(self)@.len() implies #[trigger] self@[i] == old(self)@[i] by {
                assert(self.slot(self.top + i) == old(self).slot(self.top + i));
            }
            assert(self@ =~= old(self)@.push(value));
            assert forall|p: int| self.top() <= p < self.full() implies (
            #[trigger] self.slot(p)) is Some by {
                if p < b {
                    assert(old(self).slot(p) is Some);
                }
            }
            assert forall|i: int| 0 <= i < self@.len() implies self.slot(self.top() + i) == Some(
                #[trigger] self@[i],
            ) by {
                assert(self.slot(self.top() + i) is Some);
            }
        }
    }

    /// Performs the next operation of a pop by the owner. The item comes out of the step that
    /// reads its slot or, for the last item, out of the step that wins it.
    pub fn step_pop(&mut self, op: &mut DequePopOp) -> (r: Option<T>)
        requires
            old(self).wf(),
            old(self).pop_inv(*old(op)),
            !old(op).finished(),
        ensures
            final(self).wf(),
            final(self).pop_inv(*final(op)),
            *final(op) == old(op).after(
                match old(op).action() {
                    DequeAction::LoadBottom => DequeEvent::Position(old(self).bottom() as isize),
                    DequeAction::LoadTop => DequeEvent::Position(old(self).top() as isize),
                    DequeAction::CasTop { current } => DequeEvent::Exchanged(
                        old(self).top() == current,
                    ),
                    _ => DequeEvent::Done,
                },
            ),
            match (old(op).pc, final(op).pc) {
                (DequePopPc::LoadTop { b }, DequePopPc::Read { b: _ }) => {
                    &&& r is None
                    &&& old(self)@.len() > 1
                    &&& final(self)@ == old(self)@.drop_last()
                    &&& final(self).slot(b as int) == Some(old(self)@.last())
                    &&& final(self).top() == old(self).top()
                    &&& final(self).full() == old(self).full() - 1
                },
                (DequePopPc::Read { b }, DequePopPc::Won) => {
                    &&& r == old(self).slot(b as int)
                    &&& final(self)@ == old(self)@
                    &&& final(self).top() == old(self).top()
                    &&& final(self).full() == old(self).full()
                },
                (DequePopPc::Exchange { b }, DequePopPc::Restore { b: _, won: true }) => {
                    &&& old(self)@.len() == 1
                    &&& r == Some(old(self)@[0])
                    &&& final(self)@ == Seq::<T>::empty()
                    &&& final(self).top() == old(self).top() + 1
                    &&& final(self).full() == old(self).full()
                },
                _ => {
                    &&& r is None
                    &&& final(self)@ == old(self)@
                    &&& final(self).top() == old(self).top()
                    &&& final(self).full() == old(self).full()
                },
            },
    {
        match op.pc {
            DequePopPc::LoadBottom => {
                op.on_event(DequeEvent::Position(self.bottom));
                None
            },
            DequePopPc::Lower { b } => {
                self.bottom = b;
                op.on_event(DequeEvent::Done);
                proof {
                    self.lemma_same(old(self));
                }
                None
            },
            DequePopPc::LoadTop { b } => {
                op.on_event(DequeEvent::Position(self.top));
                proof {
                    if self.top < b {
                        self.full = Ghost(b as int);
                        assert(self@ =~= old(self)@.drop_last());
                        assert(old(self).slot(self.top() + (old(self)@.len() - 1)) == Some(
                            old(self)@[old(self)@.len() - 1],
                        ));
                        assert forall|p: int| self.top() <= p < self.full() implies (
                        #[trigger] self.slot(p)) is Some by {
                            assert(old(self).slot(p) is Some);
                        }
                        assert forall|i: int| 0 <= i < self@.len() implies self.slot(
                            self.top() + i,
                        ) == Some(#[trigger] self@[i]) by {
                            assert(old(self).slot(self.top() + i) == Some(old(self)@[i]));
                        }
                    }
                }
                None
            },
            DequePopPc::Read { b } => {
                let at: usize = b as usize % CAP;
                let mut slot: Option<T> = None;
                std::mem::swap(&mut slot, &mut self.buffer[at]);
                op.on_event(DequeEvent::Done);
                proof {
                    assert forall|p: int| self.top <= p < self.full@ implies #[trigger] self.slot(p)
                        == old(self).slot(p) by {
                        lemma_slots_differ(p, b as int);
                    }
                    self.lemma_same(old(self));
                }
                slot
            },
            DequePopPc::ReadLast { b } => {
                op.on_event(DequeEvent::Done);
                None
            },
            DequePopPc::Exchange { b } => {
                if self.top == b {
                    let at: usize = b as usize % CAP;
                    let mut slot: Option<T> = None;
                    std::mem::swap(&mut slot, &mut self.buffer[at]);
                    self.top = self.top + 1;
                    op.on_event(DequeEvent::Exchanged(true));
                    proof {
                        assert(old(self).slot(old(self).top() + 0) == Some(old(self)@[0]));
                        assert(self@ =~= Seq::<T>::empty());
                    }
                    slot
                } else {
                    op.on_event(DequeEvent::Exchanged(false));
                    None
                }
            },
            DequePopPc::Restore { b, won } => {
                self.bottom = b + 1;
                op.on_event(DequeEvent::Done);
                proof {
                    self.lemma_same(old(self));
                }
                None
            },
            DequePopPc::Won => None,
            DequePopPc::Empty => None,
        }
    }

    /// A deque with the same top, end and occupied slots holds the same items.
    proof fn lemma_same(&self, other: &Self)
        requires
            other.wf(),
            self.sized(),
            self.top() == other.top(),
            self.full() == other.full(),
            self.bottom() == self.full() || self.bottom() == self.full() - 1,
            forall|p: int|
                self.top() <= p < self.full() ==> #[trigger] self.slot(p) == other.slot(p),
        ensures
            self.wf(),
            self@ == other@,
    {
        assert forall|i: int| 0 <= i < self@.len() implies self@[i] == other@[i] by {
            assert(self.slot(self.top() + i) == other.slot(self.top() + i));
        }
        assert(self@ =~= other@);
        assert forall|p: int| self.top() <= p < self.full() implies (
        #[trigger] self.slot(p)) is Some by {
            assert(other.slot(p) is Some);
        }
        assert forall|i: int| 0 <= i < self@.len() implies self.slot(self.top() + i) == Some(
            #[trigger] self@[i],
        ) by {
            assert(other.slot(self.top() + i) == Some(other@[i]));
        }
    }

    /// Performs the next operation of a steal. The item comes out of the step that wins it.
    pub fn step_steal(&mut self, op: &mut StealOp) -> (r: Option<T>)
        requires
            old(self).wf(),
            old(self).steal_inv(*old(op)),
            !old(op).finished(),
        ensures
            final(self).wf(),
            final(self).steal_inv(*final(op)),
            *final(op) == old(op).after(
                match old(op).action() {
                    DequeAction::LoadBottom => DequeEvent::Position(old(self).bottom() as isize),
                    DequeAction::LoadTop => DequeEvent::Position(old(self).top() as isize),
                    DequeAction::CasTop { current } => DequeEvent::Exchanged(
                        old(self).top() == current,
                    ),
                    _ => DequeEvent::Done,
                },
            ),
            final(self).bottom() == old(self).bottom(),
            final(self).full() == old(self).full(),
            if final(op).pc is Won {
                &&& old(self)@.len() > 0
                &&& r == Some(old(self)@[0])
                &&& final(self)@ == old(self)@.drop_first()
                &&& final(self).top() == old(self).top() + 1
                &&& forall|p: int|
                    0 <= p && p % CAP as int != old(self).top() % CAP as int ==> #[trigger] final(self).slot(p) == old(self).slot(p)
            } else {
                &&& r is None
                &&& *final(self) == *old(self)
            },
    {
        match op.pc {
            StealPc::LoadTop => {
                op.on_event(DequeEvent::Position(self.top));
                None
            },
            StealPc::LoadBottom { t } => {
                op.on_event(DequeEvent::Position(self.bottom));
                None
            },
            StealPc::Read { t } => {
                op.on_event(DequeEvent::Done);
                None
            },
            StealPc::Exchange { t } => {
                if self.top == t {
                    let at: usize = t as usize % CAP;
                    let mut slot: Option<T> = None;
                    std::mem::swap(&mut slot, &mut self.buffer[at]);
                    self.top = t + 1;
                    op.on_event(DequeEvent::Exchanged(true));
                    proof {
                        assert(old(self).slot(old(self).top() + 0) == Some(old(self)@[0]));
                        assert forall|p: int| t < p < self.full@ implies #[trigger] self.slot(p)
                            == old(self).slot(p) by {
                            lemma_slots_differ(t as int, p);
                        }
                        assert forall|i: int| 0 <= i < self@.len() implies #[trigger] self@[i]
                            == old(self)@[i + 1] by {
                            assert(self.slot(self.top + i) == old(self).slot(self.top + i));
                        }
                        assert(self@ =~= old(self)@.drop_first());
                        assert forall|p: int| self.top() <= p < self.full() implies (
                        #[trigger] self.slot(p)) is Some by {
                            assert(old(self).slot(p) is Some);
                        }
                        assert forall|i: int| 0 <= i < self@.len() implies self.slot(
                            self.top() + i,
                        ) == Some(#[trigger] self@[i]) by {
                            assert(old(self).slot(old(self).top() + (i + 1)) == Some(
                                old(self)@[i + 1],
                            ));
                        }
                    }
                    slot
                } else {
                    op.on_event(DequeEvent::Exchanged(false));
                    None
                }
            },
            StealPc::Won => None,
            StealPc::Empty => None,
            StealPc::Retry => None,
        }
    }

    /// Pops the item at the bottom; `None` if there is none.
    pub fn pop(&mut self) -> (r: Option<T>)
        requires
            old(self).wf(),
            old(self).settled(),
        ensures
            final(self).wf(),
            final(self).settled(),
            match r {
                Some(v) => {
                    &&& old(self)@.len() > 0
                    &&& v == old(self)@.last()
                    &&& final(self)@ == old(self)@.drop_last()
                },
                None => {
                    &&& old(self)@.len() == 0
                    &&& final(self)@ == old(self)@
                },
            },
            final(self).full() <= old(self).full(),
    {
        let mut op = DequePopOp::start();
        let mut got: Option<T> = None;
        while !matches!(op.pc, DequePopPc::Won | DequePopPc::Empty)
            invariant
                self.wf(),
                self.pop_inv(op),
                old(self).wf(),
                self.full() <= old(self).full(),
                match op.pc {
                    DequePopPc::Read { b } => {
                        &&& got is None
                        &&& old(self)@.len() > 0
                        &&& self.slot(b as int) == Some(old(self)@.last())
                        &&& self@ == old(self)@.drop_last()
                    },
                    DequePopPc::ReadLast { b } => {
                        &&& got is None
                        &&& self@ == old(self)@
                        &&& self.top() == b
                    },
                    DequePopPc::Exchange { b } => {
                        &&& got is None
                        &&& self@ == old(self)@
                        &&& self.top() == b
                    },
                    DequePopPc::Restore { b, won } => if won {
                        &&& old(self)@.len() == 1
                        &&& got == Some(old(self)@[0])
                        &&& self@ == Seq::<T>::empty()
                    } else {
                        &&& got is None
                        &&& old(self)@.len() == 0
                        &&& self@ == old(self)@
                    },
                    DequePopPc::Won => {
                        &&& old(self)@.len() > 0
                        &&& got == Some(old(self)@.last())
                        &&& self@ == old(self)@.drop_last()
                    },
                    DequePopPc::Empty => {
                        &&& got is None
                        &&& old(self)@.len() == 0
                        &&& self@ == old(self)@
                    },
                    _ => got is None && self@ == old(self)@,
                },
            decreases
                    match op.pc {
                        DequePopPc::LoadBottom => 6int,
                        DequePopPc::Lower { b } => 5,
                        DequePopPc::LoadTop { b } => 4,
                        DequePopPc::Read { b } => 3,
                        DequePopPc::ReadLast { b } => 3,
                        DequePopPc::Exchange { b } => 2,
                        DequePopPc::Restore { b, won } => 1,
                        _ => 0,
                    },
        {
            let ghost before = op;
            let r = self.step_pop(&mut op);
            if r.is_some() {
                got = r;
            }
            proof {
                if before.pc is Restore {
                    assert(Seq::<T>::empty() =~= old(self)@.drop_last() || old(self)@.len() != 1);
                }
            }
        }
        got
    }

    /// Steals the item at the top. With no other thread at work a steal never has to be tried
    /// again.
    pub fn steal(&mut self) -> (r: Steal<T>)
        requires
            old(self).wf(),
            old(self).settled(),
        ensures
            final(self).wf(),
            final(self).settled(),
            match r {
                Steal::Success(v) => {
                    &&& old(self)@.len() > 0
                    &&& v == old(self)@[0]
                    &&& final(self)@ == old(self)@.drop_first()
                },
                Steal::Empty => {
                    &&& old(self)@.len() == 0
                    &&& final(self)@ == old(self)@
                },
                Steal::Retry => false,
            },
            final(self).full() == old(self).full(),
    {
        let mut op = StealOp::start();
        let mut got: Option<T> = None;
        while op.next_action().is_some()
            invariant
                self.wf(),
                self.settled(),
                self.steal_inv(op),
                old(self).wf(),
                self.full() == old(self).full(),
                match op.pc {
                    StealPc::LoadBottom { t } => t == self.top() && got is None && self@ == old(self)@,
                    StealPc::Read { t } => t == self.top() && got is None && self@ == old(self)@,
                    StealPc::Exchange { t } => t == self.top() && got is None && self@ == old(self)@,
                    StealPc::LoadTop => got is None && self@ == old(self)@,
                    StealPc::Won => {
                        &&& old(self)@.len() > 0
                        &&& got == Some(old(self)@[0])
                        &&& self@ == old(self)@.drop_first()
                    },
                    StealPc::Empty => got is None && old(self)@.len() == 0 && self@ == old(self)@,
                    StealPc::Retry => false,
                },
            decreases
                    match op.pc {
                        StealPc::LoadTop => 4int,
                        StealPc::LoadBottom { t } => 3,
                        StealPc::Read { t } => 2,
                        StealPc::Exchange { t } => 1,
                        _ => 0,
                    },
        {
            let r = self.step_steal(&mut op);
            if r.is_some() {
                got = r;
            }
        }
        match got {
            Some(v) => Steal::Success(v),
            None => Steal::Empty,
        }
    }

    /// A handle to steal with.
    pub fn stealer(&mut self) -> (s: Stealer<'_, T>)
        ensures
            *s.deque == *old(self),
            *final(s.deque) == *final(self),
    {
        Stealer { deque: self }
    }
}

impl<T> Default for Deque<T> {
    fn default() -> (d: Deque<T>)
        ensures
            d.wf(),
            d.settled(),
            d@ == Seq::<T>::empty(),
    {
        Deque::new()
    }
}

/// A handle with which items are stolen from a deque.
pub struct Stealer<'a, T> {
    pub deque: &'a mut Deque<T>,
}

impl<'a, T> Stealer<'a, T> {
    /// Steals the item at the top of the deque, which the handle goes on leading to.
    pub fn steal(&mut self) -> (r: Steal<T>)
        requires
            old(self).deque.wf(),
            old(self).deque.settled(),
        ensures
            *final(final(self).deque) == *final(old(self).deque),
            final(self).deque.wf(),
            final(self).deque.settled(),
            match r {
                Steal::Success(v) => {
                    &&& old(self).deque@.len() > 0
                    &&& v == old(self).deque@[0]
                    &&& final(self).deque@ == old(self).deque@.drop_first()
                },
                Steal::Empty => {
                    &&& old(self).deque@.len() == 0
                    &&& final(self).deque@ == old(self).deque@
                },
                Steal::Retry => false,
            },
    {
        self.deque.steal()
    }
}

/// A push writes its item at the bottom and then moves the bottom on by one, if fewer items than
/// fit are there; otherwise it writes nothing.
pub proof fn law_push_writes_at_the_bottom(op: DequePushOp, b: isize, t: isize)
    requires
        op.pc is LoadBottom,
        b < isize::MAX,
    ensures
        op.action() == DequeAction::LoadBottom,
        ({
            let read = op.after(DequeEvent::Position(b));
            let room = read.after(DequeEvent::Position(t));
            let written = room.after(DequeEvent::Done);
            &&& read.action() == DequeAction::LoadTop
            &&& b - t >= 4096 ==> room.pc is Full
            &&& b - t < 4096 ==> {
                &&& room.action() == DequeAction::WriteSlot(b)
                &&& written.action() matches DequeAction::StoreBottom(to) && to == b + 1
                &&& written.after(DequeEvent::Done).pc is Done
                &&& !room.finished() && !written.finished()
            }
            &&& !read.finished()
        }),
{
}

/// A pop lowers the bottom by one before it reads the top. With more than one item left it takes
/// the item at the bottom; with one left it takes that only if it moves the top past it; with
/// none it takes none. In the last two it puts the bottom back.
pub proof fn law_pop_takes_at_the_bottom(op: DequePopOp, b: isize, t: isize)
    requires
        op.pc is LoadBottom,
        b > isize::MIN,
    ensures
        op.action() == DequeAction::LoadBottom,
        ({
            let low = (b - 1) as isize;
            let read = op.after(DequeEvent::Position(b));
            let lowered = read.after(DequeEvent::Done);
            let seen = lowered.after(DequeEvent::Position(t));
            &&& read.action() == DequeAction::StoreBottom(low)
            &&& lowered.action() == DequeAction::LoadTop
            &&& t < b - 1 ==> {
                &&& seen.action() == DequeAction::ReadSlot(low)
                &&& seen.after(DequeEvent::Done).pc is Won
            }
            &&& t == b - 1 ==> {
                let last = seen.after(DequeEvent::Done);
                let won = last.after(DequeEvent::Exchanged(true));
                let lost = last.after(DequeEvent::Exchanged(false));
                &&& seen.action() == DequeAction::ReadSlot(low)
                &&& last.action() == DequeAction::CasTop { current: t }
                &&& won.action() == DequeAction::StoreBottom(b)
                &&& won.after(DequeEvent::Done).pc is Won
                &&& lost.action() == DequeAction::StoreBottom(b)
                &&& lost.after(DequeEvent::Done).pc is Empty
                &&& !last.finished() && !won.finished() && !lost.finished()
            }
            &&& t > b - 1 ==> {
                &&& seen.action() == DequeAction::StoreBottom(b)
                &&& seen.after(DequeEvent::Done).pc is Empty
            }
            &&& !read.finished() && !lowered.finished() && !seen.finished()
        }),
{
}

/// A steal takes the item at the top if and only if it moves the top past it. It finds nothing
/// where the top is not below the bottom, and is told to try again where another thread moved
/// the top first.
pub proof fn law_steal_takes_at_the_top(op: StealOp, t: isize, b: isize)
    requires
        op.pc is LoadTop,
    ensures
        op.action() == DequeAction::LoadTop,
        ({
            let read = op.after(DequeEvent::Position(t));
            let seen = read.after(DequeEvent::Position(b));
            let ready = seen.after(DequeEvent::Done);
            &&& read.action() == DequeAction::LoadBottom
            &&& t >= b ==> seen.pc is Empty
            &&& t < b ==> {
                &&& seen.action() == DequeAction::ReadSlot(t)
                &&& ready.action() == DequeAction::CasTop { current: t }
                &&& ready.after(DequeEvent::Exchanged(true)).pc is Won
                &&& ready.after(DequeEvent::Exchanged(false)).pc is Retry
                &&& !seen.finished() && !ready.finished()
            }
            &&& !read.finished()
        }),
{
}

} // verus!
