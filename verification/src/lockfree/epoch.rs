//! Epochs: memory is freed in batches, two epochs after it was given up.
//!
//! A thread that reads pins itself to the current epoch. The epoch moves on only when every
//! pinned thread is pinned to it. What a thread gives up goes into one of its three bags, by the
//! epoch modulo three; when the thread moves the epoch on from `cur`, it frees its bag of
//! `cur - 1`.

use vstd::prelude::*;

use crate::lockfree::reuse;
use crate::lockfree::reuse::Cell;
use crate::lockfree::reuse::CellState;
use crate::lockfree::reuse::Heap;
use crate::lockfree::stack;
use crate::lockfree::stack::PopOp;
use crate::lockfree::stack::PopPc;
use crate::lockfree::stack::PushOp;
use crate::lockfree::stack::PushPc;
use crate::lockfree::stack::Stack;
use crate::lockfree::stack::StackAction;
use crate::lockfree::stack::StackEvent;

verus! {

/// How many threads can take part.
pub const MAX_EPOCH_THREADS: usize = 128;

/// What a thread that is not pinned has in its slot; a thread pinned to `e` has `e + 1`.
pub const UNPINNED: usize = 0;

/// How many addresses in its bags make a thread try to move the epoch on.
pub const ADVANCE_THRESHOLD: usize = 16;

/// What a step towards the next epoch wants done.
#[derive(Clone, Copy, Debug, PartialEq, Eq, Structural)]
pub enum EpochAction {
    /// Read the epoch.
    LoadEpoch,
    /// Read how many slots are claimed.
    LoadCount,
    /// Read a slot.
    ReadSlot(usize),
    /// Write the own slot.
    WriteSlot(usize),
    /// Move the epoch on by one if it is still the given one.
    Advance(usize),
}

/// What a step towards the next epoch is answered.
#[derive(Clone, Copy, Debug, PartialEq, Eq, Structural)]
pub enum EpochEvent {
    /// What was read.
    Value(usize),
    /// Whether the epoch was moved on.
    Moved(bool),
    /// Nothing to tell.
    Done,
}

/// Where a pinning stands.
#[derive(Clone, Copy, Debug, PartialEq, Eq, Structural)]
pub enum PinPc {
    /// About to read the epoch.
    Load,
    /// About to announce the epoch that was read.
    Store(usize),
    /// Pinned.
    Done,
}

/// One pinning of a thread that is not pinned.
#[derive(Clone, Copy, Debug, PartialEq, Eq, Structural)]
pub struct PinOp {
    pub pc: PinPc,
}

impl PinOp {
    /// What an unfinished pinning wants done next.
    pub open spec fn action(self) -> EpochAction {
        match self.pc {
            PinPc::Store(e) => EpochAction::WriteSlot((e + 1) as usize),
            _ => EpochAction::LoadEpoch,
        }
    }

    /// Where a pinning stands after an answer. An answer of the wrong kind changes nothing.
    pub open spec fn after(self, e: EpochEvent) -> PinOp {
        let pc = match (self.pc, e) {
            (PinPc::Load, EpochEvent::Value(v)) => PinPc::Store(v),
            (PinPc::Store(_), EpochEvent::Done) => PinPc::Done,
            (pc, _) => pc,
        };
        PinOp { pc }
    }

    /// A pinning that has done nothing yet.
    pub fn start() -> (op: PinOp)
        ensures
            op == (PinOp { pc: PinPc::Load }),
    {
        PinOp { pc: PinPc::Load }
    }

    /// What to do next, or `None` when the thread is pinned.
    pub fn next_action(&self) -> (a: Option<EpochAction>)
        requires
            self.pc matches PinPc::Store(e) ==> e < usize::MAX,
        ensures
            a == (if self.pc is Done { None } else { Some(self.action()) }),
    {
        match self.pc {
            PinPc::Load => Some(EpochAction::LoadEpoch),
            PinPc::Store(e) => Some(EpochAction::WriteSlot(e + 1)),
            PinPc::Done => None,
        }
    }

    /// Takes the answer to what was done.
    pub fn on_event(&mut self, e: EpochEvent)
        ensures
            *final(self) == old(self).after(e),
    {
        let pc = match (self.pc, e) {
            (PinPc::Load, EpochEvent::Value(v)) => PinPc::Store(v),
            (PinPc::Store(_), EpochEvent::Done) => PinPc::Done,
            (pc, _) => pc,
        };
        self.pc = pc;
    }
}

/// Where an attempt to move the epoch on stands.
#[derive(Clone, Copy, Debug, PartialEq, Eq, Structural)]
pub enum AdvancePc {
    /// About to read the epoch.
    Load,
    /// About to read how many slots are claimed.
    Count(usize),
    /// Reading the slots: of the first `max`, all before `at` allow the epoch to move on.
    Scan { cur: usize, at: usize, max: usize },
    /// About to move the epoch on.
    Swap(usize),
    /// The epoch stays, or somebody else has moved it on.
    Failed,
    /// The epoch was moved on from the given one.
    Moved(usize),
}

/// One attempt to move the epoch on.
#[derive(Clone, Copy, Debug, PartialEq, Eq, Structural)]
pub struct AdvanceOp {
    pub pc: AdvancePc,
}

/// Where the reading of the slots stands when `at` of `max` have been read.
pub open spec fn scan_pc(cur: usize, at: usize, max: usize) -> AdvancePc {
    if at < max {
        AdvancePc::Scan { cur, at, max }
    } else {
        AdvancePc::Swap(cur)
    }
}

/// Whether a slot lets the epoch move on from `cur`.
pub open spec fn lets_pass(slot: usize, cur: usize) -> bool {
    slot == UNPINNED || slot - 1 >= cur
}

impl AdvanceOp {
    /// Whether the attempt has come to its end.
    pub open spec fn finished(self) -> bool {
        self.pc is Failed || self.pc is Moved
    }

    /// What an unfinished attempt wants done next.
    pub open spec fn action(self) -> EpochAction {
        match self.pc {
            AdvancePc::Count(_) => EpochAction::LoadCount,
            AdvancePc::Scan { cur, at, max } => EpochAction::ReadSlot(at),
            AdvancePc::Swap(cur) => EpochAction::Advance(cur),
            _ => EpochAction::LoadEpoch,
        }
    }

    /// Where an attempt stands after an answer. An answer of the wrong kind changes nothing.
    pub open spec fn after(self, e: EpochEvent) -> AdvanceOp {
        let pc = match (self.pc, e) {
            (AdvancePc::Load, EpochEvent::Value(v)) => AdvancePc::Count(v),
            (AdvancePc::Count(cur), EpochEvent::Value(max)) => scan_pc(cur, 0, max),
            (AdvancePc::Scan { cur, at, max }, EpochEvent::Value(slot)) => if lets_pass(slot, cur) {
                scan_pc(cur, (at + 1) as usize, max)
            } else {
                AdvancePc::Failed
            },
            (AdvancePc::Swap(cur), EpochEvent::Moved(b)) => if b {
                AdvancePc::Moved(cur)
            } else {
                AdvancePc::Failed
            },
            (pc, _) => pc,
        };
        AdvanceOp { pc }
    }

    /// That a slot is read only if it is one of those to be read.
    pub open spec fn valid(self) -> bool {
        self.pc matches AdvancePc::Scan { cur, at, max } ==> at < max
    }

    /// An attempt that has done nothing yet.
    pub fn start() -> (op: AdvanceOp)
        ensures
            op == (AdvanceOp { pc: AdvancePc::Load }),
            op.valid(),
    {
        AdvanceOp { pc: AdvancePc::Load }
    }

    /// What to do next, or `None` when the attempt is over.
    pub fn next_action(&self) -> (a: Option<EpochAction>)
        ensures
            a == (if self.finished() { None } else { Some(self.action()) }),
    {
        match self.pc {
            AdvancePc::Load => Some(EpochAction::LoadEpoch),
            AdvancePc::Count(_) => Some(EpochAction::LoadCount),
            AdvancePc::Scan { cur, at, max } => Some(EpochAction::ReadSlot(at)),
            AdvancePc::Swap(cur) => Some(EpochAction::Advance(cur)),
            AdvancePc::Failed => None,
            AdvancePc::Moved(_) => None,
        }
    }

    /// Takes the answer to what was done.
    pub fn on_event(&mut self, e: EpochEvent)
        requires
            old(self).valid(),
        ensures
            *final(self) == old(self).after(e),
            final(self).valid(),
    {
        let pc = match (self.pc, e) {
            (AdvancePc::Load, EpochEvent::Value(v)) => AdvancePc::Count(v),
            (AdvancePc::Count(cur), EpochEvent::Value(max)) => {
                if 0 < max {
                    AdvancePc::Scan { cur, at: 0, max }
                } else {
                    AdvancePc::Swap(cur)
                }
            },
            (AdvancePc::Scan { cur, at, max }, EpochEvent::Value(slot)) => {
                if slot != UNPINNED && slot - 1 < cur {
                    AdvancePc::Failed
                } else if at + 1 < max {
                    AdvancePc::Scan { cur, at: at + 1, max }
                } else {
                    AdvancePc::Swap(cur)
                }
            },
            (AdvancePc::Swap(cur), EpochEvent::Moved(b)) => {
                if b {
                    AdvancePc::Moved(cur)
                } else {
                    AdvancePc::Failed
                }
            },
            (pc, _) => pc,
        };
        self.pc = pc;
    }
}

/// The epoch and the slots of all threads.
pub struct EpochRegistry {
    global_epoch: usize,
    locals: Vec<usize>,
    next_slot: usize,
}

/// What a thread keeps for itself: its slot, its three bags with addresses and the epochs in which
/// they were given up, how often it is pinned, and the addresses that are ready to be freed.
pub struct EpochLocal {
    slot: Option<usize>,
    bags: Vec<Vec<(usize, usize)>>,
    pin_depth: usize,
    reclaimed: Vec<usize>,
}

/// The epoch, the claimed slots, and what one thread keeps for itself.
#[verifier::ext_equal]
pub struct EpochView {
    pub global: usize,
    pub slots: Seq<usize>,
    pub slot: Option<usize>,
    pub depth: usize,
    pub bags: Seq<Seq<(usize, usize)>>,
    pub reclaimed: Seq<usize>,
}

/// The addresses in a bag.
pub open spec fn addresses(bag: Seq<(usize, usize)>) -> Seq<usize> {
    bag.map_values(|x: (usize, usize)| x.0)
}

/// Whether something was given up so long before epoch `now` that nobody can reach it any more.
pub open spec fn old_enough(now: usize) -> spec_fn((usize, usize)) -> bool {
    |x: (usize, usize)| x.1 + 2 <= now
}

/// Whether something may still be reached in epoch `now`.
pub open spec fn too_young(now: usize) -> spec_fn((usize, usize)) -> bool {
    |x: (usize, usize)| x.1 + 2 > now
}

impl EpochView {
    /// That there are three bags, and the thread's slot is a claimed one.
    pub open spec fn wf(self) -> bool {
        &&& self.slots.len() <= MAX_EPOCH_THREADS
        &&& self.bags.len() == 3
        &&& self.slot matches Some(s) ==> s < self.slots.len()
        &&& self.depth > 0 ==> self.slot is Some
    }

    /// Whether the epoch can move on.
    pub open spec fn can_advance(self) -> bool {
        forall|i: int| 0 <= i < self.slots.len() ==> lets_pass(#[trigger] self.slots[i], self.global)
    }

    /// How many addresses the thread has in its bags.
    pub open spec fn total(self) -> nat {
        self.bags[0].len() + self.bags[1].len() + self.bags[2].len()
    }

    /// After the thread has claimed a slot, if it had none.
    pub open spec fn after_claim(self) -> EpochView {
        if self.slot is None {
            EpochView {
                slots: self.slots.push(UNPINNED),
                slot: Some(self.slots.len() as usize),
                ..self
            }
        } else {
            self
        }
    }

    /// After the thread has pinned itself. A thread that is pinned already stays pinned to its
    /// epoch and only counts.
    pub open spec fn after_pin(self) -> EpochView {
        if self.depth > 0 {
            EpochView { depth: (self.depth + 1) as usize, ..self }
        } else {
            let c = self.after_claim();
            EpochView {
                slots: c.slots.update(c.slot->0 as int, (self.global + 1) as usize),
                depth: 1,
                ..c
            }
        }
    }

    /// After an attempt to move the epoch on. If it moves on from `cur`, the bag of `cur - 1`
    /// is ready to be freed.
    pub open spec fn after_advance(self) -> EpochView {
        if !self.can_advance() {
            self
        } else if self.global >= 1 {
            let b = (self.global - 1) % 3;
            EpochView {
                global: (self.global + 1) as usize,
                bags: self.bags.update(b, Seq::empty()),
                reclaimed: self.reclaimed + addresses(self.bags[b]),
                ..self
            }
        } else {
            EpochView { global: (self.global + 1) as usize, ..self }
        }
    }

    /// The addresses in bag `b` that are old enough to be freed.
    pub open spec fn ripe(self, b: int) -> Seq<usize> {
        addresses(self.bags[b].filter(old_enough(self.global)))
    }

    /// After all that is old enough has left the bags.
    pub open spec fn after_sweep(self) -> EpochView {
        EpochView {
            bags: Seq::new(3, |b: int| self.bags[b].filter(too_young(self.global))),
            reclaimed: self.reclaimed + self.ripe(0) + self.ripe(1) + self.ripe(2),
            ..self
        }
    }

    /// After the thread has tried to move the epoch on and then has swept its three bags.
    pub open spec fn after_collect(self) -> EpochView {
        self.after_advance().after_sweep()
    }

    /// After the thread has taken one pin back. With the last one it leaves its epoch and
    /// tries to move the epoch on.
    pub open spec fn after_unpin(self) -> EpochView {
        if self.depth > 1 {
            EpochView { depth: (self.depth - 1) as usize, ..self }
        } else {
            (EpochView {
                slots: self.slots.update(self.slot->0 as int, UNPINNED),
                depth: 0,
                ..self
            }).after_advance()
        }
    }

    /// After the address was put into the bag of the current epoch.
    pub open spec fn after_bag(self, ptr: usize) -> EpochView {
        let b = self.global as int % 3;
        EpochView { bags: self.bags.update(b, self.bags[b].push((ptr, self.global))), ..self }
    }

    /// After the thread has given up an address. Many addresses in the bags make it try to move
    /// the epoch on.
    pub open spec fn after_defer(self, ptr: usize) -> EpochView {
        let c = self.after_bag(ptr);
        if c.total() >= ADVANCE_THRESHOLD {
            c.after_advance()
        } else {
            c
        }
    }
}

/// What the registry and a thread's own part hold.
pub closed spec fn epoch_view(reg: EpochRegistry, me: EpochLocal) -> EpochView {
    EpochView {
        global: reg.global_epoch,
        slots: reg.locals@.take(reg.next_slot as int),
        slot: me.slot,
        depth: me.pin_depth,
        bags: me.bags@.map_values(|b: Vec<(usize, usize)>| b@),
        reclaimed: me.reclaimed@,
    }
}

impl EpochRegistry {
    /// That there are as many slots as there may be, and no more are claimed.
    pub closed spec fn wf(self) -> bool {
        self.locals@.len() == MAX_EPOCH_THREADS && self.next_slot <= MAX_EPOCH_THREADS
    }

    /// The epoch zero, with no thread taking part.
    pub fn new() -> (r: EpochRegistry)
        ensures
            r.wf(),
            forall|me: EpochLocal|
                (#[trigger] epoch_view(r, me)).global == 0 && epoch_view(r, me).slots.len() == 0,
    {
        let mut locals: Vec<usize> = Vec::new();
        let mut i: usize = 0;
        while i < MAX_EPOCH_THREADS
            invariant
                i <= MAX_EPOCH_THREADS,
                locals@.len() == i,
            decreases MAX_EPOCH_THREADS - i,
        {
            locals.push(UNPINNED);
            i += 1;
        }
        EpochRegistry { global_epoch: 0, locals, next_slot: 0 }
    }

    /// The current epoch.
    pub fn epoch(&self) -> (e: usize)
        ensures
            forall|me: EpochLocal| e == (#[trigger] epoch_view(*self, me)).global,
    {
        self.global_epoch
    }

    /// Does what an operation wants done, for the thread with the slot `own`.
    fn perform(&mut self, own: usize, a: EpochAction) -> (e: EpochEvent)
        requires
            old(self).wf(),
            a matches EpochAction::ReadSlot(i) ==> i < old(self).next_slot,
            a is WriteSlot ==> own < old(self).next_slot,
            a matches EpochAction::Advance(cur) ==> cur < usize::MAX,
        ensures
            final(self).wf(),
            final(self).next_slot == old(self).next_slot,
            match a {
                EpochAction::LoadEpoch => e == EpochEvent::Value(old(self).global_epoch)
                    && *final(self) == *old(self),
                EpochAction::LoadCount => e == EpochEvent::Value(old(self).next_slot)
                    && *final(self) == *old(self),
                EpochAction::ReadSlot(i) => e == EpochEvent::Value(old(self).locals@[i as int])
                    && *final(self) == *old(self),
                EpochAction::WriteSlot(v) => {
                    &&& e is Done
                    &&& final(self).locals@ == old(self).locals@.update(own as int, v)
                    &&& final(self).global_epoch == old(self).global_epoch
                },
                EpochAction::Advance(cur) => {
                    &&& e == EpochEvent::Moved(old(self).global_epoch == cur)
                    &&& final(self).locals@ == old(self).locals@
                    &&& final(self).global_epoch == if old(self).global_epoch == cur {
                        cur + 1
                    } else {
                        old(self).global_epoch as int
                    }
                },
            },
    {
        match a {
            EpochAction::LoadEpoch => EpochEvent::Value(self.global_epoch),
            EpochAction::LoadCount => EpochEvent::Value(self.next_slot),
            EpochAction::ReadSlot(i) => EpochEvent::Value(self.locals[i]),
            EpochAction::WriteSlot(v) => {
                self.locals.set(own, v);
                EpochEvent::Done
            },
            EpochAction::Advance(cur) => {
                if self.global_epoch == cur {
                    self.global_epoch = cur + 1;
                    EpochEvent::Moved(true)
                } else {
                    EpochEvent::Moved(false)
                }
            },
        }
    }
}

impl EpochLocal {
    /// What a thread has that has never taken part.
    pub fn new() -> (l: EpochLocal)
        ensures
            forall|reg: EpochRegistry|
                {
                    let v = #[trigger] epoch_view(reg, l);
                    &&& v.slot is None
                    &&& v.depth == 0
                    &&& v.bags == seq![Seq::<(usize, usize)>::empty(), Seq::empty(), Seq::empty()]
                    &&& v.reclaimed == Seq::<usize>::empty()
                },
    {
        let mut bags: Vec<Vec<(usize, usize)>> = Vec::new();
        bags.push(Vec::new());
        bags.push(Vec::new());
        bags.push(Vec::new());
        assert(bags@.map_values(|b: Vec<(usize, usize)>| b@) =~= seq![
            Seq::<(usize, usize)>::empty(),
            Seq::empty(),
            Seq::empty(),
        ]);
        EpochLocal { slot: None, bags, pin_depth: 0, reclaimed: Vec::new() }
    }

    /// Whether the thread is pinned.
    pub fn is_pinned(&self) -> (b: bool)
        ensures
            forall|reg: EpochRegistry| b == ((#[trigger] epoch_view(reg, *self)).depth > 0),
    {
        self.pin_depth > 0
    }

    /// Counts one pin more.
    pub fn nest(&mut self)
        requires
            exists|reg: EpochRegistry| (#[trigger] epoch_view(reg, *old(self))).depth < usize::MAX,
        ensures
            forall|reg: EpochRegistry|
                {
                    let v = #[trigger] epoch_view(reg, *old(self));
                    epoch_view(reg, *final(self)) == (EpochView {
                        depth: (v.depth + 1) as usize,
                        ..v
                    })
                },
    {
        self.pin_depth = self.pin_depth + 1;
    }

    /// Counts one pin less, and tells whether it was the last.
    pub fn unnest(&mut self) -> (last: bool)
        requires
            exists|reg: EpochRegistry| (#[trigger] epoch_view(reg, *old(self))).depth > 0,
        ensures
            forall|reg: EpochRegistry|
                {
                    let v = #[trigger] epoch_view(reg, *old(self));
                    &&& last == (v.depth == 1)
                    &&& epoch_view(reg, *final(self)) == (EpochView {
                        depth: (v.depth - 1) as usize,
                        ..v
                    })
                },
    {
        self.pin_depth = self.pin_depth - 1;
        self.pin_depth == 0
    }

    /// Hands out the addresses that are ready to be freed.
    pub fn take_reclaimed(&mut self) -> (r: Vec<usize>)
        ensures
            forall|reg: EpochRegistry|
                {
                    let v = #[trigger] epoch_view(reg, *old(self));
                    &&& r@ == v.reclaimed
                    &&& epoch_view(reg, *final(self)) == (EpochView {
                        reclaimed: Seq::empty(),
                        ..v
                    })
                },
    {
        let mut r: Vec<usize> = Vec::new();
        std::mem::swap(&mut r, &mut self.reclaimed);
        r
    }
}

/// Puts an address into the bag of `epoch`, and tells whether the thread has so many in its bags
/// that it should try to move the epoch on.
pub fn put_in_bag(me: &mut EpochLocal, epoch: usize, ptr: usize) -> (many: bool)
    requires
        forall|reg: EpochRegistry| (#[trigger] epoch_view(reg, *old(me))).bags.len() == 3,
    ensures
        forall|reg: EpochRegistry|
            {
                let v = epoch_view(reg, *old(me));
                let b = epoch as int % 3;
                #[trigger] epoch_view(reg, *final(me)) == (EpochView {
                    bags: v.bags.update(b, v.bags[b].push((ptr, epoch))),
                    ..v
                })
            },
        forall|reg: EpochRegistry|
            many == ((#[trigger] epoch_view(reg, *final(me))).total() >= ADVANCE_THRESHOLD),
{
    let ghost bags = me.bags@.map_values(|b: Vec<(usize, usize)>| b@);
    proof {
        let reg = arbitrary::<EpochRegistry>();
        assert(epoch_view(reg, *me).bags.len() == 3);
    }
    let b: usize = epoch % 3;
    me.bags[b].push((ptr, epoch));
    let ghost after = me.bags@.map_values(|b: Vec<(usize, usize)>| b@);
    assert(after =~= bags.update(b as int, bags[b as int].push((ptr, epoch))));
    assert(after[0] == me.bags@[0]@ && after[1] == me.bags@[1]@ && after[2] == me.bags@[2]@);
    me.bags[0].len() >= ADVANCE_THRESHOLD || me.bags[1].len() >= ADVANCE_THRESHOLD
        || me.bags[2].len() >= ADVANCE_THRESHOLD || me.bags[0].len() + me.bags[1].len()
        + me.bags[2].len() >= ADVANCE_THRESHOLD
}

/// Makes the bag that is oldest when the epoch has moved on from `cur` ready to be freed.
pub fn free_oldest_bag(me: &mut EpochLocal, cur: usize)
    requires
        forall|reg: EpochRegistry| (#[trigger] epoch_view(reg, *old(me))).bags.len() == 3,
    ensures
        forall|reg: EpochRegistry|
            {
                let v = epoch_view(reg, *old(me));
                let b = (cur - 1) % 3;
                #[trigger] epoch_view(reg, *final(me)) == (if cur >= 1 {
                    EpochView {
                        bags: v.bags.update(b, Seq::empty()),
                        reclaimed: v.reclaimed + addresses(v.bags[b]),
                        ..v
                    }
                } else {
                    v
                })
            },
{
    if cur >= 1 {
        let ghost bags = me.bags@.map_values(|b: Vec<(usize, usize)>| b@);
        proof {
            let reg = arbitrary::<EpochRegistry>();
            assert(epoch_view(reg, *me).bags.len() == 3);
        }
        let b: usize = (cur - 1) % 3;
        let mut bag: Vec<(usize, usize)> = Vec::new();
        std::mem::swap(&mut bag, &mut me.bags[b]);
        assert(bag@ == bags[b as int]);
        let mut i: usize = 0;
        while i < bag.len()
            invariant
                i <= bag@.len(),
                me.reclaimed@ == old(me).reclaimed@ + addresses(bag@.take(i as int)),
                me.slot == old(me).slot,
                me.pin_depth == old(me).pin_depth,
                me.bags@.map_values(|b: Vec<(usize, usize)>| b@) =~= bags.update(
                    b as int,
                    Seq::empty(),
                ),
            decreases bag@.len() - i,
        {
            me.reclaimed.push(bag[i].0);
            assert(addresses(bag@.take(i + 1)) =~= addresses(bag@.take(i as int)).push(
                bag@[i as int].0,
            ));
            assert(me.reclaimed@ =~= old(me).reclaimed@ + addresses(bag@.take(i + 1)));
            i += 1;
        }
        assert(bag@.take(bag@.len() as int) =~= bag@);
    }
}

/// Takes all that is old enough in epoch `now` out of bag `k`, to be freed.
fn sweep_bag(me: &mut EpochLocal, k: usize, now: usize)
    requires
        forall|reg: EpochRegistry| (#[trigger] epoch_view(reg, *old(me))).bags.len() == 3,
        k < 3,
    ensures
        forall|reg: EpochRegistry|
            {
                let v = epoch_view(reg, *old(me));
                #[trigger] epoch_view(reg, *final(me)) == (EpochView {
                    bags: v.bags.update(k as int, v.bags[k as int].filter(too_young(now))),
                    reclaimed: v.reclaimed + addresses(v.bags[k as int].filter(old_enough(now))),
                    ..v
                })
            },
{
    let ghost bags = me.bags@.map_values(|b: Vec<(usize, usize)>| b@);
    proof {
        let reg = arbitrary::<EpochRegistry>();
        assert(epoch_view(reg, *me).bags.len() == 3);
    }
    let mut bag: Vec<(usize, usize)> = Vec::new();
    std::mem::swap(&mut bag, &mut me.bags[k]);
    assert(bag@ == bags[k as int]);
    let mut kept: Vec<(usize, usize)> = Vec::new();
    let mut i: usize = 0;
    proof {
        assert(bag@.take(0) =~= Seq::empty());
        reveal(Seq::filter);
        assert(addresses(bag@.take(0).filter(old_enough(now))) =~= Seq::empty());
    }
    while i < bag.len()
        invariant
            i <= bag@.len(),
            kept@ == bag@.take(i as int).filter(too_young(now)),
            me.reclaimed@ == old(me).reclaimed@ + addresses(
                bag@.take(i as int).filter(old_enough(now)),
            ),
            me.slot == old(me).slot,
            me.pin_depth == old(me).pin_depth,
            me.bags@.map_values(|b: Vec<(usize, usize)>| b@) =~= bags.update(
                k as int,
                Seq::empty(),
            ),
        decreases bag@.len() - i,
    {
        proof {
            reveal(Seq::filter);
            assert(bag@.take(i + 1).drop_last() =~= bag@.take(i as int));
        }
        let x = bag[i];
        let ghost freed = bag@.take(i as int).filter(old_enough(now));
        if now >= 2 && x.1 <= now - 2 {
            me.reclaimed.push(x.0);
            assert(addresses(freed.push(x)) =~= addresses(freed).push(x.0));
            assert(me.reclaimed@ =~= old(me).reclaimed@ + addresses(freed.push(x)));
        } else {
            kept.push(x);
        }
        i += 1;
    }
    assert(bag@.take(bag@.len() as int) =~= bag@);
    let ghost rest = kept@;
    let ghost others = me.bags@.map_values(|b: Vec<(usize, usize)>| b@);
    std::mem::swap(&mut kept, &mut me.bags[k]);
    assert(me.bags@.map_values(|b: Vec<(usize, usize)>| b@) =~= others.update(k as int, rest));
    assert(others.update(k as int, rest) =~= bags.update(k as int, rest));
}

/// Takes all that is old enough in epoch `now` out of the three bags of a thread, to be freed.
pub fn sweep(me: &mut EpochLocal, now: usize)
    requires
        forall|reg: EpochRegistry| (#[trigger] epoch_view(reg, *old(me))).bags.len() == 3,
    ensures
        forall|reg: EpochRegistry|
            {
                let v = EpochView { global: now, ..epoch_view(reg, *old(me)) };
                #[trigger] epoch_view(reg, *final(me)) == (EpochView {
                    global: epoch_view(reg, *old(me)).global,
                    ..v.after_sweep()
                })
            },
{
    sweep_bag(me, 0, now);
    let ghost m1 = *me;
    assert forall|reg: EpochRegistry| (#[trigger] epoch_view(reg, *me)).bags.len() == 3 by {
        assert(epoch_view(reg, *old(me)).bags.len() == 3);
    }
    sweep_bag(me, 1, now);
    let ghost m2 = *me;
    assert forall|reg: EpochRegistry| (#[trigger] epoch_view(reg, *me)).bags.len() == 3 by {
        assert(epoch_view(reg, m1).bags.len() == 3);
    }
    sweep_bag(me, 2, now);
    proof {
        assert forall|reg: EpochRegistry|
            {
                let v = EpochView { global: now, ..epoch_view(reg, *old(me)) };
                #[trigger] epoch_view(reg, *me) == (EpochView {
                    global: epoch_view(reg, *old(me)).global,
                    ..v.after_sweep()
                })
            } by {
            let o = epoch_view(reg, *old(me));
            let v = EpochView { global: now, ..o };
            assert(epoch_view(reg, m1).bags[1] == o.bags[1]);
            assert(epoch_view(reg, m1).bags[2] == o.bags[2]);
            assert(epoch_view(reg, m2).bags[2] == o.bags[2]);
            assert(epoch_view(reg, *me).bags =~= v.after_sweep().bags);
        }
    }
}

/// Claims a slot for a thread that has none, and gives the thread's slot.
fn ensure_slot(reg: &mut EpochRegistry, me: &mut EpochLocal) -> (slot: usize)
    requires
        old(reg).wf(),
        epoch_view(*old(reg), *old(me)).wf(),
        epoch_view(*old(reg), *old(me)).slot is None ==> epoch_view(*old(reg), *old(me)).slots.len()
            < MAX_EPOCH_THREADS,
    ensures
        final(reg).wf(),
        epoch_view(*final(reg), *final(me)).wf(),
        epoch_view(*final(reg), *final(me)).slot == Some(slot),
        epoch_view(*final(reg), *final(me)).slots == epoch_view(
            *old(reg),
            *old(me),
        ).after_claim().slots.update(
            slot as int,
            epoch_view(*final(reg), *final(me)).slots[slot as int],
        ),
        epoch_view(*final(reg), *final(me)) == (EpochView {
            slots: epoch_view(*final(reg), *final(me)).slots,
            ..epoch_view(*old(reg), *old(me)).after_claim()
        }),
{
    match me.slot {
        Some(s) => {
            assert(epoch_view(*reg, *me).slots =~= epoch_view(*old(reg), *old(me)).slots.update(
                s as int,
                epoch_view(*reg, *me).slots[s as int],
            ));
            s
        },
        None => {
            let s: usize = reg.next_slot;
            reg.next_slot = s + 1;
            me.slot = Some(s);
            assert(epoch_view(*reg, *me).slots =~= epoch_view(
                *old(reg),
                *old(me),
            ).after_claim().slots.update(s as int, epoch_view(*reg, *me).slots[s as int]));
            s
        },
    }
}

/// Pins the thread to the current epoch. While it is pinned, what others give up is not freed
/// if the thread could have got hold of it.
pub fn pin(reg: &mut EpochRegistry, me: &mut EpochLocal)
    requires
        old(reg).wf(),
        epoch_view(*old(reg), *old(me)).wf(),
        epoch_view(*old(reg), *old(me)).slot is None ==> epoch_view(*old(reg), *old(me)).slots.len()
            < MAX_EPOCH_THREADS,
        epoch_view(*old(reg), *old(me)).global < usize::MAX,
        epoch_view(*old(reg), *old(me)).depth < usize::MAX,
    ensures
        final(reg).wf(),
        epoch_view(*final(reg), *final(me)).wf(),
        epoch_view(*final(reg), *final(me)) == epoch_view(*old(reg), *old(me)).after_pin(),
{
    assert(epoch_view(*reg, *me).depth < usize::MAX);
    if me.is_pinned() {
        me.nest();
        return ;
    }
    let slot: usize = ensure_slot(reg, me);
    let ghost mid = epoch_view(*reg, *me);
    let ghost before = *reg;
    let mut op = PinOp::start();
    loop
        invariant
            reg.wf(),
            before.wf(),
            reg.next_slot == before.next_slot,
            reg.global_epoch == before.global_epoch,
            before.global_epoch < usize::MAX,
            slot < before.next_slot,
            match op.pc {
                PinPc::Load => reg.locals@ == before.locals@,
                PinPc::Store(e) => e == before.global_epoch && reg.locals@ == before.locals@,
                PinPc::Done => reg.locals@ == before.locals@.update(
                    slot as int,
                    (before.global_epoch + 1) as usize,
                ),
            },
        ensures
            op.pc is Done,
        decreases
                match op.pc {
                    PinPc::Load => 2int,
                    PinPc::Store(_) => 1,
                    PinPc::Done => 0,
                },
    {
        match op.next_action() {
            Some(a) => {
                let e = reg.perform(slot, a);
                op.on_event(e);
            },
            None => {
                break;
            },
        }
    }
    assert(epoch_view(*reg, *me).depth == 0);
    me.nest();
    proof {
        let v = epoch_view(*old(reg), *old(me));
        let e = (v.global + 1) as usize;
        assert(epoch_view(*reg, *me).slots =~= mid.slots.update(slot as int, e));
        assert(mid.slots.update(slot as int, e) =~= v.after_claim().slots.update(slot as int, e));
    }
}

/// Takes one pin back. With the last one the thread leaves its epoch and tries to move the epoch
/// on.
pub fn unpin(reg: &mut EpochRegistry, me: &mut EpochLocal)
    requires
        old(reg).wf(),
        epoch_view(*old(reg), *old(me)).wf(),
        epoch_view(*old(reg), *old(me)).depth > 0,
        epoch_view(*old(reg), *old(me)).global < usize::MAX,
    ensures
        final(reg).wf(),
        epoch_view(*final(reg), *final(me)).wf(),
        epoch_view(*final(reg), *final(me)) == epoch_view(*old(reg), *old(me)).after_unpin(),
{
    assert(epoch_view(*reg, *me).depth > 0);
    if !me.unnest() {
        return ;
    }
    if let Some(slot) = me.slot {
        reg.locals.set(slot, UNPINNED);
        assert(epoch_view(*reg, *me).slots =~= epoch_view(*old(reg), *old(me)).slots.update(
            slot as int,
            UNPINNED,
        ));
    }
    try_advance(reg, me);
}

/// Tries to move the epoch on, and if that works frees the thread's oldest bag.
pub fn try_advance(reg: &mut EpochRegistry, me: &mut EpochLocal)
    requires
        old(reg).wf(),
        epoch_view(*old(reg), *old(me)).wf(),
        epoch_view(*old(reg), *old(me)).global < usize::MAX,
    ensures
        final(reg).wf(),
        epoch_view(*final(reg), *final(me)).wf(),
        epoch_view(*final(reg), *final(me)) == epoch_view(*old(reg), *old(me)).after_advance(),
{
    let ghost v = epoch_view(*reg, *me);
    let mut op = AdvanceOp::start();
    loop
        invariant
            reg.wf(),
            op.valid(),
            v == epoch_view(*old(reg), *old(me)),
            v.global < usize::MAX,
            *me == *old(me),
            reg.locals@ == old(reg).locals@,
            reg.next_slot == old(reg).next_slot,
            !(op.pc is Moved) ==> *reg == *old(reg),
            match op.pc {
                AdvancePc::Load => true,
                AdvancePc::Count(cur) => cur == v.global,
                AdvancePc::Scan { cur, at, max } => {
                    &&& cur == v.global
                    &&& max == v.slots.len()
                    &&& forall|i: int| 0 <= i < at ==> lets_pass(#[trigger] v.slots[i], v.global)
                },
                AdvancePc::Swap(cur) => cur == v.global && v.can_advance(),
                AdvancePc::Failed => !v.can_advance(),
                AdvancePc::Moved(cur) => {
                    &&& cur == v.global
                    &&& v.can_advance()
                    &&& reg.global_epoch == cur + 1
                },
            },
        ensures
            op.finished(),
        decreases
                match op.pc {
                    AdvancePc::Load => usize::MAX + 3,
                    AdvancePc::Count(_) => usize::MAX + 2,
                    AdvancePc::Scan { cur, at, max } => max - at + 1,
                    AdvancePc::Swap(_) => 1,
                    _ => 0,
                },
    {
        match op.next_action() {
            Some(a) => {
                let e = reg.perform(0, a);
                proof {
                    if let AdvancePc::Scan { cur, at, max } = op.pc {
                        assert(v.slots[at as int] == reg.locals@[at as int]);
                    }
                }
                op.on_event(e);
            },
            None => {
                break;
            },
        }
    }
    if let AdvancePc::Moved(cur) = op.pc {
        free_oldest_bag(me, cur);
        assert(epoch_view(*reg, *me) == v.after_advance());
    }
}

/// Frees all that the thread has given up and that the current epoch allows to be freed, after an
/// attempt to move the epoch on.
pub fn collect(reg: &mut EpochRegistry, me: &mut EpochLocal)
    requires
        old(reg).wf(),
        epoch_view(*old(reg), *old(me)).wf(),
        epoch_view(*old(reg), *old(me)).global < usize::MAX,
    ensures
        final(reg).wf(),
        epoch_view(*final(reg), *final(me)).wf(),
        epoch_view(*final(reg), *final(me)) == epoch_view(*old(reg), *old(me)).after_collect(),
        forall|b: int, x: (usize, usize)|
            0 <= b < 3 && #[trigger] epoch_view(*final(reg), *final(me)).bags[b].contains(x)
                ==> x.1 + 2 > epoch_view(*final(reg), *final(me)).global,
{
    try_advance(reg, me);
    let ghost v = epoch_view(*reg, *me);
    assert forall|r: EpochRegistry| (#[trigger] epoch_view(r, *me)).bags.len() == 3 by {
        law_views_share_the_registry(*reg, r, *me, *me);
    }
    sweep(me, reg.global_epoch);
    proof {
        lemma_swept(v);
        assert(EpochView { global: reg.global_epoch, ..v } == v);
        assert(epoch_view(*reg, *me) == v.after_sweep());
    }
}

/// Tries to free what a thread that is about to end has given up.
pub fn flush_local(reg: &mut EpochRegistry, me: &mut EpochLocal)
    requires
        old(reg).wf(),
        epoch_view(*old(reg), *old(me)).wf(),
        epoch_view(*old(reg), *old(me)).global < usize::MAX,
    ensures
        final(reg).wf(),
        epoch_view(*final(reg), *final(me)).wf(),
        epoch_view(*final(reg), *final(me)) == epoch_view(*old(reg), *old(me)).after_advance(),
{
    try_advance(reg, me);
}

/// Gives up an address that is no longer linked.
pub fn defer_destroy(reg: &mut EpochRegistry, me: &mut EpochLocal, ptr: usize)
    requires
        old(reg).wf(),
        epoch_view(*old(reg), *old(me)).wf(),
        epoch_view(*old(reg), *old(me)).global < usize::MAX,
    ensures
        final(reg).wf(),
        epoch_view(*final(reg), *final(me)).wf(),
        epoch_view(*final(reg), *final(me)) == epoch_view(*old(reg), *old(me)).after_defer(ptr),
{
    let ghost v = epoch_view(*reg, *me);
    let many = put_in_bag(me, reg.global_epoch, ptr);
    let ghost w = epoch_view(*reg, *me);
    assert(w == v.after_bag(ptr));
    if many {
        try_advance(reg, me);
    }
}

/// A pin that is taken back with [`EpochGuard::release`].
pub struct EpochGuard {
    pinned: (),
}

impl EpochGuard {
    /// Pins the thread.
    pub fn new(reg: &mut EpochRegistry, me: &mut EpochLocal) -> (g: EpochGuard)
        requires
            old(reg).wf(),
            epoch_view(*old(reg), *old(me)).wf(),
            epoch_view(*old(reg), *old(me)).slot is None ==> epoch_view(
                *old(reg),
                *old(me),
            ).slots.len() < MAX_EPOCH_THREADS,
            epoch_view(*old(reg), *old(me)).global < usize::MAX,
            epoch_view(*old(reg), *old(me)).depth < usize::MAX,
        ensures
            final(reg).wf(),
            epoch_view(*final(reg), *final(me)).wf(),
            epoch_view(*final(reg), *final(me)) == epoch_view(*old(reg), *old(me)).after_pin(),
    {
        pin(reg, me);
        EpochGuard { pinned: () }
    }

    /// Takes the pin back.
    pub fn release(self, reg: &mut EpochRegistry, me: &mut EpochLocal)
        requires
            old(reg).wf(),
            epoch_view(*old(reg), *old(me)).wf(),
            epoch_view(*old(reg), *old(me)).depth > 0,
            epoch_view(*old(reg), *old(me)).global < usize::MAX,
        ensures
            final(reg).wf(),
            epoch_view(*final(reg), *final(me)).wf(),
            epoch_view(*final(reg), *final(me)) == epoch_view(*old(reg), *old(me)).after_unpin(),
    {
        unpin(reg, me);
    }
}

/// A stack whose popped nodes are given up to be freed.
pub struct EpochStack<T> {
    stack: Stack<T>,
}

impl<T> View for EpochStack<T> {
    type V = Seq<T>;

    /// What is on the stack, top first.
    closed spec fn view(&self) -> Seq<T> {
        self.stack@
    }
}

impl<T> EpochStack<T> {
    /// That the stack is in order.
    pub closed spec fn wf(self) -> bool {
        self.stack.wf()
    }

    /// The address of the node on top.
    pub closed spec fn top(self) -> Option<usize> {
        self.stack.mem().head
    }

    /// An empty stack.
    pub fn new() -> (s: EpochStack<T>)
        ensures
            s.wf(),
            s@ == Seq::<T>::empty(),
    {
        EpochStack { stack: Stack::new() }
    }

    /// Puts `value` on top of the stack.
    pub fn push(&mut self, value: T)
        requires
            old(self).wf(),
        ensures
            final(self).wf(),
            final(self)@ == seq![value] + old(self)@,
    {
        self.stack.push(value);
    }

    /// Takes the value from the top of the stack; `None` if the stack is empty. The thread is
    /// pinned all the while.
    pub fn pop(&mut self, reg: &mut EpochRegistry, me: &mut EpochLocal) -> (r: Option<T>)
        requires
            old(self).wf(),
            old(reg).wf(),
            epoch_view(*old(reg), *old(me)).wf(),
            epoch_view(*old(reg), *old(me)).slot is None ==> epoch_view(
                *old(reg),
                *old(me),
            ).slots.len() < MAX_EPOCH_THREADS,
            epoch_view(*old(reg), *old(me)).global < usize::MAX - 2,
            epoch_view(*old(reg), *old(me)).depth < usize::MAX,
        ensures
            final(self).wf(),
            final(reg).wf(),
            epoch_view(*final(reg), *final(me)).wf(),
            match r {
                Some(v) => {
                    &&& old(self)@.len() > 0
                    &&& v == old(self)@[0]
                    &&& final(self)@ == old(self)@.drop_first()
                },
                None => {
                    &&& old(self)@.len() == 0
                    &&& final(self)@ == old(self)@
                },
            },
            old(self).top() is Some <==> old(self)@.len() > 0,
            epoch_view(*final(reg), *final(me)) == (match old(self).top() {
                Some(p) => epoch_view(*old(reg), *old(me)).after_pin().after_defer(p).after_unpin(),
                None => epoch_view(*old(reg), *old(me)).after_pin().after_unpin(),
            }),
    {
        let guard = EpochGuard::new(reg, me);
        let mut op = PopOp::start();
        self.stack.step_pop(&mut op);
        if let PopPc::ReadNext { old } = op.pc {
            self.stack.step_pop(&mut op);
            self.stack.step_pop(&mut op);
            if let PopPc::Won(n) = op.pc {
                let value = self.stack.take_won(n);
                defer_destroy(reg, me, n);
                guard.release(reg, me);
                return value;
            }
            assert(false);
        }
        guard.release(reg, me);
        None
    }
}

impl<T> Default for EpochStack<T> {
    fn default() -> (s: EpochStack<T>)
        ensures
            s.wf(),
            s@ == Seq::<T>::empty(),
    {
        EpochStack::new()
    }
}

/// Two threads at one registry see the same epoch and the same slots, and what a thread keeps for
/// itself does not depend on the registry.
pub proof fn law_views_share_the_registry(
    reg: EpochRegistry,
    other: EpochRegistry,
    a: EpochLocal,
    b: EpochLocal,
)
    ensures
        epoch_view(reg, a).global == epoch_view(reg, b).global,
        epoch_view(reg, a).slots == epoch_view(reg, b).slots,
        epoch_view(reg, a).slot == epoch_view(other, a).slot,
        epoch_view(reg, a).depth == epoch_view(other, a).depth,
        epoch_view(reg, a).bags == epoch_view(other, a).bags,
        epoch_view(reg, a).reclaimed == epoch_view(other, a).reclaimed,
{
}

/// What one thread does at a registry leaves the other threads there in order: slots are only
/// ever claimed.
pub proof fn law_others_stay_in_order(
    before: EpochRegistry,
    after: EpochRegistry,
    me: EpochLocal,
    other: EpochLocal,
)
    requires
        epoch_view(before, other).wf(),
        epoch_view(after, me).wf(),
        epoch_view(before, other).slots.len() <= epoch_view(after, me).slots.len(),
    ensures
        epoch_view(after, other).wf(),
{
    law_views_share_the_registry(after, before, me, other);
    law_views_share_the_registry(after, before, other, other);
}

/// A pin holds against every thread: whoever tries to move the epoch on, it moves at most to the
/// one after that to which some thread is pinned.
pub proof fn law_pin_holds_against_others(v: EpochView, s: int, e: usize)
    requires
        v.wf(),
        0 <= s < v.slots.len(),
        e < usize::MAX - 2,
        v.slots[s] == e + 1,
        v.global <= e + 1,
    ensures
        v.after_advance().global <= e + 1,
        v.after_advance().slots == v.slots,
        v.after_collect().global <= e + 1,
        v.after_collect().slots == v.slots,
{
    if v.global == e + 1 {
        assert(!lets_pass(v.slots[s], v.global));
    }
}

/// What is left in the bags after a sweep is too young.
proof fn lemma_swept(v: EpochView)
    requires
        v.bags.len() == 3,
    ensures
        forall|b: int, x: (usize, usize)|
            0 <= b < 3 && #[trigger] v.after_sweep().bags[b].contains(x) ==> x.1 + 2 > v.global,
{
    let w = v.after_sweep();
    assert forall|b: int, x: (usize, usize)|
        0 <= b < 3 && #[trigger] w.bags[b].contains(x) implies x.1 + 2 > v.global by {
        let i = choose|i: int| 0 <= i < w.bags[b].len() && w.bags[b][i] == x;
        v.bags[b].lemma_filter_pred(too_young(v.global), i);
    }
}

/// What is old enough and what is too young is all there is.
proof fn lemma_parted(bag: Seq<(usize, usize)>, now: usize)
    ensures
        bag.filter(old_enough(now)).len() + bag.filter(too_young(now)).len() == bag.len(),
    decreases bag.len(),
{
    reveal(Seq::filter);
    if bag.len() > 0 {
        lemma_parted(bag.drop_last(), now);
    }
}

/// Collecting frees whatever the thread gave up two epochs ago or more, however the epoch came to
/// move on, and frees nothing twice: each address that leaves the bags is ready to be freed once.
pub proof fn law_collect_frees_all_that_is_old(v: EpochView, b: int, x: (usize, usize))
    requires
        v.wf(),
        v.global < usize::MAX,
        0 <= b < 3,
        v.bags[b].contains(x),
        x.1 + 2 <= v.global,
    ensures
        v.after_collect().reclaimed.contains(x.0),
        v.after_collect().reclaimed.len() + v.after_collect().total() == v.reclaimed.len()
            + v.total(),
{
    let a = v.after_advance();
    let w = a.after_sweep();
    lemma_parted(a.bags[0], a.global);
    lemma_parted(a.bags[1], a.global);
    lemma_parted(a.bags[2], a.global);
    let i = choose|i: int| 0 <= i < v.bags[b].len() && v.bags[b][i] == x;
    if a.bags[b] == v.bags[b] {
        let old = a.bags[b].filter(old_enough(a.global));
        a.bags[b].lemma_filter_contains(old_enough(a.global), i);
        assert(old.contains(x));
        let k = choose|k: int| 0 <= k < old.len() && old[k] == x;
        assert(addresses(old)[k] == x.0);
        assert(a.ripe(b)[k] == x.0);
        let n = a.reclaimed.len() as int;
        let n0 = a.ripe(0).len() as int;
        let n1 = a.ripe(1).len() as int;
        if b == 0 {
            assert(w.reclaimed[n + k] == x.0);
        } else if b == 1 {
            assert(w.reclaimed[n + n0 + k] == x.0);
        } else {
            assert(w.reclaimed[n + n0 + n1 + k] == x.0);
        }
    } else {
        assert(addresses(v.bags[b])[i] == x.0);
        assert(a.reclaimed[v.reclaimed.len() + i] == x.0);
        assert(w.reclaimed[v.reclaimed.len() + i] == x.0);
    }
}

/// An inner pin and the unpinning that goes with it change nothing: the thread stays pinned to
/// the epoch of its outer pin.
pub proof fn law_nested_pin(v: EpochView)
    requires
        v.wf(),
        0 < v.depth < usize::MAX,
    ensures
        v.after_pin().after_unpin() == v,
{
}

/// A pinned thread lets the epoch move on at most once.
pub proof fn law_pin_holds_the_epoch(v: EpochView)
    requires
        v.wf(),
        v.depth == 0,
        v.slot is None ==> v.slots.len() < MAX_EPOCH_THREADS,
        v.global < usize::MAX - 2,
    ensures
        v.after_pin().after_advance().after_advance().global <= v.global + 1,
{
    let p = v.after_pin();
    let c = v.after_claim();
    assert(p.slots[c.slot->0 as int] == v.global + 1);
    let a = p.after_advance();
    assert(a.slots == p.slots);
}

/// What is given up while nobody is pinned is ready to be freed after the epoch has moved on
/// twice.
pub proof fn law_two_epochs_free(v: EpochView, ptr: usize)
    requires
        v.wf(),
        v.global < usize::MAX - 2,
        forall|i: int| 0 <= i < v.slots.len() ==> #[trigger] v.slots[i] == UNPINNED,
    ensures
        v.after_bag(ptr).after_advance().after_advance().reclaimed.contains(ptr),
{
    let b = v.after_bag(ptr);
    let a1 = b.after_advance();
    let a2 = a1.after_advance();
    let e = v.global as int % 3;
    let n = v.bags[e].len() as int;
    assert(b.can_advance());
    assert(a1.can_advance());
    assert(b.bags[e][n].0 == ptr);
    assert(a1.bags[e] == b.bags[e]);
    assert((a1.global - 1) % 3 == e);
    assert(addresses(b.bags[e])[n] == ptr);
    assert(a2.reclaimed[a1.reclaimed.len() + n] == ptr);
}

/// What a thread is doing at a stack with epochs.
pub enum EpochPc {
    Idle,
    /// Pushing a cell that it has allocated.
    Pushing(PushOp),
    /// Pinning itself.
    Pinning(PinOp),
    /// Popping, pinned.
    Popping(PopOp),
    /// About to take the value out of the cell that it has popped.
    Take(usize),
    /// About to read the epoch to tag the cell with.
    Tag(usize),
    /// About to put the tagged cell into a bag.
    Bag { cell: usize, tag: usize },
    /// About to leave its epoch.
    Unpin,
    /// Moving the epoch on.
    Advancing(AdvanceOp),
    /// Freeing the bag that came before the epoch which it moved on from.
    Reclaim(usize),
    /// About to read the epoch to sweep its bags.
    CollectLoad,
    /// Freeing what was given up two epochs before the given one or earlier.
    Collect(usize),
}

/// A thread: its slot, zero if it is not pinned and one more than its epoch otherwise, the cells
/// that it has given up with their tags, and what it is doing.
pub struct EpochThread {
    pub slot: usize,
    pub bag: Seq<(usize, usize)>,
    pub pc: EpochPc,
}

/// The epoch, a stack whose cells are used again, and the threads that work on it.
pub struct EpochSystem {
    pub global: usize,
    pub heap: Heap,
    pub threads: Seq<EpochThread>,
}

/// The cell that a pinned thread may touch because it found it on top.
pub open spec fn reached(t: EpochThread) -> Option<usize> {
    match t.pc {
        EpochPc::Popping(op) => match op.pc {
            PopPc::ReadNext { old } => Some(old),
            PopPc::Exchange { old, next } => Some(old),
            _ => None,
        },
        _ => None,
    }
}

/// That a thread which has given up a cell with a tag respects the thread in slot `j`, which
/// has reached the cell while pinned to `e`.
pub open spec fn respects(t: EpochThread, tag: usize, j: int, e: int) -> bool {
    &&& e <= tag
    &&& match t.pc {
        EpochPc::Advancing(op) => match op.pc {
            AdvancePc::Count(cur) => tag <= cur,
            AdvancePc::Scan { cur, at, max } => tag <= cur && j < max && (j < at ==> cur <= e),
            AdvancePc::Swap(cur) => tag <= cur <= e,
            _ => true,
        },
        EpochPc::Reclaim(cur) => tag <= cur <= e,
        _ => true,
    }
}

/// That a thread which moves the epoch on will not move it beyond the one after `tag`, because of
/// the thread in slot `j`.
pub open spec fn held_back(t: EpochThread, tag: usize, j: int) -> bool {
    match t.pc {
        EpochPc::Advancing(op) => match op.pc {
            AdvancePc::Scan { cur, at, max } => cur <= tag || (j < max && at <= j),
            AdvancePc::Swap(cur) => cur <= tag,
            _ => true,
        },
        _ => true,
    }
}

impl EpochSystem {
    /// What holds of thread `i`.
    pub open spec fn thread_inv(self, i: int) -> bool {
        let t = self.threads[i];
        &&& t.slot <= self.global + 1
        &&& forall|k: int|
            0 <= k < t.bag.len() ==> {
                &&& (#[trigger] t.bag[k]).0 < self.heap.cells.len()
                &&& self.heap.cells[t.bag[k].0 as int].state == CellState::Bagged(i)
                &&& t.bag[k].1 <= self.global
            }
        &&& forall|x: int, y: int|
            0 <= x < y < t.bag.len() ==> (#[trigger] t.bag[x]).0 != (#[trigger] t.bag[y]).0
        &&& reached(t) matches Some(p) ==> t.slot > 0 && self.heap.held(p)
        &&& match t.pc {
            EpochPc::Pushing(op) => {
                &&& !(op.pc is Done)
                &&& op.node < self.heap.cells.len()
                &&& self.heap.cells[op.node as int].state == CellState::Private(i)
                &&& op.pc matches PushPc::Exchange { old } ==> self.heap.cells[op.node as int].next
                    == old
            },
            EpochPc::Pinning(op) => {
                &&& !(op.pc is Done)
                &&& op.pc matches PinPc::Store(e) ==> e <= self.global
            },
            EpochPc::Popping(op) => {
                &&& t.slot > 0
                &&& !op.finished()
                &&& op.pc matches PopPc::Exchange { old, next }
                    ==> self.heap.cells[old as int].next == next
            },
            EpochPc::Take(p) => p < self.heap.cells.len() && self.heap.cells[p as int].state
                == CellState::Popped(i),
            EpochPc::Tag(p) => p < self.heap.cells.len() && self.heap.cells[p as int].state
                == CellState::Popped(i),
            EpochPc::Bag { cell, tag } => {
                &&& cell < self.heap.cells.len()
                &&& self.heap.cells[cell as int].state == CellState::Popped(i)
                &&& tag <= self.global
            },
            EpochPc::Advancing(op) => {
                &&& op.valid()
                &&& !op.finished()
                &&& match op.pc {
                    AdvancePc::Count(cur) => cur <= self.global,
                    AdvancePc::Scan { cur, at, max } => cur <= self.global && max
                        <= self.threads.len(),
                    AdvancePc::Swap(cur) => cur <= self.global,
                    _ => true,
                }
            },
            EpochPc::Reclaim(cur) => cur < self.global,
            EpochPc::Collect(now) => now <= self.global,
            _ => true,
        }
    }

    /// That the epoch is at most the one after `tag`, and nobody will move it further as long as
    /// thread `j` stays where it is.
    pub open spec fn stays_near(self, tag: usize, j: int) -> bool {
        &&& self.global <= tag + 1
        &&& forall|t: int|
            0 <= t < self.threads.len() ==> held_back(#[trigger] self.threads[t], tag, j)
    }

    /// That the epoch stays near the one in which thread `i` gave up the cell which `j` has
    /// reached.
    pub open spec fn near_inv(self, i: int, j: int) -> bool {
        let t = self.threads[i];
        reached(self.threads[j]) matches Some(p) ==> {
            &&& forall|k: int|
                0 <= k < t.bag.len() && (#[trigger] t.bag[k]).0 == p ==> self.stays_near(
                    t.bag[k].1,
                    j,
                )
            &&& t.pc matches EpochPc::Bag { cell, tag } ==> cell == p ==> self.stays_near(tag, j)
        }
    }

    /// That thread `i` respects thread `j`, if it has given up the cell which `j` has reached.
    pub open spec fn pair_inv(self, i: int, j: int) -> bool {
        let t = self.threads[i];
        let e = self.threads[j].slot - 1;
        reached(self.threads[j]) matches Some(p) ==> {
            &&& forall|k: int|
                0 <= k < t.bag.len() && (#[trigger] t.bag[k]).0 == p ==> respects(
                    t,
                    t.bag[k].1,
                    j,
                    e,
                )
            &&& t.pc matches EpochPc::Bag { cell, tag } ==> cell == p ==> e <= tag
        }
    }

    /// What holds at any moment.
    pub open spec fn inv(self) -> bool {
        &&& self.heap.inv()
        &&& self.threads.len() <= MAX_EPOCH_THREADS
        &&& forall|i: int| 0 <= i < self.threads.len() ==> #[trigger] self.thread_inv(i)
        &&& forall|i: int, j: int|
            0 <= i < self.threads.len() && 0 <= j < self.threads.len() ==> #[trigger] self.pair_inv(
                i,
                j,
            )
        &&& forall|i: int, j: int|
            0 <= i < self.threads.len() && 0 <= j < self.threads.len() ==> #[trigger] self.near_inv(
                i,
                j,
            )
    }

    /// The system with another epoch, other cells and another thread `i`.
    pub open spec fn with(self, i: int, global: usize, heap: Heap, t: EpochThread) -> EpochSystem {
        EpochSystem { global, heap, threads: self.threads.update(i, t) }
    }

    /// What an operation on the stack is answered. An exchange may fail for no reason.
    pub open spec fn event(self, a: StackAction, spurious: bool) -> StackEvent {
        match a {
            StackAction::LoadHead => StackEvent::Link(self.heap.head),
            StackAction::WriteNext { node, next } => StackEvent::Written,
            StackAction::ReadNext(n) => StackEvent::Link(self.heap.cells[n as int].next),
            StackAction::CasHead { current, new } => if self.heap.head == current && !spurious {
                StackEvent::Exchanged
            } else {
                StackEvent::Found(self.heap.head)
            },
        }
    }

    /// What an operation on the epoch is answered.
    pub open spec fn answer(self, a: EpochAction) -> EpochEvent {
        match a {
            EpochAction::LoadEpoch => EpochEvent::Value(self.global),
            EpochAction::LoadCount => EpochEvent::Value(self.threads.len() as usize),
            EpochAction::ReadSlot(n) => EpochEvent::Value(self.threads[n as int].slot),
            EpochAction::WriteSlot(_) => EpochEvent::Done,
            EpochAction::Advance(cur) => EpochEvent::Moved(self.global == cur),
        }
    }

    /// The system after thread `i` has done what it wants done next. `spurious` makes an
    /// exchange fail for no reason; a thread that reclaims frees the entry `k` of its bag if
    /// that is of the right epoch, and otherwise goes on.
    pub open spec fn step(self, i: int, spurious: bool, k: int) -> EpochSystem {
        let t = self.threads[i];
        let g = self.global;
        match t.pc {
            EpochPc::Idle => self,
            EpochPc::Pushing(op) => {
                let a = op.action();
                let op2 = op.after(self.event(a, spurious));
                let pc = if op2.pc is Done {
                    EpochPc::Idle
                } else {
                    EpochPc::Pushing(op2)
                };
                let heap = match a {
                    StackAction::WriteNext { node, next } => self.heap.with_next(node, next),
                    StackAction::CasHead { current, new } => if self.heap.head == current
                        && !spurious {
                        self.heap.pushed(op.node)
                    } else {
                        self.heap
                    },
                    _ => self.heap,
                };
                self.with(i, g, heap, EpochThread { pc, ..t })
            },
            EpochPc::Pinning(op) => {
                let a = op.action();
                let op2 = op.after(self.answer(a));
                let slot = match a {
                    EpochAction::WriteSlot(v) => v,
                    _ => t.slot,
                };
                let pc = if op2.pc is Done {
                    EpochPc::Popping(PopOp { pc: PopPc::Load })
                } else {
                    EpochPc::Pinning(op2)
                };
                self.with(i, g, self.heap, EpochThread { slot, pc, ..t })
            },
            EpochPc::Popping(op) => {
                let a = op.action();
                let op2 = op.after(self.event(a, spurious));
                let pc = match op2.pc {
                    PopPc::Empty => EpochPc::Unpin,
                    PopPc::Won(p) => EpochPc::Take(p),
                    _ => EpochPc::Popping(op2),
                };
                let heap = match op2.pc {
                    PopPc::Won(p) => self.heap.popped(p, a->new, i),
                    _ => self.heap,
                };
                self.with(i, g, heap, EpochThread { pc, ..t })
            },
            EpochPc::Take(p) => self.with(
                i,
                g,
                self.heap,
                EpochThread { pc: EpochPc::Tag(p), ..t },
            ),
            EpochPc::Tag(p) => self.with(
                i,
                g,
                self.heap,
                EpochThread { pc: EpochPc::Bag { cell: p, tag: g }, ..t },
            ),
            EpochPc::Bag { cell, tag } => {
                let bag = t.bag.push((cell, tag));
                let pc = if bag.len() >= ADVANCE_THRESHOLD {
                    EpochPc::Advancing(AdvanceOp { pc: AdvancePc::Load })
                } else {
                    EpochPc::Unpin
                };
                self.with(
                    i,
                    g,
                    self.heap.with_state(cell, CellState::Bagged(i)),
                    EpochThread { bag, pc, ..t },
                )
            },
            EpochPc::Unpin => self.with(
                i,
                g,
                self.heap,
                EpochThread { slot: 0, pc: EpochPc::Advancing(AdvanceOp { pc: AdvancePc::Load }), ..t },
            ),
            EpochPc::Advancing(op) => {
                let a = op.action();
                let op2 = op.after(self.answer(a));
                let global = match a {
                    EpochAction::Advance(cur) => if g == cur {
                        (g + 1) as usize
                    } else {
                        g
                    },
                    _ => g,
                };
                let pc = match op2.pc {
                    AdvancePc::Failed => t.leave(),
                    AdvancePc::Moved(cur) => EpochPc::Reclaim(cur),
                    _ => EpochPc::Advancing(op2),
                };
                self.with(i, global, self.heap, EpochThread { pc, ..t })
            },
            EpochPc::Reclaim(cur) => if cur >= 1 && 0 <= k < t.bag.len() && t.bag[k].1 % 3 == (cur
                - 1) % 3 {
                self.with(
                    i,
                    g,
                    self.heap.with_state(t.bag[k].0, CellState::Free),
                    EpochThread { bag: t.bag.remove(k), ..t },
                )
            } else {
                self.with(i, g, self.heap, EpochThread { pc: t.leave(), ..t })
            },
            EpochPc::CollectLoad => self.with(
                i,
                g,
                self.heap,
                EpochThread { pc: EpochPc::Collect(g), ..t },
            ),
            EpochPc::Collect(now) => if 0 <= k < t.bag.len() && t.bag[k].1 + 2 <= now {
                self.with(
                    i,
                    g,
                    self.heap.with_state(t.bag[k].0, CellState::Free),
                    EpochThread { bag: t.bag.remove(k), ..t },
                )
            } else {
                self.with(i, g, self.heap, EpochThread { pc: t.leave(), ..t })
            },
        }
    }

    /// The system after thread `i`, which was idle, has begun to sweep its bags.
    pub open spec fn begin_collect(self, i: int) -> EpochSystem {
        self.with(
            i,
            self.global,
            self.heap,
            EpochThread { pc: EpochPc::CollectLoad, ..self.threads[i] },
        )
    }

    /// Whether thread `i` is about to free entry `k` of its bag.
    pub open spec fn frees(self, i: int, k: int) -> bool {
        let t = self.threads[i];
        &&& 0 <= k < t.bag.len()
        &&& match t.pc {
            EpochPc::Reclaim(cur) => cur >= 1 && t.bag[k].1 % 3 == (cur - 1) % 3,
            EpochPc::Collect(now) => t.bag[k].1 + 2 <= now,
            _ => false,
        }
    }

    /// The system after thread `i`, which was idle, has allocated the free cell at `a`, be it
    /// one that was on the stack before, and has begun to push it.
    pub open spec fn begin_push(self, i: int, a: usize) -> EpochSystem {
        self.with(
            i,
            self.global,
            self.heap.with_state(a, CellState::Private(i)),
            EpochThread {
                pc: EpochPc::Pushing(PushOp { node: a, pc: PushPc::Load }),
                ..self.threads[i]
            },
        )
    }

    /// The system after thread `i`, which was idle, has begun something else: to pop, or to
    /// move the epoch on.
    pub open spec fn begin(self, i: int, pop: bool) -> EpochSystem {
        let pc = if pop {
            EpochPc::Pinning(PinOp { pc: PinPc::Load })
        } else {
            EpochPc::Advancing(AdvanceOp { pc: AdvancePc::Load })
        };
        self.with(i, self.global, self.heap, EpochThread { pc, ..self.threads[i] })
    }

    /// The system after a thread has claimed a slot.
    pub open spec fn join(self) -> EpochSystem {
        let t = EpochThread { slot: 0, bag: Seq::empty(), pc: EpochPc::Idle };
        EpochSystem { threads: self.threads.push(t), ..self }
    }
}

impl EpochThread {
    /// What a thread does after an attempt to move the epoch on: one that is pinned unpins
    /// itself, one that is not is done.
    pub open spec fn leave(self) -> EpochPc {
        if self.slot > 0 {
            EpochPc::Unpin
        } else {
            EpochPc::Idle
        }
    }
}

/// Changing thread `i`, the epoch upwards, and one cell that no other thread owns or has
/// reached, keeps what holds of the other threads.
proof fn lemma_others(s: EpochSystem, s2: EpochSystem, i: int, j: int, c: usize)
    requires
        s.inv(),
        0 <= i < s.threads.len(),
        0 <= j < s.threads.len(),
        i != j,
        s2.threads.len() >= s.threads.len(),
        s2.threads[j] == s.threads[j],
        s2.global >= s.global,
        s2.heap.cells.len() == s.heap.cells.len(),
        forall|a: usize|
            a < s.heap.cells.len() && a != c ==> #[trigger] s2.heap.cells[a as int]
                == s.heap.cells[a as int],
        c < s.heap.cells.len() ==> {
            let before = s.heap.cells[c as int];
            let after = s2.heap.cells[c as int];
            ||| after == before
            ||| {
                &&& before.state != CellState::Private(j)
                &&& before.state != CellState::Popped(j)
                &&& before.state != CellState::Bagged(j)
                &&& reached(s.threads[j]) == Some(c) ==> s2.heap.held(c) && after.next
                    == before.next
            }
        },
    ensures
        s2.thread_inv(j),
{
    assert(s.thread_inv(j));
    let t = s.threads[j];
    assert forall|k: int| 0 <= k < t.bag.len() implies {
        &&& (#[trigger] t.bag[k]).0 < s2.heap.cells.len()
        &&& s2.heap.cells[t.bag[k].0 as int].state == CellState::Bagged(j)
        &&& t.bag[k].1 <= s2.global
    } by {
        assert(s.heap.cells[t.bag[k].0 as int].state == CellState::Bagged(j));
        if t.bag[k].0 != c {
            assert(s2.heap.cells[t.bag[k].0 as int] == s.heap.cells[t.bag[k].0 as int]);
        }
    }
    if let Some(p) = reached(t) {
        if p != c {
            assert(s2.heap.cells[p as int] == s.heap.cells[p as int]);
        }
    }
    match t.pc {
        EpochPc::Pushing(op) => {
            if op.node != c {
                assert(s2.heap.cells[op.node as int] == s.heap.cells[op.node as int]);
            }
        },
        EpochPc::Take(p) => {
            if p != c {
                assert(s2.heap.cells[p as int] == s.heap.cells[p as int]);
            }
        },
        EpochPc::Tag(p) => {
            if p != c {
                assert(s2.heap.cells[p as int] == s.heap.cells[p as int]);
            }
        },
        EpochPc::Bag { cell, tag } => {
            if cell != c {
                assert(s2.heap.cells[cell as int] == s.heap.cells[cell as int]);
            }
        },
        _ => {},
    }
}

/// A cell that is about to be freed is one that nobody has reached. A thread that had reached a
/// cell in the oldest bag would be pinned to the very epoch that was moved on from, and the bag is
/// that of another; a thread that had reached a cell which is swept would have kept the epoch near
/// the one in which the cell was given up.
proof fn lemma_unreached(s: EpochSystem, i: int, k: int, j: int)
    requires
        s.inv(),
        0 <= i < s.threads.len(),
        0 <= j < s.threads.len(),
        s.frees(i, k),
    ensures
        reached(s.threads[j]) != Some(s.threads[i].bag[k].0),
{
    assert(s.thread_inv(i));
    assert(s.pair_inv(i, j));
    let t = s.threads[i];
    assert(s.near_inv(i, j));
    if reached(s.threads[j]) == Some(t.bag[k].0) {
        assert(respects(t, t.bag[k].1, j, s.threads[j].slot - 1));
        assert(s.stays_near(t.bag[k].1, j));
        if t.pc is Reclaim {
            assert(t.bag[k].1 == t.pc->Reclaim_0);
        }
    }
}

/// However threads interleave, and whichever freed cells are used again, the invariant stays, as
/// long as the epoch has not come to the end of its range.
#[verifier::rlimit(60)]
pub proof fn law_epoch_step(s: EpochSystem, i: int, spurious: bool, k: int)
    requires
        s.inv(),
        s.global < usize::MAX,
        0 <= i < s.threads.len(),
    ensures
        s.step(i, spurious, k).inv(),
{
    let s2 = s.step(i, spurious, k);
    let t = s.threads[i];
    assert(s.thread_inv(i));
    let c: usize = match t.pc {
        EpochPc::Pushing(op) => op.node,
        EpochPc::Popping(op) => match reached(t) {
            Some(p) => p,
            None => 0,
        },
        EpochPc::Bag { cell, tag } => cell,
        EpochPc::Reclaim(_) | EpochPc::Collect(_) => if 0 <= k < t.bag.len() {
            t.bag[k].0
        } else {
            0
        },
        _ => 0,
    };
    match t.pc {
        EpochPc::Pushing(op) => {
            match op.pc {
                PushPc::Write { old } => {
                    reuse::lemma_off_stack(
                        s.heap,
                        op.node,
                        Cell { next: old, ..s.heap.cells[op.node as int] },
                    );
                },
                PushPc::Exchange { old } => {
                    if s.heap.head == old && !spurious {
                        reuse::lemma_pushed(s.heap, op.node);
                    }
                },
                _ => {},
            }
        },
        EpochPc::Popping(op) => {
            if let PopPc::Exchange { old, next } = op.pc {
                if s.heap.head == Some(old) && !spurious {
                    reuse::lemma_popped(s.heap, old, next, i);
                }
            }
        },
        EpochPc::Bag { cell, tag } => {
            reuse::lemma_off_stack(
                s.heap,
                cell,
                Cell { state: CellState::Bagged(i), ..s.heap.cells[cell as int] },
            );
        },
        EpochPc::Reclaim(_) | EpochPc::Collect(_) => {
            if 0 <= k < t.bag.len() {
                assert(s.heap.cells[t.bag[k].0 as int].state == CellState::Bagged(i));
                reuse::lemma_off_stack(
                    s.heap,
                    t.bag[k].0,
                    Cell { state: CellState::Free, ..s.heap.cells[t.bag[k].0 as int] },
                );
            }
        },
        _ => {},
    }
    assert(s2.heap.inv());
    assert(s2.thread_inv(i)) by {
        lemma_own(s, i, spurious, k);
    }
    assert forall|j: int| 0 <= j < s2.threads.len() implies #[trigger] s2.thread_inv(j) by {
        if j != i {
            assert(s.thread_inv(j));
            if s.frees(i, k) {
                lemma_unreached(s, i, k, j);
            }
            lemma_others(s, s2, i, j, c);
        }
    }
    assert forall|x: int, y: int|
        0 <= x < s2.threads.len() && 0 <= y < s2.threads.len() implies #[trigger] s2.pair_inv(x, y) by {
        lemma_pairs(s, i, spurious, k, x, y);
    }
    assert forall|x: int, y: int|
        0 <= x < s2.threads.len() && 0 <= y < s2.threads.len() implies #[trigger] s2.near_inv(x, y) by {
        lemma_near(s, i, spurious, k, x, y);
    }
}

/// What holds of the thread that takes a step.
#[verifier::rlimit(40)]
proof fn lemma_own(s: EpochSystem, i: int, spurious: bool, k: int)
    requires
        s.inv(),
        s.global < usize::MAX,
        0 <= i < s.threads.len(),
    ensures
        s.step(i, spurious, k).thread_inv(i),
{
    let s2 = s.step(i, spurious, k);
    let t = s.threads[i];
    let t2 = s2.threads[i];
    assert(s.thread_inv(i));
    if s.heap.head is Some {
        assert(s.heap.chain[0] < s.heap.cells.len());
        assert(s.heap.cells[s.heap.chain[0] as int].state is Stacked);
    }
    match t.pc {
        EpochPc::Bag { cell, tag } => {
            assert forall|m: int| 0 <= m < t2.bag.len() implies {
                &&& (#[trigger] t2.bag[m]).0 < s2.heap.cells.len()
                &&& s2.heap.cells[t2.bag[m].0 as int].state == CellState::Bagged(i)
                &&& t2.bag[m].1 <= s2.global
            } by {
                if m < t.bag.len() {
                    assert(t.bag[m] == t2.bag[m]);
                }
            }
            assert forall|x: int, y: int| 0 <= x < y < t2.bag.len() implies (#[trigger] t2.bag[x]).0
                != (#[trigger] t2.bag[y]).0 by {
                assert(t.bag[x] == t2.bag[x]);
                assert(s.heap.cells[t.bag[x].0 as int].state == CellState::Bagged(i));
                if y < t.bag.len() {
                    assert(t.bag[y] == t2.bag[y]);
                }
            }
        },
        EpochPc::Reclaim(_) | EpochPc::Collect(_) => {
            if s.frees(i, k) {
                assert(s.heap.cells[t.bag[k].0 as int].state == CellState::Bagged(i));
                assert forall|m: int| 0 <= m < t2.bag.len() implies {
                    &&& (#[trigger] t2.bag[m]).0 < s2.heap.cells.len()
                    &&& s2.heap.cells[t2.bag[m].0 as int].state == CellState::Bagged(i)
                    &&& t2.bag[m].1 <= s2.global
                } by {
                    let n = if m < k {
                        m
                    } else {
                        m + 1
                    };
                    assert(t2.bag[m] == t.bag[n]);
                    assert(t.bag[n].0 != t.bag[k].0);
                }
                assert forall|x: int, y: int| 0 <= x < y < t2.bag.len() implies (
                #[trigger] t2.bag[x]).0 != (#[trigger] t2.bag[y]).0 by {
                    let n = if x < k {
                        x
                    } else {
                        x + 1
                    };
                    let m = if y < k {
                        y
                    } else {
                        y + 1
                    };
                    assert(t2.bag[x] == t.bag[n]);
                    assert(t2.bag[y] == t.bag[m]);
                }
            }
        },
        _ => {
            assert forall|m: int| 0 <= m < t2.bag.len() implies {
                &&& (#[trigger] t2.bag[m]).0 < s2.heap.cells.len()
                &&& s2.heap.cells[t2.bag[m].0 as int].state == CellState::Bagged(i)
                &&& t2.bag[m].1 <= s2.global
            } by {
                assert(t.bag[m] == t2.bag[m]);
                assert(s.heap.cells[t.bag[m].0 as int].state == CellState::Bagged(i));
            }
        },
    }
}

/// That threads respect each other after a step.
#[verifier::rlimit(40)]
proof fn lemma_pairs(s: EpochSystem, i: int, spurious: bool, k: int, x: int, y: int)
    requires
        s.inv(),
        s.global < usize::MAX,
        0 <= i < s.threads.len(),
        0 <= x < s.threads.len(),
        0 <= y < s.threads.len(),
    ensures
        s.step(i, spurious, k).pair_inv(x, y),
{
    let s2 = s.step(i, spurious, k);
    let t = s.threads[i];
    let tx = s2.threads[x];
    assert(s.thread_inv(i));
    assert(s.thread_inv(x));
    assert(s.thread_inv(y));
    assert(s.pair_inv(x, y));
    if let Some(p) = reached(s2.threads[y]) {
        let e = s2.threads[y].slot - 1;
        if reached(s.threads[y]) == Some(p) {
            assert(s.threads[y].slot == s2.threads[y].slot);
            assert forall|m: int| 0 <= m < tx.bag.len() && (#[trigger] tx.bag[m]).0 == p implies respects(
                tx,
                tx.bag[m].1,
                y,
                e,
            ) by {
                if x == i {
                    match t.pc {
                        EpochPc::Reclaim(_) | EpochPc::Collect(_) => {
                            if s.frees(i, k) {
                                let n = if m < k {
                                    m
                                } else {
                                    m + 1
                                };
                                assert(t.bag[n] == tx.bag[m]);
                            } else {
                                assert(t.bag[m] == tx.bag[m]);
                            }
                        },
                        EpochPc::Bag { cell, tag } => {
                            if m < t.bag.len() {
                                assert(t.bag[m] == tx.bag[m]);
                            }
                        },
                        _ => {
                            assert(t.bag[m] == tx.bag[m]);
                            assert(respects(t, t.bag[m].1, y, e));
                        },
                    }
                } else {
                    assert(s.threads[x].bag[m] == tx.bag[m]);
                }
            }
        } else {
            // Thread y has just found p on top, so nobody has given p up.
            assert(y == i);
            assert(s.heap.head == Some(p));
            assert(s.heap.cells[s.heap.chain[0] as int].state is Stacked);
            assert(tx.bag == s.threads[x].bag);
            assert forall|m: int| 0 <= m < tx.bag.len() && (#[trigger] tx.bag[m]).0 == p implies respects(
                tx,
                tx.bag[m].1,
                y,
                e,
            ) by {
                assert(s.heap.cells[s.threads[x].bag[m].0 as int].state == CellState::Bagged(x));
            }
        }
    }
}

/// What a step does to one entry of a bag: it was there before with the same tag, or it was about
/// to be put in.
proof fn lemma_entry(s: EpochSystem, i: int, spurious: bool, k: int, x: int, m: int)
    requires
        0 <= i < s.threads.len(),
        0 <= x < s.threads.len(),
        0 <= m < s.step(i, spurious, k).threads[x].bag.len(),
    ensures
        ({
            let b = s.step(i, spurious, k).threads[x].bag[m];
            let t = s.threads[x];
            ||| exists|n: int| 0 <= n < t.bag.len() && #[trigger] t.bag[n] == b
            ||| t.pc == (EpochPc::Bag { cell: b.0, tag: b.1 })
        }),
{
    let s2 = s.step(i, spurious, k);
    let t = s.threads[x];
    let b = s2.threads[x].bag[m];
    if x == i && s.frees(i, k) {
        let n = if m < k {
            m
        } else {
            m + 1
        };
        assert(t.bag[n] == b);
    } else if m < t.bag.len() {
        assert(t.bag[m] == b);
    }
}

/// That the epoch stays near after a step.
#[verifier::rlimit(40)]
proof fn lemma_near(s: EpochSystem, i: int, spurious: bool, k: int, x: int, y: int)
    requires
        s.inv(),
        s.global < usize::MAX,
        0 <= i < s.threads.len(),
        0 <= x < s.threads.len(),
        0 <= y < s.threads.len(),
    ensures
        s.step(i, spurious, k).near_inv(x, y),
{
    let s2 = s.step(i, spurious, k);
    let t = s.threads[i];
    let tx = s2.threads[x];
    assert(s.thread_inv(i));
    assert(s.thread_inv(x));
    assert(s.thread_inv(y));
    assert(s.pair_inv(x, y));
    assert(s.near_inv(x, y));
    if let Some(p) = reached(s2.threads[y]) {
        if reached(s.threads[y]) == Some(p) {
            let e = s.threads[y].slot - 1;
            assert(s.threads[y].slot == s2.threads[y].slot);
            assert forall|m: int| 0 <= m < tx.bag.len() && (#[trigger] tx.bag[m]).0 == p implies
                s2.stays_near(tx.bag[m].1, y) by {
                lemma_entry(s, i, spurious, k, x, m);
                let b = tx.bag[m];
                if s.threads[x].pc == (EpochPc::Bag { cell: b.0, tag: b.1 }) {
                    lemma_still_near(s, i, spurious, k, y, b.1);
                } else {
                    let n = choose|n: int|
                        0 <= n < s.threads[x].bag.len() && #[trigger] s.threads[x].bag[n] == b;
                    assert(respects(s.threads[x], b.1, y, e));
                    lemma_still_near(s, i, spurious, k, y, b.1);
                }
            }
            if let EpochPc::Bag { cell, tag } = tx.pc {
                if cell == p {
                    if s.threads[x].pc is Bag {
                        lemma_still_near(s, i, spurious, k, y, tag);
                    } else {
                        // The tag was read just now.
                        assert(x == i && tag == s.global);
                        assert forall|j: int| 0 <= j < s2.threads.len() implies held_back(
                            #[trigger] s2.threads[j],
                            tag,
                            y,
                        ) by {
                            assert(s.thread_inv(j));
                        }
                    }
                }
            }
        } else {
            // Thread y has just found p on top, so nobody has given p up.
            assert(y == i);
            assert(s.heap.head == Some(p));
            assert(s.heap.cells[s.heap.chain[0] as int].state is Stacked);
            assert(tx.bag == s.threads[x].bag);
            assert forall|m: int| 0 <= m < tx.bag.len() && (#[trigger] tx.bag[m]).0 == p implies
                s2.stays_near(tx.bag[m].1, y) by {
                assert(s.heap.cells[s.threads[x].bag[m].0 as int].state == CellState::Bagged(x));
            }
        }
    }
}

/// As long as a thread stays where it is, pinned to an epoch up to `tag`, the epoch stays near.
proof fn lemma_still_near(s: EpochSystem, i: int, spurious: bool, k: int, y: int, tag: usize)
    requires
        s.inv(),
        s.global < usize::MAX,
        0 <= i < s.threads.len(),
        0 <= y < s.threads.len(),
        s.stays_near(tag, y),
        0 < s.threads[y].slot <= tag + 1,
    ensures
        s.step(i, spurious, k).stays_near(tag, y),
{
    let s2 = s.step(i, spurious, k);
    assert(s.thread_inv(i));
    assert(held_back(s.threads[i], tag, y));
    assert forall|j: int| 0 <= j < s2.threads.len() implies held_back(
        #[trigger] s2.threads[j],
        tag,
        y,
    ) by {
        assert(held_back(s.threads[j], tag, y));
    }
}

/// An empty stack whose cells are all free, without threads, satisfies the invariant.
pub proof fn law_epoch_start(s: EpochSystem)
    requires
        s.heap.head is None,
        s.heap.chain.len() == 0,
        forall|a: int|
            0 <= a < s.heap.cells.len() ==> (#[trigger] s.heap.cells[a]).state is Free,
        s.threads.len() == 0,
    ensures
        s.inv(),
{
}

/// Beginning to push, with any free cell, to pop, to move the epoch on or to sweep keeps the
/// invariant.
pub proof fn law_epoch_begin(s: EpochSystem, i: int, a: usize, pop: bool)
    requires
        s.inv(),
        0 <= i < s.threads.len(),
        s.threads[i].pc is Idle,
    ensures
        a < s.heap.cells.len() && s.heap.cells[a as int].state is Free ==> s.begin_push(i, a).inv(),
        s.begin(i, pop).inv(),
        s.begin_collect(i).inv(),
{
    assert(s.thread_inv(i));
    if a < s.heap.cells.len() && s.heap.cells[a as int].state is Free {
        let s1 = s.begin_push(i, a);
        reuse::lemma_off_stack(
            s.heap,
            a,
            Cell { state: CellState::Private(i), ..s.heap.cells[a as int] },
        );
        let bag = s.threads[i].bag;
        assert forall|m: int| 0 <= m < bag.len() implies (#[trigger] bag[m]).0 != a by {
            assert(s.heap.cells[bag[m].0 as int].state == CellState::Bagged(i));
        }
        assert forall|j: int| 0 <= j < s.threads.len() implies #[trigger] s1.thread_inv(j) by {
            assert(s.thread_inv(j));
            if j != i {
                lemma_others(s, s1, i, j, a);
            }
        }
        lemma_begun(s, s1, i, a);
    }
    lemma_begun(s, s.begin(i, pop), i, a);
    lemma_begun(s, s.begin_collect(i), i, a);
}

/// Beginning something, with a cell that was free if with any, keeps the invariant.
proof fn lemma_begun(s: EpochSystem, s2: EpochSystem, i: int, a: usize)
    requires
        s.inv(),
        0 <= i < s.threads.len(),
        s2.heap.inv(),
        s2.heap == s.heap || {
            &&& a < s.heap.cells.len()
            &&& s.heap.cells[a as int].state is Free
            &&& s2.heap == s.heap.with_state(a, CellState::Private(i))
        },
        s2.global == s.global,
        s2.threads == s.threads.update(i, s2.threads[i]),
        s2.threads[i].bag == s.threads[i].bag,
        s2.thread_inv(i),
        reached(s2.threads[i]) is None,
        s.threads[i].pc is Idle,
        match s2.threads[i].pc {
            EpochPc::Pushing(_) | EpochPc::Pinning(_) | EpochPc::CollectLoad => true,
            EpochPc::Advancing(op) => op.pc is Load,
            _ => false,
        },
    ensures
        s2.inv(),
{
    assert forall|j: int| 0 <= j < s.threads.len() implies #[trigger] s2.thread_inv(j) by {
        assert(s.thread_inv(j));
        if j != i {
            lemma_others(s, s2, i, j, a);
        }
    }
    assert forall|x: int, y: int|
        0 <= x < s.threads.len() && 0 <= y < s.threads.len() implies #[trigger] s2.pair_inv(x, y) by {
        assert(s.pair_inv(x, y));
    }
    assert forall|x: int, y: int|
        0 <= x < s.threads.len() && 0 <= y < s.threads.len() implies #[trigger] s2.near_inv(x, y) by {
        assert(s.near_inv(x, y));
        assert forall|tag: usize| #[trigger] s.stays_near(tag, y) implies s2.stays_near(tag, y) by {
            assert forall|j: int| 0 <= j < s2.threads.len() implies held_back(
                #[trigger] s2.threads[j],
                tag,
                y,
            ) by {
                assert(held_back(s.threads[j], tag, y));
            }
        }
    }
}

/// A new thread keeps the invariant, as long as there is a slot for it.
pub proof fn law_epoch_join(s: EpochSystem)
    requires
        s.inv(),
        s.threads.len() < MAX_EPOCH_THREADS,
    ensures
        s.join().inv(),
{
    let s2 = s.join();
    assert forall|j: int| 0 <= j < s2.threads.len() implies #[trigger] s2.thread_inv(j) by {
        if j < s.threads.len() {
            assert(s.thread_inv(j));
            assert(s2.threads[j] == s.threads[j]);
        }
    }
    assert forall|x: int, y: int|
        0 <= x < s2.threads.len() && 0 <= y < s2.threads.len() implies #[trigger] s2.pair_inv(x, y) by {
        if x < s.threads.len() && y < s.threads.len() {
            assert(s.pair_inv(x, y));
        }
    }
    assert forall|x: int, y: int|
        0 <= x < s2.threads.len() && 0 <= y < s2.threads.len() implies #[trigger] s2.near_inv(x, y) by {
        if x < s.threads.len() && y < s.threads.len() {
            assert(s.near_inv(x, y));
            assert forall|tag: usize| #[trigger] s.stays_near(tag, y) implies s2.stays_near(
                tag,
                y,
            ) by {
                assert forall|j: int| 0 <= j < s2.threads.len() implies held_back(
                    #[trigger] s2.threads[j],
                    tag,
                    y,
                ) by {
                    if j < s.threads.len() {
                        assert(held_back(s.threads[j], tag, y));
                    }
                }
            }
        }
    }
}

/// Nobody touches a freed cell: a cell whose link is about to be read or whose value is about
/// to be taken has been on the stack and has not been freed since.
pub proof fn law_epoch_no_use_after_free(s: EpochSystem, i: int)
    requires
        s.inv(),
        0 <= i < s.threads.len(),
    ensures
        reached(s.threads[i]) matches Some(p) ==> s.heap.held(p),
        s.threads[i].pc matches EpochPc::Take(p) ==> s.heap.held(p),
{
    assert(s.thread_inv(i));
}

/// A pop takes the value on top, even if the address on top was freed and used again while the
/// pop was under way: an exchange that takes place sets the head to what really comes next.
pub proof fn law_epoch_pop_takes_the_top(s: EpochSystem, i: int, spurious: bool, k: int)
    requires
        s.inv(),
        0 <= i < s.threads.len(),
        s.threads[i].pc is Popping,
        s.step(i, spurious, k).threads[i].pc is Take,
    ensures
        s.heap.chain.len() > 0,
        s.step(i, spurious, k).threads[i].pc->Take_0 == s.heap.chain[0],
        s.step(i, spurious, k).heap.chain == s.heap.chain.drop_first(),
{
    assert(s.thread_inv(i));
}

/// A cell is freed only by the thread in whose bag it is, and only when no pinned thread has
/// reached it.
pub proof fn law_epoch_frees_only_unreached(s: EpochSystem, i: int, spurious: bool, k: int, a: usize, j: int)
    requires
        s.inv(),
        0 <= i < s.threads.len(),
        0 <= j < s.threads.len(),
        a < s.heap.cells.len(),
        !(s.heap.cells[a as int].state is Free),
        s.step(i, spurious, k).heap.cells[a as int].state is Free,
    ensures
        s.heap.cells[a as int].state == CellState::Bagged(i),
        reached(s.threads[j]) != Some(a),
{
    assert(s.thread_inv(i));
    assert(s.frees(i, k));
    assert(s.threads[i].bag[k].0 == a);
    lemma_unreached(s, i, k, j);
}

/// A slot lets an epoch pass if and only if its thread is not pinned, or is pinned in that epoch
/// or a later one; a pinned thread writes its epoch plus one. The epoch can move on if and only
/// if every slot lets it pass.
pub proof fn law_who_holds_the_epoch(v: EpochView, e: usize, cur: usize)
    requires
        e < usize::MAX,
    ensures
        lets_pass(0, cur),
        lets_pass((e + 1) as usize, cur) <==> cur <= e,
        v.can_advance() <==> forall|i: int|
            0 <= i < v.slots.len() ==> #[trigger] v.slots[i] == 0 || v.slots[i] > v.global,
{
    if v.can_advance() {
        assert forall|i: int| 0 <= i < v.slots.len() implies #[trigger] v.slots[i] == 0
            || v.slots[i] > v.global by {
            assert(lets_pass(v.slots[i], v.global));
        }
    }
}

/// An attempt to move the epoch on changes nothing while a thread is pinned in an older epoch.
/// Otherwise the epoch grows by exactly one, and of the addresses exactly those in the bag of
/// the epoch before are freed; the other two bags and every slot stay as they are.
pub proof fn law_advance_frees_one_bag(v: EpochView, k: int)
    requires
        v.wf(),
        v.global < usize::MAX,
        0 <= k < 3,
    ensures
        ({
            let held = exists|i: int|
                0 <= i < v.slots.len() && 0 < #[trigger] v.slots[i] <= v.global;
            let a = v.after_advance();
            &&& held ==> a == v
            &&& !held ==> a.global == v.global + 1
            &&& a.slots == v.slots && a.slot == v.slot && a.depth == v.depth
            &&& !held && v.global == 0 ==> a.bags == v.bags && a.reclaimed == v.reclaimed
            &&& !held && v.global >= 1 && k == (v.global - 1) % 3 ==> {
                &&& a.bags[k] == Seq::<(usize, usize)>::empty()
                &&& a.reclaimed == v.reclaimed + v.bags[k].map_values(|x: (usize, usize)| x.0)
            }
            &&& !held && k != (v.global - 1) % 3 ==> a.bags[k] == v.bags[k]
        }),
{
    law_who_holds_the_epoch(v, 0, 0);
    if v.can_advance() {
        assert(forall|i: int|
            0 <= i < v.slots.len() ==> #[trigger] v.slots[i] == 0 || v.slots[i] > v.global);
    }
    assert(addresses(v.bags[k]) == v.bags[k].map_values(|x: (usize, usize)| x.0));
}

/// A sweep frees exactly the addresses that were put into a bag two epochs ago or earlier, and
/// keeps the others in their bags and in their order.
pub proof fn law_sweep_frees_by_age(v: EpochView, k: int)
    requires
        v.wf(),
        0 <= k < 3,
    ensures
        ({
            let s = v.after_sweep();
            let old_in = |b: int|
                v.bags[b].filter(|x: (usize, usize)| x.1 + 2 <= v.global).map_values(
                    |x: (usize, usize)| x.0,
                );
            &&& s.bags.len() == 3
            &&& s.bags[k] == v.bags[k].filter(|x: (usize, usize)| x.1 + 2 > v.global)
            &&& s.reclaimed == v.reclaimed + old_in(0) + old_in(1) + old_in(2)
            &&& s.global == v.global && s.slots == v.slots
            &&& s.slot == v.slot && s.depth == v.depth
        }),
        v.after_collect() == v.after_advance().after_sweep(),
{
    assert(old_enough(v.global) =~= (|x: (usize, usize)| x.1 + 2 <= v.global));
    assert(too_young(v.global) =~= (|x: (usize, usize)| x.1 + 2 > v.global));
}

/// Pinning a thread that is not pinned writes the epoch plus one into its slot, which it claims
/// first if it has none, and touches no other slot. Pinning a pinned thread only counts. Neither
/// touches the epoch, a bag or what was freed.
pub proof fn law_pin_announces_the_epoch(v: EpochView, i: int)
    requires
        v.wf(),
        v.global < usize::MAX,
        v.depth < usize::MAX,
        v.slot is None ==> v.slots.len() < MAX_EPOCH_THREADS,
        0 <= i < v.slots.len(),
    ensures
        ({
            let p = v.after_pin();
            &&& p.depth == v.depth + 1
            &&& p.global == v.global && p.bags == v.bags && p.reclaimed == v.reclaimed
            &&& v.depth > 0 ==> p.slots == v.slots && p.slot == v.slot
            &&& v.depth == 0 ==> {
                &&& p.slot matches Some(s) && p.slots[s as int] == v.global + 1
                &&& v.slot is Some ==> p.slot == v.slot && p.slots.len() == v.slots.len()
                &&& v.slot is None ==> p.slot == Some(v.slots.len() as usize) && p.slots.len()
                    == v.slots.len() + 1
                &&& v.slot != Some(i as usize) ==> p.slots[i] == v.slots[i]
            }
        }),
{
}

/// Unpinning counts down. The last one clears the own slot and no other, and then tries to move
/// the epoch on.
pub proof fn law_last_unpin_clears_the_slot(v: EpochView, i: int)
    requires
        v.wf(),
        v.depth > 0,
        v.global < usize::MAX,
        0 <= i < v.slots.len(),
    ensures
        ({
            let u = v.after_unpin();
            &&& u.depth == v.depth - 1
            &&& u.slot == v.slot
            &&& v.depth > 1 ==> u == (EpochView { depth: (v.depth - 1) as usize, ..v })
            &&& v.depth == 1 ==> {
                &&& u == (EpochView { slots: u.slots, depth: 0, ..v }).after_advance()
                &&& u.slots.len() == v.slots.len()
                &&& v.slot == Some(i as usize) ==> u.slots[i] == 0
                &&& v.slot != Some(i as usize) ==> u.slots[i] == v.slots[i]
            }
        }),
{
}

/// An address that is given up goes to the end of the bag of the epoch, tagged with the epoch,
/// and into no other bag. From sixteen waiting addresses on, an attempt is made to move the epoch
/// on; below that, nothing else changes.
pub proof fn law_defer_bags_the_address(v: EpochView, ptr: usize, k: int)
    requires
        v.wf(),
        0 <= k < 3,
    ensures
        ({
            let b = v.after_bag(ptr);
            let waiting = v.bags[0].len() + v.bags[1].len() + v.bags[2].len() + 1;
            &&& b == (EpochView { bags: b.bags, ..v })
            &&& b.bags.len() == 3
            &&& k == v.global % 3 ==> b.bags[k] == v.bags[k].push((ptr, v.global))
            &&& k != v.global % 3 ==> b.bags[k] == v.bags[k]
            &&& waiting < 16 ==> v.after_defer(ptr) == b
            &&& waiting >= 16 ==> v.after_defer(ptr) == b.after_advance()
        }),
{
}

/// A pinning reads the epoch and writes that plus one into the own slot.
pub proof fn law_pin_writes_what_it_read(op: PinOp, e: usize)
    requires
        op.pc is Load,
        e < usize::MAX,
    ensures
        op.action() == EpochAction::LoadEpoch,
        ({
            let read = op.after(EpochEvent::Value(e));
            &&& read.action() matches EpochAction::WriteSlot(w) && w == e + 1
            &&& !(read.pc is Done)
            &&& read.after(EpochEvent::Done).pc is Done
        }),
{
}

/// An attempt reads the epoch, then how many slots there are, then each of them in turn, and
/// fails at the first that is pinned in an older epoch. Only when it has read them all does it
/// ask to move the epoch on from the one that it read first.
pub proof fn law_advance_reads_every_slot(op: AdvanceOp, cur: usize, max: usize, at: usize, slot: usize)
    requires
        op.pc is Load,
        at < max,
    ensures
        op.action() == EpochAction::LoadEpoch,
        ({
            let read = op.after(EpochEvent::Value(cur));
            let none = read.after(EpochEvent::Value(0));
            let first = read.after(EpochEvent::Value(max));
            &&& read.action() == EpochAction::LoadCount
            &&& !read.finished()
            &&& none.action() == EpochAction::Advance(cur)
            &&& !none.finished()
            &&& first == (AdvanceOp { pc: AdvancePc::Scan { cur, at: 0, max } })
            &&& none.after(EpochEvent::Moved(true)).pc == AdvancePc::Moved(cur)
            &&& none.after(EpochEvent::Moved(false)).pc is Failed
        }),
        ({
            let scan = AdvanceOp { pc: AdvancePc::Scan { cur, at, max } };
            let next = scan.after(EpochEvent::Value(slot));
            &&& scan.action() == EpochAction::ReadSlot(at)
            &&& 0 < slot <= cur ==> next.pc is Failed
            &&& slot == 0 || slot > cur ==> {
                &&& at + 1 < max ==> next.pc == (AdvancePc::Scan {
                    cur,
                    at: (at + 1) as usize,
                    max,
                })
                &&& at + 1 == max ==> next.action() == EpochAction::Advance(cur)
                    && !next.finished()
            }
        }),
{
}

} // verus!
