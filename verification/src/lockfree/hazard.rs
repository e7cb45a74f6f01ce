//! Hazard pointers: a thread announces the address that it uses, and who wants to free memory
//! looks at all announcements first.
//!
//! A reader writes the address into its slot and then makes sure that the address is still
//! linked; from then on nobody frees it until the slot changes. A thread that has unlinked an
//! address puts it into its own bag; when the bag is full it reads all slots and frees what
//! nobody has announced. What is announced stays in the bag.

use vstd::prelude::*;

use crate::lockfree::reuse;
use crate::lockfree::reuse::Cell;
use crate::lockfree::reuse::CellState;
use crate::lockfree::reuse::Heap;
use crate::lockfree::stack;
use crate::lockfree::stack::PopOp;
use crate::lockfree::stack::PopPc;
use crate::lockfree::stack::PushOp;
use crate::lockfree::stack::PushPc;
use crate::lockfree::stack::Stack;
use crate::lockfree::stack::StackAction;
use crate::lockfree::stack::StackEvent;

verus! {

/// How many threads can have a slot.
pub const MAX_HAZARD_THREADS: usize = 128;

/// How many addresses fill a bag.
pub const SCAN_THRESHOLD: usize = 32;

/// The slots of all threads. A slot holds an address or nothing.
pub struct HazardRegistry {
    slots: Vec<Option<usize>>,
    next_slot: usize,
}

/// Whether some slot holds the address.
pub open spec fn announced(slots: Seq<Option<usize>>, ptr: usize) -> bool {
    slots.contains(Some(ptr))
}

/// The addresses of a bag that are announced.
pub open spec fn kept(slots: Seq<Option<usize>>, bag: Seq<usize>) -> Seq<usize> {
    bag.filter(|p: usize| announced(slots, p))
}

/// The addresses of a bag that are not announced.
pub open spec fn freeable(slots: Seq<Option<usize>>, bag: Seq<usize>) -> Seq<usize> {
    bag.filter(|p: usize| !announced(slots, p))
}

impl View for HazardRegistry {
    type V = Seq<Option<usize>>;

    /// The slots that threads have claimed.
    closed spec fn view(&self) -> Seq<Option<usize>> {
        self.slots@.take(self.next_slot as int)
    }
}

impl HazardRegistry {
    /// That there are as many slots as there may be, and no more are claimed.
    pub closed spec fn wf(self) -> bool {
        self.slots@.len() == MAX_HAZARD_THREADS && self.next_slot <= MAX_HAZARD_THREADS
    }

    /// Slots that nobody has claimed.
    pub fn new() -> (r: HazardRegistry)
        ensures
            r.wf(),
            r@ == Seq::<Option<usize>>::empty(),
    {
        let mut slots: Vec<Option<usize>> = Vec::new();
        let mut i: usize = 0;
        while i < MAX_HAZARD_THREADS
            invariant
                i <= MAX_HAZARD_THREADS,
                slots@.len() == i,
            decreases MAX_HAZARD_THREADS - i,
        {
            slots.push(None);
            i += 1;
        }
        let r = HazardRegistry { slots, next_slot: 0 };
        assert(r@ =~= Seq::<Option<usize>>::empty());
        r
    }

    /// Claims a slot for a thread that has none, and gives the thread's slot.
    fn ensure_slot(&mut self, me: &mut HazardLocal) -> (slot: usize)
        requires
            old(self).wf(),
            old(me).slot() matches Some(s) ==> s < old(self)@.len(),
            old(me).slot() is None ==> old(self)@.len() < MAX_HAZARD_THREADS,
        ensures
            final(self).wf(),
            final(me).slot() == Some(slot),
            final(me).garbage() == old(me).garbage(),
            final(me).reclaimed() == old(me).reclaimed(),
            slot < final(self)@.len(),
            match old(me).slot() {
                Some(s) => slot == s && final(self)@ == old(self)@,
                None => slot == old(self)@.len() && final(self)@.len() == old(self)@.len() + 1
                    && final(self)@.take(slot as int) == old(self)@,
            },
    {
        match me.slot {
            Some(s) => s,
            None => {
                let s: usize = self.next_slot;
                self.next_slot = s + 1;
                me.slot = Some(s);
                assert(final(self)@.take(s as int) =~= old(self)@);
                s
            },
        }
    }

    /// Writes a slot.
    fn store(&mut self, slot: usize, ptr: Option<usize>)
        requires
            old(self).wf(),
            slot < old(self)@.len(),
        ensures
            final(self).wf(),
            final(self)@ == old(self)@.update(slot as int, ptr),
    {
        self.slots.set(slot, ptr);
        assert(final(self)@ =~= old(self)@.update(slot as int, ptr));
    }

    /// Whether some slot holds the address.
    fn is_announced(&self, ptr: usize) -> (b: bool)
        requires
            self.wf(),
        ensures
            b == announced(self@, ptr),
            b <==> exists|k: int| 0 <= k < self@.len() && #[trigger] self@[k] == Some(ptr),
    {
        let mut i: usize = 0;
        while i < self.next_slot
            invariant
                self.wf(),
                i <= self.next_slot,
                forall|k: int| 0 <= k < i ==> self@[k] != Some(ptr),
            decreases self.next_slot - i,
        {
            if let Some(p) = self.slots[i] {
                if p == ptr {
                    assert(self@[i as int] == Some(ptr));
                    return true;
                }
            }
            i += 1;
        }
        false
    }
}

/// What a thread keeps for itself: its slot, the addresses it has given up, and those that are
/// ready to be freed.
pub struct HazardLocal {
    slot: Option<usize>,
    garbage: Vec<usize>,
    reclaimed: Vec<usize>,
}

impl HazardLocal {
    /// The slot of the thread.
    pub closed spec fn slot(self) -> Option<usize> {
        self.slot
    }

    /// The addresses that the thread has given up and that were not yet ready to be freed.
    pub closed spec fn garbage(self) -> Seq<usize> {
        self.garbage@
    }

    /// The addresses that are ready to be freed, in the order in which they became so.
    pub closed spec fn reclaimed(self) -> Seq<usize> {
        self.reclaimed@
    }

    /// What a thread has that has never used a hazard pointer.
    pub fn new() -> (l: HazardLocal)
        ensures
            l.slot() is None,
            l.garbage() == Seq::<usize>::empty(),
            l.reclaimed() == Seq::<usize>::empty(),
    {
        HazardLocal { slot: None, garbage: Vec::new(), reclaimed: Vec::new() }
    }

    /// Hands out the addresses that are ready to be freed.
    pub fn take_reclaimed(&mut self) -> (r: Vec<usize>)
        ensures
            r@ == old(self).reclaimed(),
            final(self).reclaimed() == Seq::<usize>::empty(),
            final(self).garbage() == old(self).garbage(),
            final(self).slot() == old(self).slot(),
    {
        let mut r: Vec<usize> = Vec::new();
        std::mem::swap(&mut r, &mut self.reclaimed);
        r
    }
}

/// An announcement. It is withdrawn with [`HazardGuard::release`].
pub struct HazardGuard {
    slot: usize,
}

impl HazardGuard {
    /// The slot that holds the announcement.
    pub closed spec fn slot(self) -> usize {
        self.slot
    }

    /// Announces that the thread uses `ptr`. Whether `ptr` is still linked is for the caller to
    /// look up afterwards.
    pub fn protect(reg: &mut HazardRegistry, me: &mut HazardLocal, ptr: Option<usize>) -> (g:
        HazardGuard)
        requires
            old(reg).wf(),
            old(me).slot() matches Some(s) ==> s < old(reg)@.len(),
            old(me).slot() is None ==> old(reg)@.len() < MAX_HAZARD_THREADS,
        ensures
            final(reg).wf(),
            final(me).slot() == Some(g.slot()),
            final(me).garbage() == old(me).garbage(),
            final(me).reclaimed() == old(me).reclaimed(),
            match old(me).slot() {
                Some(s) => g.slot() == s && final(reg)@ == old(reg)@.update(s as int, ptr),
                None => g.slot() == old(reg)@.len() && final(reg)@ == old(reg)@.push(ptr),
            },
    {
        let slot: usize = reg.ensure_slot(me);
        let ghost mid = reg@;
        reg.store(slot, ptr);
        proof {
            if old(me).slot() is None {
                assert(reg@ =~= old(reg)@.push(ptr)) by {
                    assert forall|k: int| 0 <= k < old(reg)@.len() implies reg@[k] == old(reg)@[k] by {
                        assert(mid.take(slot as int)[k] == mid[k]);
                    }
                }
            }
        }
        HazardGuard { slot }
    }

    /// Announces another address in place of the one before.
    pub fn set(&mut self, reg: &mut HazardRegistry, ptr: Option<usize>)
        requires
            old(reg).wf(),
            old(self).slot() < old(reg)@.len(),
        ensures
            final(reg).wf(),
            final(self).slot() == old(self).slot(),
            final(reg)@ == old(reg)@.update(old(self).slot() as int, ptr),
    {
        reg.store(self.slot, ptr);
    }

    /// Withdraws the announcement.
    pub fn release(self, reg: &mut HazardRegistry)
        requires
            old(reg).wf(),
            self.slot() < old(reg)@.len(),
        ensures
            final(reg).wf(),
            final(reg)@ == old(reg)@.update(self.slot() as int, None),
    {
        reg.store(self.slot, None);
    }
}

/// What a thread has after looking at the slots: what is announced stays in the bag, the rest
/// is ready to be freed.
pub open spec fn scanned(slots: Seq<Option<usize>>, before: HazardLocal, after: HazardLocal) -> bool {
    &&& after.slot() == before.slot()
    &&& after.garbage() == kept(slots, before.garbage())
    &&& after.reclaimed() == before.reclaimed() + freeable(slots, before.garbage())
}

/// Looks at all slots and makes ready to be freed what the thread has given up and nobody has
/// announced.
pub fn scan_and_reclaim(reg: &HazardRegistry, me: &mut HazardLocal)
    requires
        reg.wf(),
    ensures
        scanned(reg@, *old(me), *final(me)),
{
    let mut bag: Vec<usize> = Vec::new();
    std::mem::swap(&mut bag, &mut me.garbage);
    proof {
        reveal(Seq::filter);
    }
    let mut i: usize = 0;
    assert(bag@.take(0) =~= Seq::<usize>::empty());
    while i < bag.len()
        invariant
            reg.wf(),
            i <= bag.len(),
            bag@ == old(me).garbage(),
            me.slot == old(me).slot,
            me.garbage@ == kept(reg@, bag@.take(i as int)),
            me.reclaimed@ == old(me).reclaimed() + freeable(reg@, bag@.take(i as int)),
        decreases bag.len() - i,
    {
        proof {
            reveal(Seq::filter);
            assert(bag@.take(i + 1).drop_last() =~= bag@.take(i as int));
        }
        let ptr: usize = bag[i];
        if reg.is_announced(ptr) {
            me.garbage.push(ptr);
        } else {
            me.reclaimed.push(ptr);
        }
        i += 1;
        assert(me.reclaimed@ =~= old(me).reclaimed() + freeable(reg@, bag@.take(i as int)));
    }
    assert(bag@.take(bag@.len() as int) =~= bag@);
}

/// Nothing that a thread has announced is freed, whatever the other slots hold, and all that nobody
/// has announced is: an address that some slot holds stays in the bag as often as it was there, an
/// address that no slot holds leaves it for what is ready to be freed. The order of each stays.
pub proof fn law_scan_goes_by_the_slots(
    slots: Seq<Option<usize>>,
    before: HazardLocal,
    after: HazardLocal,
)
    requires
        scanned(slots, before, after),
    ensures
        after.slot() == before.slot(),
        after.garbage() == before.garbage().filter(
            |p: usize| exists|k: int| 0 <= k < slots.len() && #[trigger] slots[k] == Some(p),
        ),
        after.reclaimed() == before.reclaimed() + before.garbage().filter(
            |p: usize| forall|k: int| 0 <= k < slots.len() ==> #[trigger] slots[k] != Some(p),
        ),
        forall|k: int, m: int|
            before.reclaimed().len() <= m < after.reclaimed().len() && 0 <= k < slots.len()
                ==> #[trigger] slots[k] != Some(#[trigger] after.reclaimed()[m]),
        forall|m: int|
            0 <= m < before.garbage().len() ==> after.garbage().contains(
                #[trigger] before.garbage()[m],
            ) || after.reclaimed().contains(before.garbage()[m]),
{
    law_kept_and_freeable(slots, before.garbage());
    let bag = before.garbage();
    let free = freeable(slots, bag);
    let n = before.reclaimed().len() as int;
    assert forall|k: int, m: int|
        n <= m < after.reclaimed().len() && 0 <= k < slots.len() implies #[trigger] slots[k]
        != Some(#[trigger] after.reclaimed()[m]) by {
        bag.lemma_filter_pred(|p: usize| !announced(slots, p), m - n);
        assert(after.reclaimed()[m] == free[m - n]);
    }
    assert forall|m: int| 0 <= m < bag.len() implies after.garbage().contains(
        #[trigger] bag[m],
    ) || after.reclaimed().contains(bag[m]) by {
        if announced(slots, bag[m]) {
            bag.lemma_filter_contains(|p: usize| announced(slots, p), m);
        } else {
            bag.lemma_filter_contains(|p: usize| !announced(slots, p), m);
            let j = choose|j: int| 0 <= j < free.len() && free[j] == bag[m];
            assert(after.reclaimed()[n + j] == bag[m]);
        }
    }
}

/// What is kept of a bag is what some slot holds, and the rest can be freed.
pub proof fn law_kept_and_freeable(slots: Seq<Option<usize>>, bag: Seq<usize>)
    ensures
        kept(slots, bag) == bag.filter(
            |p: usize| exists|k: int| 0 <= k < slots.len() && #[trigger] slots[k] == Some(p),
        ),
        freeable(slots, bag) == bag.filter(
            |p: usize| forall|k: int| 0 <= k < slots.len() ==> #[trigger] slots[k] != Some(p),
        ),
        kept(slots, bag).len() + freeable(slots, bag).len() == bag.len(),
{
    let held = |p: usize| exists|k: int| 0 <= k < slots.len() && #[trigger] slots[k] == Some(p);
    let unheld = |p: usize|
        forall|k: int| 0 <= k < slots.len() ==> #[trigger] slots[k] != Some(p);
    assert forall|p: usize| announced(slots, p) == #[trigger] held(p) by {}
    assert forall|p: usize| !announced(slots, p) == #[trigger] unheld(p) by {}
    assert((|p: usize| announced(slots, p)) =~= held);
    assert((|p: usize| !announced(slots, p)) =~= unheld);
    lemma_parted(slots, bag);
}

proof fn lemma_parted(slots: Seq<Option<usize>>, bag: Seq<usize>)
    ensures
        kept(slots, bag).len() + freeable(slots, bag).len() == bag.len(),
    decreases bag.len(),
{
    reveal(Seq::filter);
    if bag.len() > 0 {
        lemma_parted(slots, bag.drop_last());
    }
}

/// Gives up an address that is no longer linked. A bag that is full is looked through.
pub fn retire(reg: &HazardRegistry, me: &mut HazardLocal, ptr: usize)
    requires
        reg.wf(),
    ensures
        final(me).slot() == old(me).slot(),
        old(me).garbage().len() + 1 < SCAN_THRESHOLD ==> {
            &&& final(me).garbage() == old(me).garbage().push(ptr)
            &&& final(me).reclaimed() == old(me).reclaimed()
        },
        old(me).garbage().len() + 1 >= SCAN_THRESHOLD ==> {
            &&& final(me).garbage() == kept(reg@, old(me).garbage().push(ptr))
            &&& final(me).reclaimed() == old(me).reclaimed() + freeable(
                reg@,
                old(me).garbage().push(ptr),
            )
        },
        old(me).garbage().len() < 31 ==> final(me).garbage() == old(me).garbage().push(ptr),
        final(me).garbage().len() + final(me).reclaimed().len() == old(me).garbage().len() + 1
            + old(me).reclaimed().len(),
        forall|k: int, m: int|
            old(me).reclaimed().len() <= m < final(me).reclaimed().len() && 0 <= k < reg@.len()
                ==> #[trigger] reg@[k] != Some(#[trigger] final(me).reclaimed()[m]),
        old(me).garbage().len() >= 31 ==> final(me).garbage() == kept(
            reg@,
            old(me).garbage().push(ptr),
        ),
{
    me.garbage.push(ptr);
    if me.garbage.len() >= SCAN_THRESHOLD {
        let ghost full = *me;
        scan_and_reclaim(reg, me);
        proof {
            law_scan_goes_by_the_slots(reg@, full, *me);
            law_kept_and_freeable(reg@, full.garbage());
        }
    }
}

/// Looks through the bag of a thread that is about to end. What is still announced stays.
pub fn flush_local(reg: &HazardRegistry, me: &mut HazardLocal)
    requires
        reg.wf(),
    ensures
        scanned(reg@, *old(me), *final(me)),
{
    scan_and_reclaim(reg, me);
}

/// How far a pop has come with the announcement of the node that it works on.
#[derive(Clone, Copy, Debug, PartialEq, Eq, Structural)]
pub enum Guarding {
    /// The node is not announced.
    Unset,
    /// The node is announced.
    Announced,
    /// The node was still on top after it was announced.
    Checked,
}

/// What a pop with hazard pointers wants done.
#[derive(Clone, Copy, Debug, PartialEq, Eq)]
pub enum HazardAction {
    /// An operation on the stack.
    Stack(StackAction),
    /// Announce the address.
    Announce(usize),
}

/// What a pop with hazard pointers is answered.
#[derive(Clone, Copy, Debug, PartialEq, Eq)]
pub enum HazardEvent {
    /// What the operation on the stack gave back.
    Stack(StackEvent),
    /// The address is announced.
    Announced,
}

/// One pop with hazard pointers: a pop that announces the node on top, and looks whether it is
/// still on top, before it touches the node.
#[derive(Clone, Copy, Debug, PartialEq, Eq)]
pub struct HazardPopOp {
    pub pop: PopOp,
    pub guard: Guarding,
}

impl HazardPopOp {
    /// What an unfinished pop wants done next.
    pub open spec fn action(self) -> HazardAction {
        match (self.pop.pc, self.guard) {
            (PopPc::ReadNext { old }, Guarding::Unset) => HazardAction::Announce(old),
            (PopPc::ReadNext { old }, Guarding::Announced) => HazardAction::Stack(
                StackAction::LoadHead,
            ),
            _ => HazardAction::Stack(self.pop.action()),
        }
    }

    /// Where a pop stands after an answer. An answer of the wrong kind changes nothing.
    pub open spec fn after(self, e: HazardEvent) -> HazardPopOp {
        match e {
            HazardEvent::Announced => if self.pop.pc is ReadNext && self.guard is Unset {
                HazardPopOp { pop: self.pop, guard: Guarding::Announced }
            } else {
                self
            },
            HazardEvent::Stack(s) => match (self.pop.pc, self.guard) {
                (PopPc::ReadNext { old }, Guarding::Unset) => self,
                (PopPc::ReadNext { old }, Guarding::Announced) => match s {
                    StackEvent::Link(h) => if h == Some(old) {
                        HazardPopOp { pop: self.pop, guard: Guarding::Checked }
                    } else {
                        HazardPopOp { pop: PopOp { pc: PopPc::Load }, guard: Guarding::Unset }
                    },
                    _ => self,
                },
                (PopPc::Exchange { old, next }, _) => HazardPopOp {
                    pop: self.pop.after(s),
                    guard: match s {
                        StackEvent::Found(_) => Guarding::Unset,
                        _ => self.guard,
                    },
                },
                _ => HazardPopOp { pop: self.pop.after(s), guard: self.guard },
            },
        }
    }

    /// A pop that has done nothing yet.
    pub fn start() -> (op: HazardPopOp)
        ensures
            op == (HazardPopOp { pop: PopOp { pc: PopPc::Load }, guard: Guarding::Unset }),
    {
        HazardPopOp { pop: PopOp::start(), guard: Guarding::Unset }
    }

    /// What to do next, or `None` when the pop is finished.
    pub fn next_action(&self) -> (a: Option<HazardAction>)
        ensures
            a == (if self.pop.finished() { None } else { Some(self.action()) }),
    {
        match (self.pop.pc, self.guard) {
            (PopPc::ReadNext { old }, Guarding::Unset) => Some(HazardAction::Announce(old)),
            (PopPc::ReadNext { old }, Guarding::Announced) => Some(
                HazardAction::Stack(StackAction::LoadHead),
            ),
            _ => match self.pop.next_action() {
                Some(a) => Some(HazardAction::Stack(a)),
                None => None,
            },
        }
    }

    /// Takes the answer to what was done.
    pub fn on_event(&mut self, e: HazardEvent)
        ensures
            *final(self) == old(self).after(e),
    {
        match e {
            HazardEvent::Announced => {
                if let (PopPc::ReadNext { old }, Guarding::Unset) = (self.pop.pc, self.guard) {
                    self.guard = Guarding::Announced;
                }
            },
            HazardEvent::Stack(s) => match (self.pop.pc, self.guard) {
                (PopPc::ReadNext { old }, Guarding::Unset) => {},
                (PopPc::ReadNext { old }, Guarding::Announced) => {
                    if let StackEvent::Link(h) = s {
                        if h == Some(old) {
                            self.guard = Guarding::Checked;
                        } else {
                            self.pop = PopOp::start();
                            self.guard = Guarding::Unset;
                        }
                    }
                },
                (PopPc::Exchange { old, next }, _) => {
                    self.pop.on_event(s);
                    if let StackEvent::Found(_) = s {
                        self.guard = Guarding::Unset;
                    }
                },
                _ => {
                    self.pop.on_event(s);
                },
            },
        }
    }
}

/// A stack whose popped nodes are given up to be freed.
pub struct HazardStack<T> {
    stack: Stack<T>,
}

impl<T> View for HazardStack<T> {
    type V = Seq<T>;

    /// What is on the stack, top first.
    closed spec fn view(&self) -> Seq<T> {
        self.stack@
    }
}

impl<T> HazardStack<T> {
    /// That the stack is in order.
    pub closed spec fn wf(self) -> bool {
        self.stack.wf()
    }

    /// The address of the node on top.
    pub closed spec fn top(self) -> Option<usize> {
        self.stack.mem().head
    }

    /// An empty stack.
    pub fn new() -> (s: HazardStack<T>)
        ensures
            s.wf(),
            s@ == Seq::<T>::empty(),
    {
        HazardStack { stack: Stack::new() }
    }

    /// Puts `value` on top of the stack.
    pub fn push(&mut self, value: T)
        requires
            old(self).wf(),
        ensures
            final(self).wf(),
            final(self)@ == seq![value] + old(self)@,
    {
        self.stack.push(value);
    }

    /// Takes the value from the top of the stack; `None` if the stack is empty. The node is
    /// given up while it is still announced, and the announcement is withdrawn in the end.
    pub fn pop(&mut self, reg: &mut HazardRegistry, me: &mut HazardLocal) -> (r: Option<T>)
        requires
            old(self).wf(),
            old(reg).wf(),
            old(me).slot() matches Some(s) ==> s < old(reg)@.len(),
            old(me).slot() is None ==> old(reg)@.len() < MAX_HAZARD_THREADS,
        ensures
            final(self).wf(),
            final(reg).wf(),
            match r {
                Some(v) => {
                    &&& old(self)@.len() > 0
                    &&& v == old(self)@[0]
                    &&& final(self)@ == old(self)@.drop_first()
                },
                None => {
                    &&& old(self)@.len() == 0
                    &&& final(self)@ == old(self)@
                },
            },
            old(self).top() is Some <==> old(self)@.len() > 0,
            match old(me).slot() {
                Some(s) => final(me).slot() == Some(s) && final(reg)@ == old(reg)@.update(
                    s as int,
                    None,
                ),
                None => final(me).slot() == Some(old(reg)@.len() as usize) && final(reg)@ == old(
                    reg,
                )@.push(None),
            },
            match old(self).top() {
                None => {
                    &&& final(me).garbage() == old(me).garbage()
                    &&& final(me).reclaimed() == old(me).reclaimed()
                },
                Some(p) => {
                    let slots = final(reg)@.update(final(me).slot()->0 as int, Some(p));
                    let bag = old(me).garbage().push(p);
                    if bag.len() < SCAN_THRESHOLD {
                        &&& final(me).garbage() == bag
                        &&& final(me).reclaimed() == old(me).reclaimed()
                    } else {
                        &&& final(me).garbage() == kept(slots, bag)
                        &&& final(me).reclaimed() == old(me).reclaimed() + freeable(slots, bag)
                    }
                },
            },
    {
        let ghost st = *self;
        let mut op = HazardPopOp::start();
        let mut guard = HazardGuard::protect(reg, me, None);
        let ghost start = reg@;
        self.stack.step_pop(&mut op.pop);
        if let PopPc::ReadNext { old } = op.pop.pc {
            guard.set(reg, Some(old));
            op.on_event(HazardEvent::Announced);
            op.on_event(HazardEvent::Stack(StackEvent::Link(self.stack.top())));
            self.stack.step_pop(&mut op.pop);
            self.stack.step_pop(&mut op.pop);
            if let PopPc::Won(n) = op.pop.pc {
                let value = self.stack.take_won(n);
                retire(reg, me, n);
                let ghost slots = reg@;
                guard.release(reg);
                proof {
                    assert(reg@ =~= start);
                    assert(slots =~= reg@.update(me.slot()->0 as int, Some(n)));
                }
                return value;
            }
            assert(false);
        }
        guard.release(reg);
        assert(reg@ =~= start);
        None
    }
}

impl<T> Default for HazardStack<T> {
    fn default() -> (s: HazardStack<T>)
        ensures
            s.wf(),
            s@ == Seq::<T>::empty(),
    {
        HazardStack::new()
    }
}

/// What a thread is doing at a stack with hazard pointers.
pub enum HazardPc {
    Idle,
    /// Pushing a cell that it has allocated.
    Pushing(PushOp),
    /// Popping.
    Popping(HazardPopOp),
    /// About to take the value out of the cell that it has popped.
    Take(usize),
    /// About to give up the cell.
    Retire(usize),
    /// Reading the slots: of the first `max`, all before `at` have been read.
    Scan { at: nat, max: nat, found: Set<usize> },
    /// Freeing what was not found in a slot.
    Reclaim { max: nat, found: Set<usize> },
    /// About to withdraw its announcement.
    Clear,
}

/// A thread: its slot, its bag, and what it is doing.
pub struct HazardThread {
    pub slot: Option<usize>,
    pub bag: Seq<usize>,
    pub pc: HazardPc,
}

/// A stack whose cells are used again, and the threads that work on it.
pub struct HazardSystem {
    pub heap: Heap,
    pub threads: Seq<HazardThread>,
}

/// The cell that a thread may touch because it announced it and then found it on top.
pub open spec fn relied_on(t: HazardThread) -> Option<usize> {
    match t.pc {
        HazardPc::Popping(op) => if op.guard is Checked {
            match op.pop.pc {
                PopPc::ReadNext { old } => Some(old),
                PopPc::Exchange { old, next } => Some(old),
                _ => None,
            }
        } else {
            None
        },
        _ => None,
    }
}

/// Whether a thread that has read slots has not missed the announcement of `p` in slot `j`.
pub open spec fn heeds(t: HazardThread, j: int, p: usize) -> bool {
    match t.pc {
        HazardPc::Scan { at, max, found } => j < max && (j < at ==> found.contains(p)),
        HazardPc::Reclaim { max, found } => found.contains(p),
        _ => true,
    }
}

impl HazardSystem {
    /// What holds of thread `i`.
    pub open spec fn thread_inv(self, i: int) -> bool {
        let t = self.threads[i];
        &&& t.bag.no_duplicates()
        &&& forall|k: int|
            0 <= k < t.bag.len() ==> {
                &&& (#[trigger] t.bag[k]) < self.heap.cells.len()
                &&& self.heap.cells[t.bag[k] as int].state == CellState::Bagged(i)
            }
        &&& relied_on(t) matches Some(p) ==> t.slot == Some(p) && self.heap.held(p)
        &&& match t.pc {
            HazardPc::Pushing(op) => {
                &&& !(op.pc is Done)
                &&& op.node < self.heap.cells.len()
                &&& self.heap.cells[op.node as int].state == CellState::Private(i)
                &&& op.pc matches PushPc::Exchange { old } ==> self.heap.cells[op.node as int].next
                    == old
            },
            HazardPc::Popping(op) => {
                &&& !op.pop.finished()
                &&& op.guard is Announced ==> (op.pop.pc matches PopPc::ReadNext { old }
                    && t.slot == Some(old))
                &&& op.pop.pc is Load ==> op.guard is Unset
                &&& op.pop.pc matches PopPc::Exchange { old, next } ==> op.guard is Checked
                    && self.heap.cells[old as int].next == next
            },
            HazardPc::Take(p) => p < self.heap.cells.len() && self.heap.cells[p as int].state
                == CellState::Popped(i),
            HazardPc::Retire(p) => p < self.heap.cells.len() && self.heap.cells[p as int].state
                == CellState::Popped(i),
            HazardPc::Scan { at, max, found } => at <= max <= self.threads.len(),
            _ => true,
        }
    }

    /// That no thread which reads slots misses an announcement that counts.
    pub open spec fn all_heed(self) -> bool {
        forall|i: int, j: int|
            0 <= i < self.threads.len() && 0 <= j < self.threads.len() ==> #[trigger] self.pair_inv(
                i,
                j,
            )
    }

    /// That thread `i` heeds what thread `j` relies on, if it is in the bag of thread `i`.
    pub open spec fn pair_inv(self, i: int, j: int) -> bool {
        relied_on(self.threads[j]) matches Some(p) ==> self.threads[i].bag.contains(p) ==> heeds(
            self.threads[i],
            j,
            p,
        )
    }

    /// What holds at any moment.
    pub open spec fn inv(self) -> bool {
        &&& self.heap.inv()
        &&& forall|i: int| 0 <= i < self.threads.len() ==> #[trigger] self.thread_inv(i)
        &&& self.all_heed()
    }

    /// The system with another thread `i`.
    pub open spec fn with(self, i: int, heap: Heap, t: HazardThread) -> HazardSystem {
        HazardSystem { heap, threads: self.threads.update(i, t) }
    }

    /// What an operation on the stack is answered. An exchange may fail for no reason.
    pub open spec fn event(self, a: StackAction, spurious: bool) -> StackEvent {
        match a {
            StackAction::LoadHead => StackEvent::Link(self.heap.head),
            StackAction::WriteNext { node, next } => StackEvent::Written,
            StackAction::ReadNext(n) => StackEvent::Link(self.heap.cells[n as int].next),
            StackAction::CasHead { current, new } => if self.heap.head == current && !spurious {
                StackEvent::Exchanged
            } else {
                StackEvent::Found(self.heap.head)
            },
        }
    }

    /// The system after thread `i` has done what it wants done next. `spurious` makes an
    /// exchange fail for no reason; a thread that reclaims frees the entry `k` of its bag if
    /// that was not found in a slot, and otherwise goes on.
    pub open spec fn step(self, i: int, spurious: bool, k: int) -> HazardSystem {
        let t = self.threads[i];
        match t.pc {
            HazardPc::Idle => self,
            HazardPc::Pushing(op) => {
                let a = op.action();
                let op2 = op.after(self.event(a, spurious));
                let pc = if op2.pc is Done {
                    HazardPc::Idle
                } else {
                    HazardPc::Pushing(op2)
                };
                let heap = match a {
                    StackAction::WriteNext { node, next } => self.heap.with_next(node, next),
                    StackAction::CasHead { current, new } => if self.heap.head == current
                        && !spurious {
                        self.heap.pushed(op.node)
                    } else {
                        self.heap
                    },
                    _ => self.heap,
                };
                self.with(i, heap, HazardThread { pc, ..t })
            },
            HazardPc::Popping(op) => match op.action() {
                HazardAction::Announce(p) => self.with(
                    i,
                    self.heap,
                    HazardThread {
                        slot: Some(p),
                        pc: HazardPc::Popping(op.after(HazardEvent::Announced)),
                        ..t
                    },
                ),
                HazardAction::Stack(a) => {
                    let op2 = op.after(HazardEvent::Stack(self.event(a, spurious)));
                    let pc = match op2.pop.pc {
                        PopPc::Empty => HazardPc::Clear,
                        PopPc::Won(p) => HazardPc::Take(p),
                        _ => HazardPc::Popping(op2),
                    };
                    let heap = match op2.pop.pc {
                        PopPc::Won(p) => self.heap.popped(p, a->new, i),
                        _ => self.heap,
                    };
                    self.with(i, heap, HazardThread { pc, ..t })
                },
            },
            HazardPc::Take(p) => self.with(
                i,
                self.heap,
                HazardThread { pc: HazardPc::Retire(p), ..t },
            ),
            HazardPc::Retire(p) => {
                let bag = t.bag.push(p);
                let pc = if bag.len() >= SCAN_THRESHOLD {
                    HazardPc::Scan { at: 0, max: self.threads.len(), found: Set::empty() }
                } else {
                    HazardPc::Clear
                };
                self.with(
                    i,
                    self.heap.with_state(p, CellState::Bagged(i)),
                    HazardThread { bag, pc, ..t },
                )
            },
            HazardPc::Scan { at, max, found } => {
                let pc = if at < max {
                    HazardPc::Scan {
                        at: at + 1,
                        max,
                        found: match self.threads[at as int].slot {
                            Some(p) => found.insert(p),
                            None => found,
                        },
                    }
                } else {
                    HazardPc::Reclaim { max, found }
                };
                self.with(i, self.heap, HazardThread { pc, ..t })
            },
            HazardPc::Reclaim { max, found } => if 0 <= k < t.bag.len() && !found.contains(
                t.bag[k],
            ) {
                self.with(
                    i,
                    self.heap.with_state(t.bag[k], CellState::Free),
                    HazardThread { bag: t.bag.remove(k), ..t },
                )
            } else {
                self.with(i, self.heap, HazardThread { pc: HazardPc::Clear, ..t })
            },
            HazardPc::Clear => self.with(
                i,
                self.heap,
                HazardThread { slot: None, pc: HazardPc::Idle, ..t },
            ),
        }
    }

    /// The system after thread `i`, which was idle, has allocated the free cell at `a`, be it
    /// one that was on the stack before, and has begun to push it.
    pub open spec fn begin_push(self, i: int, a: usize) -> HazardSystem {
        self.with(
            i,
            self.heap.with_state(a, CellState::Private(i)),
            HazardThread {
                pc: HazardPc::Pushing(PushOp { node: a, pc: PushPc::Load }),
                ..self.threads[i]
            },
        )
    }

    /// The system after thread `i`, which was idle, has begun to pop.
    pub open spec fn begin_pop(self, i: int) -> HazardSystem {
        let op = HazardPopOp { pop: PopOp { pc: PopPc::Load }, guard: Guarding::Unset };
        self.with(i, self.heap, HazardThread { pc: HazardPc::Popping(op), ..self.threads[i] })
    }

    /// The system after thread `i`, which was idle, has begun to read the slots.
    pub open spec fn begin_scan(self, i: int) -> HazardSystem {
        let pc = HazardPc::Scan { at: 0, max: self.threads.len(), found: Set::empty() };
        self.with(i, self.heap, HazardThread { pc, ..self.threads[i] })
    }

    /// The system after a thread has claimed a slot.
    pub open spec fn join(self) -> HazardSystem {
        let t = HazardThread { slot: None, bag: Seq::empty(), pc: HazardPc::Idle };
        HazardSystem { threads: self.threads.push(t), ..self }
    }
}

/// Changing thread `i`, and one cell that no other thread owns or relies on, keeps what holds
/// of the other threads.
proof fn lemma_others(s: HazardSystem, s2: HazardSystem, i: int, j: int, c: usize)
    requires
        s.inv(),
        0 <= i < s.threads.len(),
        0 <= j < s.threads.len(),
        i != j,
        s2.threads.len() >= s.threads.len(),
        s2.threads[j] == s.threads[j],
        s2.heap.cells.len() == s.heap.cells.len(),
        forall|a: usize|
            a < s.heap.cells.len() && a != c ==> #[trigger] s2.heap.cells[a as int]
                == s.heap.cells[a as int],
        c < s.heap.cells.len() ==> {
            let before = s.heap.cells[c as int];
            let after = s2.heap.cells[c as int];
            ||| after == before
            ||| {
                &&& before.state != CellState::Private(j)
                &&& before.state != CellState::Popped(j)
                &&& before.state != CellState::Bagged(j)
                &&& relied_on(s.threads[j]) == Some(c) ==> s2.heap.held(c) && after.next
                    == before.next
            }
        },
    ensures
        s2.thread_inv(j),
{
    assert(s.thread_inv(j));
    let t = s.threads[j];
    assert forall|k: int| 0 <= k < t.bag.len() implies {
        &&& (#[trigger] t.bag[k]) < s2.heap.cells.len()
        &&& s2.heap.cells[t.bag[k] as int].state == CellState::Bagged(j)
    } by {
        assert(s.heap.cells[t.bag[k] as int].state == CellState::Bagged(j));
        if t.bag[k] != c {
            assert(s2.heap.cells[t.bag[k] as int] == s.heap.cells[t.bag[k] as int]);
        }
    }
    if let Some(p) = relied_on(t) {
        if p != c {
            assert(s2.heap.cells[p as int] == s.heap.cells[p as int]);
        }
    }
    match t.pc {
        HazardPc::Pushing(op) => {
            if op.node != c {
                assert(s2.heap.cells[op.node as int] == s.heap.cells[op.node as int]);
            }
        },
        HazardPc::Take(p) => {
            if p != c {
                assert(s2.heap.cells[p as int] == s.heap.cells[p as int]);
            }
        },
        HazardPc::Retire(p) => {
            if p != c {
                assert(s2.heap.cells[p as int] == s.heap.cells[p as int]);
            }
        },
        _ => {},
    }
}

/// However threads interleave, and whichever freed cells are used again, the invariant stays.
#[verifier::rlimit(60)]
pub proof fn law_hazard_step(s: HazardSystem, i: int, spurious: bool, k: int)
    requires
        s.inv(),
        0 <= i < s.threads.len(),
    ensures
        s.step(i, spurious, k).inv(),
{
    let s2 = s.step(i, spurious, k);
    let t = s.threads[i];
    let t2 = s2.threads[i];
    assert(s.thread_inv(i));
    let c: usize = match t.pc {
        HazardPc::Pushing(op) => op.node,
        HazardPc::Popping(op) => match relied_on(t) {
            Some(p) => p,
            None => 0,
        },
        HazardPc::Retire(p) => p,
        HazardPc::Reclaim { max, found } => if 0 <= k < t.bag.len() {
            t.bag[k]
        } else {
            0
        },
        _ => 0,
    };
    match t.pc {
        HazardPc::Pushing(op) => {
            match op.pc {
                PushPc::Write { old } => {
                    reuse::lemma_off_stack(
                        s.heap,
                        op.node,
                        Cell { next: old, ..s.heap.cells[op.node as int] },
                    );
                },
                PushPc::Exchange { old } => {
                    if s.heap.head == old && !spurious {
                        reuse::lemma_pushed(s.heap, op.node);
                    }
                },
                _ => {},
            }
        },
        HazardPc::Popping(op) => {
            if let PopPc::Exchange { old, next } = op.pop.pc {
                if s.heap.head == Some(old) && !spurious {
                    reuse::lemma_popped(s.heap, old, next, i);
                }
            }
            if s.heap.head is Some {
                assert(s.heap.chain[0] < s.heap.cells.len());
            }
        },
        HazardPc::Retire(p) => {
            reuse::lemma_off_stack(
                s.heap,
                p,
                Cell { state: CellState::Bagged(i), ..s.heap.cells[p as int] },
            );
        },
        HazardPc::Reclaim { max, found } => {
            if 0 <= k < t.bag.len() && !found.contains(t.bag[k]) {
                reuse::lemma_off_stack(
                    s.heap,
                    t.bag[k],
                    Cell { state: CellState::Free, ..s.heap.cells[t.bag[k] as int] },
                );
            }
        },
        _ => {},
    }
    assert(s2.heap.inv());
    assert(s2.thread_inv(i)) by {
        lemma_own(s, i, spurious, k);
    }
    assert forall|j: int| 0 <= j < s2.threads.len() implies #[trigger] s2.thread_inv(j) by {
        if j != i {
            assert(s.thread_inv(j));
            assert(s.pair_inv(i, j));
            if let HazardPc::Reclaim { max, found } = t.pc {
                if 0 <= k < t.bag.len() {
                    assert(t.bag.contains(t.bag[k]));
                }
            }
            lemma_others(s, s2, i, j, c);
        }
    }
    assert forall|x: int, y: int|
        0 <= x < s2.threads.len() && 0 <= y < s2.threads.len() implies #[trigger] s2.pair_inv(x, y) by {
        lemma_pairs(s, i, spurious, k, x, y);
    }
}

/// What holds of the thread that takes a step.
#[verifier::rlimit(30)]
proof fn lemma_own(s: HazardSystem, i: int, spurious: bool, k: int)
    requires
        s.inv(),
        0 <= i < s.threads.len(),
    ensures
        s.step(i, spurious, k).thread_inv(i),
{
    let s2 = s.step(i, spurious, k);
    let t = s.threads[i];
    let t2 = s2.threads[i];
    assert(s.thread_inv(i));
    match t.pc {
        HazardPc::Popping(op) => {
            if s.heap.head is Some {
                assert(s.heap.chain[0] < s.heap.cells.len());
                assert(s.heap.cells[s.heap.chain[0] as int].state is Stacked);
            }
            assert forall|m: int| 0 <= m < t2.bag.len() implies {
                &&& (#[trigger] t2.bag[m]) < s2.heap.cells.len()
                &&& s2.heap.cells[t2.bag[m] as int].state == CellState::Bagged(i)
            } by {
                assert(t.bag[m] == t2.bag[m]);
            }
        },
        HazardPc::Retire(p) => {
            assert forall|m: int| 0 <= m < t2.bag.len() implies {
                &&& (#[trigger] t2.bag[m]) < s2.heap.cells.len()
                &&& s2.heap.cells[t2.bag[m] as int].state == CellState::Bagged(i)
            } by {
                if m < t.bag.len() {
                    assert(t.bag[m] == t2.bag[m]);
                }
            }
            assert(t2.bag.no_duplicates());
        },
        HazardPc::Reclaim { max, found } => {
            if 0 <= k < t.bag.len() && !found.contains(t.bag[k]) {
                assert forall|m: int| 0 <= m < t2.bag.len() implies {
                    &&& (#[trigger] t2.bag[m]) < s2.heap.cells.len()
                    &&& s2.heap.cells[t2.bag[m] as int].state == CellState::Bagged(i)
                } by {
                    let n = if m < k {
                        m
                    } else {
                        m + 1
                    };
                    assert(t2.bag[m] == t.bag[n]);
                    assert(t.bag[n] != t.bag[k]);
                }
                assert(t2.bag.no_duplicates());
            }
        },
        _ => {
            assert forall|m: int| 0 <= m < t2.bag.len() implies {
                &&& (#[trigger] t2.bag[m]) < s2.heap.cells.len()
                &&& s2.heap.cells[t2.bag[m] as int].state == CellState::Bagged(i)
            } by {
                assert(t.bag[m] == t2.bag[m]);
            }
        },
    }
}

/// That announcements are heeded after a step.
#[verifier::rlimit(30)]
proof fn lemma_pairs(s: HazardSystem, i: int, spurious: bool, k: int, x: int, y: int)
    requires
        s.inv(),
        0 <= i < s.threads.len(),
        0 <= x < s.threads.len(),
        0 <= y < s.threads.len(),
    ensures
        s.step(i, spurious, k).pair_inv(x, y),
{
    let s2 = s.step(i, spurious, k);
    let t = s.threads[i];
    assert(s.thread_inv(i));
    assert(s.thread_inv(x));
    assert(s.thread_inv(y));
    assert(s.pair_inv(x, y));
    if let Some(p) = relied_on(s2.threads[y]) {
        if s2.threads[x].bag.contains(p) {
            let m = choose|m: int| 0 <= m < s2.threads[x].bag.len() && s2.threads[x].bag[m] == p;
            if relied_on(s.threads[y]) == Some(p) {
                // Nothing new is relied on; thread x may have moved.
                if x == i {
                    match t.pc {
                        HazardPc::Reclaim { max, found } => {
                            if 0 <= k < t.bag.len() && !found.contains(t.bag[k]) {
                                let n = if m < k {
                                    m
                                } else {
                                    m + 1
                                };
                                assert(t.bag[n] == p);
                            }
                            assert(t.bag.contains(p));
                        },
                        HazardPc::Retire(q) => {
                            if p != q {
                                assert(t.bag[m] == p);
                            }
                        },
                        _ => {
                            assert(t.bag.contains(p));
                        },
                    }
                }
            } else {
                // Thread y has just found p on top, so p is in no bag.
                assert(y == i);
                assert(s.heap.head == Some(p));
                assert(s.heap.cells[s.heap.chain[0] as int].state is Stacked);
                assert(s2.threads[x].bag == s.threads[x].bag);
                assert(s.heap.cells[s.threads[x].bag[m] as int].state == CellState::Bagged(x));
            }
        }
    }
}

/// An empty stack whose cells are all free, without threads, satisfies the invariant.
pub proof fn law_hazard_start(s: HazardSystem)
    requires
        s.heap.head is None,
        s.heap.chain.len() == 0,
        forall|a: int|
            0 <= a < s.heap.cells.len() ==> (#[trigger] s.heap.cells[a]).state is Free,
        s.threads.len() == 0,
    ensures
        s.inv(),
{
}

/// Beginning to push, with any free cell, to pop or to read the slots keeps the invariant.
pub proof fn law_hazard_begin(s: HazardSystem, i: int, a: usize)
    requires
        s.inv(),
        0 <= i < s.threads.len(),
        s.threads[i].pc is Idle,
    ensures
        a < s.heap.cells.len() && s.heap.cells[a as int].state is Free ==> s.begin_push(i, a).inv(),
        s.begin_pop(i).inv(),
        s.begin_scan(i).inv(),
{
    assert(s.thread_inv(i));
    if a < s.heap.cells.len() && s.heap.cells[a as int].state is Free {
        reuse::lemma_off_stack(
            s.heap,
            a,
            Cell { state: CellState::Private(i), ..s.heap.cells[a as int] },
        );
        assert forall|m: int| 0 <= m < s.threads[i].bag.len() implies (
        #[trigger] s.threads[i].bag[m]) != a by {
            assert(s.heap.cells[s.threads[i].bag[m] as int].state == CellState::Bagged(i));
        }
        lemma_begun(s, s.begin_push(i, a), i, a);
    }
    lemma_begun(s, s.begin_pop(i), i, a);
    lemma_begun(s, s.begin_scan(i), i, a);
}

/// Beginning something with a cell that was free keeps what holds of all threads.
proof fn lemma_begun(s: HazardSystem, s2: HazardSystem, i: int, a: usize)
    requires
        s.inv(),
        0 <= i < s.threads.len(),
        s2.heap.inv(),
        s2.heap == s.heap || {
            &&& a < s.heap.cells.len()
            &&& s.heap.cells[a as int].state is Free
            &&& s2.heap == s.heap.with_state(a, CellState::Private(i))
        },
        s2.threads == s.threads.update(i, s2.threads[i]),
        s2.threads[i].bag == s.threads[i].bag,
        s2.thread_inv(i),
        relied_on(s2.threads[i]) is None,
        forall|j: int, p: usize|
            0 <= j < s.threads.len() ==> #[trigger] heeds(s2.threads[i], j, p),
    ensures
        s2.inv(),
{
    assert forall|j: int| 0 <= j < s2.threads.len() implies #[trigger] s2.thread_inv(j) by {
        assert(s.thread_inv(j));
        if j != i {
            lemma_others(s, s2, i, j, a);
        }
    }
    assert forall|x: int, y: int|
        0 <= x < s2.threads.len() && 0 <= y < s2.threads.len() implies #[trigger] s2.pair_inv(x, y) by {
        assert(s.pair_inv(x, y));
    }
}

/// A new thread keeps the invariant.
pub proof fn law_hazard_join(s: HazardSystem)
    requires
        s.inv(),
    ensures
        s.join().inv(),
{
    let s2 = s.join();
    assert forall|j: int| 0 <= j < s2.threads.len() implies #[trigger] s2.thread_inv(j) by {
        if j < s.threads.len() {
            assert(s.thread_inv(j));
            assert(s2.threads[j] == s.threads[j]);
        }
    }
    assert forall|x: int, y: int|
        0 <= x < s2.threads.len() && 0 <= y < s2.threads.len() implies #[trigger] s2.pair_inv(x, y) by {
        if x < s.threads.len() && y < s.threads.len() {
            assert(s.pair_inv(x, y));
        }
    }
}

/// Nobody touches a freed cell: a cell whose link is about to be read or whose value is about
/// to be taken has been on the stack and has not been freed since.
pub proof fn law_hazard_no_use_after_free(s: HazardSystem, i: int)
    requires
        s.inv(),
        0 <= i < s.threads.len(),
    ensures
        s.threads[i].pc matches HazardPc::Popping(op) ==> (op.action() matches HazardAction::Stack(
            a,
        ) ==> (a matches StackAction::ReadNext(p) ==> s.heap.held(p))),
        s.threads[i].pc matches HazardPc::Take(p) ==> s.heap.held(p),
{
    assert(s.thread_inv(i));
}

/// A pop takes the value on top, even if the address on top was freed and used again while the
/// pop was under way: an exchange that takes place sets the head to what really comes next.
pub proof fn law_hazard_pop_takes_the_top(s: HazardSystem, i: int, spurious: bool, k: int)
    requires
        s.inv(),
        0 <= i < s.threads.len(),
        s.threads[i].pc is Popping,
        s.step(i, spurious, k).threads[i].pc is Take,
    ensures
        s.heap.chain.len() > 0,
        s.step(i, spurious, k).threads[i].pc->Take_0 == s.heap.chain[0],
        s.step(i, spurious, k).heap.chain == s.heap.chain.drop_first(),
{
    assert(s.thread_inv(i));
}

/// A cell is freed only by the thread in whose bag it is, out of that bag, and only when no
/// thread relies on it.
pub proof fn law_hazard_frees_only_unused(s: HazardSystem, i: int, spurious: bool, k: int, a: usize, j: int)
    requires
        s.inv(),
        0 <= i < s.threads.len(),
        0 <= j < s.threads.len(),
        a < s.heap.cells.len(),
        !(s.heap.cells[a as int].state is Free),
        s.step(i, spurious, k).heap.cells[a as int].state is Free,
    ensures
        s.heap.cells[a as int].state == CellState::Bagged(i),
        s.threads[i].bag.contains(a),
        !s.step(i, spurious, k).threads[i].bag.contains(a),
        relied_on(s.threads[j]) != Some(a),
{
    assert(s.thread_inv(i));
    assert(s.thread_inv(j));
    assert(s.pair_inv(i, j));
    let t = s.threads[i];
    let bag2 = s.step(i, spurious, k).threads[i].bag;
    assert(t.pc is Reclaim);
    assert(t.bag[k] == a);
    if bag2.contains(a) {
        let m = choose|m: int| 0 <= m < bag2.len() && bag2[m] == a;
        let n = if m < k {
            m
        } else {
            m + 1
        };
        assert(t.bag[n] == a);
    }
}

/// A pop touches the node on top only after it has announced it and then found it on top still.
/// If it is on top no longer, the pop starts over. An exchange that did not take place makes it
/// start over too, with nothing announced.
pub proof fn law_pop_announces_before_it_touches(
    op: HazardPopOp,
    n: usize,
    h: Option<usize>,
    next: Option<usize>,
)
    requires
        op.pop.pc is Load,
        op.guard is Unset,
    ensures
        op.action() == HazardAction::Stack(StackAction::LoadHead),
        op.after(HazardEvent::Stack(StackEvent::Link(None))).pop.pc is Empty,
        ({
            let read = op.after(HazardEvent::Stack(StackEvent::Link(Some(n))));
            let announced = read.after(HazardEvent::Announced);
            let safe = announced.after(HazardEvent::Stack(StackEvent::Link(Some(n))));
            let ready = safe.after(HazardEvent::Stack(StackEvent::Link(next)));
            &&& read.action() == HazardAction::Announce(n)
            &&& announced.action() == HazardAction::Stack(StackAction::LoadHead)
            &&& h != Some(n) ==> announced.after(HazardEvent::Stack(StackEvent::Link(h))) == op
            &&& safe.action() == HazardAction::Stack(StackAction::ReadNext(n))
            &&& ready.action() == HazardAction::Stack(
                StackAction::CasHead { current: Some(n), new: next },
            )
            &&& ready.after(HazardEvent::Stack(StackEvent::Exchanged)).pop.pc == PopPc::Won(n)
            &&& ready.after(HazardEvent::Stack(StackEvent::Found(h))) == op
            &&& !read.pop.finished() && !announced.pop.finished()
            &&& !safe.pop.finished() && !ready.pop.finished()
        }),
{
}

} // verus!
