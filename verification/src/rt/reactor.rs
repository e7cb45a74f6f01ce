//! The table of timers.
//!
//! Each timer has a number, a moment at which it is due and the waker, by its number, of who waits
//! for it. A thread sleeps until the earliest timer is due, wakes up whoever waits for a timer
//! that is due by now, and starts over. Whoever registers a timer rouses that thread, since the
//! new timer may be the earliest.

use std::collections::HashMap;

use vstd::prelude::*;

verus! {

broadcast use vstd::std_specs::hash::group_hash_axioms;

/// What the table knows of one timer.
pub struct Slot {
    /// When the timer is due.
    pub deadline: u64,
    /// Whom to wake up. Nobody once that is done.
    pub waker: Option<u64>,
}

/// The table of timers.
pub struct Reactor {
    /// The timers by their numbers.
    pub slots: HashMap<u64, Slot>,
    /// The timers that nobody was woken up for yet, each as its deadline and its number, the
    /// earliest first.
    pub timers: Vec<(u64, u64)>,
    /// The number of the next timer.
    pub next_id: u64,
}

/// What a table holds.
#[verifier::ext_equal]
pub struct ReactorView {
    pub slots: Map<u64, Slot>,
    pub timers: Seq<(u64, u64)>,
    pub next_id: u64,
}

/// How many timers at the front are due at `now`.
pub open spec fn due_len(timers: Seq<(u64, u64)>, now: u64) -> nat
    decreases timers.len(),
{
    if timers.len() == 0 || timers[0].0 > now {
        0
    } else {
        1 + due_len(timers.drop_first(), now)
    }
}

/// The slot of a timer whose waiter was woken up if it was due at `now`.
pub open spec fn settled(s: Slot, now: u64) -> Slot {
    if s.deadline <= now {
        Slot { deadline: s.deadline, waker: None }
    } else {
        s
    }
}

/// The number after `id`. Behind the largest number the numbers start over.
pub open spec fn id_after(id: u64) -> u64 {
    if id == u64::MAX {
        0
    } else {
        (id + 1) as u64
    }
}

/// Whether an entry is that of another timer.
pub open spec fn other_than(id: u64) -> spec_fn((u64, u64)) -> bool {
    |t: (u64, u64)| t.1 != id
}

impl ReactorView {
    /// The timers that wait are sorted, each once, and are those of the slots that have a waker.
    pub open spec fn wf(self) -> bool {
        &&& forall|i: int, j: int|
            0 <= i < j < self.timers.len() ==> (#[trigger] self.timers[i]).0 <= (
            #[trigger] self.timers[j]).0 && self.timers[i].1 != self.timers[j].1
        &&& forall|i: int|
            0 <= i < self.timers.len() ==> {
                let t = #[trigger] self.timers[i];
                self.slots.contains_key(t.1) && self.slots[t.1].waker is Some
                    && self.slots[t.1].deadline == t.0
            }
        &&& forall|id: u64|
            #![trigger self.slots.contains_key(id)]
            self.slots.contains_key(id) && self.slots[id].waker is Some ==> self.timers.contains(
                (self.slots[id].deadline, id),
            )
    }

    /// Without timer `id`.
    pub open spec fn without(self, id: u64) -> ReactorView {
        ReactorView {
            slots: self.slots.remove(id),
            timers: self.timers.filter(other_than(id)),
            next_id: self.next_id,
        }
    }

    /// With a timer more, which is numbered `next_id`.
    pub open spec fn with(self, deadline: u64, waker: u64) -> ReactorView {
        let rest = self.without(self.next_id);
        ReactorView {
            slots: rest.slots.insert(self.next_id, Slot { deadline, waker: Some(waker) }),
            timers: rest.timers.insert(
                due_len(rest.timers, deadline) as int,
                (deadline, self.next_id),
            ),
            next_id: id_after(self.next_id),
        }
    }

    /// Whom to wake up at `now`, in the order in which their timers are due.
    pub open spec fn due(self, now: u64) -> Seq<u64> {
        Seq::new(
            due_len(self.timers, now),
            |i: int| self.slots[self.timers[i].1].waker->0,
        )
    }

    /// After those that are due at `now` were woken up.
    pub open spec fn drained(self, now: u64) -> ReactorView {
        ReactorView {
            slots: self.slots.map_values(|s: Slot| settled(s, now)),
            timers: self.timers.skip(due_len(self.timers, now) as int),
            next_id: self.next_id,
        }
    }

    /// When the earliest timer is due.
    pub open spec fn first_deadline(self) -> Option<u64> {
        if self.timers.len() == 0 {
            None
        } else {
            Some(self.timers[0].0)
        }
    }
}

/// The timers that are due are those at the front.
pub proof fn lemma_due_len(timers: Seq<(u64, u64)>, now: u64)
    requires
        forall|i: int, j: int|
            0 <= i < j < timers.len() ==> (#[trigger] timers[i]).0 <= (#[trigger] timers[j]).0,
    ensures
        due_len(timers, now) <= timers.len(),
        forall|i: int|
            0 <= i < timers.len() ==> ((#[trigger] timers[i]).0 <= now <==> i < due_len(
                timers,
                now,
            )),
    decreases timers.len(),
{
    if timers.len() > 0 && timers[0].0 <= now {
        let rest = timers.drop_first();
        assert forall|i: int, j: int| 0 <= i < j < rest.len() implies (#[trigger] rest[i]).0 <= (
        #[trigger] rest[j]).0 by {
            assert(rest[i] == timers[i + 1]);
            assert(rest[j] == timers[j + 1]);
        }
        lemma_due_len(rest, now);
        assert forall|i: int| 0 <= i < timers.len() implies ((#[trigger] timers[i]).0 <= now <==> i
            < due_len(timers, now)) by {
            if i > 0 {
                assert(rest[i - 1] == timers[i]);
            }
        }
    }
}

/// What is left of the timers without number `id`, and in which order.
proof fn lemma_filter(timers: Seq<(u64, u64)>, id: u64)
    requires
        forall|i: int, j: int|
            0 <= i < j < timers.len() ==> (#[trigger] timers[i]).0 <= (#[trigger] timers[j]).0
                && timers[i].1 != timers[j].1,
    ensures
        ({
            let rest = timers.filter(other_than(id));
            &&& forall|i: int, j: int|
                0 <= i < j < rest.len() ==> (#[trigger] rest[i]).0 <= (#[trigger] rest[j]).0
                    && rest[i].1 != rest[j].1
            &&& forall|i: int|
                0 <= i < rest.len() ==> timers.contains(#[trigger] rest[i]) && rest[i].1 != id
            &&& forall|t: (u64, u64)|
                timers.contains(t) && t.1 != id ==> #[trigger] rest.contains(t)
        }),
    decreases timers.len(),
{
    reveal(Seq::filter);
    let keep = other_than(id);
    let rest = timers.filter(keep);
    if timers.len() > 0 {
        let init = timers.drop_last();
        let init_rest = init.filter(keep);
        let last = timers.last();
        assert forall|i: int, j: int| 0 <= i < j < init.len() implies (#[trigger] init[i]).0 <= (
        #[trigger] init[j]).0 && init[i].1 != init[j].1 by {
            assert(init[i] == timers[i] && init[j] == timers[j]);
        }
        lemma_filter(init, id);
        assert(rest == if keep(last) {
            init_rest.push(last)
        } else {
            init_rest
        });
        assert forall|i: int| 0 <= i < rest.len() implies timers.contains(#[trigger] rest[i])
            && rest[i].1 != id by {
            if i < init_rest.len() {
                assert(init.contains(init_rest[i]));
                let k = choose|k: int| 0 <= k < init.len() && init[k] == init_rest[i];
                assert(timers[k] == init_rest[i]);
            } else {
                assert(rest[i] == timers[timers.len() - 1]);
            }
        }
        assert forall|i: int, j: int| 0 <= i < j < rest.len() implies (#[trigger] rest[i]).0 <= (
        #[trigger] rest[j]).0 && rest[i].1 != rest[j].1 by {
            if j == init_rest.len() {
                assert(init.contains(init_rest[i]));
                let k = choose|k: int| 0 <= k < init.len() && init[k] == init_rest[i];
                assert(timers[k] == init_rest[i]);
                assert(timers[timers.len() - 1] == rest[j]);
            } else {
                assert(rest[i] == init_rest[i] && rest[j] == init_rest[j]);
            }
        }
        assert forall|t: (u64, u64)| timers.contains(t) && t.1 != id implies #[trigger]
            rest.contains(t) by {
            let k = choose|k: int| 0 <= k < timers.len() && timers[k] == t;
            if k < init.len() {
                assert(init[k] == t);
                assert(init.contains(t));
                assert(init_rest.contains(t));
                let m = choose|m: int| 0 <= m < init_rest.len() && init_rest[m] == t;
                assert(rest[m] == t);
            } else {
                assert(rest[rest.len() - 1] == t);
            }
        }
    }
}

/// Taking a timer out keeps the table in order.
pub proof fn lemma_without(v: ReactorView, id: u64)
    requires
        v.wf(),
    ensures
        v.without(id).wf(),
{
    lemma_filter(v.timers, id);
    let w = v.without(id);
    assert forall|i: int| 0 <= i < w.timers.len() implies {
        let t = #[trigger] w.timers[i];
        w.slots.contains_key(t.1) && w.slots[t.1].waker is Some && w.slots[t.1].deadline == t.0
    } by {
        assert(v.timers.contains(w.timers[i]));
    }
    assert forall|k: u64|
        #![trigger w.slots.contains_key(k)]
        w.slots.contains_key(k) && w.slots[k].waker is Some implies w.timers.contains(
        (w.slots[k].deadline, k),
    ) by {
        assert(v.slots.contains_key(k));
        assert(v.timers.contains((v.slots[k].deadline, k)));
    }
}

/// A timer more keeps the table in order.
pub proof fn lemma_with(v: ReactorView, deadline: u64, waker: u64)
    requires
        v.wf(),
    ensures
        v.with(deadline, waker).wf(),
        due_len(v.without(v.next_id).timers, deadline) <= v.without(v.next_id).timers.len(),
{
    lemma_without(v, v.next_id);
    lemma_filter(v.timers, v.next_id);
    let rest = v.without(v.next_id);
    lemma_due_len(rest.timers, deadline);
    let k = due_len(rest.timers, deadline) as int;
    let w = v.with(deadline, waker);
    let entry = (deadline, v.next_id);
    assert forall|i: int| 0 <= i < w.timers.len() implies #[trigger] w.timers[i] == (if i < k {
        rest.timers[i]
    } else if i == k {
        entry
    } else {
        rest.timers[i - 1]
    }) by {}
    assert forall|i: int, j: int| 0 <= i < j < w.timers.len() implies (#[trigger] w.timers[i]).0 <= (
    #[trigger] w.timers[j]).0 && w.timers[i].1 != w.timers[j].1 by {}
    assert forall|id: u64|
        #![trigger w.slots.contains_key(id)]
        w.slots.contains_key(id) && w.slots[id].waker is Some implies w.timers.contains(
        (w.slots[id].deadline, id),
    ) by {
        if id == v.next_id {
            assert(w.timers[k] == entry);
        } else {
            assert(rest.slots.contains_key(id));
            let t = (rest.slots[id].deadline, id);
            assert(rest.timers.contains(t));
            let m = choose|m: int| 0 <= m < rest.timers.len() && rest.timers[m] == t;
            if m < k {
                assert(w.timers[m] == t);
            } else {
                assert(w.timers[m + 1] == t);
            }
        }
    }
}

/// Waking up those that are due keeps the table in order.
proof fn lemma_drained(v: ReactorView, now: u64)
    requires
        v.wf(),
    ensures
        v.drained(now).wf(),
        due_len(v.timers, now) <= v.timers.len(),
{
    lemma_due_len(v.timers, now);
    let w = v.drained(now);
    let k = due_len(v.timers, now) as int;
    assert forall|i: int, j: int| 0 <= i < j < w.timers.len() implies (#[trigger] w.timers[i]).0 <= (
    #[trigger] w.timers[j]).0 && w.timers[i].1 != w.timers[j].1 by {
        assert(w.timers[i] == v.timers[i + k] && w.timers[j] == v.timers[j + k]);
    }
    assert forall|i: int| 0 <= i < w.timers.len() implies {
        let t = #[trigger] w.timers[i];
        w.slots.contains_key(t.1) && w.slots[t.1].waker is Some && w.slots[t.1].deadline == t.0
    } by {
        assert(w.timers[i] == v.timers[i + k]);
    }
    assert forall|id: u64|
        #![trigger w.slots.contains_key(id)]
        w.slots.contains_key(id) && w.slots[id].waker is Some implies w.timers.contains(
        (w.slots[id].deadline, id),
    ) by {
        assert(v.slots.contains_key(id));
        let t = (v.slots[id].deadline, id);
        assert(v.timers.contains(t));
        let m = choose|m: int| 0 <= m < v.timers.len() && v.timers[m] == t;
        assert(w.timers[m - k] == t);
    }
}

/// The handle of a timer.
pub struct TimerRegistration {
    pub id: u64,
}

impl View for Reactor {
    type V = ReactorView;

    open spec fn view(&self) -> ReactorView {
        ReactorView { slots: self.slots@, timers: self.timers@, next_id: self.next_id }
    }
}

impl Reactor {
    pub open spec fn wf(self) -> bool {
        self@.wf()
    }

    /// A table without timers. The first one will be numbered 1.
    pub fn new() -> (r: Reactor)
        ensures
            r.wf(),
            r@ == (ReactorView { slots: Map::empty(), timers: Seq::empty(), next_id: 1 }),
    {
        let r = Reactor { slots: HashMap::new(), timers: Vec::new(), next_id: 1 };
        assert(r@ =~= (ReactorView { slots: Map::empty(), timers: Seq::empty(), next_id: 1 }));
        r
    }

    /// A number for a new timer.
    fn alloc_id(&mut self) -> (id: u64)
        ensures
            id == old(self).next_id,
            final(self).next_id == id_after(id),
            final(self).slots == old(self).slots,
            final(self).timers == old(self).timers,
    {
        let id: u64 = self.next_id;
        self.next_id = id.wrapping_add(1);
        id
    }

    /// Registers a timer that is due at `deadline`, for who is woken up by `waker`. The thread
    /// that serves the table must be roused afterwards.
    pub fn register_timer(&mut self, deadline: u64, waker: u64) -> (reg: TimerRegistration)
        requires
            old(self).wf(),
        ensures
            final(self).wf(),
            reg.id == old(self)@.next_id,
            final(self)@ == old(self)@.with(deadline, waker),
            final(self).slots@ == old(self).slots@.insert(
                reg.id,
                Slot { deadline, waker: Some(waker) },
            ),
            final(self).timers@.contains((deadline, reg.id)),
    {
        proof {
            lemma_with(self@, deadline, waker);
        }
        let id = self.alloc_id();
        self.remove(id);
        let ghost rest = self@;
        let mut i: usize = 0;
        proof {
            lemma_due_len(rest.timers, deadline);
        }
        while i < self.timers.len() && self.timers[i].0 <= deadline
            invariant
                i <= self.timers@.len(),
                self@ == rest,
                forall|j: int|
                    0 <= j < rest.timers.len() ==> ((#[trigger] rest.timers[j]).0 <= deadline <==> j
                        < due_len(rest.timers, deadline)),
                i <= due_len(rest.timers, deadline) <= rest.timers.len(),
            decreases self.timers.len() - i,
        {
            i += 1;
        }
        self.timers.insert(i, (deadline, id));
        self.slots.insert(id, Slot { deadline, waker: Some(waker) });
        assert(self@ =~= old(self)@.with(deadline, waker));
        assert(self.timers@[i as int] == (deadline, id));
        assert(self.slots@ =~= old(self).slots@.insert(id, Slot { deadline, waker: Some(waker) }));
        TimerRegistration { id }
    }

    /// Takes timer `id` out of the table, if it is there.
    fn remove(&mut self, id: u64)
        requires
            old(self).wf(),
        ensures
            final(self).wf(),
            final(self)@ == old(self)@.without(id),
    {
        proof {
            lemma_without(self@, id);
        }
        self.slots.remove(&id);
        let mut kept: Vec<(u64, u64)> = Vec::new();
        let mut i: usize = 0;
        while i < self.timers.len()
            invariant
                i <= self.timers@.len(),
                kept@ == self.timers@.take(i as int).filter(other_than(id)),
            decreases self.timers.len() - i,
        {
            proof {
                reveal(Seq::filter);
                assert(self.timers@.take(i + 1).drop_last() =~= self.timers@.take(i as int));
            }
            if self.timers[i].1 != id {
                kept.push(self.timers[i]);
            }
            i += 1;
        }
        assert(self.timers@.take(self.timers@.len() as int) =~= self.timers@);
        self.timers = kept;
        assert(self@ =~= old(self)@.without(id));
    }

    /// Takes a timer out of the table: nobody will be woken up for it.
    pub fn unregister(&mut self, reg: TimerRegistration)
        requires
            old(self).wf(),
        ensures
            final(self).wf(),
            final(self)@ == old(self)@.without(reg.id),
            final(self).slots@ == old(self).slots@.remove(reg.id),
            final(self).timers@ == old(self).timers@.filter(|t: (u64, u64)| t.1 != reg.id),
    {
        assert((|t: (u64, u64)| t.1 != reg.id) =~= other_than(reg.id));
        self.remove(reg.id);
    }

    /// Whom to wake up at `now`, in the order in which their timers are due, and when the next
    /// timer is due that is not due yet. The table then knows that it is done.
    pub fn drain_expired(&mut self, now: u64) -> (r: (Vec<u64>, Option<u64>))
        requires
            old(self).wf(),
        ensures
            final(self).wf(),
            r.0@ == old(self)@.due(now),
            r.1 == old(self)@.drained(now).first_deadline(),
            r.1 matches Some(d) ==> d > now,
            final(self)@ == old(self)@.drained(now),
            r.0@ == old(self).timers@.filter(|t: (u64, u64)| t.0 <= now).map_values(
                |t: (u64, u64)| old(self).slots@[t.1].waker->0,
            ),
            final(self).timers@ == old(self).timers@.filter(|t: (u64, u64)| t.0 > now),
            final(self).slots@.dom() == old(self).slots@.dom(),
            r.1 is None <==> final(self).timers@.len() == 0,
            r.1 matches Some(d) ==> d == final(self).timers@[0].0,
    {
        let ghost v = self@;
        let ghost k = due_len(v.timers, now) as int;
        proof {
            lemma_drained(v, now);
            lemma_due_len(v.timers, now);
        }
        let mut wakers: Vec<u64> = Vec::new();
        let mut rest: Vec<(u64, u64)> = Vec::new();
        let mut i: usize = 0;
        while i < self.timers.len()
            invariant
                i <= self.timers@.len(),
                v.wf(),
                self.timers@ == v.timers,
                self.next_id == v.next_id,
                k == due_len(v.timers, now),
                k <= v.timers.len(),
                forall|j: int|
                    0 <= j < v.timers.len() ==> ((#[trigger] v.timers[j]).0 <= now <==> j < k),
                i <= k ==> rest@.len() == 0 && wakers@ == v.due(now).take(i as int),
                i > k ==> rest@ == v.timers.subrange(k, i as int) && wakers@ == v.due(now),
                self.slots@.dom() == v.slots.dom(),
                forall|id: u64|
                    #![trigger self.slots@[id]]
                    v.slots.contains_key(id) ==> self.slots@[id] == (if v.timers.take(
                        i as int,
                    ).contains((v.slots[id].deadline, id)) {
                        settled(v.slots[id], now)
                    } else {
                        v.slots[id]
                    }),
            decreases self.timers.len() - i,
        {
            let (deadline, id) = self.timers[i];
            let ghost before = self.slots@;
            proof {
                let t = v.timers[i as int];
                assert(v.slots.contains_key(id));
                assert(self.slots@.dom().contains(id));
                assert(v.slots[id].deadline == deadline);
                assert(!v.timers.take(i as int).contains((deadline, id))) by {
                    if v.timers.take(i as int).contains((deadline, id)) {
                        let m = choose|m: int|
                            0 <= m < i && v.timers.take(i as int)[m] == (deadline, id);
                        assert(v.timers[m] == (deadline, id));
                    }
                }
                assert(self.slots@[id] == v.slots[id]);
                assert forall|x: (u64, u64)|
                    v.timers.take(i + 1).contains(x) == (#[trigger] v.timers.take(
                        i as int,
                    ).contains(x) || x == t) by {
                    let a = v.timers.take(i as int);
                    let b = v.timers.take(i + 1);
                    assert(b =~= a.push(t));
                    if a.contains(x) {
                        let m = choose|m: int| 0 <= m < a.len() && a[m] == x;
                        assert(b[m] == x);
                    }
                    if x == t {
                        assert(b[i as int] == t);
                    }
                }
            }
            if deadline <= now {
                assert(i < k);
                if let Some(slot) = self.slots.remove(&id) {
                    if let Some(w) = slot.waker {
                        wakers.push(w);
                    }
                    self.slots.insert(id, Slot { deadline: slot.deadline, waker: None });
                }
                assert(self.slots@.dom() =~= v.slots.dom());
                assert(wakers@ =~= v.due(now).take(i + 1));
            } else {
                rest.push((deadline, id));
                assert(rest@ =~= v.timers.subrange(k, i + 1));
                assert(v.due(now).take(k) =~= v.due(now));
            }
            i += 1;
        }
        self.timers = rest;
        proof {
            assert(v.timers.take(v.timers.len() as int) =~= v.timers);
            assert(v.due(now).take(k) =~= v.due(now));
            let w = v.drained(now);
            assert forall|id: u64| #[trigger] w.slots.contains_key(id) implies self.slots@[id]
                == w.slots[id] by {
                if v.slots[id].waker is Some {
                    assert(v.timers.contains((v.slots[id].deadline, id)));
                }
            }
            assert(self.slots@ =~= w.slots);
            assert(self.timers@ =~= w.timers);
            law_served_are_those_due(v, now);
            if w.timers.len() > 0 {
                assert(w.timers[0] == v.timers[k]);
            }
        }
        (wakers, self.next_deadline())
    }

    /// When the earliest timer that waits is due.
    pub fn next_deadline(&self) -> (d: Option<u64>)
        ensures
            d == self@.first_deadline(),
    {
        if self.timers.len() == 0 {
            None
        } else {
            Some(self.timers[0].0)
        }
    }

    /// How long to sleep from `now` on: until the earliest timer is due, not at all if it is
    /// already, and for as long as it takes if there is none.
    pub fn poll_timeout(&self, now: u64) -> (t: Option<u64>)
        ensures
            t == (match self@.first_deadline() {
                Some(d) => Some(
                    if d <= now {
                        0
                    } else {
                        (d - now) as u64
                    },
                ),
                None => None,
            }),
    {
        match self.next_deadline() {
            Some(d) => Some(
                if d <= now {
                    0
                } else {
                    d - now
                },
            ),
            None => None,
        }
    }
}

impl ReactorView {
    /// Whether somebody waits for timer `id`.
    pub open spec fn waits(self, id: u64) -> bool {
        self.slots.contains_key(id) && self.slots[id].waker is Some
    }

    /// Whether who waits for timer `id` is among those to wake up at `now`.
    pub open spec fn is_woken(self, id: u64, now: u64) -> bool {
        exists|i: int|
            0 <= i < self.due(now).len() && #[trigger] self.timers[i] == (
                self.slots[id].deadline,
                id,
            ) && self.due(now)[i] == self.slots[id].waker->0
    }
}

/// Everybody whose timer is due is woken up and nobody else, the earliest first, each once.
pub proof fn law_due_are_woken(v: ReactorView, now: u64)
    requires
        v.wf(),
    ensures
        forall|id: u64|
            v.waits(id) && v.slots[id].deadline <= now ==> #[trigger] v.is_woken(id, now),
        forall|i: int|
            0 <= i < v.due(now).len() ==> {
                let id = (#[trigger] v.timers[i]).1;
                v.waits(id) && v.slots[id].deadline <= now && v.due(now)[i] == v.slots[id].waker->0
            },
        forall|i: int, j: int|
            0 <= i < j < v.due(now).len() ==> (#[trigger] v.timers[i]).0 <= (
            #[trigger] v.timers[j]).0 && v.timers[i].1 != v.timers[j].1,
{
    lemma_due_len(v.timers, now);
    assert forall|id: u64| v.waits(id) && v.slots[id].deadline <= now implies #[trigger] v.is_woken(
        id,
        now,
    ) by {
        let t = (v.slots[id].deadline, id);
        assert(v.timers.contains(t));
        let m = choose|m: int| 0 <= m < v.timers.len() && v.timers[m] == t;
        assert(v.timers[m].0 <= now);
    }
}

/// Nobody is woken up twice for one timer: afterwards no timer that waits is due.
pub proof fn law_woken_once(v: ReactorView, now: u64)
    requires
        v.wf(),
    ensures
        v.drained(now).wf(),
        v.drained(now).due(now) == Seq::<u64>::empty(),
        forall|id: u64|
            #![trigger v.drained(now).waits(id)]
            v.drained(now).waits(id) <==> v.waits(id) && v.slots[id].deadline > now,
{
    lemma_drained(v, now);
    lemma_due_len(v.timers, now);
    let w = v.drained(now);
    if w.timers.len() > 0 {
        assert(w.timers[0] == v.timers[due_len(v.timers, now) as int]);
    }
    assert(w.due(now) =~= Seq::<u64>::empty());
    assert forall|id: u64| #[trigger] w.waits(id) <==> v.waits(id) && v.slots[id].deadline > now by {
        assert(w.slots.contains_key(id) == v.slots.contains_key(id));
    }
}

/// A timer that was taken out wakes nobody up, and the others are as they were.
pub proof fn law_unregistered_is_gone(v: ReactorView, id: u64)
    requires
        v.wf(),
    ensures
        v.without(id).wf(),
        !v.without(id).waits(id),
        forall|k: u64| k != id ==> (#[trigger] v.without(id).waits(k) <==> v.waits(k)),
        forall|k: u64|
            k != id && v.waits(k) ==> #[trigger] v.without(id).slots[k] == v.slots[k],
{
    lemma_without(v, id);
}

/// The first deadline is that of a timer that waits, and no other is due before it.
pub proof fn law_first_deadline_is_least(v: ReactorView)
    requires
        v.wf(),
    ensures
        v.first_deadline() is None ==> forall|id: u64| !#[trigger] v.waits(id),
        v.first_deadline() matches Some(d) ==> {
            &&& exists|id: u64| #[trigger] v.waits(id) && v.slots[id].deadline == d
            &&& forall|id: u64| #[trigger] v.waits(id) ==> d <= v.slots[id].deadline
        },
{
    if v.timers.len() > 0 {
        assert(v.waits(v.timers[0].1));
    }
    assert forall|id: u64| #[trigger] v.waits(id) implies v.first_deadline() is Some
        && v.first_deadline()->0 <= v.slots[id].deadline by {
        let t = (v.slots[id].deadline, id);
        assert(v.timers.contains(t));
        let m = choose|m: int| 0 <= m < v.timers.len() && v.timers[m] == t;
        if m > 0 {
            assert(v.timers[0].0 <= v.timers[m].0);
        }
    }
}

/// What the thread that serves the table is about to do.
pub enum ServerPc {
    /// Look up when the earliest timer is due.
    Look,
    /// Sleep until that moment, or until it is roused.
    Asleep { until: Option<u64> },
    /// Wake up those whose timers are due.
    Serve,
}

/// The table, the thread that serves it, and those who use it.
pub struct ReactorSystem {
    pub table: ReactorView,
    pub server: ServerPc,
    /// Whether somebody roused the server since it last woke up.
    pub roused: bool,
    /// How many have registered a timer and are about to rouse the server.
    pub rousing: nat,
    /// The time.
    pub now: u64,
}

/// What can happen.
pub enum ReactorStep {
    Register { deadline: u64, waker: u64 },
    Rouse,
    Unregister { id: u64 },
    Tick { now: u64 },
    Look,
    WakeUp,
    Serve,
}

impl ReactorSystem {
    /// Whether the server wakes up by itself.
    pub open spec fn server_wakes(self) -> bool {
        self.server matches ServerPc::Asleep { until } && (self.roused || (until is Some
            && until->0 <= self.now))
    }

    /// Nobody waits for less than the server sleeps, unless the server is about to be roused.
    pub open spec fn inv(self) -> bool {
        &&& self.table.wf()
        &&& self.server matches ServerPc::Asleep { until } ==> !self.roused && self.rousing == 0
            ==> forall|id: u64| #[trigger]
            self.table.waits(id) ==> until is Some && until->0 <= self.table.slots[id].deadline
    }

    /// Whether a step can happen.
    pub open spec fn can(self, step: ReactorStep) -> bool {
        match step {
            ReactorStep::Register { .. } => true,
            ReactorStep::Rouse => self.rousing > 0,
            ReactorStep::Unregister { .. } => true,
            ReactorStep::Tick { now } => self.now <= now,
            ReactorStep::Look => self.server is Look,
            ReactorStep::WakeUp => self.server is Asleep,
            ReactorStep::Serve => self.server is Serve,
        }
    }

    /// The system after a step.
    pub open spec fn next(self, step: ReactorStep) -> ReactorSystem {
        match step {
            ReactorStep::Register { deadline, waker } => ReactorSystem {
                table: self.table.with(deadline, waker),
                rousing: self.rousing + 1,
                ..self
            },
            ReactorStep::Rouse => ReactorSystem {
                roused: true,
                rousing: (self.rousing - 1) as nat,
                ..self
            },
            ReactorStep::Unregister { id } => ReactorSystem {
                table: self.table.without(id),
                ..self
            },
            ReactorStep::Tick { now } => ReactorSystem { now, ..self },
            ReactorStep::Look => ReactorSystem {
                server: ServerPc::Asleep { until: self.table.first_deadline() },
                ..self
            },
            ReactorStep::WakeUp => ReactorSystem { server: ServerPc::Serve, roused: false, ..self },
            ReactorStep::Serve => ReactorSystem {
                table: self.table.drained(self.now),
                server: ServerPc::Look,
                ..self
            },
        }
    }
}

/// A new table and its server.
pub proof fn law_reactor_start(now: u64)
    ensures
        (ReactorSystem {
            table: ReactorView { slots: Map::empty(), timers: Seq::empty(), next_id: 1 },
            server: ServerPc::Look,
            roused: false,
            rousing: 0,
            now,
        }).inv(),
{
}

/// Every step keeps the invariant.
pub proof fn law_reactor_step(s: ReactorSystem, step: ReactorStep)
    requires
        s.inv(),
        s.can(step),
    ensures
        s.next(step).inv(),
{
    match step {
        ReactorStep::Register { deadline, waker } => {
            lemma_with(s.table, deadline, waker);
        },
        ReactorStep::Unregister { id } => {
            lemma_without(s.table, id);
            law_unregistered_is_gone(s.table, id);
            let w = s.next(step);
            assert forall|k: u64| #[trigger] w.table.waits(k) implies s.table.waits(k)
                && s.table.slots[k] == w.table.slots[k] by {}
        },
        ReactorStep::Look => {
            law_first_deadline_is_least(s.table);
        },
        ReactorStep::Serve => {
            lemma_drained(s.table, s.now);
        },
        _ => {},
    }
}

/// No timer is served late: if somebody's timer is due and nobody is about to rouse the server,
/// the server does not go on sleeping. And once it has served, nobody's timer is due.
pub proof fn law_no_timer_is_missed(s: ReactorSystem)
    requires
        s.inv(),
    ensures
        (exists|id: u64| #[trigger] s.table.waits(id) && s.table.slots[id].deadline <= s.now)
            && s.rousing == 0 && s.server is Asleep ==> s.server_wakes(),
        s.server is Serve ==> forall|id: u64| #[trigger]
            s.next(ReactorStep::Serve).table.waits(id)
                ==> s.next(ReactorStep::Serve).table.slots[id].deadline > s.now,
{
    law_woken_once(s.table, s.now);
}

/// The number of the next timer is another one, and after the last number the first one comes.
pub proof fn law_numbers_differ(id: u64)
    ensures
        id_after(id) != id,
        id_after(id_after(id)) != id,
        id < u64::MAX ==> id_after(id) == id + 1,
        id == u64::MAX ==> id_after(id) == 0,
{
}

/// A new timer stands behind all that are due no later than it, and before all that are due later;
/// the others stay in their order.
pub proof fn law_registered_in_order(v: ReactorView, deadline: u64, waker: u64)
    requires
        v.wf(),
    ensures
        v.with(deadline, waker).slots == v.slots.insert(
            v.next_id,
            Slot { deadline, waker: Some(waker) },
        ),
        exists|p: int|
            #![trigger v.with(deadline, waker).timers[p]]
            {
                let t = v.with(deadline, waker).timers;
                &&& 0 <= p < t.len()
                &&& t[p] == (deadline, v.next_id)
                &&& t.remove(p) == v.timers.filter(|x: (u64, u64)| x.1 != v.next_id)
                &&& forall|j: int| 0 <= j < p ==> (#[trigger] t[j]).0 <= deadline
                &&& forall|j: int| p < j < t.len() ==> (#[trigger] t[j]).0 > deadline
            },
{
    let rest = v.without(v.next_id);
    lemma_with(v, deadline, waker);
    lemma_without(v, v.next_id);
    lemma_due_len(rest.timers, deadline);
    let p = due_len(rest.timers, deadline) as int;
    let t = v.with(deadline, waker).timers;
    assert((|x: (u64, u64)| x.1 != v.next_id) =~= other_than(v.next_id));
    assert(t[p] == (deadline, v.next_id));
    assert(t.remove(p) =~= rest.timers);
    assert forall|j: int| 0 <= j < p implies (#[trigger] t[j]).0 <= deadline by {
        assert(t[j] == rest.timers[j]);
    }
    assert forall|j: int| p < j < t.len() implies (#[trigger] t[j]).0 > deadline by {
        assert(t[j] == rest.timers[j - 1]);
    }
    assert(v.with(deadline, waker).slots =~= v.slots.insert(
        v.next_id,
        Slot { deadline, waker: Some(waker) },
    ));
}

/// When the table is served, exactly the timers whose moment has come leave it, and those whom they
/// were for are woken up, in the order of the moments; the entries stay, without anybody to wake.
pub proof fn law_served_are_those_due(v: ReactorView, now: u64)
    requires
        v.wf(),
    ensures
        v.due(now) == v.timers.filter(|t: (u64, u64)| t.0 <= now).map_values(
            |t: (u64, u64)| v.slots[t.1].waker->0,
        ),
        v.drained(now).timers == v.timers.filter(|t: (u64, u64)| t.0 > now),
        v.drained(now).slots.dom() == v.slots.dom(),
        forall|id: u64| #[trigger]
            v.slots.contains_key(id) ==> {
                &&& v.drained(now).slots[id].deadline == v.slots[id].deadline
                &&& v.drained(now).slots[id].waker == if v.slots[id].deadline <= now {
                    None
                } else {
                    v.slots[id].waker
                }
            },
        v.drained(now).next_id == v.next_id,
{
    lemma_due_len(v.timers, now);
    lemma_split(v.timers, now);
    let k = due_len(v.timers, now) as int;
    let waker = |t: (u64, u64)| v.slots[t.1].waker->0;
    assert(v.due(now) =~= v.timers.take(k).map_values(waker));
    assert(v.drained(now).slots.dom() =~= v.slots.dom());
}

/// Where the moments do not fall, those that have come stand first.
proof fn lemma_split(timers: Seq<(u64, u64)>, now: u64)
    requires
        forall|i: int, j: int|
            0 <= i < j < timers.len() ==> (#[trigger] timers[i]).0 <= (#[trigger] timers[j]).0,
    ensures
        due_len(timers, now) <= timers.len(),
        timers.filter(|t: (u64, u64)| t.0 <= now) == timers.take(due_len(timers, now) as int),
        timers.filter(|t: (u64, u64)| t.0 > now) == timers.skip(due_len(timers, now) as int),
{
    lemma_due_len(timers, now);
    lemma_split_at(timers, now, due_len(timers, now) as int);
}

proof fn lemma_split_at(timers: Seq<(u64, u64)>, now: u64, k: int)
    requires
        0 <= k <= timers.len(),
        forall|i: int| 0 <= i < timers.len() ==> ((#[trigger] timers[i]).0 <= now <==> i < k),
    ensures
        timers.filter(|t: (u64, u64)| t.0 <= now) == timers.take(k),
        timers.filter(|t: (u64, u64)| t.0 > now) == timers.skip(k),
    decreases timers.len(),
{
    reveal(Seq::filter);
    if timers.len() > 0 {
        let rest = timers.drop_last();
        if k == timers.len() {
            lemma_split_at(rest, now, k - 1);
            assert(rest.take(k - 1) =~= rest);
            assert(timers.take(k) =~= rest.push(timers.last()));
            assert(rest.skip(k - 1) =~= timers.skip(k));
        } else {
            lemma_split_at(rest, now, k);
            assert(timers.take(k) =~= rest.take(k));
            assert(timers.skip(k) =~= rest.skip(k).push(timers.last()));
        }
    } else {
        assert(timers.take(k) =~= timers);
        assert(timers.skip(k) =~= timers);
    }
}

} // verus!
