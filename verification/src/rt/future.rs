//! Computations that are advanced by polling.

use vstd::prelude::*;

use crate::rt::reactor;
use crate::rt::reactor::Reactor;
use crate::rt::reactor::ReactorView;
use crate::rt::reactor::TimerRegistration;

verus! {

/// The outcome of a poll.
#[derive(Debug, Clone, PartialEq, Eq)]
pub enum Poll<T> {
    /// The computation has ended.
    Ready(T),
    /// The computation waits for something.
    Pending,
}

impl<T> Poll<T> {
    /// Whether the computation has ended.
    pub fn is_ready(&self) -> (b: bool)
        ensures
            b == (self is Ready),
    {
        matches!(self, Poll::Ready(_))
    }

    /// Whether the computation waits.
    pub fn is_pending(&self) -> (b: bool)
        ensures
            b == (self is Pending),
    {
        matches!(self, Poll::Pending)
    }
}

/// With what a computation is polled.
pub struct Context {
    /// The time.
    pub now: u64,
    /// Who is to be woken up when polling again makes sense, by number.
    pub waker: u64,
    /// The table of timers.
    pub reactor: Reactor,
    /// Whether the waker was woken up during the poll.
    pub woken: bool,
}

/// What a context holds.
#[verifier::ext_equal]
pub struct ContextView {
    pub now: u64,
    pub waker: u64,
    pub reactor: ReactorView,
    pub woken: bool,
}

impl ContextView {
    /// The context as a poll finds it: nobody has woken the waker up yet.
    pub open spec fn fresh(self) -> ContextView {
        ContextView { woken: false, ..self }
    }
}

impl View for Context {
    type V = ContextView;

    open spec fn view(&self) -> ContextView {
        ContextView {
            now: self.now,
            waker: self.waker,
            reactor: self.reactor@,
            woken: self.woken,
        }
    }
}

impl Context {
    pub open spec fn wf(self) -> bool {
        self.reactor.wf()
    }

    /// A context at time `now` for who is woken up by `waker`, with a table without timers.
    pub fn new(now: u64, waker: u64) -> (cx: Context)
        ensures
            cx.wf(),
            cx@.now == now,
            cx@.waker == waker,
            !cx@.woken,
            cx@.reactor == (ReactorView {
                slots: Map::empty(),
                timers: Seq::empty(),
                next_id: 1,
            }),
    {
        Context { now, waker, reactor: Reactor::new(), woken: false }
    }

    /// Wakes the waker up, at once: who polls is to poll again.
    pub fn wake_by_ref(&mut self)
        ensures
            final(self)@ == (ContextView { woken: true, ..old(self)@ }),
            final(self).wf() == old(self).wf(),
    {
        self.woken = true;
    }
}

/// A computation that is advanced by polling. One that says nothing more about itself may always be
/// polled, with any outcome.
pub trait Future: Sized {
    /// What the computation ends with.
    type Output;

    /// Whether it may be polled.
    open spec fn pollable(&self) -> bool {
        true
    }

    /// Whether it may end with `v`.
    open spec fn outputs(&self, v: Self::Output) -> bool {
        true
    }

    /// Whether polling `before` with `c0` may have the outcome `r` and leave `after` and `c1`.
    open spec fn polled(
        before: Self,
        c0: ContextView,
        after: Self,
        c1: ContextView,
        r: Poll<Self::Output>,
    ) -> bool {
        true
    }

    /// The table of timers once the computation has been given up: without what it has registered.
    open spec fn left(&self, table: ReactorView) -> ReactorView {
        table
    }

    /// Advances the computation as far as it goes. If it waits, it has seen to it that the waker
    /// of the context is woken up.
    fn poll(&mut self, cx: &mut Context) -> (r: Poll<Self::Output>)
        requires
            old(self).pollable(),
            old(cx).wf(),
        ensures
            Self::polled(*old(self), old(cx)@, *final(self), final(cx)@, r),
            final(cx).wf(),
            final(cx)@.now == old(cx)@.now,
            final(cx)@.waker == old(cx)@.waker,
            old(cx)@.woken ==> final(cx)@.woken,
            r matches Poll::Ready(v) ==> old(self).outputs(v),
            r is Pending ==> final(self).pollable(),
            r is Pending ==> forall|v: Self::Output| #[trigger]
                final(self).outputs(v) ==> old(self).outputs(v),
    ;

    /// Gives the computation up, be it that it has ended or that nobody wants to know. What it has
    /// registered leaves the table.
    fn leave(&mut self, reactor: &mut Reactor)
        requires
            old(reactor).wf(),
        ensures
            final(reactor).wf(),
            final(reactor)@ == old(self).left(old(reactor)@),
    ;
}

/// A context once the computation has been given up.
pub open spec fn given_up<F: Future>(f: F, cx: ContextView) -> ContextView {
    ContextView { reactor: f.left(cx.reactor), ..cx }
}

/// The table of timers once a computation, if there is one, has been given up.
pub open spec fn left_by<F: Future>(f: Option<F>, table: ReactorView) -> ReactorView {
    match f {
        Some(g) => g.left(table),
        None => table,
    }
}

/// Gives a computation up, if there is one.
pub fn leave_if_some<F: Future>(f: &mut Option<F>, reactor: &mut Reactor)
    requires
        old(reactor).wf(),
    ensures
        final(reactor).wf(),
        final(reactor)@ == left_by(*old(f), old(reactor)@),
        *final(f) is None,
{
    if let Some(g) = f.take() {
        let mut g = g;
        g.leave(reactor);
    }
}

/// Whether a poll of `before` with `c0` may have the outcome `r` and leave `after` and `c1`, where a
/// future that has ended is given up and nothing is said of what remains of it. The poll is as the
/// future says of itself, the time and the waker are left alone, the table of timers is in order
/// and no wake-up is forgotten.
pub open spec fn steps<F: Future>(
    before: F,
    c0: ContextView,
    after: F,
    c1: ContextView,
    r: Poll<F::Output>,
) -> bool {
    &&& c1.now == c0.now
    &&& c1.waker == c0.waker
    &&& c1.reactor.wf()
    &&& c0.woken ==> c1.woken
    &&& match r {
        Poll::Pending => F::polled(before, c0, after, c1, r),
        Poll::Ready(_) => exists|g: F, cm: ContextView| #[trigger]
            F::polled(before, c0, g, cm, r) && c1 == given_up(g, cm),
    }
}

/// Polls a future, and gives it up if it has ended.
pub fn step<F: Future>(f: &mut F, cx: &mut Context) -> (r: Poll<F::Output>)
    requires
        old(f).pollable(),
        old(cx).wf(),
    ensures
        steps(*old(f), old(cx)@, *final(f), final(cx)@, r),
        final(cx).wf(),
        r matches Poll::Ready(v) ==> old(f).outputs(v),
        r is Pending ==> final(f).pollable(),
        r is Pending ==> forall|v: F::Output| #[trigger]
            final(f).outputs(v) ==> old(f).outputs(v),
{
    let r = f.poll(cx);
    if r.is_ready() {
        let ghost cm = cx@;
        let ghost g = *f;
        f.leave(&mut cx.reactor);
        assert(cx@ == given_up(g, cm));
    }
    r
}

/// A computation that has ended already.
pub struct Ready<T>(pub Option<T>);

impl<T> Ready<T> {
    /// A computation that ends with `v` when it is polled.
    pub fn new(v: T) -> (f: Ready<T>)
        ensures
            f.0 == Some(v),
    {
        Ready(Some(v))
    }
}

impl<T> Future for Ready<T> {
    type Output = T;

    open spec fn pollable(&self) -> bool {
        self.0 is Some
    }

    open spec fn outputs(&self, v: T) -> bool {
        self.0 == Some(v)
    }

    open spec fn polled(
        before: Self,
        c0: ContextView,
        after: Self,
        c1: ContextView,
        r: Poll<T>,
    ) -> bool {
        &&& before.0 matches Some(v)
        &&& r == Poll::Ready(v)
        &&& after.0 is None
        &&& c1 == c0
    }

    fn poll(&mut self, cx: &mut Context) -> (r: Poll<T>) {
        match self.0.take() {
            Some(v) => Poll::Ready(v),
            None => Poll::Pending,
        }
    }

    fn leave(&mut self, reactor: &mut Reactor) {
    }
}

/// A computation that ends when a moment has come.
pub struct Delay {
    /// The moment.
    pub deadline: u64,
    /// The timer that was registered when it was last polled.
    pub registration: Option<TimerRegistration>,
}

impl Delay {
    /// The table without the timer of this computation.
    pub open spec fn released(self, table: ReactorView) -> ReactorView {
        match self.registration {
            Some(reg) => table.without(reg.id),
            None => table,
        }
    }

    /// A computation that ends when `after` has passed since `now`.
    pub fn new(now: u64, after: u64) -> (d: Delay)
        requires
            now + after <= u64::MAX,
        ensures
            d.deadline == now + after,
            d.registration is None,
    {
        Delay { deadline: now + after, registration: None }
    }

    /// Takes the timer of this computation out of the table.
    pub fn cancel(&mut self, reactor: &mut Reactor)
        requires
            old(reactor).wf(),
        ensures
            final(reactor).wf(),
            final(reactor)@ == old(self).released(old(reactor)@),
            *final(self) == (Delay { registration: None, ..*old(self) }),
    {
        if let Some(reg) = self.registration.take() {
            reactor.unregister(reg);
        }
    }
}

impl Future for Delay {
    type Output = ();

    open spec fn pollable(&self) -> bool {
        true
    }

    open spec fn outputs(&self, v: ()) -> bool {
        true
    }

    open spec fn polled(
        before: Self,
        c0: ContextView,
        after: Self,
        c1: ContextView,
        r: Poll<()>,
    ) -> bool {
        let table = before.released(c0.reactor);
        if c0.now >= before.deadline {
            &&& r is Ready
            &&& after == before
            &&& c1 == c0
        } else {
            &&& r is Pending
            &&& after == Delay {
                deadline: before.deadline,
                registration: Some(TimerRegistration { id: table.next_id }),
            }
            &&& c1 == ContextView { reactor: table.with(before.deadline, c0.waker), ..c0 }
        }
    }

    open spec fn left(&self, table: ReactorView) -> ReactorView {
        self.released(table)
    }

    fn leave(&mut self, reactor: &mut Reactor) {
        self.cancel(reactor);
    }

    fn poll(&mut self, cx: &mut Context) -> (r: Poll<()>) {
        if cx.now >= self.deadline {
            return Poll::Ready(());
        }
        self.cancel(&mut cx.reactor);
        let reg = cx.reactor.register_timer(self.deadline, cx.waker);
        self.registration = Some(reg);
        Poll::Pending
    }
}

/// A delay ends exactly when its moment has come, not before and not after. Until then a timer for
/// that moment waits, with the waker of the last poll. A delay that has ended keeps its timer until
/// it is given up.
pub proof fn law_delay_is_exact(
    before: Delay,
    c0: ContextView,
    after: Delay,
    c1: ContextView,
    r: Poll<()>,
)
    requires
        Delay::polled(before, c0, after, c1, r),
        c0.reactor.wf(),
    ensures
        r is Ready <==> c0.now >= before.deadline,
        after.deadline == before.deadline,
        r is Ready ==> after == before && c1 == c0,
        r is Pending ==> {
            &&& after.registration matches Some(reg)
            &&& c1.reactor.waits(reg.id)
            &&& c1.reactor.slots[reg.id].deadline == before.deadline
            &&& c1.reactor.slots[reg.id].waker == Some(c0.waker)
        },
        after.registration matches Some(reg) ==> !given_up(after, c1).reactor.waits(reg.id),
{
}

/// A delay that waits is woken up when its moment comes, at whatever time after it the table is
/// served, and not before.
pub proof fn law_delay_is_woken(
    before: Delay,
    c0: ContextView,
    after: Delay,
    c1: ContextView,
    t: u64,
)
    requires
        Delay::polled(before, c0, after, c1, Poll::Pending),
        c0.reactor.wf(),
    ensures
        after.registration is Some,
        t >= before.deadline ==> c1.reactor.is_woken(after.registration->0.id, t)
            && c1.reactor.due(t).contains(c0.waker),
        t < before.deadline ==> !c1.reactor.is_woken(after.registration->0.id, t),
{
    law_delay_is_exact(before, c0, after, c1, Poll::Pending);
    let table = before.released(c0.reactor);
    if let Some(reg) = before.registration {
        reactor::lemma_without(c0.reactor, reg.id);
    }
    reactor::lemma_with(table, before.deadline, c0.waker);
    reactor::law_due_are_woken(c1.reactor, t);
    let v = c1.reactor;
    let id = after.registration->0.id;
    if t >= before.deadline {
        assert(v.is_woken(id, t));
        let i = choose|i: int|
            0 <= i < v.due(t).len() && #[trigger] v.timers[i] == (v.slots[id].deadline, id)
                && v.due(t)[i] == v.slots[id].waker->0;
        assert(v.due(t)[i] == c0.waker);
    }
}

/// Which of two futures ended first, with what, and the other one.
pub enum SelectOutput<A: Future, B: Future> {
    Left(A::Output, B),
    Right(B::Output, A),
}

/// Polls two futures in turn, once each, and tells whether one of them has ended. If `a` has, `b`
/// is not polled. If neither has, both are handed back, to be polled again.
pub fn select<A: Future, B: Future>(a: A, b: B, cx: &mut Context) -> (r: Result<
    SelectOutput<A, B>,
    (A, B),
>)
    requires
        a.pollable(),
        b.pollable(),
        old(cx).wf(),
    ensures
        final(cx).wf(),
        selected(a, b, old(cx)@, final(cx)@, r),
        r matches Err(rest) ==> rest.0.pollable() && rest.1.pollable(),
{
    let mut a = a;
    let mut b = b;
    match step(&mut a, cx) {
        Poll::Ready(v) => {
            return Ok(SelectOutput::Left(v, b));
        },
        Poll::Pending => {},
    }
    match step(&mut b, cx) {
        Poll::Ready(v) => Ok(SelectOutput::Right(v, a)),
        Poll::Pending => Err((a, b)),
    }
}

/// Whether polling `a`, and `b` if that is pending, may have the outcome `r`.
pub open spec fn selected<A: Future, B: Future>(
    a: A,
    b: B,
    c0: ContextView,
    c1: ContextView,
    r: Result<SelectOutput<A, B>, (A, B)>,
) -> bool {
    exists|a1: A, cm: ContextView, ra: Poll<A::Output>| #[trigger]
        steps(a, c0, a1, cm, ra) && match ra {
            Poll::Ready(v) => r == Ok::<_, (A, B)>(SelectOutput::<A, B>::Left(v, b)) && c1 == cm,
            Poll::Pending => exists|b1: B, rb: Poll<B::Output>| #[trigger]
                steps(b, cm, b1, c1, rb) && match rb {
                    Poll::Ready(v) => r == Ok::<_, (A, B)>(SelectOutput::<A, B>::Right(v, a1)),
                    Poll::Pending => r == Err::<SelectOutput<A, B>, _>((a1, b1)),
                },
        }
}

/// A step polls the future with what it is given, once, and when the future ends takes out of the
/// table what the future says it has there, and nothing else.
pub proof fn law_step_polls<F: Future>(
    before: F,
    c0: ContextView,
    after: F,
    c1: ContextView,
    r: Poll<F::Output>,
)
    requires
        steps(before, c0, after, c1, r),
    ensures
        r is Pending ==> F::polled(before, c0, after, c1, r),
        r is Ready ==> exists|g: F, cm: ContextView| #[trigger]
            F::polled(before, c0, g, cm, r) && c1 == (ContextView {
                reactor: g.left(cm.reactor),
                ..cm
            }),
        c1.now == c0.now,
        c1.waker == c0.waker,
        c0.woken ==> c1.woken,
{
    if r is Ready {
        let (g, cm) = choose|g: F, cm: ContextView| #[trigger]
            F::polled(before, c0, g, cm, r) && c1 == given_up(g, cm);
        assert(F::polled(before, c0, g, cm, r));
    }
}

/// A delay changes nothing in the table but its own entry. When it is pending, the entry that it
/// had is gone, and there is one with its moment and the waker, under the number that was next; all
/// others are as they were.
pub proof fn law_delay_touches_its_own_timer(
    before: Delay,
    c0: ContextView,
    after: Delay,
    c1: ContextView,
    r: Poll<()>,
    id: u64,
)
    requires
        Delay::polled(before, c0, after, c1, r),
        c0.reactor.wf(),
        id != c0.reactor.next_id,
        before.registration matches Some(reg) ==> reg.id != id,
    ensures
        c1.now == c0.now && c1.waker == c0.waker && c1.woken == c0.woken,
        c1.reactor.slots.contains_key(id) == c0.reactor.slots.contains_key(id),
        c0.reactor.slots.contains_key(id) ==> c1.reactor.slots[id] == c0.reactor.slots[id],
        r is Pending ==> {
            &&& after.registration == Some(TimerRegistration { id: c0.reactor.next_id })
            &&& c1.reactor.slots.contains_key(c0.reactor.next_id)
            &&& c1.reactor.slots[c0.reactor.next_id].deadline == before.deadline
            &&& c1.reactor.slots[c0.reactor.next_id].waker == Some(c0.waker)
            &&& before.registration matches Some(reg) ==> reg.id != c0.reactor.next_id
                ==> !c1.reactor.slots.contains_key(reg.id)
        },
{
}

/// Giving a delay up takes its entry out of the table, and no other.
pub proof fn law_delay_given_up(d: Delay, table: ReactorView, id: u64)
    ensures
        d.registration matches Some(reg) ==> !d.left(table).slots.contains_key(reg.id),
        (d.registration matches Some(reg) ==> reg.id != id) ==> {
            &&& d.left(table).slots.contains_key(id) == table.slots.contains_key(id)
            &&& table.slots.contains_key(id) ==> d.left(table).slots[id] == table.slots[id]
        },
        d.left(table).next_id == table.next_id,
{
}

/// A future that has ended already ends in the first poll, with its value, and touches nothing.
pub proof fn law_ready_ends_at_once<T>(
    before: Ready<T>,
    c0: ContextView,
    after: Ready<T>,
    c1: ContextView,
    r: Poll<T>,
)
    requires
        Ready::polled(before, c0, after, c1, r),
    ensures
        before.0 is Some,
        r == Poll::Ready(before.0->0),
        c1 == c0,
{
}

/// Selecting polls both unless the first one ends: if `a` ends, `b` is handed back untouched; if `b`
/// ends, `a` was polled before it and is handed back as that left it; if both are pending, both were
/// polled, one after the other.
pub proof fn law_select_polls_both<A: Future, B: Future>(
    a: A,
    b: B,
    c0: ContextView,
    c1: ContextView,
    r: Result<SelectOutput<A, B>, (A, B)>,
)
    requires
        selected(a, b, c0, c1, r),
    ensures
        r matches Ok(SelectOutput::Left(v, other)) ==> other == b && exists|
            a1: A,
            cm: ContextView,
            p: Poll<A::Output>,
        | #[trigger]
            A::polled(a, c0, a1, cm, p) && p == Poll::Ready(v) && c1 == (ContextView {
                reactor: a1.left(cm.reactor),
                ..cm
            }),
        r matches Ok(SelectOutput::Right(v, other)) ==> exists|
            cm: ContextView,
            q: Poll<A::Output>,
            b1: B,
            cn: ContextView,
            p: Poll<B::Output>,
        | #[trigger]
            A::polled(a, c0, other, cm, q) && q is Pending && #[trigger] B::polled(b, cm, b1, cn, p)
                && p == Poll::Ready(v) && c1 == (ContextView { reactor: b1.left(cn.reactor), ..cn }),
        r matches Err(rest) ==> exists|
            cm: ContextView,
            q: Poll<A::Output>,
            p: Poll<B::Output>,
        | #[trigger]
            A::polled(a, c0, rest.0, cm, q) && q is Pending && #[trigger] B::polled(
                b,
                cm,
                rest.1,
                c1,
                p,
            ) && p is Pending,
{
    let (a1, cm, ra) = choose|a1: A, cm: ContextView, ra: Poll<A::Output>| #[trigger]
        steps(a, c0, a1, cm, ra) && match ra {
            Poll::Ready(v) => r == Ok::<_, (A, B)>(SelectOutput::<A, B>::Left(v, b)) && c1 == cm,
            Poll::Pending => exists|b1: B, rb: Poll<B::Output>| #[trigger]
                steps(b, cm, b1, c1, rb) && match rb {
                    Poll::Ready(v) => r == Ok::<_, (A, B)>(SelectOutput::<A, B>::Right(v, a1)),
                    Poll::Pending => r == Err::<SelectOutput<A, B>, _>((a1, b1)),
                },
        };
    law_step_polls(a, c0, a1, cm, ra);
    if let Poll::Ready(v) = ra {
        let (a2, ck) = choose|a2: A, ck: ContextView| #[trigger]
            A::polled(a, c0, a2, ck, ra) && cm == (ContextView {
                reactor: a2.left(ck.reactor),
                ..ck
            });
        assert(A::polled(a, c0, a2, ck, ra));
    }
    if ra is Pending {
        let (b1, rb) = choose|b1: B, rb: Poll<B::Output>| #[trigger]
            steps(b, cm, b1, c1, rb) && match rb {
                Poll::Ready(v) => r == Ok::<_, (A, B)>(SelectOutput::<A, B>::Right(v, a1)),
                Poll::Pending => r == Err::<SelectOutput<A, B>, _>((a1, b1)),
            };
        law_step_polls(b, cm, b1, c1, rb);
        assert(A::polled(a, c0, a1, cm, ra));
        if rb is Ready {
            let (b2, cn) = choose|b2: B, cn: ContextView| #[trigger]
                B::polled(b, cm, b2, cn, rb) && c1 == (ContextView {
                    reactor: b2.left(cn.reactor),
                    ..cn
                });
            assert(B::polled(b, cm, b2, cn, rb));
        }
        if let Ok(SelectOutput::Right(v, other)) = r {
            assert(A::polled(a, c0, other, cm, ra));
        }
        if let Err(rest) = r {
            assert(A::polled(a, c0, rest.0, cm, ra));
            assert(B::polled(b, cm, rest.1, c1, rb));
        }
    }
}

/// Of two delays, whichever moment has come first is selected, whatever timers are in the table.
pub proof fn law_select_of_delays(
    a: Delay,
    b: Delay,
    c0: ContextView,
    c1: ContextView,
    r: Result<SelectOutput<Delay, Delay>, (Delay, Delay)>,
)
    requires
        selected(a, b, c0, c1, r),
    ensures
        r is Err <==> c0.now < a.deadline && c0.now < b.deadline,
        c0.now >= a.deadline ==> r == Ok::<_, (Delay, Delay)>(
            SelectOutput::<Delay, Delay>::Left((), b),
        ),
        c0.now < a.deadline && c0.now >= b.deadline ==> (r matches Ok(SelectOutput::Right(_, d))
            && d.deadline == a.deadline),
{
    law_select_polls_both(a, b, c0, c1, r);
}

} // verus!
