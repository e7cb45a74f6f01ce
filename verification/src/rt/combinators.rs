//! Futures made of other futures.

use vstd::prelude::*;

use crate::rt::future;
use crate::rt::future::Context;
use crate::rt::future::ContextView;
use crate::rt::future::Delay;
use crate::rt::future::Future;
use crate::rt::future::Poll;
use crate::rt::reactor;
use crate::rt::reactor::Reactor;
use crate::rt::reactor::ReactorView;

pub use crate::rt::future::Ready;

verus! {

/// Which of two futures ended first, with what, and the other one.
pub enum RaceOutput<A: Future, B: Future> {
    Left(A::Output, B),
    Right(B::Output, A),
}

/// Two futures of which the first to end wins.
pub struct Race<A, B> {
    pub a: Option<A>,
    pub b: Option<B>,
}

impl<A: Future, B: Future> Race<A, B> {
    /// A race between two futures.
    pub fn new(a: A, b: B) -> (f: Race<A, B>)
        ensures
            f.a == Some(a),
            f.b == Some(b),
    {
        Race { a: Some(a), b: Some(b) }
    }
}

/// A race between two futures.
pub fn race<A: Future, B: Future>(a: A, b: B) -> (f: Race<A, B>)
    ensures
        f.a == Some(a),
        f.b == Some(b),
{
    Race::new(a, b)
}

/// Whether polling `a`, and `b` if that is pending, may have the outcome `r` and leave what is
/// left of both.
pub open spec fn raced<A: Future, B: Future>(
    a: A,
    b: B,
    c0: ContextView,
    left: Option<(A, B)>,
    c1: ContextView,
    r: Poll<RaceOutput<A, B>>,
) -> bool {
    exists|a1: A, cm: ContextView, ra: Poll<A::Output>| #[trigger]
        future::steps(a, c0, a1, cm, ra) && match ra {
            Poll::Ready(v) => r == Poll::Ready(RaceOutput::<A, B>::Left(v, b)) && left is None
                && c1 == cm,
            Poll::Pending => exists|b1: B, rb: Poll<B::Output>| #[trigger]
                future::steps(b, cm, b1, c1, rb) && match rb {
                    Poll::Ready(v) => r == Poll::Ready(RaceOutput::<A, B>::Right(v, a1))
                        && left is None,
                    Poll::Pending => r is Pending && left == Some((a1, b1)),
                },
        }
}

impl<A: Future, B: Future> Future for Race<A, B> {
    type Output = RaceOutput<A, B>;

    open spec fn pollable(&self) -> bool {
        match (self.a, self.b) {
            (Some(a), Some(b)) => a.pollable() && b.pollable(),
            (None, None) => true,
            _ => false,
        }
    }

    open spec fn outputs(&self, v: RaceOutput<A, B>) -> bool {
        match v {
            RaceOutput::Left(x, _) => self.a is Some && self.a->0.outputs(x),
            RaceOutput::Right(y, _) => self.b is Some && self.b->0.outputs(y),
        }
    }

    open spec fn polled(
        before: Self,
        c0: ContextView,
        after: Self,
        c1: ContextView,
        r: Poll<RaceOutput<A, B>>,
    ) -> bool {
        match (before.a, before.b) {
            (Some(a), Some(b)) => {
                &&& after.a is Some <==> after.b is Some
                &&& raced(
                    a,
                    b,
                    c0,
                    if after.a is Some {
                        Some((after.a->0, after.b->0))
                    } else {
                        None
                    },
                    c1,
                    r,
                )
            },
            _ => r is Pending && after == before && c1 == c0,
        }
    }

    fn poll(&mut self, cx: &mut Context) -> (r: Poll<RaceOutput<A, B>>) {
        match (self.a.take(), self.b.take()) {
            (Some(a), Some(b)) => {
                let mut a = a;
                let mut b = b;
                match future::step(&mut a, cx) {
                    Poll::Ready(v) => {
                        return Poll::Ready(RaceOutput::Left(v, b));
                    },
                    Poll::Pending => {},
                }
                match future::step(&mut b, cx) {
                    Poll::Ready(v) => {
                        return Poll::Ready(RaceOutput::Right(v, a));
                    },
                    Poll::Pending => {},
                }
                self.a = Some(a);
                self.b = Some(b);
                Poll::Pending
            },
            _ => Poll::Pending,
        }
    }

    open spec fn left(&self, table: ReactorView) -> ReactorView {
        future::left_by(self.b, future::left_by(self.a, table))
    }

    fn leave(&mut self, reactor: &mut Reactor) {
        future::leave_if_some(&mut self.a, reactor);
        future::leave_if_some(&mut self.b, reactor);
    }
}

/// Two futures that must both end. What the first one ended with is kept until the other one
/// ends too.
pub struct Join<A: Future, B: Future> {
    pub a: Option<A>,
    pub b: Option<B>,
    pub a_out: Option<A::Output>,
    pub b_out: Option<B::Output>,
}

impl<A: Future, B: Future> Join<A, B> {
    /// Two futures that must both end.
    pub fn new(a: A, b: B) -> (f: Join<A, B>)
        ensures
            f == (Join { a: Some(a), b: Some(b), a_out: None, b_out: None }),
    {
        Join { a: Some(a), b: Some(b), a_out: None, b_out: None }
    }
}

/// Two futures that must both end.
pub fn join<A: Future, B: Future>(a: A, b: B) -> (f: Join<A, B>)
    ensures
        f == (Join { a: Some(a), b: Some(b), a_out: None, b_out: None }),
{
    Join::new(a, b)
}

/// What becomes of one of the two: it is polled unless it has ended before, and what it ends with
/// is kept.
pub open spec fn advanced<A: Future>(
    f0: Option<A>,
    out0: Option<A::Output>,
    c0: ContextView,
    f1: Option<A>,
    out1: Option<A::Output>,
    c1: ContextView,
) -> bool {
    match f0 {
        Some(f) => exists|g: A, r: Poll<A::Output>| #[trigger]
            future::steps(f, c0, g, c1, r) && match r {
                Poll::Ready(v) => f1 is None && out1 == Some(v),
                Poll::Pending => f1 == Some(g) && out1 == out0,
            },
        None => f1 is None && out1 == out0 && c1 == c0,
    }
}

/// Whether one of the two is in order: it goes on, or it has ended and what it ended with is kept.
pub open spec fn side_ok<A: Future>(f: Option<A>, out: Option<A::Output>) -> bool {
    f matches Some(g) ==> g.pollable() && out is None
}

/// Whether one of the two may end with `v`, or has.
pub open spec fn side_outputs<A: Future>(
    f: Option<A>,
    out: Option<A::Output>,
    v: A::Output,
) -> bool {
    out == Some(v) || (f matches Some(g) && g.outputs(v))
}

/// Polls one of the two unless it has ended.
fn advance<A: Future>(f: &mut Option<A>, out: &mut Option<A::Output>, cx: &mut Context)
    requires
        side_ok(*old(f), *old(out)),
        old(cx).wf(),
    ensures
        advanced(*old(f), *old(out), old(cx)@, *final(f), *final(out), final(cx)@),
        side_ok(*final(f), *final(out)),
        forall|v: A::Output| #[trigger]
            side_outputs(*final(f), *final(out), v) ==> side_outputs(*old(f), *old(out), v),
        final(cx).wf(),
{
    if let Some(g) = f.take() {
        let mut g = g;
        match future::step(&mut g, cx) {
            Poll::Ready(v) => {
                *out = Some(v);
            },
            Poll::Pending => {
                *f = Some(g);
            },
        }
    }
}

impl<A: Future, B: Future> Future for Join<A, B> {
    type Output = (A::Output, B::Output);

    open spec fn pollable(&self) -> bool {
        side_ok(self.a, self.a_out) && side_ok(self.b, self.b_out)
    }

    open spec fn outputs(&self, v: (A::Output, B::Output)) -> bool {
        side_outputs(self.a, self.a_out, v.0) && side_outputs(self.b, self.b_out, v.1)
    }

    open spec fn polled(
        before: Self,
        c0: ContextView,
        after: Self,
        c1: ContextView,
        r: Poll<(A::Output, B::Output)>,
    ) -> bool {
        exists|cm: ContextView, x: Option<A::Output>, y: Option<B::Output>|
            {
                &&& #[trigger] advanced(before.a, before.a_out, c0, after.a, x, cm)
                &&& #[trigger] advanced(before.b, before.b_out, cm, after.b, y, c1)
                &&& if x is Some && y is Some {
                    r == Poll::Ready((x->0, y->0)) && after.a_out is None && after.b_out is None
                } else {
                    r is Pending && after.a_out == x && after.b_out == y
                }
            }
    }

    fn poll(&mut self, cx: &mut Context) -> (r: Poll<(A::Output, B::Output)>) {
        let ghost c0 = cx@;
        advance(&mut self.a, &mut self.a_out, cx);
        let ghost cm = cx@;
        advance(&mut self.b, &mut self.b_out, cx);
        let ghost x = self.a_out;
        let ghost y = self.b_out;
        proof {
            assert(advanced(old(self).a, old(self).a_out, c0, self.a, x, cm));
            assert(advanced(old(self).b, old(self).b_out, cm, self.b, y, cx@));
        }
        match (self.a_out.take(), self.b_out.take()) {
            (Some(va), Some(vb)) => {
                assert(side_outputs(self.a, x, va));
                assert(side_outputs(self.b, y, vb));
                Poll::Ready((va, vb))
            },
            (oa, ob) => {
                self.a_out = oa;
                self.b_out = ob;
                Poll::Pending
            },
        }
    }

    open spec fn left(&self, table: ReactorView) -> ReactorView {
        future::left_by(self.b, future::left_by(self.a, table))
    }

    fn leave(&mut self, reactor: &mut Reactor) {
        future::leave_if_some(&mut self.a, reactor);
        future::leave_if_some(&mut self.b, reactor);
    }
}

/// Where a chain of two futures stands.
pub enum ThenState<F, G, C> {
    /// The first one runs. Its output will be handed to `chain`, which makes the second one.
    First { first: F, chain: C },
    /// The second one runs.
    Second { second: G },
    /// Both have ended.
    Done,
}

/// A future and what comes after it: a second future, which is made of the output of the first.
pub struct Then<F, G, C> {
    pub inner: ThenState<F, G, C>,
}

impl<F: Future, G: Future, C: FnOnce(F::Output) -> G> Then<F, G, C> {
    /// `first`, and the future that `chain` makes of its output.
    pub fn new(first: F, chain: C) -> (f: Then<F, G, C>)
        ensures
            f.inner == (ThenState::<F, G, C>::First { first, chain }),
            f.pollable() == then_pollable(f),
            forall|t: ReactorView| #[trigger] f.left(t) == then_left(f, t),
            forall|v: G::Output| #[trigger] f.outputs(v) == then_outputs(f, v),
    {
        Then { inner: ThenState::First { first, chain } }
    }
}

/// `first`, and the future that `chain` makes of its output.
pub fn then<F: Future, G: Future, C: FnOnce(F::Output) -> G>(first: F, chain: C) -> (f: Then<
    F,
    G,
    C,
>)
    ensures
        f.inner == (ThenState::<F, G, C>::First { first, chain }),
        f.pollable() == then_pollable(f),
        forall|t: ReactorView| #[trigger] f.left(t) == then_left(f, t),
        forall|v: G::Output| #[trigger] f.outputs(v) == then_outputs(f, v),
{
    Then::new(first, chain)
}

/// Whether `chain` can take whatever `first` may end with, and makes a future of it that can be
/// polled.
pub open spec fn can_chain<F: Future, G: Future, C: FnOnce(F::Output) -> G>(
    first: F,
    chain: C,
) -> bool {
    &&& forall|v: F::Output| first.outputs(v) ==> #[trigger] chain.requires((v,))
    &&& forall|v: F::Output, g: G|
        first.outputs(v) && #[trigger] chain.ensures((v,), g) ==> g.pollable()
}

/// What becomes of the second future.
pub open spec fn second_polled<F: Future, G: Future, C: FnOnce(F::Output) -> G>(
    second: G,
    c0: ContextView,
    after: Then<F, G, C>,
    c1: ContextView,
    r: Poll<G::Output>,
) -> bool {
    exists|g: G| #[trigger]
        future::steps(second, c0, g, c1, r) && after.inner == match r {
            Poll::Ready(_) => ThenState::<F, G, C>::Done,
            Poll::Pending => ThenState::<F, G, C>::Second { second: g },
        }
}

/// Whether a chain may be polled.
pub open spec fn then_pollable<F: Future, G: Future, C: FnOnce(F::Output) -> G>(
    f: Then<F, G, C>,
) -> bool {
    match f.inner {
        ThenState::First { first, chain } => first.pollable() && can_chain(first, chain),
        ThenState::Second { second } => second.pollable(),
        ThenState::Done => false,
    }
}

/// The table of timers once a chain has been given up.
pub open spec fn then_left<F: Future, G: Future, C: FnOnce(F::Output) -> G>(
    f: Then<F, G, C>,
    table: ReactorView,
) -> ReactorView {
    match f.inner {
        ThenState::First { first, chain } => first.left(table),
        ThenState::Second { second } => second.left(table),
        ThenState::Done => table,
    }
}

/// Whether a chain may end with `v`.
pub open spec fn then_outputs<F: Future, G: Future, C: FnOnce(F::Output) -> G>(
    f: Then<F, G, C>,
    v: G::Output,
) -> bool {
    match f.inner {
        ThenState::First { first, chain } => exists|x: F::Output, g: G|
            first.outputs(x) && #[trigger] chain.ensures((x,), g) && g.outputs(v),
        ThenState::Second { second } => second.outputs(v),
        ThenState::Done => false,
    }
}

/// What a poll does to a chain. In the poll in which the first future ends, the second one is made
/// and polled.
pub open spec fn then_polled<F: Future, G: Future, C: FnOnce(F::Output) -> G>(
    before: Then<F, G, C>,
    c0: ContextView,
    after: Then<F, G, C>,
    c1: ContextView,
    r: Poll<G::Output>,
) -> bool {
    match before.inner {
        ThenState::First { first, chain } => exists|f: F, cm: ContextView, r1: Poll<F::Output>|
            #[trigger]
            future::steps(first, c0, f, cm, r1) && match r1 {
                Poll::Pending => r is Pending && c1 == cm && after.inner == (ThenState::<
                    F,
                    G,
                    C,
                >::First { first: f, chain }),
                Poll::Ready(v) => exists|g: G| #[trigger]
                    chain.ensures((v,), g) && second_polled(g, cm, after, c1, r),
            },
        ThenState::Second { second } => second_polled(second, c0, after, c1, r),
        ThenState::Done => false,
    }
}

impl<F: Future, G: Future, C: FnOnce(F::Output) -> G> Then<F, G, C> {
    /// Polls the second future.
    fn poll_second(&mut self, second: G, cx: &mut Context) -> (r: Poll<G::Output>)
        requires
            second.pollable(),
            old(cx).wf(),
        ensures
            second_polled(second, old(cx)@, *final(self), final(cx)@, r),
            final(cx).wf(),
            r matches Poll::Ready(v) ==> second.outputs(v),
            r is Pending ==> final(self).pollable(),
            r is Pending ==> forall|v: G::Output| #[trigger]
                final(self).outputs(v) ==> second.outputs(v),
    {
        let mut second = second;
        let ghost s0 = second;
        let r = future::step(&mut second, cx);
        match r {
            Poll::Ready(v) => {
                self.inner = ThenState::Done;
                assert(future::steps(s0, old(cx)@, second, cx@, Poll::Ready(v)));
                Poll::Ready(v)
            },
            Poll::Pending => {
                self.inner = ThenState::Second { second };
                Poll::Pending
            },
        }
    }
}

impl<F: Future, G: Future, C: FnOnce(F::Output) -> G> Future for Then<F, G, C> {
    type Output = G::Output;

    open spec fn pollable(&self) -> bool {
        then_pollable(*self)
    }

    open spec fn outputs(&self, v: G::Output) -> bool {
        then_outputs(*self, v)
    }

    open spec fn polled(
        before: Self,
        c0: ContextView,
        after: Self,
        c1: ContextView,
        r: Poll<G::Output>,
    ) -> bool {
        then_polled(before, c0, after, c1, r)
    }

    fn poll(&mut self, cx: &mut Context) -> (r: Poll<G::Output>)
        ensures
            then_polled(*old(self), old(cx)@, *final(self), final(cx)@, r),
            r matches Poll::Ready(v) ==> then_outputs(*old(self), v),
    {
        let mut inner = ThenState::Done;
        core::mem::swap(&mut self.inner, &mut inner);
        match inner {
            ThenState::First { first, chain } => {
                let mut first = first;
                match future::step(&mut first, cx) {
                    Poll::Pending => {
                        self.inner = ThenState::First { first, chain };
                        Poll::Pending
                    },
                    Poll::Ready(v) => {
                        let second = chain(v);
                        self.poll_second(second, cx)
                    },
                }
            },
            ThenState::Second { second } => self.poll_second(second, cx),
            ThenState::Done => Poll::Pending,
        }
    }

    open spec fn left(&self, table: ReactorView) -> ReactorView {
        then_left(*self, table)
    }

    fn leave(&mut self, reactor: &mut Reactor)
        ensures
            final(reactor)@ == then_left(*old(self), old(reactor)@),
    {
        let mut inner = ThenState::Done;
        core::mem::swap(&mut self.inner, &mut inner);
        match inner {
            ThenState::First { first, chain } => {
                let mut first = first;
                first.leave(reactor);
            },
            ThenState::Second { second } => {
                let mut second = second;
                second.leave(reactor);
            },
            ThenState::Done => {},
        }
    }
}

/// How a future with a deadline ends.
pub enum TimeoutOutput<F: Future> {
    /// The future ended.
    Completed(F::Output),
    /// The deadline came first. The future is handed back.
    Elapsed(F),
}

/// A future with a deadline.
pub struct Timeout<F> {
    pub inner: Option<F>,
    pub delay: Option<Delay>,
}

impl<F: Future> Timeout<F> {
    /// `inner`, with a deadline when `after` has passed since `now`.
    pub fn new(inner: F, now: u64, after: u64) -> (f: Timeout<F>)
        requires
            now + after <= u64::MAX,
        ensures
            f == (Timeout {
                inner: Some(inner),
                delay: Some(Delay { deadline: (now + after) as u64, registration: None }),
            }),
    {
        Timeout { inner: Some(inner), delay: Some(Delay::new(now, after)) }
    }
}

/// `inner`, with a deadline when `after` has passed since `now`.
pub fn timeout<F: Future>(inner: F, now: u64, after: u64) -> (f: Timeout<F>)
    requires
        now + after <= u64::MAX,
    ensures
        f == (Timeout {
            inner: Some(inner),
            delay: Some(Delay { deadline: (now + after) as u64, registration: None }),
        }),
{
    Timeout::new(inner, now, after)
}

impl<F: Future> Future for Timeout<F> {
    type Output = TimeoutOutput<F>;

    open spec fn pollable(&self) -> bool {
        match (self.inner, self.delay) {
            (Some(f), Some(_)) => f.pollable(),
            (None, None) => true,
            _ => false,
        }
    }

    open spec fn outputs(&self, v: TimeoutOutput<F>) -> bool {
        v matches TimeoutOutput::Completed(x) ==> self.inner is Some && self.inner->0.outputs(x)
    }

    open spec fn polled(
        before: Self,
        c0: ContextView,
        after: Self,
        c1: ContextView,
        r: Poll<TimeoutOutput<F>>,
    ) -> bool {
        match (before.inner, before.delay) {
            (Some(f), Some(d)) => exists|f1: F, cm: ContextView, rf: Poll<F::Output>| #[trigger]
                future::steps(f, c0, f1, cm, rf) && match rf {
                    Poll::Ready(v) => {
                        &&& r == Poll::Ready(TimeoutOutput::<F>::Completed(v))
                        &&& after == Timeout::<F> { inner: None, delay: None }
                        &&& c1 == ContextView { reactor: d.released(cm.reactor), ..cm }
                    },
                    Poll::Pending => exists|d1: Delay, rd: Poll<()>| #[trigger]
                        future::steps::<Delay>(d, cm, d1, c1, rd) && match rd {
                            Poll::Ready(_) => {
                                &&& r == Poll::Ready(TimeoutOutput::<F>::Elapsed(f1))
                                &&& after == Timeout::<F> { inner: None, delay: None }
                            },
                            Poll::Pending => {
                                &&& r is Pending
                                &&& after == Timeout::<F> { inner: Some(f1), delay: Some(d1) }
                            },
                        },
                },
            _ => r is Pending && after == before && c1 == c0,
        }
    }

    fn poll(&mut self, cx: &mut Context) -> (r: Poll<TimeoutOutput<F>>) {
        match (self.inner.take(), self.delay.take()) {
            (Some(inner), Some(delay)) => {
                let mut inner = inner;
                let mut delay = delay;
                match future::step(&mut inner, cx) {
                    Poll::Ready(v) => {
                        delay.cancel(&mut cx.reactor);
                        return Poll::Ready(TimeoutOutput::Completed(v));
                    },
                    Poll::Pending => {},
                }
                match future::step(&mut delay, cx) {
                    Poll::Ready(_) => {
                        return Poll::Ready(TimeoutOutput::Elapsed(inner));
                    },
                    Poll::Pending => {},
                }
                self.inner = Some(inner);
                self.delay = Some(delay);
                Poll::Pending
            },
            _ => Poll::Pending,
        }
    }

    open spec fn left(&self, table: ReactorView) -> ReactorView {
        future::left_by(self.delay, future::left_by(self.inner, table))
    }

    fn leave(&mut self, reactor: &mut Reactor) {
        future::leave_if_some(&mut self.inner, reactor);
        future::leave_if_some(&mut self.delay, reactor);
    }
}

/// Whether `f` may end with `v` when it is polled with `c0`.
pub open spec fn ends<F: Future>(f: F, c0: ContextView, v: F::Output) -> bool {
    exists|f1: F, c1: ContextView| #[trigger] future::steps(f, c0, f1, c1, Poll::Ready(v))
}

/// Whether `f` may be pending when it is polled with `c0`, and go on as `f1`.
pub open spec fn goes_on<F: Future>(f: F, c0: ContextView, f1: F) -> bool {
    exists|c1: ContextView| #[trigger] future::steps(f, c0, f1, c1, Poll::Pending)
}

/// Who wins a race hands the other one back: as it was if the left one wins, polled once more if
/// the right one wins. As long as nobody wins, both go on. A race that has ended polls nobody.
pub proof fn law_race_hands_back_the_other<A: Future, B: Future>(
    before: Race<A, B>,
    c0: ContextView,
    after: Race<A, B>,
    c1: ContextView,
    r: Poll<RaceOutput<A, B>>,
)
    requires
        Race::polled(before, c0, after, c1, r),
        before.pollable(),
    ensures
        r matches Poll::Ready(RaceOutput::Left(v, b)) ==> before.b == Some(b),
        r matches Poll::Ready(RaceOutput::Right(v, a)) ==> goes_on(before.a->0, c0, a),
        r is Ready ==> after.a is None && after.b is None,
        before.a is Some && r is Pending ==> after.a is Some && after.b is Some,
        before.a is None ==> r is Pending && c1 == c0,
{
    if let (Some(a), Some(b)) = (before.a, before.b) {
        let (a1, cm, ra) = choose|a1: A, cm: ContextView, ra: Poll<A::Output>| #[trigger]
            future::steps(a, c0, a1, cm, ra) && match ra {
                Poll::Ready(v) => r == Poll::Ready(RaceOutput::<A, B>::Left(v, b)),
                Poll::Pending => exists|b1: B, rb: Poll<B::Output>| #[trigger]
                    future::steps(b, cm, b1, c1, rb) && match rb {
                        Poll::Ready(v) => r == Poll::Ready(RaceOutput::<A, B>::Right(v, a1)),
                        Poll::Pending => r is Pending,
                    },
            };
        assert(ra is Pending ==> goes_on(a, c0, a1));
    }
}

/// What a half of a join ended with is kept until the other half ends too, and the half is not
/// polled again. The join ends in the poll in which it has what both ended with.
pub proof fn law_join_keeps_the_first<A: Future, B: Future>(
    before: Join<A, B>,
    c0: ContextView,
    after: Join<A, B>,
    c1: ContextView,
    r: Poll<(A::Output, B::Output)>,
)
    requires
        Join::polled(before, c0, after, c1, r),
        before.pollable(),
    ensures
        before.a is None ==> after.a is None,
        before.b is None ==> after.b is None,
        before.a_out matches Some(x) ==> match r {
            Poll::Ready(v) => v.0 == x,
            Poll::Pending => after.a_out == Some(x),
        },
        before.b_out matches Some(y) ==> match r {
            Poll::Ready(v) => v.1 == y,
            Poll::Pending => after.b_out == Some(y),
        },
        r is Pending ==> after.a_out is None || after.b_out is None,
        r is Ready ==> after.a_out is None && after.b_out is None,
{
}

/// One poll of a join.
pub struct JoinPoll<A: Future, B: Future> {
    pub before: Join<A, B>,
    pub c0: ContextView,
    pub after: Join<A, B>,
    pub c1: ContextView,
    pub r: Poll<(A::Output, B::Output)>,
}

/// Whether `polls` is how a new join of `a` and `b` was polled, one time after the other.
pub open spec fn is_join_run<A: Future, B: Future>(
    a: A,
    b: B,
    polls: Seq<JoinPoll<A, B>>,
) -> bool {
    &&& polls.len() > 0 ==> polls[0].before == (Join::<A, B> {
        a: Some(a),
        b: Some(b),
        a_out: None,
        b_out: None,
    })
    &&& forall|i: int|
        0 <= i < polls.len() ==> {
            let p = #[trigger] polls[i];
            Join::polled(p.before, p.c0, p.after, p.c1, p.r)
        }
    &&& forall|i: int, j: int|
        #![trigger polls[i], polls[j]]
        0 <= i < polls.len() && j == i + 1 && j < polls.len() ==> polls[j].before == polls[i].after
            && polls[i].r is Pending
}

/// Whether the left half ended with `v` when it was polled in one of the polls.
pub open spec fn left_ended<A: Future, B: Future>(
    polls: Seq<JoinPoll<A, B>>,
    v: A::Output,
) -> bool {
    exists|i: int, f: A, cm: ContextView|
        #![trigger future::steps(polls[i].before.a->0, polls[i].c0, f, cm, Poll::Ready(v))]
        0 <= i < polls.len() && polls[i].before.a is Some && future::steps(
            polls[i].before.a->0,
            polls[i].c0,
            f,
            cm,
            Poll::Ready(v),
        )
}

/// Whether the right half ended with `v` when it was polled in one of the polls.
pub open spec fn right_ended<A: Future, B: Future>(
    polls: Seq<JoinPoll<A, B>>,
    v: B::Output,
) -> bool {
    exists|i: int, f: B, cm: ContextView|
        #![trigger future::steps(polls[i].before.b->0, cm, f, polls[i].c1, Poll::Ready(v))]
        0 <= i < polls.len() && polls[i].before.b is Some && future::steps(
            polls[i].before.b->0,
            cm,
            f,
            polls[i].c1,
            Poll::Ready(v),
        )
}

/// A join ends with what its halves ended with, however many polls lie between, and until one of
/// them has ended it goes on polling it.
pub proof fn law_join_gives_both<A: Future, B: Future>(a: A, b: B, polls: Seq<JoinPoll<A, B>>)
    requires
        is_join_run(a, b, polls),
        polls.len() > 0,
    ensures
        polls.last().r matches Poll::Ready(v) ==> left_ended(polls, v.0) && right_ended(polls, v.1),
        polls.last().r is Pending ==> {
            let j = polls.last().after;
            &&& j.a_out matches Some(x) ==> left_ended(polls, x)
            &&& j.b_out matches Some(y) ==> right_ended(polls, y)
            &&& j.a is None <==> j.a_out is Some
            &&& j.b is None <==> j.b_out is Some
        },
    decreases polls.len(),
{
    let n = polls.len() as int;
    let p = polls[n - 1];
    let init = polls.drop_last();
    if init.len() > 0 {
        assert forall|i: int, j: int|
            #![trigger init[i], init[j]]
            0 <= i < init.len() && j == i + 1 && j < init.len() implies init[j].before
            == init[i].after && init[i].r is Pending by {
            assert(init[i] == polls[i] && init[j] == polls[j]);
        }
        assert forall|i: int| 0 <= i < init.len() implies {
            let q = #[trigger] init[i];
            Join::polled(q.before, q.c0, q.after, q.c1, q.r)
        } by {
            assert(init[i] == polls[i]);
        }
        law_join_gives_both(a, b, init);
        assert(init.last() == polls[n - 2]);
        assert(p.before == polls[n - 2].after);
        assert(polls[n - 2].r is Pending);
        assert forall|v: A::Output| left_ended(init, v) implies left_ended(polls, v) by {
            let (i, f, cm) = choose|i: int, f: A, cm: ContextView|
                #![trigger future::steps(init[i].before.a->0, init[i].c0, f, cm, Poll::Ready(v))]
                0 <= i < init.len() && init[i].before.a is Some && future::steps(
                    init[i].before.a->0,
                    init[i].c0,
                    f,
                    cm,
                    Poll::Ready(v),
                );
            assert(init[i] == polls[i]);
            assert(future::steps(polls[i].before.a->0, polls[i].c0, f, cm, Poll::Ready(v)));
        }
        assert forall|v: B::Output| right_ended(init, v) implies right_ended(polls, v) by {
            let (i, f, cm) = choose|i: int, f: B, cm: ContextView|
                #![trigger future::steps(init[i].before.b->0, cm, f, init[i].c1, Poll::Ready(v))]
                0 <= i < init.len() && init[i].before.b is Some && future::steps(
                    init[i].before.b->0,
                    cm,
                    f,
                    init[i].c1,
                    Poll::Ready(v),
                );
            assert(init[i] == polls[i]);
            assert(future::steps(polls[i].before.b->0, cm, f, polls[i].c1, Poll::Ready(v)));
        }
    }
    assert(Join::polled(p.before, p.c0, p.after, p.c1, p.r));
    let (cm, x, y) = choose|cm: ContextView, x: Option<A::Output>, y: Option<B::Output>|
        {
            &&& #[trigger] advanced(p.before.a, p.before.a_out, p.c0, p.after.a, x, cm)
            &&& #[trigger] advanced(p.before.b, p.before.b_out, cm, p.after.b, y, p.c1)
            &&& if x is Some && y is Some {
                p.r == Poll::Ready((x->0, y->0)) && p.after.a_out is None && p.after.b_out is None
            } else {
                p.r is Pending && p.after.a_out == x && p.after.b_out == y
            }
        };
    if x is Some && p.before.a is Some {
        let (g, r) = choose|g: A, r: Poll<A::Output>| #[trigger]
            future::steps(p.before.a->0, p.c0, g, cm, r) && match r {
                Poll::Ready(v) => p.after.a is None && x == Some(v),
                Poll::Pending => p.after.a == Some(g) && x == p.before.a_out,
            };
        assert(future::steps(polls[n - 1].before.a->0, polls[n - 1].c0, g, cm, r));
    }
    if y is Some && p.before.b is Some {
        let (g, r) = choose|g: B, r: Poll<B::Output>| #[trigger]
            future::steps(p.before.b->0, cm, g, p.c1, r) && match r {
                Poll::Ready(v) => p.after.b is None && y == Some(v),
                Poll::Pending => p.after.b == Some(g) && y == p.before.b_out,
            };
        assert(future::steps(polls[n - 1].before.b->0, cm, g, polls[n - 1].c1, r));
    }
}

/// A chain only goes forwards: its first future is not polled again once it has ended, nor the
/// second before that.
pub proof fn law_chain_goes_forwards<F: Future, G: Future, C: FnOnce(F::Output) -> G>(
    before: Then<F, G, C>,
    c0: ContextView,
    after: Then<F, G, C>,
    c1: ContextView,
    r: Poll<G::Output>,
)
    requires
        then_polled(before, c0, after, c1, r),
    ensures
        r is Ready <==> after.inner is Done,
        before.inner is Second ==> !(after.inner is First),
        after.inner matches ThenState::First { first, chain } ==> r is Pending
            && before.inner is First && before.inner->First_chain == chain && future::steps(
            before.inner->First_first,
            c0,
            first,
            c1,
            Poll::Pending,
        ),
{
}

/// A future with a deadline ends in time whenever it ends at all in a poll, be it after the
/// deadline. It is given up exactly if it is still pending when the deadline has come. As long as
/// it goes on, a timer for the deadline waits with the waker of the poll. In the end no timer is
/// left.
pub proof fn law_timeout_is_exact<F: Future>(
    before: Timeout<F>,
    c0: ContextView,
    after: Timeout<F>,
    c1: ContextView,
    r: Poll<TimeoutOutput<F>>,
)
    requires
        Timeout::polled(before, c0, after, c1, r),
        before.inner is Some,
        before.delay is Some,
        c0.reactor.wf(),
    ensures
        r matches Poll::Ready(TimeoutOutput::Completed(v)) ==> ends(before.inner->0, c0, v),
        r matches Poll::Ready(TimeoutOutput::Elapsed(f)) ==> c0.now >= before.delay->0.deadline
            && goes_on(before.inner->0, c0, f),
        r is Pending ==> {
            &&& c0.now < before.delay->0.deadline
            &&& after.inner is Some
            &&& goes_on(before.inner->0, c0, after.inner->0)
            &&& after.delay matches Some(d)
            &&& d.deadline == before.delay->0.deadline
            &&& d.registration is Some
            &&& c1.reactor.waits(d.registration->0.id)
            &&& c1.reactor.slots[d.registration->0.id].deadline == d.deadline
            &&& c1.reactor.slots[d.registration->0.id].waker == Some(c0.waker)
        },
        r is Ready ==> after.inner is None && after.delay is None,
        r is Ready && before.delay->0.registration is Some ==> !c1.reactor.waits(
            before.delay->0.registration->0.id,
        ),
{
    let f = before.inner->0;
    let d = before.delay->0;
    let (f1, cm, rf) = choose|f1: F, cm: ContextView, rf: Poll<F::Output>| #[trigger]
        future::steps(f, c0, f1, cm, rf) && match rf {
            Poll::Ready(v) => {
                &&& r == Poll::Ready(TimeoutOutput::<F>::Completed(v))
                &&& after == Timeout::<F> { inner: None, delay: None }
                &&& c1 == ContextView { reactor: d.released(cm.reactor), ..cm }
            },
            Poll::Pending => exists|d1: Delay, rd: Poll<()>| #[trigger]
                future::steps::<Delay>(d, cm, d1, c1, rd) && match rd {
                    Poll::Ready(_) => {
                        &&& r == Poll::Ready(TimeoutOutput::<F>::Elapsed(f1))
                        &&& after == Timeout::<F> { inner: None, delay: None }
                    },
                    Poll::Pending => {
                        &&& r is Pending
                        &&& after == Timeout::<F> { inner: Some(f1), delay: Some(d1) }
                    },
                },
        };
    match rf {
        Poll::Ready(v) => {
            assert(ends(f, c0, v));
        },
        Poll::Pending => {
            assert(goes_on(f, c0, f1));
        },
    }
}

/// A race polls both, unless the first one ends: a race that is pending has polled the left one and
/// then the right one in this very poll, and both were pending; it ends with what the left one ends
/// with, or, if that is pending, with what the right one ends with. What is in the table has no say
/// in that.
pub proof fn law_race_polls_both<A: Future, B: Future>(
    a: A,
    b: B,
    before: Race<A, B>,
    c0: ContextView,
    after: Race<A, B>,
    c1: ContextView,
    r: Poll<RaceOutput<A, B>>,
)
    requires
        before.a == Some(a),
        before.b == Some(b),
        Race::polled(before, c0, after, c1, r),
    ensures
        r matches Poll::Ready(RaceOutput::Left(v, other)) ==> other == b && exists|
            a1: A,
            cm: ContextView,
            p: Poll<A::Output>,
        | #[trigger]
            A::polled(a, c0, a1, cm, p) && p == Poll::Ready(v) && c1 == (ContextView {
                reactor: a1.left(cm.reactor),
                ..cm
            }),
        r matches Poll::Ready(RaceOutput::Right(v, other)) ==> exists|
            cm: ContextView,
            q: Poll<A::Output>,
            b1: B,
            cn: ContextView,
            p: Poll<B::Output>,
        | #[trigger]
            A::polled(a, c0, other, cm, q) && q is Pending && #[trigger] B::polled(b, cm, b1, cn, p)
                && p == Poll::Ready(v) && c1 == (ContextView { reactor: b1.left(cn.reactor), ..cn }),
        r is Ready ==> after.a is None && after.b is None,
        r is Pending ==> after.a is Some && after.b is Some && exists|
            cm: ContextView,
            q: Poll<A::Output>,
            p: Poll<B::Output>,
        | #[trigger]
            A::polled(a, c0, after.a->0, cm, q) && q is Pending && #[trigger] B::polled(
                b,
                cm,
                after.b->0,
                c1,
                p,
            ) && p is Pending,
{
    let left = if after.a is Some {
        Some((after.a->0, after.b->0))
    } else {
        None
    };
    assert(raced(a, b, c0, left, c1, r));
    let (a1, cm, ra) = choose|a1: A, cm: ContextView, ra: Poll<A::Output>| #[trigger]
        future::steps(a, c0, a1, cm, ra) && match ra {
            Poll::Ready(v) => r == Poll::Ready(RaceOutput::<A, B>::Left(v, b)) && left is None
                && c1 == cm,
            Poll::Pending => exists|b1: B, rb: Poll<B::Output>| #[trigger]
                future::steps(b, cm, b1, c1, rb) && match rb {
                    Poll::Ready(w) => r == Poll::Ready(RaceOutput::<A, B>::Right(w, a1))
                        && left is None,
                    Poll::Pending => r is Pending && left == Some((a1, b1)),
                },
        };
    future::law_step_polls(a, c0, a1, cm, ra);
    match ra {
        Poll::Ready(v) => {
            let (a2, ck) = choose|a2: A, ck: ContextView| #[trigger]
                A::polled(a, c0, a2, ck, ra) && cm == (ContextView {
                    reactor: a2.left(ck.reactor),
                    ..ck
                });
            assert(A::polled(a, c0, a2, ck, ra));
        },
        Poll::Pending => {
            let (b1, rb) = choose|b1: B, rb: Poll<B::Output>| #[trigger]
                future::steps(b, cm, b1, c1, rb) && match rb {
                    Poll::Ready(w) => r == Poll::Ready(RaceOutput::<A, B>::Right(w, a1))
                        && left is None,
                    Poll::Pending => r is Pending && left == Some((a1, b1)),
                };
            future::law_step_polls(b, cm, b1, c1, rb);
            assert(A::polled(a, c0, a1, cm, ra));
            if rb is Ready {
                let (b2, cn) = choose|b2: B, cn: ContextView| #[trigger]
                    B::polled(b, cm, b2, cn, rb) && c1 == (ContextView {
                        reactor: b2.left(cn.reactor),
                        ..cn
                    });
                assert(B::polled(b, cm, b2, cn, rb));
            }
            if let Poll::Ready(RaceOutput::Right(v, other)) = r {
                assert(A::polled(a, c0, other, cm, ra));
            }
            if r is Pending {
                assert(A::polled(a, c0, after.a->0, cm, ra));
                assert(B::polled(b, cm, after.b->0, c1, rb));
            }
        },
    }
}

/// A race of two delays ends as soon as one of the two moments has come, with the left one if both
/// have, whatever timers are in the table. Until then a timer for each of the two moments waits.
pub proof fn law_race_of_delays(
    a: Delay,
    b: Delay,
    before: Race<Delay, Delay>,
    c0: ContextView,
    after: Race<Delay, Delay>,
    c1: ContextView,
    r: Poll<RaceOutput<Delay, Delay>>,
)
    requires
        before.a == Some(a),
        before.b == Some(b),
        Race::polled(before, c0, after, c1, r),
        c0.reactor.wf(),
        b.registration matches Some(reg) ==> reg.id != c0.reactor.next_id,
    ensures
        r is Ready <==> c0.now >= a.deadline || c0.now >= b.deadline,
        c0.now >= a.deadline ==> r == Poll::Ready(RaceOutput::<Delay, Delay>::Left((), b)),
        c0.now < a.deadline && c0.now >= b.deadline ==> (r matches Poll::Ready(
            RaceOutput::Right(_, d),
        ) && d.deadline == a.deadline),
        r is Pending ==> {
            &&& after.a matches Some(x) && x.deadline == a.deadline && (x.registration matches Some(
                reg,
            ) && c1.reactor.slots.contains_key(reg.id) && c1.reactor.slots[reg.id].deadline
                == a.deadline && c1.reactor.slots[reg.id].waker == Some(c0.waker))
            &&& after.b matches Some(y) && y.deadline == b.deadline && (y.registration matches Some(
                reg,
            ) && c1.reactor.slots.contains_key(reg.id) && c1.reactor.slots[reg.id].deadline
                == b.deadline && c1.reactor.slots[reg.id].waker == Some(c0.waker))
        },
{
    law_race_polls_both(a, b, before, c0, after, c1, r);
    reactor::law_numbers_differ(c0.reactor.next_id);
}

/// A half of a join as one poll leaves it: a half that had ended is left alone, any other is polled
/// once, and has ended if that is what came of it.
pub open spec fn half_polled<A: Future>(
    f0: Option<A>,
    out0: Option<A::Output>,
    c0: ContextView,
    f1: Option<A>,
    out1: Option<A::Output>,
    c1: ContextView,
) -> bool {
    match (f0, f1) {
        (None, None) => out1 == out0 && c1 == c0,
        (None, Some(_)) => false,
        (Some(f), Some(g)) => A::polled(f, c0, g, c1, Poll::Pending) && out1 == out0,
        (Some(f), None) => exists|g: A, cm: ContextView, p: Poll<A::Output>| #[trigger]
            A::polled(f, c0, g, cm, p) && (p matches Poll::Ready(v) && out1 == Some(v)) && c1 == (
            ContextView { reactor: g.left(cm.reactor), ..cm }),
    }
}

proof fn lemma_half_polled<A: Future>(
    f0: Option<A>,
    out0: Option<A::Output>,
    c0: ContextView,
    f1: Option<A>,
    out1: Option<A::Output>,
    c1: ContextView,
)
    requires
        advanced(f0, out0, c0, f1, out1, c1),
    ensures
        half_polled(f0, out0, c0, f1, out1, c1),
{
    if let Some(f) = f0 {
        let (g, r) = choose|g: A, r: Poll<A::Output>| #[trigger]
            future::steps(f, c0, g, c1, r) && match r {
                Poll::Ready(v) => f1 is None && out1 == Some(v),
                Poll::Pending => f1 == Some(g) && out1 == out0,
            };
        future::law_step_polls(f, c0, g, c1, r);
        if let Poll::Ready(v) = r {
            let (g2, cm) = choose|g2: A, cm: ContextView| #[trigger]
                A::polled(f, c0, g2, cm, r) && c1 == (ContextView {
                    reactor: g2.left(cm.reactor),
                    ..cm
                });
            assert(A::polled(f, c0, g2, cm, r));
        }
    }
}

/// A join polls each half that has not ended, the left one first, and ends in the poll after which
/// no half is left, with what the two have ended with.
pub proof fn law_join_polls_both<A: Future, B: Future>(
    before: Join<A, B>,
    c0: ContextView,
    after: Join<A, B>,
    c1: ContextView,
    r: Poll<(A::Output, B::Output)>,
)
    requires
        Join::polled(before, c0, after, c1, r),
        before.a is Some <==> before.a_out is None,
        before.b is Some <==> before.b_out is None,
    ensures
        r is Ready <==> after.a is None && after.b is None,
        exists|cm: ContextView, x: Option<A::Output>, y: Option<B::Output>|
            {
                &&& #[trigger] half_polled(before.a, before.a_out, c0, after.a, x, cm)
                &&& #[trigger] half_polled(before.b, before.b_out, cm, after.b, y, c1)
                &&& r matches Poll::Ready(v) ==> x == Some(v.0) && y == Some(v.1)
                &&& r is Pending ==> after.a_out == x && after.b_out == y
            },
{
    let (cm, x, y) = choose|cm: ContextView, x: Option<A::Output>, y: Option<B::Output>|
        {
            &&& #[trigger] advanced(before.a, before.a_out, c0, after.a, x, cm)
            &&& #[trigger] advanced(before.b, before.b_out, cm, after.b, y, c1)
            &&& if x is Some && y is Some {
                r == Poll::Ready((x->0, y->0)) && after.a_out is None && after.b_out is None
            } else {
                r is Pending && after.a_out == x && after.b_out == y
            }
        };
    lemma_half_polled(before.a, before.a_out, c0, after.a, x, cm);
    lemma_half_polled(before.b, before.b_out, cm, after.b, y, c1);
}

/// A join of two delays ends as soon as both moments have come, whatever timers are in the table;
/// a half whose moment has come before is done with.
pub proof fn law_join_of_delays(
    before: Join<Delay, Delay>,
    c0: ContextView,
    after: Join<Delay, Delay>,
    c1: ContextView,
    r: Poll<((), ())>,
)
    requires
        Join::polled(before, c0, after, c1, r),
        before.a is Some <==> before.a_out is None,
        before.b is Some <==> before.b_out is None,
    ensures
        after.a is None <==> (before.a matches Some(d) ==> c0.now >= d.deadline),
        after.b is None <==> (before.b matches Some(d) ==> c0.now >= d.deadline),
        r is Ready <==> after.a is None && after.b is None,
{
    law_join_polls_both(before, c0, after, c1, r);
    let (cm, x, y) = choose|cm: ContextView, x: Option<()>, y: Option<()>|
        {
            &&& #[trigger] half_polled(before.a, before.a_out, c0, after.a, x, cm)
            &&& #[trigger] half_polled(before.b, before.b_out, cm, after.b, y, c1)
            &&& r matches Poll::Ready(v) ==> x == Some(v.0) && y == Some(v.1)
            &&& r is Pending ==> after.a_out == x && after.b_out == y
        };
    assert(half_polled(before.a, before.a_out, c0, after.a, x, cm));
    assert(cm.now == c0.now);
    assert(half_polled(before.b, before.b_out, cm, after.b, y, c1));
}

/// A chain goes on to its second future in the very poll in which the first one ends: it is pending
/// only if the future that it was left with was itself polled in this poll and was pending, and it
/// ends with what the second future ends with.
pub proof fn law_chain_polls_what_it_waits_for<F: Future, G: Future, C: FnOnce(F::Output) -> G>(
    first: F,
    chain: C,
    before: Then<F, G, C>,
    c0: ContextView,
    after: Then<F, G, C>,
    c1: ContextView,
    r: Poll<G::Output>,
)
    requires
        before.inner == (ThenState::<F, G, C>::First { first, chain }),
        then_polled(before, c0, after, c1, r),
    ensures
        r is Pending && after.inner is First ==> F::polled(
            first,
            c0,
            after.inner->First_first,
            c1,
            Poll::Pending,
        ),
        !(after.inner is First) ==> exists|
            f: F,
            ck: ContextView,
            p: Poll<F::Output>,
            v: F::Output,
            g: G,
            cm: ContextView,
            h: G,
            cn: ContextView,
        |
            {
                &&& #[trigger] F::polled(first, c0, f, ck, p)
                &&& p == Poll::Ready(v)
                &&& cm == (ContextView { reactor: f.left(ck.reactor), ..ck })
                &&& #[trigger] chain.ensures((v,), g)
                &&& #[trigger] G::polled(g, cm, h, cn, r)
                &&& r is Pending ==> after.inner == (ThenState::<F, G, C>::Second { second: h })
                    && c1 == cn
                &&& r is Ready ==> after.inner is Done && c1 == (ContextView {
                    reactor: h.left(cn.reactor),
                    ..cn
                })
            },
        r is Ready ==> after.inner is Done,
{
    let (f, cm, r1) = choose|f: F, cm: ContextView, r1: Poll<F::Output>| #[trigger]
        future::steps(first, c0, f, cm, r1) && match r1 {
            Poll::Pending => r is Pending && c1 == cm && after.inner == (ThenState::<
                F,
                G,
                C,
            >::First { first: f, chain }),
            Poll::Ready(v) => exists|g: G| #[trigger]
                chain.ensures((v,), g) && second_polled(g, cm, after, c1, r),
        };
    future::law_step_polls(first, c0, f, cm, r1);
    if let Poll::Ready(v) = r1 {
        let g = choose|g: G| #[trigger]
            chain.ensures((v,), g) && second_polled(g, cm, after, c1, r);
        let (f2, ck) = choose|f2: F, ck: ContextView| #[trigger]
            F::polled(first, c0, f2, ck, r1) && cm == (ContextView {
                reactor: f2.left(ck.reactor),
                ..ck
            });
        assert(F::polled(first, c0, f2, ck, r1));
        let (h, cn) = lemma_second(g, cm, after, c1, r);
        assert(G::polled(g, cm, h, cn, r));
        assert(chain.ensures((v,), g));
    }
}

/// How the second future of a chain was polled.
proof fn lemma_second<F: Future, G: Future, C: FnOnce(F::Output) -> G>(
    second: G,
    c0: ContextView,
    after: Then<F, G, C>,
    c1: ContextView,
    r: Poll<G::Output>,
) -> (w: (G, ContextView))
    requires
        second_polled(second, c0, after, c1, r),
    ensures
        G::polled(second, c0, w.0, w.1, r),
        r is Pending ==> after.inner == (ThenState::<F, G, C>::Second { second: w.0 }) && c1
            == w.1,
        r is Ready ==> after.inner is Done && c1 == (ContextView {
            reactor: w.0.left(w.1.reactor),
            ..w.1
        }),
{
    let g = choose|g: G| #[trigger]
        future::steps(second, c0, g, c1, r) && after.inner == match r {
            Poll::Ready(_) => ThenState::<F, G, C>::Done,
            Poll::Pending => ThenState::<F, G, C>::Second { second: g },
        };
    future::law_step_polls(second, c0, g, c1, r);
    match r {
        Poll::Ready(_) => {
            choose|h: G, cn: ContextView| #[trigger]
                G::polled(second, c0, h, cn, r) && c1 == (ContextView {
                    reactor: h.left(cn.reactor),
                    ..cn
                })
        },
        Poll::Pending => (g, c1),
    }
}

/// A chain that has come to its second future polls it once, and ends with what that ends with.
pub proof fn law_chain_polls_the_second<F: Future, G: Future, C: FnOnce(F::Output) -> G>(
    second: G,
    before: Then<F, G, C>,
    c0: ContextView,
    after: Then<F, G, C>,
    c1: ContextView,
    r: Poll<G::Output>,
)
    requires
        before.inner == (ThenState::<F, G, C>::Second { second }),
        then_polled(before, c0, after, c1, r),
    ensures
        exists|h: G, cn: ContextView|
            {
                &&& #[trigger] G::polled(second, c0, h, cn, r)
                &&& r is Pending ==> after.inner == (ThenState::<F, G, C>::Second { second: h })
                    && c1 == cn
                &&& r is Ready ==> after.inner is Done && c1 == (ContextView {
                    reactor: h.left(cn.reactor),
                    ..cn
                })
            },
{
    let (h, cn) = lemma_second(second, c0, after, c1, r);
    assert(G::polled(second, c0, h, cn, r));
}

/// A delay followed by something that has ended already ends in the first poll after the moment has
/// come, and is pending before, whatever timers are in the table.
pub proof fn law_chain_after_a_delay<T, C: FnOnce(()) -> Ready<T>>(
    d: Delay,
    chain: C,
    before: Then<Delay, Ready<T>, C>,
    c0: ContextView,
    after: Then<Delay, Ready<T>, C>,
    c1: ContextView,
    r: Poll<T>,
)
    requires
        before.inner == (ThenState::<Delay, Ready<T>, C>::First { first: d, chain }),
        then_polled(before, c0, after, c1, r),
        forall|g: Ready<T>| #[trigger] chain.ensures(((),), g) ==> g.0 is Some,
    ensures
        r is Ready <==> c0.now >= d.deadline,
        r matches Poll::Ready(v) ==> exists|g: Ready<T>| #[trigger]
            chain.ensures(((),), g) && g.0 == Some(v),
        r is Pending ==> after.inner is First,
{
    law_chain_polls_what_it_waits_for(d, chain, before, c0, after, c1, r);
}

/// A future with a deadline is polled before the deadline is looked at, in every poll: it ends with
/// what the future ends with; otherwise it is over if the moment has come, with the future handed
/// back as this poll left it; and otherwise both go on. When it ends, neither has anything in the
/// table any more for the sake of the deadline.
pub proof fn law_timeout_polls_the_future_first<F: Future>(
    f: F,
    d: Delay,
    before: Timeout<F>,
    c0: ContextView,
    after: Timeout<F>,
    c1: ContextView,
    r: Poll<TimeoutOutput<F>>,
)
    requires
        before.inner == Some(f),
        before.delay == Some(d),
        Timeout::polled(before, c0, after, c1, r),
    ensures
        r matches Poll::Ready(TimeoutOutput::Completed(v)) ==> exists|
            f1: F,
            cm: ContextView,
            p: Poll<F::Output>,
        | #[trigger]
            F::polled(f, c0, f1, cm, p) && p == Poll::Ready(v) && c1 == (ContextView {
                reactor: d.left(f1.left(cm.reactor)),
                ..cm
            }),
        r matches Poll::Ready(TimeoutOutput::Elapsed(f1)) ==> c0.now >= d.deadline && exists|
            cm: ContextView,
            p: Poll<F::Output>,
        | #[trigger]
            F::polled(f, c0, f1, cm, p) && p is Pending && c1 == (ContextView {
                reactor: d.left(cm.reactor),
                ..cm
            }),
        r is Pending ==> {
            &&& c0.now < d.deadline
            &&& after.inner is Some && after.delay is Some
            &&& after.delay->0.deadline == d.deadline
            &&& exists|cm: ContextView, p: Poll<F::Output>| #[trigger]
                F::polled(f, c0, after.inner->0, cm, p) && p is Pending && Delay::polled(
                    d,
                    cm,
                    after.delay->0,
                    c1,
                    Poll::Pending,
                )
        },
{
    let (f1, cm, rf) = choose|f1: F, cm: ContextView, rf: Poll<F::Output>| #[trigger]
        future::steps(f, c0, f1, cm, rf) && match rf {
            Poll::Ready(v) => {
                &&& r == Poll::Ready(TimeoutOutput::<F>::Completed(v))
                &&& after == Timeout::<F> { inner: None, delay: None }
                &&& c1 == ContextView { reactor: d.released(cm.reactor), ..cm }
            },
            Poll::Pending => exists|d1: Delay, rd: Poll<()>| #[trigger]
                future::steps::<Delay>(d, cm, d1, c1, rd) && match rd {
                    Poll::Ready(_) => {
                        &&& r == Poll::Ready(TimeoutOutput::<F>::Elapsed(f1))
                        &&& after == Timeout::<F> { inner: None, delay: None }
                    },
                    Poll::Pending => {
                        &&& r is Pending
                        &&& after == Timeout::<F> { inner: Some(f1), delay: Some(d1) }
                    },
                },
        };
    future::law_step_polls(f, c0, f1, cm, rf);
    match rf {
        Poll::Ready(v) => {
            let (f2, ck) = choose|f2: F, ck: ContextView| #[trigger]
                F::polled(f, c0, f2, ck, rf) && cm == (ContextView {
                    reactor: f2.left(ck.reactor),
                    ..ck
                });
            assert(F::polled(f, c0, f2, ck, rf));
        },
        Poll::Pending => {
            assert(F::polled(f, c0, f1, cm, rf));
            let (d1, rd) = choose|d1: Delay, rd: Poll<()>| #[trigger]
                future::steps::<Delay>(d, cm, d1, c1, rd) && match rd {
                    Poll::Ready(_) => {
                        &&& r == Poll::Ready(TimeoutOutput::<F>::Elapsed(f1))
                        &&& after == Timeout::<F> { inner: None, delay: None }
                    },
                    Poll::Pending => {
                        &&& r is Pending
                        &&& after == Timeout::<F> { inner: Some(f1), delay: Some(d1) }
                    },
                };
            future::law_step_polls(d, cm, d1, c1, rd);
            if let Poll::Ready(TimeoutOutput::Elapsed(g)) = r {
                assert(F::polled(f, c0, g, cm, rf));
            }
            if r is Pending {
                assert(F::polled(f, c0, after.inner->0, cm, rf));
            }
        },
    }
}

/// A delay with a deadline ends when its own moment comes, and is over when the deadline comes
/// first, whatever timers are in the table.
pub proof fn law_timeout_of_a_delay(
    f: Delay,
    d: Delay,
    before: Timeout<Delay>,
    c0: ContextView,
    after: Timeout<Delay>,
    c1: ContextView,
    r: Poll<TimeoutOutput<Delay>>,
)
    requires
        before.inner == Some(f),
        before.delay == Some(d),
        Timeout::polled(before, c0, after, c1, r),
    ensures
        c0.now >= f.deadline ==> (r matches Poll::Ready(TimeoutOutput::Completed(_))),
        c0.now < f.deadline && c0.now >= d.deadline ==> (r matches Poll::Ready(
            TimeoutOutput::Elapsed(g),
        ) && g.deadline == f.deadline),
        c0.now < f.deadline && c0.now < d.deadline ==> r is Pending,
{
    law_timeout_polls_the_future_first(f, d, before, c0, after, c1, r);
}

/// Giving a race or a join up gives up whichever of the two is left, and nothing else.
pub proof fn law_giving_up_leaves_both<A: Future, B: Future>(
    r: Race<A, B>,
    j: Join<A, B>,
    table: ReactorView,
)
    ensures
        r.a is Some && r.b is Some ==> r.left(table) == r.b->0.left(r.a->0.left(table)),
        r.a is None && r.b is None ==> r.left(table) == table,
        j.a is Some && j.b is Some ==> j.left(table) == j.b->0.left(j.a->0.left(table)),
        j.a is Some && j.b is None ==> j.left(table) == j.a->0.left(table),
        j.a is None && j.b is Some ==> j.left(table) == j.b->0.left(table),
        j.a is None && j.b is None ==> j.left(table) == table,
{
}

/// Giving a chain up gives up the future that it waits for.
pub proof fn law_giving_up_a_chain<F: Future, G: Future, C: FnOnce(F::Output) -> G>(
    t: Then<F, G, C>,
    table: ReactorView,
)
    ensures
        t.inner is First ==> t.left(table) == t.inner->first.left(table),
        t.inner is Second ==> t.left(table) == t.inner->second.left(table),
        t.inner is Done ==> t.left(table) == table,
{
}

/// Giving a timeout up gives up its future and its delay.
pub proof fn law_giving_up_a_timeout<F: Future>(t: Timeout<F>, table: ReactorView)
    ensures
        t.inner is Some && t.delay is Some ==> t.left(table) == t.delay->0.left(
            t.inner->0.left(table),
        ),
        t.inner is None && t.delay is None ==> t.left(table) == table,
{
}

/// Giving up a race, a join or a timeout of delays takes the entries of both out of the table, and
/// no other.
pub proof fn law_giving_up_delays(a: Delay, b: Delay, table: ReactorView, id: u64)
    ensures
        ({
            let mine = a.registration is Some && a.registration->0.id == id
                || b.registration is Some && b.registration->0.id == id;
            let race = Race { a: Some(a), b: Some(b) }.left(table);
            let join = (Join::<Delay, Delay> {
                a: Some(a),
                b: Some(b),
                a_out: None,
                b_out: None,
            }).left(table);
            let timeout = Timeout { inner: Some(a), delay: Some(b) }.left(table);
            &&& race.slots.contains_key(id) <==> table.slots.contains_key(id) && !mine
            &&& join.slots.contains_key(id) <==> table.slots.contains_key(id) && !mine
            &&& timeout.slots.contains_key(id) <==> table.slots.contains_key(id) && !mine
            &&& table.slots.contains_key(id) && !mine ==> {
                &&& race.slots[id] == table.slots[id]
                &&& join.slots[id] == table.slots[id]
                &&& timeout.slots[id] == table.slots[id]
            }
        }),
{
    future::law_delay_given_up(a, table, id);
    future::law_delay_given_up(b, a.left(table), id);
}

} // verus!
