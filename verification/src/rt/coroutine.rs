//! Generators: computations that hand out values on their way.
//!
//! A generator wraps a body that is advanced by polling. Before the body waits, it puts a value
//! into a slot; the generator takes the value out and hands it on. When the body ends, the
//! generator completes, and gives nothing from there on.

use vstd::prelude::*;

use crate::rt::future::Poll;

verus! {

/// What a generator gives.
#[derive(Debug, Clone, PartialEq, Eq)]
pub enum GenState<Y, R> {
    /// A value on the way. There may be more.
    Yielded(Y),
    /// What it ended with. There is no more.
    Complete(R),
}

/// A computation that hands out values on its way.
pub trait Generator: Sized {
    /// What it hands out on its way.
    type Yield;

    /// What it ends with.
    type Return;

    /// Whether it may be resumed.
    spec fn resumable(&self) -> bool;

    /// Whether it has completed.
    spec fn completed(&self) -> bool;

    /// Whether resuming `before` may give `r` and leave `after`.
    spec fn resumed(
        before: Self,
        after: Self,
        r: Option<GenState<Self::Yield, Self::Return>>,
    ) -> bool;

    /// A generator that has completed gives nothing and stays completed. Any other gives
    /// something, and has completed when that is what it ended with.
    proof fn completes_once(
        before: Self,
        after: Self,
        r: Option<GenState<Self::Yield, Self::Return>>,
    )
        requires
            Self::resumed(before, after, r),
        ensures
            before.completed() <==> r is None,
            before.completed() ==> after.completed(),
            r matches Some(s) ==> (s is Complete <==> after.completed()),
    ;

    /// Runs to the next value, or to the end. Nothing if it has ended before.
    fn resume(&mut self) -> (r: Option<GenState<Self::Yield, Self::Return>>)
        requires
            old(self).resumable(),
        ensures
            Self::resumed(*old(self), *final(self), r),
    ;
}

/// Resumes one after the other.
pub open spec fn is_run<G: Generator>(
    states: Seq<G>,
    given: Seq<Option<GenState<G::Yield, G::Return>>>,
) -> bool {
    &&& states.len() == given.len() + 1
    &&& forall|i: int, j: int|
        #![trigger states[i], states[j]]
        0 <= i < given.len() && j == i + 1 ==> G::resumed(states[i], states[j], given[i])
}

/// Once a generator has completed it gives nothing, however often it is resumed; and it completes
/// at most once.
pub proof fn law_nothing_after_the_end<G: Generator>(
    states: Seq<G>,
    given: Seq<Option<GenState<G::Yield, G::Return>>>,
    i: int,
    j: int,
)
    requires
        is_run(states, given),
        0 <= i < j < given.len(),
        given[i] matches Some(GenState::Complete(_)),
    ensures
        states[j].completed(),
        given[j] is None,
    decreases j - i,
{
    let before = states[j - 1];
    let after = states[j];
    assert(G::resumed(states[j - 1], states[j - 1 + 1], given[j - 1]));
    G::completes_once(before, after, given[j - 1]);
    if i < j - 1 {
        law_nothing_after_the_end(states, given, i, j - 1);
    }
    assert(G::resumed(states[j], states[j + 1], given[j]));
    G::completes_once(states[j], states[j + 1], given[j]);
}

/// Where a body leaves a value for its generator to hand out.
pub struct YieldSlot<Y> {
    pub inner: Option<Y>,
}

impl<Y> YieldSlot<Y> {
    /// An empty slot.
    fn new() -> (s: YieldSlot<Y>)
        ensures
            s.inner is None,
    {
        YieldSlot { inner: None }
    }

    /// Puts a value into the slot. One that is there already is lost.
    pub fn set(&mut self, value: Y)
        ensures
            final(self).inner == Some(value),
    {
        self.inner = Some(value);
    }

    /// Takes the value out of the slot.
    pub fn take(&mut self) -> (v: Option<Y>)
        ensures
            v == old(self).inner,
            final(self).inner is None,
    {
        self.inner.take()
    }
}

/// What a generator runs. One that says nothing more about itself may always be polled, and leaves
/// a value in the slot whenever it waits.
pub trait Body: Sized {
    /// What it hands out on its way.
    type Yield;

    /// What it ends with.
    type Return;

    /// Whether it may be polled.
    open spec fn pollable(&self) -> bool {
        true
    }

    /// Whether polling `before` with `s0` in the slot may have the outcome `r`, and leave `after`
    /// and `s1` in the slot.
    open spec fn polled(
        before: Self,
        s0: Option<Self::Yield>,
        after: Self,
        s1: Option<Self::Yield>,
        r: Poll<Self::Return>,
    ) -> bool {
        r is Pending ==> s1 is Some
    }

    /// Runs to where it waits, with a value in the slot, or to the end.
    fn poll(&mut self, slot: &mut YieldSlot<Self::Yield>) -> (r: Poll<Self::Return>)
        requires
            old(self).pollable(),
        ensures
            Self::polled(*old(self), old(slot).inner, *final(self), final(slot).inner, r),
            r is Pending ==> final(self).pollable(),
    ;
}

/// A generator that runs a body.
pub struct Gen<B: Body> {
    pub body: B,
    pub yielded: YieldSlot<B::Yield>,
    pub done: bool,
}

/// Whether `body`, when it is polled with `s0` in the slot, does not wait without a value in it.
pub open spec fn yields_before_it_waits<B: Body>(body: B, s0: Option<B::Yield>) -> bool {
    forall|after: B, s1: Option<B::Yield>| #[trigger]
        B::polled(body, s0, after, s1, Poll::Pending) ==> s1 is Some
}

impl<B: Body> Gen<B> {
    /// A generator that runs the body which `factory` makes. The factory is called at once, with
    /// the empty slot from which the generator will take what the body yields, and what it leaves
    /// there stays. The body is not polled yet.
    pub fn new<E: FnOnce(&mut YieldSlot<B::Yield>) -> B>(factory: E) -> (g: Gen<B>)
        requires
            forall|slot: &mut YieldSlot<B::Yield>|
                (*slot).inner is None ==> #[trigger] call_requires(factory, (slot,)),
        ensures
            exists|slot: &mut YieldSlot<B::Yield>| #[trigger]
                call_ensures(factory, (slot,), g.body) && (*slot).inner is None && *final(slot)
                    == g.yielded,
            !g.done,
    {
        let mut yielded = YieldSlot::new();
        let body = factory(&mut yielded);
        assert(exists|slot: &mut YieldSlot<B::Yield>| #[trigger]
            call_ensures(factory, (slot,), body) && (*slot).inner is None && *final(slot)
                == yielded);
        let ghost slot = choose|slot: &mut YieldSlot<B::Yield>| #[trigger]
            call_ensures(factory, (slot,), body) && (*slot).inner is None && *final(slot)
                == yielded;
        let g = Gen { body, yielded, done: false };
        assert(call_ensures(factory, (slot,), g.body));
        g
    }

    /// The next value on the way, if there is one.
    pub fn next(&mut self) -> (v: Option<B::Yield>)
        requires
            old(self).resumable(),
        ensures
            exists|r: Option<GenState<B::Yield, B::Return>>| #[trigger]
                Gen::resumed(*old(self), *final(self), r) && v == (match r {
                    Some(GenState::Yielded(y)) => Some(y),
                    _ => None,
                }),
    {
        let r = self.resume();
        let ghost given = r;
        let v = match r {
            Some(GenState::Yielded(y)) => Some(y),
            Some(GenState::Complete(_)) => None,
            None => None,
        };
        assert(Gen::resumed(*old(self), *self, given));
        v
    }
}

impl<B: Body> Generator for Gen<B> {
    type Yield = B::Yield;

    type Return = B::Return;

    open spec fn resumable(&self) -> bool {
        self.done || (self.body.pollable() && yields_before_it_waits(self.body, self.yielded.inner))
    }

    open spec fn completed(&self) -> bool {
        self.done
    }

    open spec fn resumed(
        before: Self,
        after: Self,
        r: Option<GenState<B::Yield, B::Return>>,
    ) -> bool {
        if before.done {
            r is None && after == before
        } else {
            exists|s1: Option<B::Yield>, p: Poll<B::Return>| #[trigger]
                B::polled(before.body, before.yielded.inner, after.body, s1, p) && match p {
                    Poll::Ready(v) => {
                        &&& r == Some(GenState::<B::Yield, B::Return>::Complete(v))
                        &&& after.done
                        &&& after.yielded.inner == s1
                    },
                    Poll::Pending => {
                        &&& s1 matches Some(y)
                        &&& r == Some(GenState::<B::Yield, B::Return>::Yielded(y))
                        &&& !after.done
                        &&& after.yielded.inner is None
                    },
                }
        }
    }

    proof fn completes_once(
        before: Self,
        after: Self,
        r: Option<GenState<B::Yield, B::Return>>,
    ) {
    }

    fn resume(&mut self) -> (r: Option<GenState<B::Yield, B::Return>>) {
        if self.done {
            return None;
        }
        let p = self.body.poll(&mut self.yielded);
        let ghost s0 = old(self).yielded.inner;
        let ghost s1 = self.yielded.inner;
        match p {
            Poll::Ready(v) => {
                self.done = true;
                assert(B::polled(old(self).body, s0, self.body, s1, Poll::Ready(v)));
                assert(self.yielded.inner == s1);
                Some(GenState::Complete(v))
            },
            Poll::Pending => {
                assert(B::polled(old(self).body, s0, self.body, s1, Poll::Pending));
                let y = self.yielded.take();
                assert(B::polled(old(self).body, s0, self.body, s1, Poll::Pending));
                match y {
                    Some(y) => Some(GenState::Yielded(y)),
                    None => None,
                }
            },
        }
    }
}

/// A generator written out as a state machine: it hands out 1, then 2, and ends.
pub enum HandGen {
    /// Before the first value.
    Start,
    /// After the first value.
    State1,
    /// After the second value.
    State2,
    /// At the end.
    Done,
}

impl HandGen {
    /// The generator before its first value.
    pub fn new() -> (g: HandGen)
        ensures
            g is Start,
    {
        HandGen::Start
    }
}

impl Default for HandGen {
    fn default() -> (g: HandGen)
        ensures
            g is Start,
    {
        HandGen::new()
    }
}

impl Generator for HandGen {
    type Yield = u32;

    type Return = ();

    open spec fn resumable(&self) -> bool {
        true
    }

    open spec fn completed(&self) -> bool {
        self is Done
    }

    open spec fn resumed(before: Self, after: Self, r: Option<GenState<u32, ()>>) -> bool {
        match before {
            HandGen::Start => after is State1 && r == Some(GenState::<u32, ()>::Yielded(1)),
            HandGen::State1 => after is State2 && r == Some(GenState::<u32, ()>::Yielded(2)),
            HandGen::State2 => after is Done && r == Some(GenState::<u32, ()>::Complete(())),
            HandGen::Done => after is Done && r is None,
        }
    }

    proof fn completes_once(before: Self, after: Self, r: Option<GenState<u32, ()>>) {
    }

    fn resume(&mut self) -> (r: Option<GenState<u32, ()>>) {
        match self {
            HandGen::Start => {
                *self = HandGen::State1;
                Some(GenState::Yielded(1))
            },
            HandGen::State1 => {
                *self = HandGen::State2;
                Some(GenState::Yielded(2))
            },
            HandGen::State2 => {
                *self = HandGen::Done;
                Some(GenState::Complete(()))
            },
            HandGen::Done => None,
        }
    }
}

/// A body that yields 1, then 2, and ends.
pub struct TwoYields {
    pub step: u8,
}

impl TwoYields {
    /// The body before its first value.
    pub fn new() -> (b: TwoYields)
        ensures
            b.step == 0,
    {
        TwoYields { step: 0 }
    }
}

impl Body for TwoYields {
    type Yield = u32;

    type Return = ();

    open spec fn pollable(&self) -> bool {
        true
    }

    open spec fn polled(
        before: Self,
        s0: Option<u32>,
        after: Self,
        s1: Option<u32>,
        r: Poll<()>,
    ) -> bool {
        if before.step < 2 {
            &&& r is Pending
            &&& after.step == before.step + 1
            &&& s1 == Some((before.step + 1) as u32)
        } else {
            &&& r is Ready
            &&& after == before
            &&& s1 == s0
        }
    }

    fn poll(&mut self, slot: &mut YieldSlot<u32>) -> (r: Poll<()>) {
        if self.step < 2 {
            self.step = self.step + 1;
            slot.set(self.step as u32);
            Poll::Pending
        } else {
            Poll::Ready(())
        }
    }
}

/// Whether the state machine and the generator that runs the body stand at the same point.
pub open spec fn in_step(h: HandGen, g: Gen<TwoYields>) -> bool {
    &&& g.yielded.inner is None
    &&& match h {
        HandGen::Start => !g.done && g.body.step == 0,
        HandGen::State1 => !g.done && g.body.step == 1,
        HandGen::State2 => !g.done && g.body.step == 2,
        HandGen::Done => g.done,
    }
}

/// The state machine is the generator that runs the body, written out: resumed together, both give
/// the same and stay in step.
pub proof fn law_hand_gen_is_the_generator(
    h: HandGen,
    g: Gen<TwoYields>,
    h1: HandGen,
    g1: Gen<TwoYields>,
    rh: Option<GenState<u32, ()>>,
    rg: Option<GenState<u32, ()>>,
)
    requires
        in_step(h, g),
        HandGen::resumed(h, h1, rh),
        Gen::resumed(g, g1, rg),
    ensures
        rh == rg,
        in_step(h1, g1),
        g.resumable(),
{
}

/// Resuming polls the body once, with what is in the slot: what the body then left in the slot is
/// handed out and the slot is empty afterwards, and what the body ended with is handed out as the
/// end. A generator that has ended is left alone.
pub proof fn law_resume_polls_the_body<B: Body>(
    before: Gen<B>,
    after: Gen<B>,
    r: Option<GenState<B::Yield, B::Return>>,
)
    requires
        Gen::resumed(before, after, r),
    ensures
        before.done ==> r is None && after == before,
        !before.done ==> r is Some,
        r matches Some(GenState::Yielded(y)) ==> !after.done && after.yielded.inner is None
            && exists|s1: Option<B::Yield>, p: Poll<B::Return>| #[trigger]
            B::polled(before.body, before.yielded.inner, after.body, s1, p) && p is Pending && s1
                == Some(y),
        r matches Some(GenState::Complete(v)) ==> after.done && exists|p: Poll<B::Return>| #[trigger]
            B::polled(before.body, before.yielded.inner, after.body, after.yielded.inner, p) && p
                == Poll::Ready(v),
{
    if !before.done {
        let (s1, p) = choose|s1: Option<B::Yield>, p: Poll<B::Return>| #[trigger]
            B::polled(before.body, before.yielded.inner, after.body, s1, p) && match p {
                Poll::Ready(v) => {
                    &&& r == Some(GenState::<B::Yield, B::Return>::Complete(v))
                    &&& after.done
                    &&& after.yielded.inner == s1
                },
                Poll::Pending => {
                    &&& s1 matches Some(y)
                    &&& r == Some(GenState::<B::Yield, B::Return>::Yielded(y))
                    &&& !after.done
                    &&& after.yielded.inner is None
                },
            };
        assert(B::polled(before.body, before.yielded.inner, after.body, s1, p));
    }
}

/// The state machine hands out 1 and then 2, ends, and from there on gives nothing, however often it
/// is resumed.
pub proof fn law_hand_gen_counts_to_two(
    states: Seq<HandGen>,
    given: Seq<Option<GenState<u32, ()>>>,
    i: int,
)
    requires
        is_run(states, given),
        states[0] is Start,
        0 <= i < given.len(),
    ensures
        i == 0 ==> given[i] == Some(GenState::<u32, ()>::Yielded(1)),
        i == 1 ==> given[i] == Some(GenState::<u32, ()>::Yielded(2)),
        i == 2 ==> given[i] == Some(GenState::<u32, ()>::Complete(())),
        i > 2 ==> given[i] is None,
        i == 0 ==> states[i + 1] is State1,
        i == 1 ==> states[i + 1] is State2,
        i >= 2 ==> states[i + 1] is Done,
    decreases i,
{
    assert(HandGen::resumed(states[i], states[i + 1], given[i]));
    if i > 0 {
        law_hand_gen_counts_to_two(states, given, i - 1);
        assert(states[i - 1 + 1] == states[i]);
    }
}

} // verus!
