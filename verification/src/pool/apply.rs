//! Functions that are applied to items, and what they were applied to.

use vstd::multiset::Multiset;
use vstd::prelude::*;

verus! {

/// Something that is applied to items. It keeps account of the items that it was applied to.
pub trait Apply<A, B>: Sized {
    /// Whether it may be applied to an item.
    spec fn takes(&self, a: A) -> bool;

    /// Whether `b` can come out.
    spec fn gives(&self, a: A, b: B) -> bool;

    /// What it was applied to, each item as often as it was.
    spec fn seen(&self) -> Multiset<A>;

    /// Applies it once.
    fn apply(&mut self, a: &A) -> (b: B)
        requires
            old(self).takes(*a),
        ensures
            old(self).gives(*a, b),
            final(self).seen() == old(self).seen().insert(*a),
            forall|x: A| #[trigger] final(self).takes(x) == old(self).takes(x),
            forall|x: A, y: B| #[trigger] final(self).gives(x, y) == old(self).gives(x, y),
    ;
}

/// A closure, with what it was called with.
pub struct Calls<A, F> {
    f: F,
    seen: Ghost<Multiset<A>>,
}

impl<A, F> Calls<A, F> {
    /// The closure.
    pub closed spec fn function(self) -> F {
        self.f
    }

    /// What it was called with.
    pub closed spec fn called_with(self) -> Multiset<A> {
        self.seen@
    }
}

/// What [`Calls`] takes is what the closure takes.
pub open spec fn closure_takes<A, B, F: Fn(&A) -> B>(f: F, a: A) -> bool {
    call_requires(f, (&a,))
}

/// What [`Calls`] gives is what the closure gives.
pub open spec fn closure_gives<A, B, F: Fn(&A) -> B>(f: F, a: A, b: B) -> bool {
    call_ensures(f, (&a,), b)
}

impl<A, F> Calls<A, F> {
    /// A closure that was not called yet.
    pub fn new<B>(f: F) -> (c: Calls<A, F>) where F: Fn(&A) -> B
        ensures
            c.function() == f,
            c.seen() == Multiset::<A>::empty(),
            forall|a: A| #[trigger] c.takes(a) == call_requires(f, (&a,)),
            forall|a: A, b: B| #[trigger] c.gives(a, b) == call_ensures(f, (&a,), b),
            forall|a: A| #[trigger] c.takes(a) == closure_takes(f, a),
            forall|a: A, b: B| #[trigger] c.gives(a, b) == closure_gives(f, a, b),
    {
        Calls { f, seen: Ghost(Multiset::empty()) }
    }
}

impl<A, B, F: Fn(&A) -> B> Apply<A, B> for Calls<A, F> {
    open spec fn takes(&self, a: A) -> bool {
        closure_takes(self.function(), a)
    }

    open spec fn gives(&self, a: A, b: B) -> bool {
        closure_gives(self.function(), a, b)
    }

    open spec fn seen(&self) -> Multiset<A> {
        self.called_with()
    }

    fn apply(&mut self, a: &A) -> (b: B) {
        let b = (self.f)(a);
        self.seen = Ghost(self.seen@.insert(*a));
        b
    }
}

impl<A, F: Clone> Clone for Calls<A, F> {
    /// A copy of the closure, with what the closure was called with.
    fn clone(&self) -> (c: Calls<A, F>)
        ensures
            cloned(self.function(), c.function()),
            c.called_with() == self.called_with(),
    {
        Calls { f: self.f.clone(), seen: Ghost(self.seen@) }
    }
}

/// The items that it is applied to, in the order in which they come.
pub struct Collected {
    pub items: Vec<i64>,
}

impl Apply<i64, ()> for Collected {
    open spec fn takes(&self, a: i64) -> bool {
        true
    }

    open spec fn gives(&self, a: i64, b: ()) -> bool {
        true
    }

    open spec fn seen(&self) -> Multiset<i64> {
        self.items@.to_multiset()
    }

    fn apply(&mut self, a: &i64) -> (b: ()) {
        broadcast use vstd::seq_lib::group_to_multiset_ensures;

        self.items.push(*a);
    }
}

} // verus!
