//! Read, copy, update: readers take a snapshot of a value, a writer replaces it as a whole.
//!
//! A snapshot stays as it was however often the value is replaced; the last snapshot of an old
//! value frees it.

use std::sync::Arc;

use vstd::prelude::*;

verus! {

/// A value that is replaced as a whole.
pub struct Rcu<T> {
    current: Arc<T>,
}

impl<T> View for Rcu<T> {
    type V = T;

    /// The current value.
    closed spec fn view(&self) -> T {
        *self.current
    }
}

impl<T> Rcu<T> {
    /// A cell that holds `value`.
    pub fn new(value: T) -> (r: Rcu<T>)
        ensures
            r@ == value,
    {
        Rcu { current: Arc::new(value) }
    }

    /// A snapshot of the current value.
    pub fn read(&self) -> (snapshot: Arc<T>)
        ensures
            *snapshot == self@,
    {
        self.current.clone()
    }

    /// Replaces the current value by what `f` makes of it, and gives the old one.
    pub fn update<F: FnOnce(&T) -> T>(&mut self, f: F) -> (before: Arc<T>)
        requires
            call_requires(f, (&old(self)@,)),
        ensures
            call_ensures(f, (&old(self)@,), final(self)@),
            *before == old(self)@,
    {
        let before = self.current.clone();
        let next = f(&*self.current);
        self.current = Arc::new(next);
        before
    }
}

} // verus!
