//! One 32-bit word shared between threads, and the operations on it.
//!
//! A [`WordAction`] is one atomic operation that a protocol wants performed on a word, a
//! [`WordEvent`] is what came back. [`Word`] performs actions on a plain value, with an
//! exact contract; [`AtomicWord`] performs them on a real `AtomicU32`, where the value
//! that comes back depends on what the other threads did.

use std::sync::atomic::AtomicU32;
use std::sync::atomic::Ordering;

use vstd::prelude::*;

verus! {

/// One atomic operation on a word.
#[derive(Clone, Copy, Debug, PartialEq, Eq, Structural)]
pub enum WordAction {
    /// Read the value.
    Load,
    /// Overwrite the value.
    Store(u32),
    /// Overwrite the value and return the old one.
    Swap(u32),
    /// Replace `current` by `new` if the word holds `current`.
    CompareExchange { current: u32, new: u32 },
    /// Add, wrapping around, and return the old value.
    FetchAdd(u32),
    /// Subtract, wrapping around, and return the old value.
    FetchSub(u32),
    /// Sleep on the word if it holds the given value.
    Wait(u32),
    /// Wake one thread that sleeps on the word.
    WakeOne,
    /// Wake all threads that sleep on the word.
    WakeAll,
}

/// What an operation on a word gave back.
#[derive(Clone, Copy, Debug, PartialEq, Eq, Structural)]
pub enum WordEvent {
    /// The operation has no result.
    Done,
    /// The value before the operation.
    Value(u32),
    /// The exchange took place; the value before it.
    Exchanged(u32),
    /// The exchange did not take place; the value that was found.
    NotExchanged(u32),
}

/// The value of a word after an operation on a word that held `v`.
pub open spec fn word_after(v: u32, a: WordAction) -> u32 {
    match a {
        WordAction::Store(x) => x,
        WordAction::Swap(x) => x,
        WordAction::CompareExchange { current, new } => if v == current { new } else { v },
        WordAction::FetchAdd(x) => v.wrapping_add(x),
        WordAction::FetchSub(x) => v.wrapping_sub(x),
        _ => v,
    }
}

/// What an operation gives back on a word that held `v`.
pub open spec fn word_event(v: u32, a: WordAction) -> WordEvent {
    match a {
        WordAction::Load => WordEvent::Value(v),
        WordAction::Swap(_) => WordEvent::Value(v),
        WordAction::CompareExchange { current, new } => if v == current {
            WordEvent::Exchanged(v)
        } else {
            WordEvent::NotExchanged(v)
        },
        WordAction::FetchAdd(_) => WordEvent::Value(v),
        WordAction::FetchSub(_) => WordEvent::Value(v),
        _ => WordEvent::Done,
    }
}

/// Whether `e` is a kind of answer that the operation `a` can give, whatever the word held.
pub open spec fn event_fits(a: WordAction, e: WordEvent) -> bool {
    match a {
        WordAction::Load => e is Value,
        WordAction::Swap(_) => e is Value,
        WordAction::FetchAdd(_) => e is Value,
        WordAction::FetchSub(_) => e is Value,
        WordAction::CompareExchange { current, new } => e is Exchanged || e is NotExchanged,
        _ => e is Done,
    }
}

/// A word that one thread at a time works on.
pub struct Word {
    value: u32,
}

impl View for Word {
    type V = u32;

    closed spec fn view(&self) -> u32 {
        self.value
    }
}

impl Word {
    /// A word that holds `value`.
    pub fn new(value: u32) -> (w: Word)
        ensures
            w@ == value,
    {
        Word { value }
    }

    /// The value that the word holds.
    pub fn get(&self) -> (v: u32)
        ensures
            v == self@,
    {
        self.value
    }

    /// Performs one operation.
    pub fn perform(&mut self, a: WordAction) -> (e: WordEvent)
        ensures
            final(self)@ == word_after(old(self)@, a),
            e == word_event(old(self)@, a),
    {
        let v: u32 = self.value;
        match a {
            WordAction::Load => WordEvent::Value(v),
            WordAction::Store(x) => {
                self.value = x;
                WordEvent::Done
            },
            WordAction::Swap(x) => {
                self.value = x;
                WordEvent::Value(v)
            },
            WordAction::CompareExchange { current, new } => {
                if v == current {
                    self.value = new;
                    WordEvent::Exchanged(v)
                } else {
                    WordEvent::NotExchanged(v)
                }
            },
            WordAction::FetchAdd(x) => {
                self.value = v.wrapping_add(x);
                WordEvent::Value(v)
            },
            WordAction::FetchSub(x) => {
                self.value = v.wrapping_sub(x);
                WordEvent::Value(v)
            },
            WordAction::Wait(_) => WordEvent::Done,
            WordAction::WakeOne => WordEvent::Done,
            WordAction::WakeAll => WordEvent::Done,
        }
    }
}

/// `atomic_wait::wait`: sleeps while the word holds `value`, until it is woken; it may
/// also return for no reason. Nothing is claimed of the word after the call.
#[verifier::external_body]
fn wait_on(word: &AtomicU32, value: u32) {
    atomic_wait::wait(word, value);
}

/// `atomic_wait::wake_one`: wakes one thread that sleeps on the word, if there is one.
/// The effect is on that other thread, so nothing is claimed here.
#[verifier::external_body]
fn wake_one_on(word: &AtomicU32) {
    atomic_wait::wake_one(word);
}

/// `atomic_wait::wake_all`: wakes every thread that sleeps on the word. The effect is on
/// those other threads, so nothing is claimed here.
#[verifier::external_body]
fn wake_all_on(word: &AtomicU32) {
    atomic_wait::wake_all(word);
}

/// A word that threads share. There is one order of all operations on all such words, which every
/// thread sees: who registers before it looks, and who gives before it looks for the registered,
/// cannot miss each other.
pub struct AtomicWord {
    word: AtomicU32,
}

impl AtomicWord {
    /// Whether the word is what `AtomicU32::new` makes of `value`: one that starts out holding it.
    pub closed spec fn starts_with(self, value: u32) -> bool {
        call_ensures(AtomicU32::new, (value,), self.word)
    }

    /// A shared word that starts out holding `value`. What it holds when somebody looks is up to
    /// all threads.
    pub fn new(value: u32) -> (w: AtomicWord)
        ensures
            w.starts_with(value),
    {
        AtomicWord { word: AtomicU32::new(value) }
    }

    /// Whether `e` is what the operation `a`, performed on this very word, gave back.
    pub closed spec fn performed(self, a: WordAction, e: WordEvent) -> bool {
        match (a, e) {
            (WordAction::Load, WordEvent::Value(v)) => call_ensures(
                AtomicU32::load,
                (&self.word, Ordering::SeqCst),
                v,
            ),
            (WordAction::Store(x), WordEvent::Done) => call_ensures(
                AtomicU32::store,
                (&self.word, x, Ordering::SeqCst),
                (),
            ),
            (WordAction::Swap(x), WordEvent::Value(v)) => call_ensures(
                AtomicU32::swap,
                (&self.word, x, Ordering::SeqCst),
                v,
            ),
            (WordAction::CompareExchange { current, new }, WordEvent::Exchanged(v)) => call_ensures(
                AtomicU32::compare_exchange,
                (&self.word, current, new, Ordering::SeqCst, Ordering::SeqCst),
                Ok(v),
            ),
            (
                WordAction::CompareExchange { current, new },
                WordEvent::NotExchanged(v),
            ) => call_ensures(
                AtomicU32::compare_exchange,
                (&self.word, current, new, Ordering::SeqCst, Ordering::SeqCst),
                Err(v),
            ),
            (WordAction::FetchAdd(x), WordEvent::Value(v)) => call_ensures(
                AtomicU32::fetch_add,
                (&self.word, x, Ordering::SeqCst),
                v,
            ),
            (WordAction::FetchSub(x), WordEvent::Value(v)) => call_ensures(
                AtomicU32::fetch_sub,
                (&self.word, x, Ordering::SeqCst),
                v,
            ),
            (WordAction::Wait(v), WordEvent::Done) => call_ensures(wait_on, (&self.word, v), ()),
            (WordAction::WakeOne, WordEvent::Done) => call_ensures(wake_one_on, (&self.word,), ()),
            (WordAction::WakeAll, WordEvent::Done) => call_ensures(wake_all_on, (&self.word,), ()),
            _ => false,
        }
    }

    /// Performs one operation. What comes back is what that operation on this word gave, and of
    /// the kind that it gives; which value it holds depends on the other threads.
    pub fn perform(&self, a: WordAction) -> (e: WordEvent)
        ensures
            event_fits(a, e),
            self.performed(a, e),
    {
        match a {
            WordAction::Load => WordEvent::Value(self.word.load(Ordering::SeqCst)),
            WordAction::Store(x) => {
                self.word.store(x, Ordering::SeqCst);
                WordEvent::Done
            },
            WordAction::Swap(x) => WordEvent::Value(self.word.swap(x, Ordering::SeqCst)),
            WordAction::CompareExchange { current, new } => {
                match self.word.compare_exchange(current, new, Ordering::SeqCst, Ordering::SeqCst) {
                    Ok(v) => WordEvent::Exchanged(v),
                    Err(v) => WordEvent::NotExchanged(v),
                }
            },
            WordAction::FetchAdd(x) => WordEvent::Value(self.word.fetch_add(x, Ordering::SeqCst)),
            WordAction::FetchSub(x) => WordEvent::Value(self.word.fetch_sub(x, Ordering::SeqCst)),
            WordAction::Wait(v) => {
                wait_on(&self.word, v);
                WordEvent::Done
            },
            WordAction::WakeOne => {
                wake_one_on(&self.word);
                WordEvent::Done
            },
            WordAction::WakeAll => {
                wake_all_on(&self.word);
                WordEvent::Done
            },
        }
    }
}

/// What accesses to a word do: each gives back what the word held before, if it gives anything
/// back; a word that was written holds what was written; an exchange takes place if and only if
/// the word holds what was expected; adding and subtracting go round at the ends of the range, so
/// that each undoes the other; and nothing else changes the word.
pub proof fn law_word_accesses(v: u32, x: u32, y: u32)
    ensures
        word_after(v, WordAction::Load) == v,
        word_event(v, WordAction::Load) == WordEvent::Value(v),
        word_after(v, WordAction::Store(x)) == x,
        word_event(v, WordAction::Store(x)) == WordEvent::Done,
        word_after(v, WordAction::Swap(x)) == x,
        word_event(v, WordAction::Swap(x)) == WordEvent::Value(v),
        v == x ==> word_after(v, WordAction::CompareExchange { current: x, new: y }) == y
            && word_event(v, WordAction::CompareExchange { current: x, new: y })
            == WordEvent::Exchanged(v),
        v != x ==> word_after(v, WordAction::CompareExchange { current: x, new: y }) == v
            && word_event(v, WordAction::CompareExchange { current: x, new: y })
            == WordEvent::NotExchanged(v),
        v + x <= u32::MAX ==> word_after(v, WordAction::FetchAdd(x)) == v + x,
        v + x > u32::MAX ==> word_after(v, WordAction::FetchAdd(x)) == v + x - 0x1_0000_0000,
        v >= x ==> word_after(v, WordAction::FetchSub(x)) == v - x,
        v < x ==> word_after(v, WordAction::FetchSub(x)) == v - x + 0x1_0000_0000,
        word_event(v, WordAction::FetchAdd(x)) == WordEvent::Value(v),
        word_event(v, WordAction::FetchSub(x)) == WordEvent::Value(v),
        word_after(v, WordAction::Wait(x)) == v,
        word_after(v, WordAction::WakeOne) == v,
        word_after(v, WordAction::WakeAll) == v,
        word_after(word_after(v, WordAction::FetchAdd(x)), WordAction::FetchSub(x)) == v,
{
}

} // verus!
