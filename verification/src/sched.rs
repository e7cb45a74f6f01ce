//! Work stealing: a queue of its own for each worker, and a queue into which others put tasks
//! for it.
//!
//! A worker takes the newest task of its own queue, else the oldest one that was put in from
//! outside, beginning with its own such queue, else the oldest one of another worker's queue.
//! A count of the tasks that wait tells workers when they can sleep.

use std::collections::VecDeque;

use vstd::multiset::Multiset;
use vstd::prelude::*;

use crate::counting;

verus! {

/// How many items there are in all queues together.
pub open spec fn total<T>(qs: Seq<Seq<T>>) -> nat
    decreases qs.len(),
{
    if qs.len() == 0 {
        0
    } else {
        total(qs.drop_last()) + qs.last().len()
    }
}

/// Replacing one queue changes the total by the difference of the lengths.
pub proof fn lemma_total_update<T>(qs: Seq<Seq<T>>, i: int, q: Seq<T>)
    requires
        0 <= i < qs.len(),
    ensures
        total(qs.update(i, q)) + qs[i].len() == total(qs) + q.len(),
    decreases qs.len(),
{
    let rs = qs.update(i, q);
    if i == qs.len() - 1 {
        assert(rs.drop_last() =~= qs.drop_last());
    } else {
        assert(rs.drop_last() =~= qs.drop_last().update(i, q));
        lemma_total_update(qs.drop_last(), i, q);
    }
}

/// The total is at least the length of each queue.
pub proof fn lemma_total_bounds<T>(qs: Seq<Seq<T>>, i: int)
    requires
        0 <= i < qs.len(),
    ensures
        qs[i].len() <= total(qs),
    decreases qs.len(),
{
    if i < qs.len() - 1 {
        lemma_total_bounds(qs.drop_last(), i);
    }
}

/// Queues that are all empty hold nothing.
pub proof fn lemma_total_zero<T>(qs: Seq<Seq<T>>)
    requires
        forall|i: int| 0 <= i < qs.len() ==> (#[trigger] qs[i]).len() == 0,
    ensures
        total(qs) == 0,
    decreases qs.len(),
{
    if qs.len() > 0 {
        assert forall|i: int| 0 <= i < qs.drop_last().len() implies (
        #[trigger] qs.drop_last()[i]).len() == 0 by {
            assert(qs.drop_last()[i] == qs[i]);
        }
        lemma_total_zero(qs.drop_last());
        assert(qs[qs.len() - 1].len() == 0);
    }
}

/// What there is in all queues together.
pub open spec fn held<T>(qs: Seq<Seq<T>>) -> Multiset<T>
    decreases qs.len(),
{
    if qs.len() == 0 {
        Multiset::empty()
    } else {
        held(qs.drop_last()).add(qs.last().to_multiset())
    }
}

/// Replacing one queue replaces its part of what there is.
pub proof fn lemma_held_update<T>(qs: Seq<Seq<T>>, i: int, q: Seq<T>)
    requires
        0 <= i < qs.len(),
    ensures
        held(qs.update(i, q)).add(qs[i].to_multiset()) == held(qs).add(q.to_multiset()),
    decreases qs.len(),
{
    let rs = qs.update(i, q);
    if i == qs.len() - 1 {
        assert(rs.drop_last() =~= qs.drop_last());
        assert(held(rs).add(qs[i].to_multiset()) =~= held(qs).add(q.to_multiset()));
    } else {
        assert(rs.drop_last() =~= qs.drop_last().update(i, q));
        lemma_held_update(qs.drop_last(), i, q);
        assert(held(rs).add(qs[i].to_multiset()) =~= held(rs.drop_last()).add(
            qs[i].to_multiset(),
        ).add(qs.last().to_multiset()));
        assert(held(qs).add(q.to_multiset()) =~= held(qs.drop_last()).add(q.to_multiset()).add(
            qs.last().to_multiset(),
        ));
    }
}

/// What there is is as much as the lengths say.
pub proof fn lemma_held_len<T>(qs: Seq<Seq<T>>)
    ensures
        held(qs).len() == total(qs),
    decreases qs.len(),
{
    broadcast use vstd::seq_lib::group_to_multiset_ensures;

    if qs.len() > 0 {
        lemma_held_len(qs.drop_last());
    }
}

/// Putting an item in front adds it.
proof fn lemma_front_multiset<T>(q: Seq<T>, t: T)
    ensures
        (seq![t] + q).to_multiset() == q.to_multiset().insert(t),
{
    broadcast use vstd::seq_lib::group_to_multiset_ensures;

    let r = seq![t] + q;
    assert(r.remove(0) =~= q);
    assert(r[0] == t);
    assert(r.contains(t));
    assert(r.to_multiset().remove(t) == q.to_multiset());
    assert(r.to_multiset() =~= q.to_multiset().insert(t));
}

/// Taking the first or the last item removes it.
proof fn lemma_ends_multiset<T>(q: Seq<T>)
    requires
        q.len() > 0,
    ensures
        q.drop_first().to_multiset() == q.to_multiset().remove(q[0]),
        q.drop_last().to_multiset() == q.to_multiset().remove(q.last()),
        q.to_multiset().contains(q[0]),
        q.to_multiset().contains(q.last()),
{
    broadcast use vstd::seq_lib::group_to_multiset_ensures;

    assert(q.remove(0) =~= q.drop_first());
    assert(q.remove(q.len() - 1) =~= q.drop_last());
    assert(q.contains(q[0]));
    assert(q.contains(q[q.len() - 1]));
}

/// The place `k` steps behind `start`, going round `n` places.
pub open spec fn place(start: int, k: int, n: int) -> int {
    (start + k) % n
}

/// The first queue that is not empty, going round from `k` steps behind `start`.
pub open spec fn first_full<T>(qs: Seq<Seq<T>>, start: int, k: int) -> Option<int>
    decreases qs.len() - k,
{
    if k >= qs.len() {
        None
    } else if qs[place(start, k, qs.len() as int)].len() > 0 {
        Some(place(start, k, qs.len() as int))
    } else {
        first_full(qs, start, k + 1)
    }
}

/// Going round finds a queue exactly if one of those that it passes is not empty.
pub proof fn lemma_first_full<T>(qs: Seq<Seq<T>>, start: int, k: int)
    requires
        0 <= start < qs.len(),
        0 <= k,
    ensures
        match first_full(qs, start, k) {
            Some(i) => 0 <= i < qs.len() && qs[i].len() > 0 && (k > 0 ==> i != start),
            None => forall|j: int|
                k <= j < qs.len() ==> (#[trigger] qs[place(start, j, qs.len() as int)]).len() == 0,
        },
    decreases qs.len() - k,
{
    if k < qs.len() {
        let n = qs.len() as int;
        assert(0 <= place(start, k, n) < n);
        lemma_first_full(qs, start, k + 1);
        if k > 0 {
            assert(place(start, k, n) != start) by {
                if start + k < n {
                    assert((start + k) % n == start + k) by (nonlinear_arith)
                        requires
                            0 <= start + k < n,
                    ;
                } else {
                    assert((start + k) % n == start + k - n) by (nonlinear_arith)
                        requires
                            n <= start + k < 2 * n,
                    ;
                }
            }
        }
    }
}

/// Every place is passed when going all the way round.
pub proof fn lemma_round(start: int, i: int, n: int) -> (k: int)
    requires
        0 <= start < n,
        0 <= i < n,
    ensures
        0 <= k < n,
        place(start, k, n) == i,
        k == 0 <==> i == start,
{
    if i >= start {
        assert((start + (i - start)) % n == i) by (nonlinear_arith)
            requires
                0 <= i < n,
        ;
        i - start
    } else {
        assert((start + (i - start + n)) % n == i) by (nonlinear_arith)
            requires
                0 <= i < n,
        ;
        i - start + n
    }
}

/// Where a worker finds a task.
#[derive(Clone, Copy, Debug, PartialEq, Eq, Structural)]
pub enum FindAction {
    /// Take the newest task of the worker's own queue.
    PopLocal(usize),
    /// Take the oldest task that was put in from outside for a worker.
    PopInjector(usize),
    /// Take the oldest task of another worker's queue.
    Steal(usize),
}

/// Where a search for a task stands.
#[derive(Clone, Copy, Debug, PartialEq, Eq, Structural)]
pub enum FindPc {
    /// About to look at the own queue.
    Local,
    /// About to look at a queue from outside, so many steps behind the own one.
    Injector(usize),
    /// About to look at another worker's queue, so many steps behind the own one.
    Victim(usize),
    /// A task was found.
    Found,
    /// There was none.
    NotFound,
}

/// One search of worker `index` of `n` for a task.
#[derive(Clone, Copy, Debug, PartialEq, Eq, Structural)]
pub struct FindOp {
    pub index: usize,
    pub n: usize,
    pub pc: FindPc,
}

impl FindOp {
    /// That the worker is one of not too many, and the search within its bounds.
    pub open spec fn valid(self) -> bool {
        &&& self.index < self.n
        &&& self.n <= usize::MAX / 2
        &&& match self.pc {
            FindPc::Injector(k) => k < self.n,
            FindPc::Victim(k) => 1 <= k < self.n,
            _ => true,
        }
    }

    /// Whether the search has come to its end.
    pub open spec fn finished(self) -> bool {
        self.pc is Found || self.pc is NotFound
    }

    /// Where an unfinished search looks next.
    pub open spec fn action(self) -> FindAction {
        match self.pc {
            FindPc::Injector(k) => FindAction::PopInjector(
                place(self.index as int, k as int, self.n as int) as usize,
            ),
            FindPc::Victim(k) => FindAction::Steal(
                place(self.index as int, k as int, self.n as int) as usize,
            ),
            _ => FindAction::PopLocal(self.index),
        }
    }

    /// Where a search stands after it has looked somewhere.
    pub open spec fn after(self, hit: bool) -> FindOp {
        let pc = if hit && !self.finished() {
            FindPc::Found
        } else {
            match self.pc {
                FindPc::Local => FindPc::Injector(0),
                FindPc::Injector(k) => if k + 1 < self.n {
                    FindPc::Injector((k + 1) as usize)
                } else if 1 < self.n {
                    FindPc::Victim(1)
                } else {
                    FindPc::NotFound
                },
                FindPc::Victim(k) => if k + 1 < self.n {
                    FindPc::Victim((k + 1) as usize)
                } else {
                    FindPc::NotFound
                },
                pc => pc,
            }
        };
        FindOp { index: self.index, n: self.n, pc }
    }

    /// A search that has looked nowhere yet.
    pub fn start(index: usize, n: usize) -> (op: FindOp)
        requires
            index < n,
            n <= usize::MAX / 2,
        ensures
            op == (FindOp { index, n, pc: FindPc::Local }),
            op.valid(),
    {
        FindOp { index, n, pc: FindPc::Local }
    }

    /// Where to look next, or `None` when the search is over.
    pub fn next_action(&self) -> (a: Option<FindAction>)
        requires
            self.valid(),
        ensures
            a == (if self.finished() { None } else { Some(self.action()) }),
    {
        match self.pc {
            FindPc::Local => Some(FindAction::PopLocal(self.index)),
            FindPc::Injector(k) => Some(FindAction::PopInjector((self.index + k) % self.n)),
            FindPc::Victim(k) => Some(FindAction::Steal((self.index + k) % self.n)),
            FindPc::Found => None,
            FindPc::NotFound => None,
        }
    }

    /// Takes the answer whether a task was there.
    pub fn on_event(&mut self, hit: bool)
        requires
            old(self).valid(),
        ensures
            *final(self) == old(self).after(hit),
            final(self).valid(),
    {
        let n: usize = self.n;
        let pc = match self.pc {
            FindPc::Found => FindPc::Found,
            FindPc::NotFound => FindPc::NotFound,
            pc => {
                if hit {
                    FindPc::Found
                } else {
                    match pc {
                        FindPc::Local => FindPc::Injector(0),
                        FindPc::Injector(k) => {
                            if k + 1 < n {
                                FindPc::Injector(k + 1)
                            } else if 1 < n {
                                FindPc::Victim(1)
                            } else {
                                FindPc::NotFound
                            }
                        },
                        FindPc::Victim(k) => {
                            if k + 1 < n {
                                FindPc::Victim(k + 1)
                            } else {
                                FindPc::NotFound
                            }
                        },
                        pc => pc,
                    }
                }
            },
        };
        self.pc = pc;
    }
}

/// The queue of one worker. The worker works at the front, thieves at the back.
pub struct LocalQueue<T> {
    inner: VecDeque<T>,
}

impl<T> View for LocalQueue<T> {
    type V = Seq<T>;

    /// What is in the queue, front first.
    closed spec fn view(&self) -> Seq<T> {
        self.inner@
    }
}

impl<T> LocalQueue<T> {
    /// An empty queue.
    pub fn new() -> (q: LocalQueue<T>)
        ensures
            q@ == Seq::<T>::empty(),
    {
        LocalQueue { inner: VecDeque::new() }
    }

    /// Puts a task in front.
    pub fn push(&mut self, t: T)
        ensures
            final(self)@ == seq![t] + old(self)@,
    {
        self.inner.push_front(t);
    }

    /// Takes the task in front.
    pub fn pop(&mut self) -> (r: Option<T>)
        ensures
            match r {
                Some(t) => old(self)@.len() > 0 && t == old(self)@[0] && final(self)@ == old(
                    self,
                )@.drop_first(),
                None => old(self)@.len() == 0 && final(self)@ == old(self)@,
            },
    {
        let r = self.inner.pop_front();
        assert(r is Some ==> final(self)@ =~= old(self)@.drop_first());
        r
    }

    /// Takes the task at the back.
    pub fn steal(&mut self) -> (r: Option<T>)
        ensures
            match r {
                Some(t) => old(self)@.len() > 0 && t == old(self)@.last() && final(self)@ == old(
                    self,
                )@.drop_last(),
                None => old(self)@.len() == 0 && final(self)@ == old(self)@,
            },
    {
        let r = self.inner.pop_back();
        assert(r is Some ==> final(self)@ =~= old(self)@.drop_last());
        r
    }
}

/// The queues of a scheduler.
#[verifier::ext_equal]
pub struct Queues<T> {
    /// The queue of each worker, newest first.
    pub locals: Seq<Seq<T>>,
    /// What was put in from outside for each worker, oldest first.
    pub injectors: Seq<Seq<T>>,
}

/// Where a task was found.
pub enum Source {
    Local(int),
    Injector(int),
    Victim(int),
}

impl<T> Queues<T> {
    /// How many tasks wait.
    pub open spec fn waiting(self) -> nat {
        total(self.locals) + total(self.injectors)
    }

    /// The tasks that wait.
    pub open spec fn tasks(self) -> Multiset<T> {
        held(self.locals).add(held(self.injectors))
    }

    /// Whether there is something to take from a source.
    pub open spec fn has(self, s: Source) -> bool {
        match s {
            Source::Local(w) => 0 <= w < self.locals.len() && self.locals[w].len() > 0,
            Source::Injector(i) => 0 <= i < self.injectors.len() && self.injectors[i].len() > 0,
            Source::Victim(v) => 0 <= v < self.locals.len() && self.locals[v].len() > 0,
        }
    }

    /// Where worker `w` finds a task, if there is one.
    pub open spec fn source(self, w: int) -> Option<Source> {
        if self.locals[w].len() > 0 {
            Some(Source::Local(w))
        } else {
            match first_full(self.injectors, w, 0) {
                Some(i) => Some(Source::Injector(i)),
                None => match first_full(self.locals, w, 1) {
                    Some(v) => Some(Source::Victim(v)),
                    None => None,
                },
            }
        }
    }

    /// The task that is taken from a source.
    pub open spec fn task_at(self, s: Source) -> T {
        match s {
            Source::Local(w) => self.locals[w][0],
            Source::Injector(i) => self.injectors[i][0],
            Source::Victim(v) => self.locals[v].last(),
        }
    }

    /// The queues after a task was taken from a source.
    pub open spec fn without(self, s: Source) -> Queues<T> {
        match s {
            Source::Local(w) => Queues {
                locals: self.locals.update(w, self.locals[w].drop_first()),
                ..self
            },
            Source::Injector(i) => Queues {
                injectors: self.injectors.update(i, self.injectors[i].drop_first()),
                ..self
            },
            Source::Victim(v) => Queues {
                locals: self.locals.update(v, self.locals[v].drop_last()),
                ..self
            },
        }
    }

    /// The queues after worker `w` has put a task into its own queue.
    pub open spec fn with_local(self, w: int, t: T) -> Queues<T> {
        Queues { locals: self.locals.update(w, seq![t] + self.locals[w]), ..self }
    }

    /// The queues after a task was put in from outside for worker `i`.
    pub open spec fn with_injected(self, i: int, t: T) -> Queues<T> {
        Queues { injectors: self.injectors.update(i, self.injectors[i].push(t)), ..self }
    }
}

/// A task that is taken leaves the queues, and no other task does: each task is found once.
pub proof fn law_each_task_is_found_once<T>(q: Queues<T>, s: Source)
    requires
        q.has(s),
    ensures
        q.tasks().contains(q.task_at(s)),
        q.without(s).tasks() == q.tasks().remove(q.task_at(s)),
        q.without(s).waiting() == q.waiting() - 1,
{
    let t = q.task_at(s);
    match s {
        Source::Local(v) => {
            let old_q = q.locals[v];
            let new_q = old_q.drop_first();
            lemma_ends_multiset(old_q);
            lemma_held_update(q.locals, v, new_q);
            lemma_taken(q.locals, v, new_q, t);
            lemma_total_bounds(q.locals, v);
            lemma_total_update(q.locals, v, new_q);
        },
        Source::Injector(i) => {
            let old_q = q.injectors[i];
            let new_q = old_q.drop_first();
            lemma_ends_multiset(old_q);
            lemma_held_update(q.injectors, i, new_q);
            lemma_taken(q.injectors, i, new_q, t);
            lemma_total_bounds(q.injectors, i);
            lemma_total_update(q.injectors, i, new_q);
        },
        Source::Victim(v) => {
            let old_q = q.locals[v];
            let new_q = old_q.drop_last();
            lemma_ends_multiset(old_q);
            lemma_held_update(q.locals, v, new_q);
            lemma_taken(q.locals, v, new_q, t);
            lemma_total_bounds(q.locals, v);
            lemma_total_update(q.locals, v, new_q);
        },
    }
    assert(q.without(s).tasks() =~= q.tasks().remove(t));
}

proof fn lemma_taken<T>(qs: Seq<Seq<T>>, i: int, q: Seq<T>, t: T)
    requires
        0 <= i < qs.len(),
        qs[i].to_multiset().contains(t),
        q.to_multiset() == qs[i].to_multiset().remove(t),
        held(qs.update(i, q)).add(qs[i].to_multiset()) == held(qs).add(q.to_multiset()),
    ensures
        held(qs).contains(t),
        held(qs.update(i, q)) == held(qs).remove(t),
{
    let a = held(qs.update(i, q));
    let b = held(qs);
    let m = qs[i].to_multiset();
    assert forall|x: T| a.count(x) + m.count(x) == b.count(x) + #[trigger] m.remove(t).count(x) by {
        assert(a.add(m).count(x) == b.add(m.remove(t)).count(x));
    }
    assert(m.remove(t).count(t) == m.count(t) - 1);
    assert(a.count(t) + m.count(t) == b.count(t) + m.remove(t).count(t));
    assert(a =~= b.remove(t)) by {
        assert forall|x: T| a.count(x) == #[trigger] b.remove(t).count(x) by {
            assert(a.count(x) + m.count(x) == b.count(x) + m.remove(t).count(x));
        }
    }
}

/// A task that is put in joins those that wait.
pub proof fn law_tasks_join<T>(q: Queues<T>, i: int, t: T)
    requires
        0 <= i < q.locals.len(),
        q.locals.len() == q.injectors.len(),
    ensures
        q.with_local(i, t).tasks() == q.tasks().insert(t),
        q.with_injected(i, t).tasks() == q.tasks().insert(t),
{
    broadcast use vstd::seq_lib::group_to_multiset_ensures;

    lemma_front_multiset(q.locals[i], t);
    lemma_held_update(q.locals, i, seq![t] + q.locals[i]);
    lemma_joined(q.locals, i, seq![t] + q.locals[i], t);
    lemma_held_update(q.injectors, i, q.injectors[i].push(t));
    lemma_joined(q.injectors, i, q.injectors[i].push(t), t);
    assert(q.with_local(i, t).tasks() =~= q.tasks().insert(t));
    assert(q.with_injected(i, t).tasks() =~= q.tasks().insert(t));
}

proof fn lemma_joined<T>(qs: Seq<Seq<T>>, i: int, q: Seq<T>, t: T)
    requires
        0 <= i < qs.len(),
        q.to_multiset() == qs[i].to_multiset().insert(t),
        held(qs.update(i, q)).add(qs[i].to_multiset()) == held(qs).add(q.to_multiset()),
    ensures
        held(qs.update(i, q)) == held(qs).insert(t),
{
    let a = held(qs.update(i, q));
    let b = held(qs);
    let m = qs[i].to_multiset();
    assert(a =~= b.insert(t)) by {
        assert forall|x: T| a.count(x) == #[trigger] b.insert(t).count(x) by {
            assert(a.add(m).count(x) == b.add(m.insert(t)).count(x));
        }
    }
}

/// A worker finds a task exactly if one waits anywhere: nothing is overlooked.
pub proof fn law_nothing_is_overlooked<T>(q: Queues<T>, w: int)
    requires
        q.locals.len() == q.injectors.len(),
        0 <= w < q.locals.len(),
    ensures
        q.source(w) is None <==> q.waiting() == 0,
        q.source(w) matches Some(s) ==> q.has(s),
        q.source(w) matches Some(s) ==> q.without(s).waiting() == q.waiting() - 1,
{
    let n = q.locals.len() as int;
    lemma_first_full(q.injectors, w, 0);
    lemma_first_full(q.locals, w, 1);
    match q.source(w) {
        None => {
            assert forall|i: int| 0 <= i < n implies (#[trigger] q.injectors[i]).len() == 0 by {
                let k = lemma_round(w, i, n);
                assert(q.injectors[place(w, k, n)].len() == 0);
            }
            assert forall|i: int| 0 <= i < n implies (#[trigger] q.locals[i]).len() == 0 by {
                let k = lemma_round(w, i, n);
                if k > 0 {
                    assert(q.locals[place(w, k, n)].len() == 0);
                }
            }
            lemma_total_zero(q.locals);
            lemma_total_zero(q.injectors);
        },
        Some(s) => match s {
            Source::Local(v) => {
                lemma_total_bounds(q.locals, v);
                lemma_total_update(q.locals, v, q.locals[v].drop_first());
            },
            Source::Injector(i) => {
                lemma_total_bounds(q.injectors, i);
                lemma_total_update(q.injectors, i, q.injectors[i].drop_first());
            },
            Source::Victim(v) => {
                lemma_total_bounds(q.locals, v);
                lemma_total_update(q.locals, v, q.locals[v].drop_last());
            },
        },
    }
}

/// The queues of all workers, and the count of the tasks that wait.
pub struct Scheduler<T> {
    locals: Vec<LocalQueue<T>>,
    injectors: Vec<VecDeque<T>>,
    next_external: usize,
    pending: usize,
}

impl<T> View for Scheduler<T> {
    type V = Queues<T>;

    closed spec fn view(&self) -> Queues<T> {
        Queues {
            locals: self.locals@.map_values(|q: LocalQueue<T>| q@),
            injectors: self.injectors@.map_values(|q: VecDeque<T>| q@),
        }
    }
}

impl<T> Scheduler<T> {
    /// How many workers there are.
    pub open spec fn workers(self) -> nat {
        self@.locals.len()
    }

    /// For which worker the next task from outside is, counted without end.
    pub closed spec fn next_external(self) -> usize {
        self.next_external
    }

    /// The count of the tasks that wait.
    pub closed spec fn pending(self) -> usize {
        self.pending
    }

    /// That each worker has its two queues, and the count is right.
    pub open spec fn wf(self) -> bool {
        &&& self@.injectors.len() == self@.locals.len()
        &&& self@.locals.len() <= usize::MAX / 2
        &&& self.pending() == self@.waiting()
    }

    /// A scheduler for `n` workers, with nothing to do.
    pub fn new(n: usize) -> (s: Scheduler<T>)
        requires
            n <= usize::MAX / 2,
        ensures
            s.wf(),
            s.workers() == n,
            s.next_external() == 0,
            s@.waiting() == 0,
    {
        let mut locals: Vec<LocalQueue<T>> = Vec::new();
        let mut injectors: Vec<VecDeque<T>> = Vec::new();
        let mut i: usize = 0;
        while i < n
            invariant
                i <= n,
                locals@.len() == i,
                injectors@.len() == i,
                forall|k: int| 0 <= k < i ==> (#[trigger] locals@[k])@.len() == 0,
                forall|k: int| 0 <= k < i ==> (#[trigger] injectors@[k])@.len() == 0,
            decreases n - i,
        {
            locals.push(LocalQueue::new());
            injectors.push(VecDeque::new());
            i += 1;
        }
        let s = Scheduler { locals, injectors, next_external: 0, pending: 0 };
        proof {
            lemma_total_zero(s@.locals);
            lemma_total_zero(s@.injectors);
        }
        s
    }

    /// How many workers there are.
    pub fn n_workers(&self) -> (n: usize)
        ensures
            n == self.workers(),
    {
        self.locals.len()
    }

    /// How many tasks wait.
    pub fn n_pending(&self) -> (n: usize)
        ensures
            n == self.pending(),
    {
        self.pending
    }

    /// Puts a task into the own queue of worker `w`.
    pub fn push_local(&mut self, w: usize, task: T)
        requires
            old(self).wf(),
            w < old(self).workers(),
            old(self).pending() < usize::MAX,
        ensures
            final(self).wf(),
            final(self)@ == old(self)@.with_local(w as int, task),
            final(self).next_external() == old(self).next_external(),
    {
        proof {
            lemma_total_update(self@.locals, w as int, seq![task] + self@.locals[w as int]);
        }
        self.locals[w].push(task);
        self.pending += 1;
        assert(self@.locals =~= old(self)@.with_local(w as int, task).locals);
    }

    /// Puts a task in from outside, for one worker after the other.
    pub fn inject(&mut self, task: T)
        requires
            old(self).wf(),
            old(self).workers() > 0,
            old(self).pending() < usize::MAX,
        ensures
            final(self).wf(),
            final(self)@ == old(self)@.with_injected(
                old(self).next_external() as int % old(self).workers() as int,
                task,
            ),
            final(self).next_external() == old(self).next_external().wrapping_add(1),
    {
        let i: usize = self.next_external % self.locals.len();
        proof {
            lemma_total_update(self@.injectors, i as int, self@.injectors[i as int].push(task));
        }
        self.next_external = self.next_external.wrapping_add(1);
        self.injectors[i].push_back(task);
        self.pending += 1;
        assert(self@.injectors =~= old(self)@.with_injected(i as int, task).injectors);
    }

    /// Puts a task where it belongs: into the own queue of the worker that the caller is, or in
    /// from outside.
    pub fn schedule(&mut self, task: T, on_worker: Option<usize>)
        requires
            old(self).wf(),
            old(self).pending() < usize::MAX,
            match on_worker {
                Some(w) => w < old(self).workers(),
                None => old(self).workers() > 0,
            },
        ensures
            final(self).wf(),
            final(self)@ == (match on_worker {
                Some(w) => old(self)@.with_local(w as int, task),
                None => old(self)@.with_injected(
                    old(self).next_external() as int % old(self).workers() as int,
                    task,
                ),
            }),
            final(self).next_external() == (match on_worker {
                Some(_) => old(self).next_external(),
                None => old(self).next_external().wrapping_add(1),
            }),
            final(self)@.waiting() == old(self)@.waiting() + 1,
            final(self)@.tasks() == old(self)@.tasks().insert(task),
    {
        proof {
            let i = match on_worker {
                Some(w) => w as int,
                None => self.next_external() as int % self.workers() as int,
            };
            law_tasks_join(self@, i, task);
        }
        match on_worker {
            Some(w) => {
                proof {
                    lemma_total_update(self@.locals, w as int, seq![task] + self@.locals[w as int]);
                }
                self.push_local(w, task);
            },
            None => {
                proof {
                    let i = self.next_external() as int % self.workers() as int;
                    lemma_total_update(self@.injectors, i, self@.injectors[i].push(task));
                }
                self.inject(task);
            },
        }
    }

    /// Looks at one place for a task.
    fn look(&mut self, a: FindAction) -> (r: Option<T>)
        requires
            match a {
                FindAction::PopLocal(i) => i < old(self)@.locals.len(),
                FindAction::PopInjector(i) => i < old(self)@.injectors.len(),
                FindAction::Steal(i) => i < old(self)@.locals.len(),
            },
        ensures
            final(self).pending() == old(self).pending(),
            final(self).next_external() == old(self).next_external(),
            ({
                let (q, s) = match a {
                    FindAction::PopLocal(i) => (
                        old(self)@.locals[i as int],
                        Source::Local(i as int),
                    ),
                    FindAction::PopInjector(i) => (
                        old(self)@.injectors[i as int],
                        Source::Injector(i as int),
                    ),
                    FindAction::Steal(i) => (
                        old(self)@.locals[i as int],
                        Source::Victim(i as int),
                    ),
                };
                match r {
                    Some(t) => q.len() > 0 && t == old(self)@.task_at(s) && final(self)@ == old(
                        self,
                    )@.without(s),
                    None => q.len() == 0 && final(self)@ == old(self)@,
                }
            }),
    {
        match a {
            FindAction::PopLocal(i) => {
                let r = self.locals[i].pop();
                proof {
                    let s = Source::Local(i as int);
                    assert(r is Some ==> self@.locals =~= old(self)@.without(s).locals);
                    assert(r is None ==> self@.locals =~= old(self)@.locals);
                    assert(self@.injectors =~= old(self)@.injectors);
                }
                r
            },
            FindAction::PopInjector(i) => {
                let r = self.injectors[i].pop_front();
                proof {
                    let s = Source::Injector(i as int);
                    if r is Some {
                        assert(self.injectors@[i as int]@ =~= old(
                            self,
                        )@.injectors[i as int].drop_first());
                    }
                    assert(r is Some ==> self@.injectors =~= old(self)@.without(s).injectors);
                    assert(r is None ==> self@.injectors =~= old(self)@.injectors);
                    assert(self@.locals =~= old(self)@.locals);
                }
                r
            },
            FindAction::Steal(i) => {
                let r = self.locals[i].steal();
                proof {
                    let s = Source::Victim(i as int);
                    assert(r is Some ==> self@.locals =~= old(self)@.without(s).locals);
                    assert(r is None ==> self@.locals =~= old(self)@.locals);
                    assert(self@.injectors =~= old(self)@.injectors);
                }
                r
            },
        }
    }

    /// Finds a task for worker `w`, and takes it off the count.
    pub fn find_work(&mut self, w: usize) -> (r: Option<T>)
        requires
            old(self).wf(),
            w < old(self).workers(),
        ensures
            final(self).wf(),
            final(self).next_external() == old(self).next_external(),
            match old(self)@.source(w as int) {
                Some(s) => r == Some(old(self)@.task_at(s)) && final(self)@ == old(self)@.without(s),
                None => r is None && final(self)@ == old(self)@,
            },
            r is None <==> old(self)@.waiting() == 0,
            r is Some ==> final(self)@.waiting() == old(self)@.waiting() - 1,
            r matches Some(t) ==> {
                &&& old(self)@.tasks().contains(t)
                &&& final(self)@.tasks() == old(self)@.tasks().remove(t)
            },
    {
        let ghost q = self@;
        let mut op = FindOp::start(w, self.locals.len());
        proof {
            law_nothing_is_overlooked(q, w as int);
            if let Some(s) = q.source(w as int) {
                law_each_task_is_found_once(q, s);
            }
        }
        while is_unfinished(&op)
            invariant
                self.wf(),
                q == self@,
                q == old(self)@,
                self.next_external() == old(self).next_external(),
                op.valid(),
                op.index == w,
                op.n == q.locals.len(),
                w < q.locals.len(),
                q.source(w as int) is None <==> q.waiting() == 0,
                q.source(w as int) matches Some(s) ==> {
                    &&& q.without(s).waiting() == q.waiting() - 1
                    &&& q.tasks().contains(q.task_at(s))
                    &&& q.without(s).tasks() == q.tasks().remove(q.task_at(s))
                },
                match op.pc {
                    FindPc::Local => true,
                    FindPc::Injector(k) => {
                        &&& q.locals[w as int].len() == 0
                        &&& first_full(q.injectors, w as int, 0) == first_full(
                            q.injectors,
                            w as int,
                            k as int,
                        )
                    },
                    FindPc::Victim(k) => {
                        &&& q.locals[w as int].len() == 0
                        &&& first_full(q.injectors, w as int, 0) is None
                        &&& first_full(q.locals, w as int, 1) == first_full(
                            q.locals,
                            w as int,
                            k as int,
                        )
                    },
                    FindPc::Found => false,
                    FindPc::NotFound => q.source(w as int) is None,
                },
            decreases
                    match op.pc {
                        FindPc::Local => 2 * op.n + 1,
                        FindPc::Injector(k) => 2 * op.n - k,
                        FindPc::Victim(k) => op.n - k,
                        _ => 0,
                    },
        {
            if let Some(a) = op.next_action() {
                proof {
                    match op.pc {
                        FindPc::Injector(k) => {
                            assert(0 <= place(w as int, k as int, op.n as int) < op.n);
                        },
                        FindPc::Victim(k) => {
                            assert(0 <= place(w as int, k as int, op.n as int) < op.n);
                        },
                        _ => {},
                    }
                }
                let r = self.look(a);
                if r.is_some() {
                    self.pending = self.pending.saturating_sub(1);
                    return r;
                }
                let ghost before = op.pc;
                op.on_event(false);
                proof {
                    let i = w as int;
                    match before {
                        FindPc::Injector(k) => {
                            assert(first_full(q.injectors, i, k as int) == first_full(
                                q.injectors,
                                i,
                                k + 1,
                            ));
                        },
                        FindPc::Victim(k) => {
                            assert(first_full(q.locals, i, k as int) == first_full(
                                q.locals,
                                i,
                                k + 1,
                            ));
                        },
                        _ => {},
                    }
                }
            }
        }
        None
    }
}

/// Whether a search is not over.
fn is_unfinished(op: &FindOp) -> (b: bool)
    requires
        op.valid(),
    ensures
        b == !op.finished(),
{
    op.next_action().is_some()
}

/// What a worker does next.
#[derive(Clone, Copy, Debug, PartialEq, Eq, Structural)]
pub enum WorkerAction {
    /// Search for a task.
    Find,
    /// Run the task that was found.
    Run,
    /// Read whether the pool is shut down.
    ReadShutdown,
    /// Sleep as long as no task waits and the pool is not shut down.
    Rest,
}

/// What a worker is answered.
#[derive(Clone, Copy, Debug, PartialEq, Eq, Structural)]
pub enum WorkerEvent {
    /// Whether a task was found.
    Found(bool),
    /// The task was run.
    Ran,
    /// Whether the pool is shut down.
    Shutdown(bool),
    /// The rest is over.
    Rested,
}

/// Where a worker stands.
#[derive(Clone, Copy, Debug, PartialEq, Eq, Structural)]
pub enum WorkerPc {
    /// About to search.
    Find,
    /// About to run the task that was found.
    Run,
    /// Nothing was found; about to look whether the pool is shut down.
    ReadShutdown,
    /// The pool is shut down; about to search once more.
    FindAgain,
    /// About to rest.
    Rest,
    /// The worker has ended.
    Exit,
}

/// The life of a worker.
#[derive(Clone, Copy, Debug, PartialEq, Eq, Structural)]
pub struct WorkerOp {
    pub pc: WorkerPc,
}

impl WorkerOp {
    /// What a worker that has not ended does next.
    pub open spec fn action(self) -> WorkerAction {
        match self.pc {
            WorkerPc::Run => WorkerAction::Run,
            WorkerPc::ReadShutdown => WorkerAction::ReadShutdown,
            WorkerPc::Rest => WorkerAction::Rest,
            _ => WorkerAction::Find,
        }
    }

    /// Where a worker stands after an answer. It ends only when the pool is shut down and a
    /// search after that has found nothing. An answer of the wrong kind changes nothing.
    pub open spec fn after(self, e: WorkerEvent) -> WorkerOp {
        let pc = match (self.pc, e) {
            (WorkerPc::Find, WorkerEvent::Found(found)) => if found {
                WorkerPc::Run
            } else {
                WorkerPc::ReadShutdown
            },
            (WorkerPc::Run, WorkerEvent::Ran) => WorkerPc::Find,
            (WorkerPc::ReadShutdown, WorkerEvent::Shutdown(down)) => if down {
                WorkerPc::FindAgain
            } else {
                WorkerPc::Rest
            },
            (WorkerPc::FindAgain, WorkerEvent::Found(found)) => if found {
                WorkerPc::Run
            } else {
                WorkerPc::Exit
            },
            (WorkerPc::Rest, WorkerEvent::Rested) => WorkerPc::Find,
            (pc, _) => pc,
        };
        WorkerOp { pc }
    }

    /// A worker that has done nothing yet.
    pub fn start() -> (op: WorkerOp)
        ensures
            op == (WorkerOp { pc: WorkerPc::Find }),
    {
        WorkerOp { pc: WorkerPc::Find }
    }

    /// What to do next, or `None` when the worker has ended.
    pub fn next_action(&self) -> (a: Option<WorkerAction>)
        ensures
            a == (if self.pc is Exit { None } else { Some(self.action()) }),
    {
        match self.pc {
            WorkerPc::Find => Some(WorkerAction::Find),
            WorkerPc::Run => Some(WorkerAction::Run),
            WorkerPc::ReadShutdown => Some(WorkerAction::ReadShutdown),
            WorkerPc::FindAgain => Some(WorkerAction::Find),
            WorkerPc::Rest => Some(WorkerAction::Rest),
            WorkerPc::Exit => None,
        }
    }

    /// Takes the answer to what was done.
    pub fn on_event(&mut self, e: WorkerEvent)
        ensures
            *final(self) == old(self).after(e),
    {
        let pc = match (self.pc, e) {
            (WorkerPc::Find, WorkerEvent::Found(found)) => {
                if found {
                    WorkerPc::Run
                } else {
                    WorkerPc::ReadShutdown
                }
            },
            (WorkerPc::Run, WorkerEvent::Ran) => WorkerPc::Find,
            (WorkerPc::ReadShutdown, WorkerEvent::Shutdown(down)) => {
                if down {
                    WorkerPc::FindAgain
                } else {
                    WorkerPc::Rest
                }
            },
            (WorkerPc::FindAgain, WorkerEvent::Found(found)) => {
                if found {
                    WorkerPc::Run
                } else {
                    WorkerPc::Exit
                }
            },
            (WorkerPc::Rest, WorkerEvent::Rested) => WorkerPc::Find,
            (pc, _) => pc,
        };
        self.pc = pc;
    }
}

/// Where the spawning of a task stands. The task is put into a queue, then counted, then the
/// workers are told.
pub enum SpawnStage {
    Push,
    Count,
    Tell,
    Done,
}

/// What a worker is doing, in detail.
pub enum WorkerStage {
    /// Searching; `op.pc` says where it looks next.
    Search(FindOp),
    /// A task was found; about to take it off the count.
    Discount,
    /// Running a task, which may spawn others.
    Busy(SpawnStage),
    /// About to read whether the pool is shut down.
    ReadShutdown,
    /// About to rest, or resting.
    Rest,
    /// Ended.
    Exit,
}

/// Somebody who has to do with the pool.
pub enum SchedAgent {
    Worker { op: WorkerOp, stage: WorkerStage, asleep: bool },
    Outsider(SpawnStage),
    Closer(SpawnStage),
}

/// The queues, the count, whether the pool is shut down, and all who have to do with it. The
/// first agents are the workers.
pub struct SchedSystem {
    pub queues: Queues<nat>,
    pub pending: nat,
    pub shutdown: bool,
    pub agents: Seq<SchedAgent>,
}

/// Whether an agent has put a task into a queue and not yet counted it.
pub open spec fn owes_count(a: SchedAgent) -> bool {
    match a {
        SchedAgent::Worker { op, stage, asleep } => stage matches WorkerStage::Busy(s)
            && s is Count,
        SchedAgent::Outsider(s) => s is Count,
        SchedAgent::Closer(_) => false,
    }
}

/// Whether an agent has found a task and not yet taken it off the count.
pub open spec fn owes_discount(a: SchedAgent) -> bool {
    a matches SchedAgent::Worker { op, stage, asleep } && stage is Discount
}

/// Whether an agent is about to tell the workers.
pub open spec fn will_tell(a: SchedAgent) -> bool {
    match a {
        SchedAgent::Worker { op, stage, asleep } => stage matches WorkerStage::Busy(s)
            && s is Tell,
        SchedAgent::Outsider(s) => s is Tell,
        SchedAgent::Closer(s) => s is Tell,
    }
}

/// Whether an agent is a worker that is asleep.
pub open spec fn sleeps(a: SchedAgent) -> bool {
    a matches SchedAgent::Worker { op, stage, asleep } && asleep
}

/// An agent after the workers were told.
pub open spec fn told(a: SchedAgent) -> SchedAgent {
    match a {
        SchedAgent::Worker { op, stage, asleep } => SchedAgent::Worker { op, stage, asleep: false },
        _ => a,
    }
}

impl SchedSystem {
    /// How many workers there are.
    pub open spec fn n(self) -> int {
        self.queues.locals.len() as int
    }

    /// That a worker which searches after the shutdown has found nothing where it has looked.
    pub open spec fn searched(self, i: int, pc: FindPc) -> bool {
        match pc {
            FindPc::Local => true,
            FindPc::Injector(k) => {
                &&& self.queues.locals[i].len() == 0
                &&& forall|j: int|
                    0 <= j < k ==> (#[trigger] self.queues.injectors[place(i, j, self.n())]).len()
                        == 0
            },
            _ => {
                &&& self.queues.locals[i].len() == 0
                &&& forall|j: int|
                    0 <= j < self.n() ==> (#[trigger] self.queues.injectors[place(
                        i,
                        j,
                        self.n(),
                    )]).len() == 0
            },
        }
    }

    /// What holds of agent `i`.
    pub open spec fn agent_inv(self, i: int) -> bool {
        match self.agents[i] {
            SchedAgent::Worker { op, stage, asleep } => {
                &&& i < self.n()
                &&& asleep ==> stage is Rest
                &&& match stage {
                    WorkerStage::Search(f) => {
                        &&& f.valid()
                        &&& f.index == i
                        &&& f.n == self.n()
                        &&& !f.finished()
                        &&& op.pc is Find || op.pc is FindAgain
                        &&& op.pc is FindAgain ==> self.shutdown && self.searched(i, f.pc)
                    },
                    WorkerStage::Discount => op.pc is Run,
                    WorkerStage::Busy(s) => op.pc is Run && !(s is Done),
                    WorkerStage::ReadShutdown => op.pc is ReadShutdown,
                    WorkerStage::Rest => op.pc is Rest,
                    WorkerStage::Exit => op.pc is Exit && self.shutdown && self.searched(
                        i,
                        FindPc::NotFound,
                    ),
                }
            },
            SchedAgent::Outsider(s) => i >= self.n() && (self.shutdown ==> s is Done),
            SchedAgent::Closer(s) => i >= self.n() && (s is Push || s is Tell || s is Done),
        }
    }

    /// Whether somebody is about to tell the workers.
    pub open spec fn has_teller(self) -> bool {
        exists|i: int| 0 <= i < self.agents.len() && will_tell(#[trigger] self.agents[i])
    }

    /// What holds at any moment.
    pub open spec fn inv(self) -> bool {
        &&& 0 < self.n() <= usize::MAX / 2
        &&& self.queues.injectors.len() == self.n()
        &&& self.n() <= self.agents.len()
        &&& forall|i: int| 0 <= i < self.n() ==> #[trigger] self.agents[i] is Worker
        &&& forall|i: int| 0 <= i < self.agents.len() ==> #[trigger] self.agent_inv(i)
        &&& self.queues.waiting() + counting::count(self.agents, |a: SchedAgent| owes_discount(a))
            <= self.pending + counting::count(self.agents, |a: SchedAgent| owes_count(a))
        &&& forall|i: int|
            0 <= i < self.agents.len() && sleeps(#[trigger] self.agents[i]) ==> (self.pending == 0
                && !self.shutdown) || self.has_teller()
    }

    /// Whether agent `i` has something to do. The pool is shut down when nobody puts tasks in
    /// from outside any more.
    pub open spec fn enabled(self, i: int) -> bool {
        &&& 0 <= i < self.agents.len()
        &&& match self.agents[i] {
            SchedAgent::Worker { op, stage, asleep } => !asleep && !(stage is Exit),
            SchedAgent::Outsider(s) => !(s is Done),
            SchedAgent::Closer(s) => !(s is Done) && (s is Push ==> forall|j: int|
                0 <= j < self.agents.len() && #[trigger] self.agents[j] is Outsider
                    ==> self.agents[j]->Outsider_0 is Done),
        }
    }

    /// The system with another agent `i`.
    pub open spec fn with(self, i: int, a: SchedAgent) -> SchedSystem {
        SchedSystem { agents: self.agents.update(i, a), ..self }
    }

    /// The system after all workers were told, and agent `i` has become `a`.
    pub open spec fn tell(self, i: int, a: SchedAgent) -> SchedSystem {
        SchedSystem {
            agents: self.agents.update(i, a).map_values(|a: SchedAgent| told(a)),
            ..self
        }
    }

    /// Where a search of worker `i` looks, and whether it finds a task there.
    pub open spec fn looks(self, a: FindAction) -> Option<Source> {
        match a {
            FindAction::PopLocal(k) => if self.queues.locals[k as int].len() > 0 {
                Some(Source::Local(k as int))
            } else {
                None
            },
            FindAction::PopInjector(k) => if self.queues.injectors[k as int].len() > 0 {
                Some(Source::Injector(k as int))
            } else {
                None
            },
            FindAction::Steal(k) => if self.queues.locals[k as int].len() > 0 {
                Some(Source::Victim(k as int))
            } else {
                None
            },
        }
    }

    /// A worker that begins what its life says comes next.
    pub open spec fn worker(self, i: int, op: WorkerOp) -> SchedAgent {
        let stage = match op.pc {
            WorkerPc::Find => WorkerStage::Search(
                FindOp { index: i as usize, n: self.n() as usize, pc: FindPc::Local },
            ),
            WorkerPc::FindAgain => WorkerStage::Search(
                FindOp { index: i as usize, n: self.n() as usize, pc: FindPc::Local },
            ),
            WorkerPc::Run => WorkerStage::Discount,
            WorkerPc::ReadShutdown => WorkerStage::ReadShutdown,
            WorkerPc::Rest => WorkerStage::Rest,
            WorkerPc::Exit => WorkerStage::Exit,
        };
        SchedAgent::Worker { op, stage, asleep: false }
    }

    /// The system after agent `i` has done what comes next. A worker that runs a task spawns
    /// another one if `spawn`; a task that is put in from outside goes to worker `target`.
    pub open spec fn step(self, i: int, spawn: bool, target: int, task: nat) -> SchedSystem {
        match self.agents[i] {
            SchedAgent::Worker { op, stage, asleep } => match stage {
                WorkerStage::Search(f) => match self.looks(f.action()) {
                    Some(src) => SchedSystem {
                        queues: self.queues.without(src),
                        ..self.with(i, self.worker(i, op.after(WorkerEvent::Found(true))))
                    },
                    None => {
                        let f2 = f.after(false);
                        if f2.pc is NotFound {
                            self.with(i, self.worker(i, op.after(WorkerEvent::Found(false))))
                        } else {
                            self.with(
                                i,
                                SchedAgent::Worker { op, stage: WorkerStage::Search(f2), asleep },
                            )
                        }
                    },
                },
                WorkerStage::Discount => SchedSystem {
                    pending: if self.pending > 0 {
                        (self.pending - 1) as nat
                    } else {
                        0
                    },
                    ..self.with(
                        i,
                        SchedAgent::Worker { op, stage: WorkerStage::Busy(SpawnStage::Push), asleep },
                    )
                },
                WorkerStage::Busy(s) => match s {
                    SpawnStage::Push => if spawn {
                        SchedSystem {
                            queues: self.queues.with_local(i, task),
                            ..self.with(
                                i,
                                SchedAgent::Worker {
                                    op,
                                    stage: WorkerStage::Busy(SpawnStage::Count),
                                    asleep,
                                },
                            )
                        }
                    } else {
                        self.with(i, self.worker(i, op.after(WorkerEvent::Ran)))
                    },
                    SpawnStage::Count => SchedSystem {
                        pending: self.pending + 1,
                        ..self.with(
                            i,
                            SchedAgent::Worker {
                                op,
                                stage: WorkerStage::Busy(SpawnStage::Tell),
                                asleep,
                            },
                        )
                    },
                    _ => self.tell(
                        i,
                        SchedAgent::Worker { op, stage: WorkerStage::Busy(SpawnStage::Push), asleep },
                    ),
                },
                WorkerStage::ReadShutdown => self.with(
                    i,
                    self.worker(i, op.after(WorkerEvent::Shutdown(self.shutdown))),
                ),
                WorkerStage::Rest => if self.pending == 0 && !self.shutdown {
                    self.with(i, SchedAgent::Worker { op, stage, asleep: true })
                } else {
                    self.with(i, self.worker(i, op.after(WorkerEvent::Rested)))
                },
                WorkerStage::Exit => self,
            },
            SchedAgent::Outsider(s) => match s {
                SpawnStage::Push => SchedSystem {
                    queues: self.queues.with_injected(target, task),
                    ..self.with(i, SchedAgent::Outsider(SpawnStage::Count))
                },
                SpawnStage::Count => SchedSystem {
                    pending: self.pending + 1,
                    ..self.with(i, SchedAgent::Outsider(SpawnStage::Tell))
                },
                _ => self.tell(i, SchedAgent::Outsider(SpawnStage::Done)),
            },
            SchedAgent::Closer(s) => match s {
                SpawnStage::Push => SchedSystem {
                    shutdown: true,
                    ..self.with(i, SchedAgent::Closer(SpawnStage::Tell))
                },
                _ => self.tell(i, SchedAgent::Closer(SpawnStage::Done)),
            },
        }
    }
}

/// What replacing agent `i` by `a` does to the two counts.
proof fn lemma_agent_counts(agents: Seq<SchedAgent>, i: int, a: SchedAgent)
    requires
        0 <= i < agents.len(),
    ensures
        counting::count(agents.update(i, a), |x: SchedAgent| owes_count(x)) == counting::count(
            agents,
            |x: SchedAgent| owes_count(x),
        ) + (if owes_count(a) {
            1int
        } else {
            0
        }) - (if owes_count(agents[i]) {
            1int
        } else {
            0
        }),
        counting::count(agents.update(i, a), |x: SchedAgent| owes_discount(x)) == counting::count(
            agents,
            |x: SchedAgent| owes_discount(x),
        ) + (if owes_discount(a) {
            1int
        } else {
            0
        }) - (if owes_discount(agents[i]) {
            1int
        } else {
            0
        }),
{
    counting::lemma_count_update(agents, i, a, |x: SchedAgent| owes_count(x));
    counting::lemma_count_update(agents, i, a, |x: SchedAgent| owes_discount(x));
}

/// Telling the workers changes neither count.
proof fn lemma_tell_counts(agents: Seq<SchedAgent>)
    ensures
        counting::count(
            agents.map_values(|a: SchedAgent| told(a)),
            |x: SchedAgent| owes_count(x),
        ) == counting::count(agents, |x: SchedAgent| owes_count(x)),
        counting::count(
            agents.map_values(|a: SchedAgent| told(a)),
            |x: SchedAgent| owes_discount(x),
        ) == counting::count(agents, |x: SchedAgent| owes_discount(x)),
{
    let ts = agents.map_values(|a: SchedAgent| told(a));
    counting::lemma_count_same(agents, ts, |x: SchedAgent| owes_count(x), |x: SchedAgent| owes_count(x));
    counting::lemma_count_same(
        agents,
        ts,
        |x: SchedAgent| owes_discount(x),
        |x: SchedAgent| owes_discount(x),
    );
}

/// What a step does to the queues: at most one item comes or goes, and after the shutdown
/// nothing is put in from outside, and nothing into the queue of a worker but by itself.
proof fn lemma_step_queues(s: SchedSystem, i: int, spawn: bool, target: int, task: nat)
    requires
        s.inv(),
        s.enabled(i),
        0 <= target < s.n(),
    ensures
        ({
            let s2 = s.step(i, spawn, target, task);
            &&& s2.queues.locals.len() == s.n()
            &&& s2.queues.injectors.len() == s.n()
            &&& forall|j: int|
                0 <= j < s.n() && j != i && s.queues.locals[j].len() == 0
                    ==> (#[trigger] s2.queues.locals[j]).len() == 0
            &&& s.shutdown ==> forall|j: int|
                0 <= j < s.n() && s.queues.injectors[j].len() == 0
                    ==> (#[trigger] s2.queues.injectors[j]).len() == 0
            &&& s2.queues.waiting() == s.queues.waiting() + (match s.agents[i] {
                SchedAgent::Worker { op, stage, asleep } => match stage {
                    WorkerStage::Search(f) => if s.looks(f.action()) is Some {
                        -1int
                    } else {
                        0
                    },
                    WorkerStage::Busy(st) => if st is Push && spawn {
                        1
                    } else {
                        0
                    },
                    _ => 0,
                },
                SchedAgent::Outsider(st) => if st is Push {
                    1
                } else {
                    0
                },
                _ => 0,
            })
        }),
{
    assert(s.agent_inv(i));
    match s.agents[i] {
        SchedAgent::Worker { op, stage, asleep } => match stage {
            WorkerStage::Search(f) => {
                match f.pc {
                    FindPc::Injector(k) => {
                        assert(0 <= place(i, k as int, s.n()) < s.n());
                    },
                    FindPc::Victim(k) => {
                        assert(0 <= place(i, k as int, s.n()) < s.n());
                    },
                    _ => {},
                }
                if let Some(src) = s.looks(f.action()) {
                    match src {
                        Source::Local(v) => {
                            lemma_total_bounds(s.queues.locals, v);
                            lemma_total_update(s.queues.locals, v, s.queues.locals[v].drop_first());
                        },
                        Source::Injector(v) => {
                            lemma_total_bounds(s.queues.injectors, v);
                            lemma_total_update(
                                s.queues.injectors,
                                v,
                                s.queues.injectors[v].drop_first(),
                            );
                        },
                        Source::Victim(v) => {
                            lemma_total_bounds(s.queues.locals, v);
                            lemma_total_update(s.queues.locals, v, s.queues.locals[v].drop_last());
                        },
                    }
                }
            },
            WorkerStage::Busy(st) => {
                lemma_total_update(s.queues.locals, i, seq![task] + s.queues.locals[i]);
            },
            _ => {},
        },
        SchedAgent::Outsider(st) => {
            lemma_total_update(s.queues.injectors, target, s.queues.injectors[target].push(task));
        },
        _ => {},
    }
}

/// However workers, outsiders and the one who shuts the pool down interleave, the invariant
/// stays.
#[verifier::rlimit(60)]
pub proof fn law_sched_step(s: SchedSystem, i: int, spawn: bool, target: int, task: nat)
    requires
        s.inv(),
        s.enabled(i),
        0 <= target < s.n(),
    ensures
        s.step(i, spawn, target, task).inv(),
{
    let s2 = s.step(i, spawn, target, task);
    let n = s.n();
    assert(s.agent_inv(i));
    lemma_step_queues(s, i, spawn, target, task);
    let tells = will_tell(s.agents[i]);
    let a2 = if tells {
        match s.agents[i] {
            SchedAgent::Worker { op, stage, asleep } => SchedAgent::Worker {
                op,
                stage: WorkerStage::Busy(SpawnStage::Push),
                asleep,
            },
            SchedAgent::Outsider(_) => SchedAgent::Outsider(SpawnStage::Done),
            SchedAgent::Closer(_) => SchedAgent::Closer(SpawnStage::Done),
        }
    } else {
        s2.agents[i]
    };
    let mid = s.agents.update(i, a2);
    lemma_agent_counts(s.agents, i, a2);
    if tells {
        assert(s2.agents == mid.map_values(|a: SchedAgent| told(a)));
        lemma_tell_counts(mid);
    } else {
        assert(s2.agents =~= mid);
    }
    assert(s2.n() == n);
    assert forall|j: int| 0 <= j < s2.agents.len() && j != i implies #[trigger] s2.agents[j] == (
    if tells {
        told(s.agents[j])
    } else {
        s.agents[j]
    }) by {}
    assert forall|j: int| 0 <= j < s2.agents.len() implies #[trigger] s2.agent_inv(j) by {
        assert(s.agent_inv(j));
        if j != i {
            assert forall|k: int| 0 <= k < n implies 0 <= #[trigger] place(j, k, n) < n by {}
            if s.agents[j] is Outsider && s2.shutdown && !s.shutdown {
                assert(s.agents[j]->Outsider_0 is Done);
            }
        } else {
            lemma_worker_goes_on(s, i, spawn, target, task);
        }
    }
    assert forall|j: int| 0 <= j < s2.agents.len() && sleeps(#[trigger] s2.agents[j]) implies (
    s2.pending == 0 && !s2.shutdown) || s2.has_teller() by {
        if j != i {
            assert(sleeps(s.agents[j]));
            if s.pending == 0 && !s.shutdown {
                if s2.pending > 0 || s2.shutdown {
                    assert(will_tell(s2.agents[i]));
                }
            } else {
                let k = choose|k: int| 0 <= k < s.agents.len() && will_tell(#[trigger] s.agents[k]);
                if k != i {
                    assert(will_tell(s2.agents[k]));
                }
            }
        }
    }
}

/// What holds of the agent that takes a step.
#[verifier::rlimit(30)]
proof fn lemma_worker_goes_on(s: SchedSystem, i: int, spawn: bool, target: int, task: nat)
    requires
        s.inv(),
        s.enabled(i),
        0 <= target < s.n(),
    ensures
        s.step(i, spawn, target, task).agent_inv(i),
{
    let s2 = s.step(i, spawn, target, task);
    let n = s.n();
    assert(s.agent_inv(i));
    lemma_step_queues(s, i, spawn, target, task);
    if let SchedAgent::Worker { op, stage, asleep } = s.agents[i] {
        if let WorkerStage::Search(f) = stage {
            assert forall|k: int| 0 <= k < n implies 0 <= #[trigger] place(i, k, n) < n by {}
            if s.looks(f.action()) is None {
                assert(s2.queues == s.queues);
                if let FindPc::Injector(k) = f.pc {
                    assert(s.queues.injectors[place(i, k as int, n)].len() == 0);
                }
            }
        }
    }
}

/// The pool as it is made, with its workers and with agents that have done nothing yet,
/// satisfies the invariant.
pub proof fn law_sched_start(s: SchedSystem)
    requires
        0 < s.n() <= usize::MAX / 2,
        s.queues.injectors.len() == s.n(),
        s.n() <= s.agents.len(),
        s.queues.waiting() == 0,
        s.pending == 0,
        !s.shutdown,
        forall|i: int|
            0 <= i < s.agents.len() ==> #[trigger] s.agents[i] == (if i < s.n() {
                s.worker(i, WorkerOp { pc: WorkerPc::Find })
            } else {
                SchedAgent::Outsider(SpawnStage::Push)
            }) || (i >= s.n() && s.agents[i] == SchedAgent::Closer(SpawnStage::Push)),
    ensures
        s.inv(),
{
    let d = |a: SchedAgent| owes_discount(a);
    if counting::count(s.agents, d) >= 1 {
        let k = counting::lemma_count_witness(s.agents, d);
    }
    assert forall|i: int| 0 <= i < s.agents.len() implies #[trigger] s.agent_inv(i) by {
        let a = s.agents[i];
    }
}

/// Every task is run before the pool has ended: when all workers have ended, no queue holds
/// anything.
pub proof fn law_all_tasks_run_before_the_end(s: SchedSystem)
    requires
        s.inv(),
        forall|i: int|
            0 <= i < s.n() ==> (#[trigger] s.agents[i] matches SchedAgent::Worker {
                op,
                stage,
                asleep,
            } && stage is Exit),
    ensures
        s.queues.waiting() == 0,
{
    let n = s.n();
    assert forall|j: int| 0 <= j < n implies (#[trigger] s.queues.locals[j]).len() == 0 by {
        assert(s.agents[j] is Worker);
        assert(s.agent_inv(j));
    }
    assert(s.agents[0] is Worker);
    assert(s.agent_inv(0));
    assert forall|j: int| 0 <= j < n implies (#[trigger] s.queues.injectors[j]).len() == 0 by {
        let k = lemma_round(0, j, n);
        assert(s.queues.injectors[place(0, k, n)].len() == 0);
    }
    lemma_total_zero(s.queues.locals);
    lemma_total_zero(s.queues.injectors);
}

/// No wake-up is lost: as long as a worker sleeps and a task waits, or the pool is shut down,
/// somebody is about to tell the workers, or first to count the task and then to tell them.
pub proof fn law_sched_no_lost_wakeup(s: SchedSystem, i: int)
    requires
        s.inv(),
        0 <= i < s.agents.len(),
        sleeps(s.agents[i]),
        s.queues.waiting() > 0 || s.shutdown,
    ensures
        exists|j: int|
            0 <= j < s.agents.len() && (will_tell(#[trigger] s.agents[j]) || owes_count(
                s.agents[j],
            )),
{
    if s.pending == 0 && !s.shutdown {
        let j = counting::lemma_count_witness(s.agents, |a: SchedAgent| owes_count(a));
        assert(owes_count(s.agents[j]));
    } else {
        let j = choose|j: int| 0 <= j < s.agents.len() && will_tell(#[trigger] s.agents[j]);
        assert(will_tell(s.agents[j]));
    }
}

/// Whether queue `j` comes before queue `i` when one starts at queue `w` and goes round.
pub open spec fn on_the_way(w: int, j: int, i: int) -> bool {
    if w <= i {
        w <= j < i
    } else {
        w <= j || j < i
    }
}

proof fn lemma_first_on_the_way<T>(qs: Seq<Seq<T>>, w: int, k: int)
    requires
        0 <= w < qs.len(),
        0 <= k,
        forall|j: int|
            0 <= j < qs.len() && (if w + k < qs.len() {
                w <= j < w + k
            } else {
                w <= j || j < w + k - qs.len()
            }) ==> (#[trigger] qs[j]).len() == 0,
    ensures
        match first_full(qs, w, k) {
            Some(i) => 0 <= i < qs.len() && qs[i].len() > 0 && forall|j: int|
                0 <= j < qs.len() && on_the_way(w, j, i) ==> (#[trigger] qs[j]).len() == 0,
            None => k <= qs.len() ==> forall|j: int|
                0 <= j < qs.len() ==> (#[trigger] qs[j]).len() == 0,
        },
    decreases qs.len() - k,
{
    let n = qs.len() as int;
    if k < n {
        let p = place(w, k, n);
        if w + k < n {
            assert(p == w + k) by (nonlinear_arith)
                requires
                    p == (w + k) % n,
                    0 <= w + k < n,
            ;
        } else {
            assert(p == w + k - n) by (nonlinear_arith)
                requires
                    p == (w + k) % n,
                    n <= w + k < 2 * n,
            ;
        }
        if qs[p].len() == 0 {
            lemma_first_on_the_way(qs, w, k + 1);
        }
    }
}

/// Where a worker takes its next task from. As long as there is one in its own queue, from there;
/// otherwise from the first of the shared queues, beginning with its own and going round, that has
/// one; and only if all these are empty, from the first of the other workers, going round, that
/// has one. Only if all queues are empty it gets none.
pub proof fn law_order_of_search<T>(q: Queues<T>, w: int)
    requires
        q.locals.len() == q.injectors.len(),
        0 <= w < q.locals.len(),
    ensures
        q.locals[w].len() > 0 ==> q.source(w) == Some(Source::Local(w)),
        match q.source(w) {
            Some(Source::Local(x)) => x == w && q.locals[w].len() > 0,
            Some(Source::Injector(i)) => {
                &&& q.locals[w].len() == 0
                &&& 0 <= i < q.injectors.len() && q.injectors[i].len() > 0
                &&& forall|j: int|
                    0 <= j < q.injectors.len() && on_the_way(w, j, i) ==> (
                    #[trigger] q.injectors[j]).len() == 0
            },
            Some(Source::Victim(v)) => {
                &&& q.locals[w].len() == 0
                &&& forall|j: int|
                    0 <= j < q.injectors.len() ==> (#[trigger] q.injectors[j]).len() == 0
                &&& 0 <= v < q.locals.len() && q.locals[v].len() > 0 && v != w
                &&& forall|j: int|
                    0 <= j < q.locals.len() && on_the_way(w, j, v) ==> (
                    #[trigger] q.locals[j]).len() == 0
            },
            None => {
                &&& forall|j: int| 0 <= j < q.locals.len() ==> (#[trigger] q.locals[j]).len() == 0
                &&& forall|j: int|
                    0 <= j < q.injectors.len() ==> (#[trigger] q.injectors[j]).len() == 0
            },
        },
{
    if q.locals[w].len() == 0 {
        lemma_first_on_the_way(q.injectors, w, 0);
        lemma_first_on_the_way(q.locals, w, 1);
    }
}

/// In which order tasks come out. A worker takes what it has put in last; who steals from it takes
/// what it has put in first; from a shared queue comes what was put in first. Taking a task leaves
/// all others where they are.
pub proof fn law_newest_first_and_oldest_first<T>(q: Queues<T>, w: int, t: T)
    requires
        q.locals.len() == q.injectors.len(),
        0 <= w < q.locals.len(),
    ensures
        q.with_local(w, t).source(w) == Some(Source::Local(w)),
        q.with_local(w, t).task_at(Source::Local(w)) == t,
        q.with_local(w, t).without(Source::Local(w)) == q,
        q.locals[w].len() == 0 ==> {
            &&& q.with_local(w, t).task_at(Source::Victim(w)) == t
            &&& q.with_local(w, t).without(Source::Victim(w)) == q
        },
        q.locals[w].len() > 0 ==> {
            &&& q.with_local(w, t).task_at(Source::Victim(w)) == q.task_at(Source::Victim(w))
            &&& q.with_local(w, t).without(Source::Victim(w)) == q.without(
                Source::Victim(w),
            ).with_local(w, t)
        },
        q.injectors[w].len() == 0 ==> {
            &&& q.with_injected(w, t).task_at(Source::Injector(w)) == t
            &&& q.with_injected(w, t).without(Source::Injector(w)) == q
        },
        q.injectors[w].len() > 0 ==> {
            &&& q.with_injected(w, t).task_at(Source::Injector(w)) == q.task_at(Source::Injector(w))
            &&& q.with_injected(w, t).without(Source::Injector(w)) == q.without(
                Source::Injector(w),
            ).with_injected(w, t)
        },
{
    let a = q.with_local(w, t);
    let b = q.with_injected(w, t);
    let l = q.locals[w];
    let i = q.injectors[w];
    assert((seq![t] + l).drop_first() =~= l);
    assert(a.without(Source::Local(w)).locals =~= q.locals);
    if l.len() == 0 {
        assert((seq![t] + l).drop_last() =~= l);
        assert(a.without(Source::Victim(w)).locals =~= q.locals);
    } else {
        assert((seq![t] + l).drop_last() =~= seq![t] + l.drop_last());
        assert(a.without(Source::Victim(w)).locals =~= q.without(Source::Victim(w)).with_local(
            w,
            t,
        ).locals);
    }
    if i.len() == 0 {
        assert(i.push(t).drop_first() =~= i);
        assert(b.without(Source::Injector(w)).injectors =~= q.injectors);
    } else {
        assert(i.push(t).drop_first() =~= i.drop_first().push(t));
        assert(b.without(Source::Injector(w)).injectors =~= q.without(
            Source::Injector(w),
        ).with_injected(w, t).injectors);
    }
}

/// What there is to do is what is in the queues: a task is there if and only if some queue has it,
/// there are as many as the queues are long together, and there are none only if all are empty.
pub proof fn law_tasks_are_in_the_queues<T>(q: Queues<T>, t: T)
    ensures
        q.tasks().count(t) > 0 <==> (exists|i: int|
            0 <= i < q.locals.len() && (#[trigger] q.locals[i]).contains(t)) || (exists|i: int|
            0 <= i < q.injectors.len() && (#[trigger] q.injectors[i]).contains(t)),
        q.tasks().len() == q.waiting(),
        q.waiting() == 0 <==> (forall|i: int|
            0 <= i < q.locals.len() ==> (#[trigger] q.locals[i]).len() == 0) && (forall|i: int|
            0 <= i < q.injectors.len() ==> (#[trigger] q.injectors[i]).len() == 0),
{
    lemma_held_contains(q.locals, t);
    lemma_held_contains(q.injectors, t);
    lemma_held_len(q.locals);
    lemma_held_len(q.injectors);
    if q.waiting() == 0 {
        assert forall|i: int| 0 <= i < q.locals.len() implies (#[trigger] q.locals[i]).len() == 0 by {
            lemma_total_bounds(q.locals, i);
        }
        assert forall|i: int| 0 <= i < q.injectors.len() implies (
        #[trigger] q.injectors[i]).len() == 0 by {
            lemma_total_bounds(q.injectors, i);
        }
    }
    if (forall|i: int| 0 <= i < q.locals.len() ==> (#[trigger] q.locals[i]).len() == 0) && (forall|
        i: int,
    |
        0 <= i < q.injectors.len() ==> (#[trigger] q.injectors[i]).len() == 0) {
        lemma_total_zero(q.locals);
        lemma_total_zero(q.injectors);
    }
}

proof fn lemma_held_contains<T>(qs: Seq<Seq<T>>, t: T)
    ensures
        held(qs).count(t) > 0 <==> exists|i: int|
            0 <= i < qs.len() && (#[trigger] qs[i]).contains(t),
    decreases qs.len(),
{
    broadcast use vstd::seq_lib::group_to_multiset_ensures;

    if qs.len() > 0 {
        let r = qs.drop_last();
        lemma_held_contains(r, t);
        if held(qs).count(t) > 0 {
            if r.len() > 0 && held(r).count(t) > 0 {
                let i = choose|i: int| 0 <= i < r.len() && (#[trigger] r[i]).contains(t);
                assert(qs[i].contains(t));
            } else {
                assert(qs[qs.len() - 1].contains(t));
            }
        }
        if exists|i: int| 0 <= i < qs.len() && (#[trigger] qs[i]).contains(t) {
            let i = choose|i: int| 0 <= i < qs.len() && (#[trigger] qs[i]).contains(t);
            if i < r.len() {
                assert(r[i].contains(t));
            }
        }
    }
}

/// A worker ends only after it has seen that the pool is shut down and then has looked for a task
/// once more and found none; when it has found one it runs it and looks again.
pub proof fn law_worker_ends_only_when_told(op: WorkerOp, e: WorkerEvent)
    ensures
        op.after(e).pc is Exit && !(op.pc is Exit) ==> op.pc is FindAgain && e
            == WorkerEvent::Found(false),
        op.after(e).pc is FindAgain && !(op.pc is FindAgain) ==> e == WorkerEvent::Shutdown(true),
        op.after(e).pc is Rest && !(op.pc is Rest) ==> e == WorkerEvent::Shutdown(false),
        (op.pc is Find || op.pc is FindAgain) && e == WorkerEvent::Found(true) ==> op.after(
            e,
        ).action() is Run,
        op.pc is Run && e is Ran ==> op.after(e).action() is Find,
        op.pc is Rest && e is Rested ==> op.after(e).action() is Find,
        op.pc is Find && e == WorkerEvent::Found(false) ==> op.after(e).action() is ReadShutdown,
{
}

} // verus!
