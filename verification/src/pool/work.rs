//! What stands in the queues of a pool that parallel algorithms run on: the pieces of their work,
//! and tasks of others.
//!
//! A pool may have tasks of its own while an algorithm runs on it. Who looks for the next piece
//! runs the tasks that it finds on the way.

use vstd::multiset::Multiset;
use vstd::prelude::*;

use crate::pool::task::FnOnceOnce;
use crate::pool::v3_stealing::StealingPool;
use crate::sched;

verus! {

/// A piece of work.
pub enum Work<O> {
    /// A chunk, by its number.
    Chunk(usize),
    /// The items from one place up to another.
    Range(usize, usize),
    /// A task of somebody else.
    Other(O),
}

/// Whether the tasks are those of others, and all of them may be run.
pub open spec fn only_others<O: FnOnceOnce>(tasks: Multiset<Work<O>>) -> bool {
    forall|t: Work<O>| #[trigger]
        tasks.count(t) > 0 ==> (t matches Work::Other(o) && o.callable())
}

/// Whether `after` is what is left of `before` when some tasks of others were run.
pub open spec fn others_ran<O: FnOnceOnce>(
    before: Multiset<Work<O>>,
    after: Multiset<Work<O>>,
) -> bool {
    forall|t: Work<O>|
        t is Other ==> #[trigger] after.count(t) <= before.count(t) && (after.count(t)
            < before.count(t) ==> t->Other_0.called())
}

/// Whether the pieces among the tasks are `mine`, and the tasks of others may be run.
pub open spec fn owns<O: FnOnceOnce>(tasks: Multiset<Work<O>>, mine: Multiset<Work<O>>) -> bool {
    &&& forall|t: Work<O>| !(t is Other) ==> #[trigger] tasks.count(t) == mine.count(t)
    &&& forall|t: Work<O>| #[trigger]
        tasks.count(t) > 0 ==> (t matches Work::Other(o) ==> o.callable())
    &&& forall|t: Work<O>| #[trigger] mine.count(t) > 0 ==> !(t is Other)
}

/// Tasks of others hold no piece.
pub proof fn lemma_owns_nothing<O: FnOnceOnce>(tasks: Multiset<Work<O>>)
    ensures
        only_others(tasks) <==> owns(tasks, Multiset::empty()),
{
    if owns(tasks, Multiset::empty()) {
        assert forall|t: Work<O>| #[trigger] tasks.count(t) > 0 implies (t matches Work::Other(o)
            && o.callable()) by {
            if !(t is Other) {
                assert(tasks.count(t) == Multiset::<Work<O>>::empty().count(t));
            }
        }
    } else if only_others(tasks) {
        assert forall|t: Work<O>| !(t is Other) implies #[trigger] tasks.count(t) == Multiset::<
            Work<O>,
        >::empty().count(t) by {}
    }
}

/// Queues in which nothing waits hold no task.
proof fn lemma_nothing_waits<T>(q: sched::Queues<T>, t: T)
    requires
        q.waiting() == 0,
    ensures
        q.tasks().count(t) == 0,
{
    sched::lemma_held_len(q.locals);
    sched::lemma_held_len(q.injectors);
    assert(q.tasks().len() == 0);
    assert(q.tasks() =~= Multiset::empty());
}

/// Puts a piece into the pool.
pub(crate) fn put_piece<O: FnOnceOnce>(
    pool: &mut StealingPool<Work<O>>,
    piece: Work<O>,
    Ghost(mine): Ghost<Multiset<Work<O>>>,
)
    requires
        old(pool).wf(),
        old(pool).workers() > 0,
        old(pool)@.waiting() < usize::MAX,
        !(piece is Other),
        owns(old(pool)@.tasks(), mine),
    ensures
        final(pool).wf(),
        final(pool).workers() == old(pool).workers(),
        final(pool).is_shut_down() == old(pool).is_shut_down(),
        final(pool)@.waiting() == old(pool)@.waiting() + 1,
        owns(final(pool)@.tasks(), mine.insert(piece)),
        others_ran(old(pool)@.tasks(), final(pool)@.tasks()),
{
    proof {
        pool.lemma_pending();
    }
    pool.spawn(piece, None);
    proof {
        let before = old(pool)@.tasks();
        assert forall|t: Work<O>| !(t is Other) implies #[trigger] pool@.tasks().count(t)
            == mine.insert(piece).count(t) by {
            assert(before.count(t) == mine.count(t));
        }
        assert forall|t: Work<O>| #[trigger] pool@.tasks().count(t) > 0 implies (
        t matches Work::Other(o) ==> o.callable()) by {
            if t is Other {
                assert(before.count(t) > 0);
            }
        }
        assert forall|t: Work<O>| #[trigger] mine.insert(piece).count(t) > 0 implies !(
        t is Other) by {
            if t != piece {
                assert(mine.count(t) > 0);
            }
        }
    }
}

/// Takes a piece out of the pool, and runs the tasks of others that are found before it.
pub(crate) fn next_piece<O: FnOnceOnce>(
    pool: &mut StealingPool<Work<O>>,
    Ghost(mine): Ghost<Multiset<Work<O>>>,
) -> (piece: Work<O>)
    requires
        old(pool).wf(),
        old(pool).workers() > 0,
        mine.len() > 0,
        owns(old(pool)@.tasks(), mine),
    ensures
        final(pool).wf(),
        final(pool).workers() == old(pool).workers(),
        final(pool).is_shut_down() == old(pool).is_shut_down(),
        final(pool)@.waiting() < old(pool)@.waiting(),
        mine.count(piece) > 0,
        !(piece is Other),
        owns(final(pool)@.tasks(), mine.remove(piece)),
        others_ran(old(pool)@.tasks(), final(pool)@.tasks()),
{
    loop
        invariant
            pool.wf(),
            pool.workers() == old(pool).workers(),
            pool.workers() > 0,
            pool.is_shut_down() == old(pool).is_shut_down(),
            pool@.waiting() <= old(pool)@.waiting(),
            mine.len() > 0,
            owns(pool@.tasks(), mine),
            others_ran(old(pool)@.tasks(), pool@.tasks()),
        decreases pool@.waiting(),
    {
        let ghost before = pool@.tasks();
        proof {
            let t = mine.choose();
            assert(mine.count(t) > 0);
            assert(before.count(t) == mine.count(t));
            if pool@.waiting() == 0 {
                lemma_nothing_waits(pool@, t);
            }
        }
        if let Some(t) = pool.find_work(0) {
            proof {
                assert(before.count(t) > 0);
                assert forall|x: Work<O>| !(x is Other) && x != t implies #[trigger] pool@.tasks().count(x)
                    == mine.count(x) by {
                    assert(before.count(x) == mine.count(x));
                }
                assert forall|x: Work<O>| #[trigger] pool@.tasks().count(x) > 0 implies (
                x matches Work::Other(o) ==> o.callable()) by {
                    assert(before.count(x) > 0);
                }
            }
            match t {
                Work::Other(o) => {
                    o.call_once_boxed();
                    proof {
                        assert forall|x: Work<O>| x is Other implies #[trigger] pool@.tasks().count(x)
                            <= old(pool)@.tasks().count(x) && (pool@.tasks().count(x) < old(
                            pool,
                        )@.tasks().count(x) ==> x->Other_0.called()) by {
                            assert(before.count(x) <= old(pool)@.tasks().count(x));
                        }
                    }
                },
                piece => {
                    proof {
                        assert(before.count(piece) == mine.count(piece));
                        assert forall|x: Work<O>| !(x is Other) implies #[trigger] pool@.tasks().count(x)
                            == mine.remove(piece).count(x) by {
                            assert(before.count(x) == mine.count(x));
                        }
                        assert forall|x: Work<O>| #[trigger] mine.remove(piece).count(x)
                            > 0 implies !(x is Other) by {
                            assert(mine.count(x) > 0);
                        }
                        assert forall|x: Work<O>| x is Other implies #[trigger] pool@.tasks().count(x)
                            <= old(pool)@.tasks().count(x) && (pool@.tasks().count(x) < old(
                            pool,
                        )@.tasks().count(x) ==> x->Other_0.called()) by {
                            assert(before.count(x) <= old(pool)@.tasks().count(x));
                        }
                    }
                    return piece;
                },
            }
        }
    }
}

/// A task of somebody else that was not called is still there, as often as before; none was
/// added.
pub proof fn law_others_are_not_lost<O: FnOnceOnce>(
    before: Multiset<Work<O>>,
    after: Multiset<Work<O>>,
    o: O,
)
    requires
        others_ran(before, after),
    ensures
        after.count(Work::Other(o)) <= before.count(Work::Other(o)),
        !o.called() ==> after.count(Work::Other(o)) == before.count(Work::Other(o)),
{
}

/// Where only tasks of others wait, no chunk and no range does, and every task may be called.
pub proof fn law_no_piece_is_left<O: FnOnceOnce>(
    tasks: Multiset<Work<O>>,
    k: usize,
    i: usize,
    j: usize,
    o: O,
)
    requires
        only_others(tasks),
    ensures
        tasks.count(Work::Chunk(k)) == 0,
        tasks.count(Work::Range(i, j)) == 0,
        tasks.count(Work::Other(o)) > 0 ==> o.callable(),
{
}

/// Tasks that may all be called, and no piece among them, are tasks of others.
pub proof fn law_others_alone<O: FnOnceOnce>(tasks: Multiset<Work<O>>)
    requires
        forall|k: usize| #[trigger] tasks.count(Work::Chunk(k)) == 0,
        forall|i: usize, j: usize| #[trigger] tasks.count(Work::Range(i, j)) == 0,
        forall|o: O| #[trigger] tasks.count(Work::Other(o)) > 0 ==> o.callable(),
    ensures
        only_others(tasks),
        others_ran(tasks, tasks),
{
    assert forall|t: Work<O>| #[trigger] tasks.count(t) > 0 implies (t matches Work::Other(o)
        && o.callable()) by {
        match t {
            Work::Chunk(k) => {
                assert(t == Work::<O>::Chunk(k));
            },
            Work::Range(i, j) => {
                assert(t == Work::<O>::Range(i, j));
            },
            Work::Other(o) => {
                assert(t == Work::Other(o));
            },
        }
    }
}

} // verus!
