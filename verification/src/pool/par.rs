//! Parallel algorithms on the work-stealing pool.
//!
//! A slice is cut into chunks, one piece of work each. The pieces carry the number of their chunk,
//! so that it does not matter in which order the pool hands them out: each result has its place.
//! Tasks of others may wait in the pool; some of them are run meanwhile.

use std::sync::Arc;
use vstd::multiset::Multiset;
use vstd::prelude::*;

use crate::pool::apply::Apply;
use crate::pool::task::FnOnceOnce;
use crate::pool::v3_stealing::StealingPool;
use crate::pool::work;
use crate::pool::work::Work;
use crate::sched;

pub use crate::pool::par_sort::par_sort;

verus! {

/// Slices up to this length are sorted without being cut.
pub const PAR_SORT_CUTOFF: usize = 1024;

/// A chunk is about this long at least.
pub const PAR_MAP_CUTOFF: usize = 256;

/// For how many workers chunks are made.
fn num_workers_hint() -> (n: usize)
    ensures
        n == 4,
{
    4
}

/// Into how many chunks `n` items are to be cut: one for each 256, at least one and at most
/// four for each of four workers.
pub open spec fn wanted_chunks(n: int) -> int {
    let c = n / 256;
    if c < 1 {
        1
    } else if c > 16 {
        16
    } else {
        c
    }
}

/// How long a chunk of `n` items is; the last one may be shorter.
pub open spec fn chunk_len(n: int) -> int {
    (n + wanted_chunks(n) - 1) / wanted_chunks(n)
}

/// How many chunks `n` items make.
pub open spec fn chunk_count(n: int) -> int {
    if n <= 0 {
        0
    } else {
        (n + chunk_len(n) - 1) / chunk_len(n)
    }
}

/// Where chunk `k` of `n` items begins.
pub open spec fn chunk_start(n: int, k: int) -> int {
    if k * chunk_len(n) < n {
        k * chunk_len(n)
    } else {
        n
    }
}

/// The items of chunk `k`.
pub open spec fn chunk_of<T>(s: Seq<T>, k: int) -> Seq<T> {
    s.subrange(chunk_start(s.len() as int, k), chunk_start(s.len() as int, k + 1))
}

/// The chunks of `n` items follow each other without gap or overlap, none is empty, and they
/// make up all items.
pub proof fn law_chunks_cover(n: int, k: int)
    requires
        n > 0,
        0 <= k < chunk_count(n),
    ensures
        1 <= chunk_len(n) <= n,
        1 <= chunk_count(n) <= wanted_chunks(n),
        chunk_start(n, 0) == 0,
        chunk_start(n, k) == k * chunk_len(n),
        0 <= chunk_start(n, k) < chunk_start(n, k + 1) <= n,
        chunk_start(n, chunk_count(n)) == n,
        k + 1 < chunk_count(n) ==> chunk_start(n, k + 1) == chunk_start(n, k) + chunk_len(n),
        k + 1 == chunk_count(n) ==> chunk_start(n, k + 1) == n && n - chunk_start(n, k)
            <= chunk_len(n),
{
    let w = wanted_chunks(n);
    let l = chunk_len(n);
    let c = chunk_count(n);
    assert(1 <= w <= 16);
    assert(1 <= l <= n) by (nonlinear_arith)
        requires
            l == (n + w - 1) / w,
            1 <= w,
            1 <= n,
    ;
    assert(l * w >= n) by (nonlinear_arith)
        requires
            l == (n + w - 1) / w,
            1 <= w,
    ;
    assert(c * l >= n && (c - 1) * l < n && c >= 1) by (nonlinear_arith)
        requires
            c == (n + l - 1) / l,
            1 <= l,
            1 <= n,
    ;
    assert(c <= w) by (nonlinear_arith)
        requires
            (c - 1) * l < n,
            l * w >= n,
            1 <= l,
    ;
    assert(0 <= k * l <= (c - 1) * l) by (nonlinear_arith)
        requires
            0 <= k <= c - 1,
            1 <= l,
    ;
    assert((k + 1) * l == k * l + l) by (nonlinear_arith);
    if k + 1 < c {
        assert((k + 1) * l <= (c - 1) * l) by (nonlinear_arith)
            requires
                k + 1 <= c - 1,
                1 <= l,
        ;
    } else {
        assert((k + 1) * l == c * l);
    }
    assert(0 * l == 0);
}

/// There are as many chunks as there are whole runs of 256 items, at least one and at most sixteen
/// of them, and each is as long as it must be for that many to hold all items, and no longer.
pub proof fn law_chunks_are_even(n: int)
    requires
        n > 0,
    ensures
        1 <= wanted_chunks(n) <= 16,
        wanted_chunks(n) > 1 ==> wanted_chunks(n) * 256 <= n,
        wanted_chunks(n) < 16 ==> n < (wanted_chunks(n) + 1) * 256,
        chunk_len(n) * wanted_chunks(n) >= n,
        (chunk_len(n) - 1) * wanted_chunks(n) < n,
        chunk_count(n) * chunk_len(n) >= n,
        (chunk_count(n) - 1) * chunk_len(n) < n,
{
    let w = wanted_chunks(n);
    let l = chunk_len(n);
    let c = chunk_count(n);
    assert(l * w >= n && (l - 1) * w < n && l >= 1) by (nonlinear_arith)
        requires
            l == (n + w - 1) / w,
            1 <= w,
            1 <= n,
    ;
    assert(c * l >= n && (c - 1) * l < n) by (nonlinear_arith)
        requires
            c == (n + l - 1) / l,
            1 <= l,
            1 <= n,
    ;
}

/// The chunk in which item `i` of `n` is.
pub open spec fn chunk_index(n: int, i: int) -> int {
    i / chunk_len(n)
}

/// An item lies between the bounds of its chunk, and of no other.
pub proof fn law_chunk_of_item(n: int, i: int, k: int)
    requires
        0 <= i < n,
        0 <= k < chunk_count(n),
    ensures
        0 <= chunk_index(n, i) < chunk_count(n),
        chunk_start(n, k) <= i < chunk_start(n, k + 1) <==> k == chunk_index(n, i),
{
    law_chunks_cover(n, k);
    let l = chunk_len(n);
    let c = chunk_count(n);
    let x = i / l;
    assert(0 <= x && x * l <= i < x * l + l) by (nonlinear_arith)
        requires
            x == i / l,
            0 <= i,
            1 <= l,
    ;
    assert(x < c) by (nonlinear_arith)
        requires
            x * l <= i,
            i < n,
            c == (n + l - 1) / l,
            1 <= l,
    ;
    law_chunks_cover(n, x);
    if chunk_start(n, k) <= i < chunk_start(n, k + 1) {
        assert((k + 1) * l == k * l + l) by (nonlinear_arith);
        assert(k == x) by (nonlinear_arith)
            requires
                k * l <= i < k * l + l,
                x * l <= i < x * l + l,
                1 <= l,
        ;
    }
}

/// The chunk of an item is one of the chunks.
proof fn lemma_index(n: int, i: int)
    requires
        0 <= i < n,
    ensures
        0 <= chunk_index(n, i) < chunk_count(n),
{
    lemma_count_positive(n);
    law_chunk_of_item(n, i, 0);
}

proof fn lemma_count_positive(n: int)
    requires
        n > 0,
    ensures
        chunk_count(n) > 0,
{
    let w = wanted_chunks(n);
    let l = chunk_len(n);
    assert(1 <= l) by (nonlinear_arith)
        requires
            l == (n + w - 1) / w,
            1 <= w,
            1 <= n,
    ;
    assert((n + l - 1) / l > 0) by (nonlinear_arith)
        requires
            1 <= l,
            1 <= n,
    ;
}

/// The chunks of `n` items.
pub fn chunk_ranges(n: usize) -> (r: Vec<(usize, usize)>)
    ensures
        r@.len() == chunk_count(n as int),
        forall|k: int|
            0 <= k < r@.len() ==> (#[trigger] r@[k]).0 == chunk_start(n as int, k) && r@[k].1
                == chunk_start(n as int, k + 1),
        n == 0 ==> r@.len() == 0,
        n > 0 ==> r@.len() > 0 && r@[0].0 == 0 && r@.last().1 == n,
        forall|k: int| 0 <= k < r@.len() ==> (#[trigger] r@[k]).0 < r@[k].1,
        forall|k: int, m: int|
            #![trigger r@[k], r@[m]]
            0 <= k && m == k + 1 && m < r@.len() ==> r@[k].1 == r@[m].0,
{
    let mut r: Vec<(usize, usize)> = Vec::new();
    if n == 0 {
        return r;
    }
    let n_workers: usize = num_workers_hint();
    let mut n_chunks: usize = n / PAR_MAP_CUTOFF;
    if n_chunks < 1 {
        n_chunks = 1;
    }
    if n_chunks > n_workers * 4 {
        n_chunks = n_workers * 4;
    }
    let len: usize = (n - 1) / n_chunks + 1;
    assert(n_chunks == wanted_chunks(n as int));
    assert(len == chunk_len(n as int)) by {
        let w = n_chunks as int;
        let m = n as int;
        assert((m - 1) / w + 1 == (m + w - 1) / w) by (nonlinear_arith)
            requires
                1 <= w,
                1 <= m,
        ;
    }
    proof {
        lemma_count_positive(n as int);
        law_chunks_cover(n as int, 0);
    }
    let mut start: usize = 0;
    while start < n
        invariant
            n > 0,
            len == chunk_len(n as int),
            r@.len() <= chunk_count(n as int),
            start == chunk_start(n as int, r@.len() as int),
            start < n ==> r@.len() < chunk_count(n as int),
            start == n ==> r@.len() == chunk_count(n as int),
            start <= n,
            forall|k: int|
                0 <= k < r@.len() ==> (#[trigger] r@[k]).0 == chunk_start(n as int, k) && r@[k].1
                    == chunk_start(n as int, k + 1),
        decreases n - start,
    {
        proof {
            law_chunks_cover(n as int, r@.len() as int);
            if r@.len() + 1 < chunk_count(n as int) {
                law_chunks_cover(n as int, r@.len() as int + 1);
            }
        }
        let end: usize = if n - start <= len {
            n
        } else {
            start + len
        };
        r.push((start, end));
        start = end;
    }
    proof {
        assert forall|k: int| 0 <= k < r@.len() implies (#[trigger] r@[k]).0 < r@[k].1 by {
            law_chunks_cover(n as int, k);
        }
    }
    r
}

/// Whether the pieces are the numbers of those chunks that are not done.
spec fn to_do<O>(mine: Multiset<Work<O>>, done: Seq<bool>) -> bool {
    &&& forall|k: usize|
        #[trigger] mine.count(Work::Chunk(k)) == (if k < done.len() && !done[k as int] {
            1nat
        } else {
            0nat
        })
    &&& forall|t: Work<O>| #[trigger] mine.count(t) > 0 ==> t is Chunk
}

/// Puts a piece into the pool for each of `m` chunks.
fn spawn_chunks<O: FnOnceOnce>(pool: &mut StealingPool<Work<O>>, m: usize) -> (mine: Ghost<
    Multiset<Work<O>>,
>)
    requires
        old(pool).wf(),
        old(pool).workers() > 0,
        old(pool)@.waiting() + m <= usize::MAX,
        work::only_others(old(pool)@.tasks()),
    ensures
        final(pool).wf(),
        final(pool).workers() == old(pool).workers(),
        final(pool).is_shut_down() == old(pool).is_shut_down(),
        final(pool)@.waiting() == old(pool)@.waiting() + m,
        mine@.len() == m,
        to_do(mine@, Seq::new(m as nat, |k: int| false)),
        work::owns(final(pool)@.tasks(), mine@),
        work::others_ran(old(pool)@.tasks(), final(pool)@.tasks()),
{
    let ghost mut mine: Multiset<Work<O>> = Multiset::empty();
    let mut k: usize = 0;
    proof {
        work::lemma_owns_nothing(pool@.tasks());
    }
    while k < m
        invariant
            pool.wf(),
            pool.workers() == old(pool).workers(),
            pool.workers() > 0,
            pool.is_shut_down() == old(pool).is_shut_down(),
            k <= m,
            mine.len() == k,
            to_do(mine, Seq::new(k as nat, |k: int| false)),
            work::owns(pool@.tasks(), mine),
            work::others_ran(old(pool)@.tasks(), pool@.tasks()),
            pool@.waiting() == old(pool)@.waiting() + k,
            old(pool)@.waiting() + m <= usize::MAX,
        decreases m - k,
    {
        work::put_piece(pool, Work::Chunk(k), Ghost(mine));
        proof {
            let next = mine.insert(Work::Chunk(k));
            let done = Seq::new(k as nat, |k: int| false);
            let done2 = Seq::new((k + 1) as nat, |k: int| false);
            assert forall|j: usize|
                #[trigger] next.count(Work::Chunk(j)) == (if j < done2.len() && !done2[j as int] {
                    1nat
                } else {
                    0nat
                }) by {
                assert(mine.count(Work::Chunk(j)) == (if j < done.len() && !done[j as int] {
                    1nat
                } else {
                    0nat
                }));
            }
            assert forall|t: Work<O>| #[trigger] next.count(t) > 0 implies t is Chunk by {
                if t != Work::<O>::Chunk(k) {
                    assert(mine.count(t) > 0);
                }
            }
            mine = next;
        }
        k += 1;
    }
    Ghost(mine)
}

/// Takes the number of a chunk that is not done out of the pool.
fn next_chunk<O: FnOnceOnce>(
    pool: &mut StealingPool<Work<O>>,
    Ghost(mine): Ghost<Multiset<Work<O>>>,
    Ghost(done): Ghost<Seq<bool>>,
) -> (k: usize)
    requires
        old(pool).wf(),
        old(pool).workers() > 0,
        mine.len() > 0,
        to_do(mine, done),
        work::owns(old(pool)@.tasks(), mine),
    ensures
        final(pool).wf(),
        final(pool).workers() == old(pool).workers(),
        final(pool).is_shut_down() == old(pool).is_shut_down(),
        final(pool)@.waiting() < old(pool)@.waiting(),
        k < done.len(),
        !done[k as int],
        mine.remove(Work::Chunk(k)).len() == mine.len() - 1,
        to_do(mine.remove(Work::Chunk(k)), done.update(k as int, true)),
        work::owns(final(pool)@.tasks(), mine.remove(Work::Chunk(k))),
        work::others_ran(old(pool)@.tasks(), final(pool)@.tasks()),
{
    match work::next_piece(pool, Ghost(mine)) {
        Work::Chunk(k) => {
            proof {
                let next = done.update(k as int, true);
                let rest = mine.remove(Work::Chunk(k));
                assert(mine.count(Work::Chunk(k)) > 0);
                assert forall|j: usize|
                    #[trigger] rest.count(Work::Chunk(j)) == (if j < next.len() && !next[j as int] {
                        1nat
                    } else {
                        0nat
                    }) by {
                    assert(mine.count(Work::Chunk(j)) == (if j < done.len() && !done[j as int] {
                        1nat
                    } else {
                        0nat
                    }));
                }
                assert forall|t: Work<O>| #[trigger] rest.count(t) > 0 implies t is Chunk by {
                    assert(mine.count(t) > 0);
                }
            }
            k
        },
        _ => {
            assert(false);
            0
        },
    }
}

/// When no piece is left, every chunk is done.
proof fn lemma_all_done<O>(mine: Multiset<Work<O>>, done: Seq<bool>, k: int)
    requires
        mine.len() == 0,
        to_do(mine, done),
        0 <= k < done.len(),
        done.len() <= usize::MAX,
    ensures
        done[k],
{
    assert(mine =~= Multiset::empty());
    assert(mine.count(Work::Chunk(k as usize)) == 0);
}

/// The parts, one after the other.
pub open spec fn joined<T>(parts: Seq<Seq<T>>) -> Seq<T>
    decreases parts.len(),
{
    if parts.len() == 0 {
        Seq::empty()
    } else {
        joined(parts.drop_last()) + parts.last()
    }
}

/// What there is in the parts is what there is in all of them together.
proof fn lemma_joined_multiset<T>(parts: Seq<Seq<T>>)
    ensures
        joined(parts).to_multiset() == sched::held(parts),
    decreases parts.len(),
{
    broadcast use vstd::seq_lib::group_to_multiset_ensures;

    if parts.len() > 0 {
        lemma_joined_multiset(parts.drop_last());
        vstd::seq_lib::lemma_multiset_commutative(joined(parts.drop_last()), parts.last());
    }
}

/// Parts without items hold nothing.
proof fn lemma_held_nothing<T>(parts: Seq<Seq<T>>)
    requires
        forall|k: int| 0 <= k < parts.len() ==> #[trigger] parts[k] == Seq::<T>::empty(),
    ensures
        sched::held(parts) == Multiset::<T>::empty(),
    decreases parts.len(),
{
    broadcast use vstd::seq_lib::group_to_multiset_ensures;

    if parts.len() > 0 {
        assert forall|k: int| 0 <= k < parts.drop_last().len() implies #[trigger] parts.drop_last()[k]
            == Seq::<T>::empty() by {
            assert(parts.drop_last()[k] == parts[k]);
        }
        lemma_held_nothing(parts.drop_last());
        assert(parts[parts.len() - 1] == Seq::<T>::empty());
        assert(parts.last().to_multiset().len() == 0);
        assert(sched::held(parts) =~= Multiset::<T>::empty());
    }
}

/// One item is one item.
proof fn lemma_one<T>(x: T)
    ensures
        seq![x].to_multiset() == Multiset::<T>::empty().insert(x),
{
    broadcast use vstd::seq_lib::group_to_multiset_ensures;

    assert(Seq::<T>::empty().to_multiset() =~= Multiset::<T>::empty());
    assert(seq![x] =~= Seq::<T>::empty().push(x));
}

/// Adding items to one part adds them to what there is.
proof fn lemma_held_more<T>(parts: Seq<Seq<T>>, k: int, more: Seq<T>)
    requires
        0 <= k < parts.len(),
    ensures
        sched::held(parts.update(k, parts[k] + more)) == sched::held(parts).add(more.to_multiset()),
{
    sched::lemma_held_update(parts, k, parts[k] + more);
    vstd::seq_lib::lemma_multiset_commutative(parts[k], more);
    let a = sched::held(parts.update(k, parts[k] + more));
    let b = sched::held(parts).add(more.to_multiset());
    let c = parts[k].to_multiset();
    assert forall|t: T| #[trigger] a.count(t) == b.count(t) by {
        assert(a.add(c).count(t) == sched::held(parts).add((parts[k] + more).to_multiset()).count(t));
    }
    assert(a =~= b);
}

/// The chunks, one after the other, are the items.
proof fn lemma_chunks_joined<T>(items: Seq<T>, k: int)
    requires
        items.len() > 0,
        0 <= k <= chunk_count(items.len() as int),
    ensures
        joined(Seq::new(k as nat, |j: int| chunk_of(items, j))) == items.take(
            chunk_start(items.len() as int, k),
        ),
    decreases k,
{
    let n = items.len() as int;
    lemma_count_positive(n);
    law_chunks_cover(n, 0);
    let parts = Seq::new(k as nat, |j: int| chunk_of(items, j));
    if k > 0 {
        lemma_chunks_joined(items, k - 1);
        law_chunks_cover(n, k - 1);
        assert(parts.drop_last() =~= Seq::new((k - 1) as nat, |j: int| chunk_of(items, j)));
    }
    assert(joined(parts) =~= items.take(chunk_start(n, k)));
}

/// Applies `f` to each item, once; the results stand in the order of the items.
pub fn par_map<T, U, A: Apply<T, U>, O: FnOnceOnce>(
    pool: &mut StealingPool<Work<O>>,
    slice: &[T],
    f: &mut A,
) -> (out: Vec<U>)
    requires
        old(pool).wf(),
        old(pool).workers() > 0 || slice@.len() == 0,
        old(pool)@.waiting() + chunk_count(slice@.len() as int) <= usize::MAX,
        work::only_others(old(pool)@.tasks()),
        forall|i: int| 0 <= i < slice@.len() ==> old(f).takes(#[trigger] slice@[i]),
    ensures
        final(pool).wf(),
        final(pool).workers() == old(pool).workers(),
        final(pool).is_shut_down() == old(pool).is_shut_down(),
        final(pool)@.waiting() <= old(pool)@.waiting(),
        work::only_others(final(pool)@.tasks()),
        work::others_ran(old(pool)@.tasks(), final(pool)@.tasks()),
        out@.len() == slice@.len(),
        forall|i: int| 0 <= i < slice@.len() ==> old(f).gives(slice@[i], #[trigger] out@[i]),
        final(f).seen() == old(f).seen().add(slice@.to_multiset()),
        forall|x: T| #[trigger] final(f).takes(x) == old(f).takes(x),
        forall|x: T, y: U| #[trigger] final(f).gives(x, y) == old(f).gives(x, y),
{
    broadcast use vstd::seq_lib::group_to_multiset_ensures;

    let n: usize = slice.len();
    if n == 0 {
        assert(slice@ =~= Seq::empty());
        assert(f.seen().add(slice@.to_multiset()) =~= f.seen());
        return Vec::new();
    }
    let ranges = chunk_ranges(n);
    let mut slots: Vec<Option<U>> = Vec::new();
    let mut i: usize = 0;
    while i < n
        invariant
            i <= n,
            slots@.len() == i,
        decreases n - i,
    {
        slots.push(None);
        i += 1;
    }
    let mut left: usize = ranges.len();
    let spawned = spawn_chunks(pool, left);
    let ghost mut mine: Multiset<Work<O>> = spawned@;
    let ghost mut done: Seq<bool> = Seq::new(left as nat, |k: int| false);
    let ghost mut parts: Seq<Seq<T>> = Seq::new(left as nat, |k: int| Seq::<T>::empty());
    proof {
        lemma_held_nothing(parts);
        assert(f.seen().add(sched::held(parts)) =~= f.seen());
        assert forall|i: int| 0 <= i < n implies !#[trigger] done[chunk_index(n as int, i)] by {
            lemma_index(n as int, i);
        }
    }
    while left > 0
        invariant
            pool.wf(),
            pool.workers() == old(pool).workers(),
            pool.workers() > 0,
            pool.is_shut_down() == old(pool).is_shut_down(),
            n == slice@.len(),
            n > 0,
            ranges@.len() == chunk_count(n as int),
            forall|k: int|
                0 <= k < ranges@.len() ==> (#[trigger] ranges@[k]).0 == chunk_start(n as int, k)
                    && ranges@[k].1 == chunk_start(n as int, k + 1),
            forall|i: int| 0 <= i < slice@.len() ==> old(f).takes(#[trigger] slice@[i]),
            forall|x: T| #[trigger] f.takes(x) == old(f).takes(x),
            forall|x: T, y: U| #[trigger] f.gives(x, y) == old(f).gives(x, y),
            slots@.len() == n,
            done.len() == ranges@.len(),
            mine.len() == left,
            pool@.waiting() <= old(pool)@.waiting() + left,
            to_do(mine, done),
            work::owns(pool@.tasks(), mine),
            work::others_ran(old(pool)@.tasks(), pool@.tasks()),
            parts.len() == done.len(),
            forall|k: int|
                0 <= k < parts.len() ==> #[trigger] parts[k] == (if done[k] {
                    chunk_of(slice@, k)
                } else {
                    Seq::empty()
                }),
            f.seen() == old(f).seen().add(sched::held(parts)),
            forall|i: int|
                0 <= i < n && done[chunk_index(n as int, i)] ==> mapped(
                    *old(f),
                    slice@[i],
                    #[trigger] slots@[i],
                ),
        decreases left,
    {
        let k: usize = next_chunk(pool, Ghost(mine), Ghost(done));
        proof {
            mine = mine.remove(Work::Chunk(k));
            law_chunks_cover(n as int, k as int);
        }
        let end: usize = ranges[k].1;
        let mut i: usize = ranges[k].0;
        let ghost start = i as int;
        proof {
            assert forall|j: int|
                0 <= j < n && j < i implies #[trigger] chunk_index(n as int, j) != k by {
                law_chunk_of_item(n as int, j, k as int);
            }
            assert(slice@.subrange(start, start) =~= Seq::<T>::empty());
        }
        let ghost before = parts;
        while i < end
            invariant
                n == slice@.len(),
                k < done.len(),
                done.len() == chunk_count(n as int),
                start == chunk_start(n as int, k as int),
                0 <= start <= i <= end,
                end == chunk_start(n as int, k + 1),
                end <= n,
                slots@.len() == n,
                forall|i: int| 0 <= i < slice@.len() ==> old(f).takes(#[trigger] slice@[i]),
                forall|x: T| #[trigger] f.takes(x) == old(f).takes(x),
                forall|x: T, y: U| #[trigger] f.gives(x, y) == old(f).gives(x, y),
                before.len() == done.len(),
                parts == before.update(k as int, slice@.subrange(start, i as int)),
                f.seen() == old(f).seen().add(sched::held(parts)),
                forall|j: int|
                    0 <= j < n && (done[chunk_index(n as int, j)] || (chunk_index(n as int, j) == k
                        && j < i)) ==> mapped(*old(f), slice@[j], #[trigger] slots@[j]),
            decreases end - i,
        {
            let ghost seen = f.seen();
            let u = f.apply(&slice[i]);
            slots.set(i, Some(u));
            proof {
                let x = slice@[i as int];
                lemma_held_more(parts, k as int, seq![x]);
                lemma_one(x);
                assert(slice@.subrange(start, i as int) + seq![x] =~= slice@.subrange(start, i + 1));
                assert(parts.update(k as int, slice@.subrange(start, i + 1)) =~= before.update(
                    k as int,
                    slice@.subrange(start, i + 1),
                ));
                let next = parts.update(k as int, slice@.subrange(start, i + 1));
                assert(f.seen() =~= old(f).seen().add(sched::held(next)));
                parts = next;
            }
            i += 1;
        }
        proof {
            assert(parts[k as int] == chunk_of(slice@, k as int));
            done = done.update(k as int, true);
            assert forall|j: int|
                0 <= j < n && done[chunk_index(n as int, j)] implies mapped(
                *old(f),
                slice@[j],
                #[trigger] slots@[j],
            ) by {
                law_chunk_of_item(n as int, j, k as int);
            }
        }
        left -= 1;
    }
    proof {
        assert(mine =~= Multiset::empty());
        work::lemma_owns_nothing(pool@.tasks());
        assert forall|j: int| 0 <= j < n implies mapped(*old(f), slice@[j], #[trigger] slots@[j]) by {
            lemma_index(n as int, j);
            lemma_all_done(mine, done, chunk_index(n as int, j));
        }
        lemma_count_positive(n as int);
        law_chunks_cover(n as int, 0);
        assert forall|k: int| 0 <= k < parts.len() implies #[trigger] parts[k] == chunk_of(
            slice@,
            k,
        ) by {
            lemma_all_done(mine, done, k);
        }
        assert(parts =~= Seq::new(parts.len(), |k: int| chunk_of(slice@, k)));
        lemma_chunks_joined(slice@, parts.len() as int);
        lemma_joined_multiset(parts);
        assert(slice@.take(n as int) =~= slice@);
    }
    let mut out: Vec<U> = Vec::new();
    let mut i: usize = 0;
    while i < n
        invariant
            i <= n,
            n == slice@.len(),
            slots@.len() == n,
            out@.len() == i,
            forall|j: int| i <= j < n ==> mapped(*old(f), slice@[j], #[trigger] slots@[j]),
            forall|j: int| 0 <= j < i ==> old(f).gives(slice@[j], #[trigger] out@[j]),
        decreases n - i,
    {
        assert(mapped(*old(f), slice@[i as int], slots@[i as int]));
        if let Some(u) = slots[i].take() {
            out.push(u);
        }
        i += 1;
    }
    out
}

/// Whether `u` can come out of folding the items, one after the other, into what `init` gives.
pub open spec fn folds<T, U, I: Fn() -> U, S: Fn(U, &T) -> U>(
    init: I,
    step: S,
    items: Seq<T>,
    u: U,
) -> bool {
    exists|accs: Seq<U>| #[trigger] fold_steps(init, step, items, accs) && accs.last() == u
}

/// Whether `accs` are the steps of such a fold.
pub open spec fn fold_steps<T, U, I: Fn() -> U, S: Fn(U, &T) -> U>(
    init: I,
    step: S,
    items: Seq<T>,
    accs: Seq<U>,
) -> bool {
    &&& accs.len() == items.len() + 1
    &&& call_ensures(init, (), accs[0])
    &&& forall|i: int|
        0 <= i < items.len() ==> call_ensures(step, (accs[i], &#[trigger] items[i]), accs[i + 1])
}

/// Whether `u` can come out of merging the parts, in their order, into what `init` gives.
pub open spec fn merges<U, I: Fn() -> U, M: Fn(U, U) -> U>(
    init: I,
    merge: M,
    parts: Seq<U>,
    u: U,
) -> bool {
    exists|accs: Seq<U>| #[trigger] merge_steps(init, merge, parts, accs) && accs.last() == u
}

/// Whether `accs` are the steps of such a merging.
pub open spec fn merge_steps<U, I: Fn() -> U, M: Fn(U, U) -> U>(
    init: I,
    merge: M,
    parts: Seq<U>,
    accs: Seq<U>,
) -> bool {
    &&& accs.len() == parts.len() + 1
    &&& call_ensures(init, (), accs[0])
    &&& forall|i: int|
        0 <= i < parts.len() ==> call_ensures(merge, (accs[i], #[trigger] parts[i]), accs[i + 1])
}

/// Whether `step` can be called wherever a fold of the items can get.
pub open spec fn can_fold<T, U, I: Fn() -> U, S: Fn(U, &T) -> U>(
    init: I,
    step: S,
    items: Seq<T>,
) -> bool {
    forall|j: int, accs: Seq<U>|
        0 <= j < items.len() && #[trigger] fold_steps(init, step, items.take(j), accs)
            ==> call_requires(step, (accs.last(), &items[j]))
}

/// Whether `merge` can be called wherever a merging of parts of the items can get.
pub open spec fn can_merge<T, U, I: Fn() -> U, S: Fn(U, &T) -> U, M: Fn(U, U) -> U>(
    init: I,
    step: S,
    merge: M,
    items: Seq<T>,
) -> bool {
    forall|parts: Seq<U>, j: int, accs: Seq<U>|
        0 <= j < parts.len() && #[trigger] are_parts(init, step, items, parts) && #[trigger]
        merge_steps(init, merge, parts.take(j), accs) ==> call_requires(
            merge,
            (accs.last(), parts[j]),
        )
}

/// Whether the parts are folds of the chunks.
pub open spec fn are_parts<T, U, I: Fn() -> U, S: Fn(U, &T) -> U>(
    init: I,
    step: S,
    items: Seq<T>,
    parts: Seq<U>,
) -> bool {
    &&& parts.len() == chunk_count(items.len() as int)
    &&& forall|k: int|
        0 <= k < parts.len() ==> folds(init, step, chunk_of(items, k), #[trigger] parts[k])
}

/// Folds one range of the items.
fn fold_range<T, U, I: Fn() -> U, S: Fn(U, &T) -> U>(
    slice: &[T],
    start: usize,
    end: usize,
    init: &I,
    step: &S,
) -> (u: U)
    requires
        start <= end <= slice@.len(),
        call_requires(*init, ()),
        can_fold(*init, *step, slice@.subrange(start as int, end as int)),
    ensures
        folds(*init, *step, slice@.subrange(start as int, end as int), u),
{
    let mut acc = init();
    let ghost items = slice@.subrange(start as int, end as int);
    let ghost mut accs: Seq<U> = seq![acc];
    let mut i: usize = start;
    while i < end
        invariant
            start <= i <= end <= slice@.len(),
            items == slice@.subrange(start as int, end as int),
            can_fold(*init, *step, items),
            accs.len() == i - start + 1,
            accs.last() == acc,
            call_ensures(*init, (), accs[0]),
            forall|j: int|
                0 <= j < i - start ==> call_ensures(
                    *step,
                    (accs[j], &#[trigger] items[j]),
                    accs[j + 1],
                ),
        decreases end - i,
    {
        proof {
            let head = items.take(i - start);
            assert forall|j: int| 0 <= j < head.len() implies call_ensures(
                *step,
                (accs[j], &#[trigger] head[j]),
                accs[j + 1],
            ) by {
                assert(head[j] == items[j]);
            }
            assert(fold_steps(*init, *step, head, accs));
            assert(items[i - start] == slice@[i as int]);
        }
        acc = step(acc, &slice[i]);
        proof {
            accs = accs.push(acc);
        }
        i += 1;
    }
    proof {
        assert(fold_steps(*init, *step, items, accs));
    }
    acc
}

/// Folds each chunk on its own, beginning with what `init` gives, and merges the parts in the
/// order of the chunks, beginning with what `init` gives.
pub fn par_reduce<T, U, I: Fn() -> U, S: Fn(U, &T) -> U, M: Fn(U, U) -> U, O: FnOnceOnce>(
    pool: &mut StealingPool<Work<O>>,
    slice: &[T],
    init: I,
    step: S,
    merge: M,
) -> (u: U)
    requires
        old(pool).wf(),
        old(pool).workers() > 0 || slice@.len() == 0,
        old(pool)@.waiting() + chunk_count(slice@.len() as int) <= usize::MAX,
        work::only_others(old(pool)@.tasks()),
        call_requires(init, ()),
        forall|k: int|
            0 <= k < chunk_count(slice@.len() as int) ==> can_fold(
                init,
                step,
                #[trigger] chunk_of(slice@, k),
            ),
        can_merge(init, step, merge, slice@),
    ensures
        final(pool).wf(),
        final(pool).workers() == old(pool).workers(),
        final(pool).is_shut_down() == old(pool).is_shut_down(),
        final(pool)@.waiting() <= old(pool)@.waiting(),
        work::only_others(final(pool)@.tasks()),
        work::others_ran(old(pool)@.tasks(), final(pool)@.tasks()),
        slice@.len() == 0 ==> call_ensures(init, (), u),
        slice@.len() > 0 ==> exists|parts: Seq<U>| #[trigger]
            are_parts(init, step, slice@, parts) && merges(init, merge, parts, u),
{
    let n: usize = slice.len();
    if n == 0 {
        return init();
    }
    let ranges = chunk_ranges(n);
    let m: usize = ranges.len();
    let mut slots: Vec<Option<U>> = Vec::new();
    let mut i: usize = 0;
    while i < m
        invariant
            i <= m,
            slots@.len() == i,
        decreases m - i,
    {
        slots.push(None);
        i += 1;
    }
    let spawned = spawn_chunks(pool, m);
    let ghost mut mine: Multiset<Work<O>> = spawned@;
    let ghost mut done: Seq<bool> = Seq::new(m as nat, |k: int| false);
    let mut left: usize = m;
    while left > 0
        invariant
            pool.wf(),
            pool.workers() == old(pool).workers(),
            pool.workers() > 0,
            pool.is_shut_down() == old(pool).is_shut_down(),
            mine.len() == left,
            pool@.waiting() <= old(pool)@.waiting() + left,
            to_do(mine, done),
            work::owns(pool@.tasks(), mine),
            work::others_ran(old(pool)@.tasks(), pool@.tasks()),
            n == slice@.len(),
            n > 0,
            m == chunk_count(n as int),
            ranges@.len() == m,
            forall|k: int|
                0 <= k < ranges@.len() ==> (#[trigger] ranges@[k]).0 == chunk_start(n as int, k)
                    && ranges@[k].1 == chunk_start(n as int, k + 1),
            call_requires(init, ()),
            forall|k: int|
                0 <= k < chunk_count(slice@.len() as int) ==> can_fold(
                    init,
                    step,
                    #[trigger] chunk_of(slice@, k),
                ),
            slots@.len() == m,
            done.len() == m,
            forall|k: int|
                0 <= k < m && done[k] ==> reduced(init, step, chunk_of(slice@, k), #[trigger] slots@[k]),
        decreases left,
    {
        let k: usize = next_chunk(pool, Ghost(mine), Ghost(done));
        proof {
            mine = mine.remove(Work::Chunk(k));
            law_chunks_cover(n as int, k as int);
            assert(can_fold(init, step, chunk_of(slice@, k as int)));
        }
        let part = fold_range(slice, ranges[k].0, ranges[k].1, &init, &step);
        slots.set(k, Some(part));
        proof {
            done = done.update(k as int, true);
        }
        left -= 1;
    }
    proof {
        assert(mine =~= Multiset::empty());
        work::lemma_owns_nothing(pool@.tasks());
        assert forall|k: int| 0 <= k < m implies reduced(
            init,
            step,
            chunk_of(slice@, k),
            #[trigger] slots@[k],
        ) by {
            lemma_all_done(mine, done, k);
        }
    }
    let ghost parts: Seq<U> = Seq::new(m as nat, |k: int| slots@[k]->0);
    proof {
        assert forall|k: int| 0 <= k < m implies folds(
            init,
            step,
            chunk_of(slice@, k),
            #[trigger] parts[k],
        ) by {
            assert(reduced(init, step, chunk_of(slice@, k), slots@[k]));
        }
        assert(are_parts(init, step, slice@, parts));
    }
    let mut acc = init();
    let ghost mut accs: Seq<U> = seq![acc];
    let mut k: usize = 0;
    while k < m
        invariant
            k <= m,
            m == slots@.len(),
            parts.len() == m,
            are_parts(init, step, slice@, parts),
            can_merge(init, step, merge, slice@),
            forall|j: int| k <= j < m ==> (#[trigger] slots@[j]) == Some(parts[j]),
            accs.len() == k + 1,
            accs.last() == acc,
            call_ensures(init, (), accs[0]),
            forall|j: int|
                0 <= j < k ==> call_ensures(merge, (accs[j], #[trigger] parts[j]), accs[j + 1]),
        decreases m - k,
    {
        assert(slots@[k as int] == Some(parts[k as int]));
        if let Some(part) = slots[k].take() {
            proof {
                let head = parts.take(k as int);
                assert forall|j: int| 0 <= j < head.len() implies call_ensures(
                    merge,
                    (accs[j], #[trigger] head[j]),
                    accs[j + 1],
                ) by {
                    assert(head[j] == parts[j]);
                }
                assert(merge_steps(init, merge, head, accs));
            }
            acc = merge(acc, part);
            proof {
                accs = accs.push(acc);
            }
        }
        k += 1;
    }
    proof {
        assert(merge_steps(init, merge, parts, accs));
    }
    acc
}

/// Whether a place holds a fold of the items.
spec fn reduced<T, U, I: Fn() -> U, S: Fn(U, &T) -> U>(
    init: I,
    step: S,
    items: Seq<T>,
    slot: Option<U>,
) -> bool {
    slot matches Some(u) && folds(init, step, items, u)
}

/// Where `init`, `step` and `merge` compute functions, and merging with the fold of some items
/// is the same as folding these items in, the parallel reduction is the plain fold of all items,
/// however they were cut.
pub proof fn law_reduce_is_fold<T, U, I: Fn() -> U, S: Fn(U, &T) -> U, M: Fn(U, U) -> U>(
    init: I,
    step: S,
    merge: M,
    e: U,
    f: spec_fn(U, T) -> U,
    items: Seq<T>,
    parts: Seq<U>,
    u: U,
)
    requires
        items.len() > 0,
        forall|a: U| call_ensures(init, (), a) ==> a == e,
        forall|a: U, x: T, b: U| #[trigger] call_ensures(step, (a, &x), b) ==> b == f(a, x),
        forall|a: U, s: Seq<T>, b: U| #[trigger]
            call_ensures(merge, (a, s.fold_left(e, f)), b) ==> b == s.fold_left(a, f),
        are_parts(init, step, items, parts),
        merges(init, merge, parts, u),
    ensures
        u == items.fold_left(e, f),
{
    let n = items.len() as int;
    lemma_count_positive(n);
    law_chunks_cover(n, 0);
    let accs = choose|accs: Seq<U>| #[trigger]
        merge_steps(init, merge, parts, accs) && accs.last() == u;
    assert(items.take(0) =~= Seq::<T>::empty());
    lemma_reduce_up_to(init, step, merge, e, f, items, parts, accs, parts.len() as int);
    assert(items.take(n) =~= items);
}

proof fn lemma_reduce_up_to<T, U, I: Fn() -> U, S: Fn(U, &T) -> U, M: Fn(U, U) -> U>(
    init: I,
    step: S,
    merge: M,
    e: U,
    f: spec_fn(U, T) -> U,
    items: Seq<T>,
    parts: Seq<U>,
    accs: Seq<U>,
    k: int,
)
    requires
        items.len() > 0,
        0 <= k <= parts.len(),
        forall|a: U| call_ensures(init, (), a) ==> a == e,
        forall|a: U, x: T, b: U| #[trigger] call_ensures(step, (a, &x), b) ==> b == f(a, x),
        forall|a: U, s: Seq<T>, b: U| #[trigger]
            call_ensures(merge, (a, s.fold_left(e, f)), b) ==> b == s.fold_left(a, f),
        are_parts(init, step, items, parts),
        merge_steps(init, merge, parts, accs),
    ensures
        accs[k] == items.take(chunk_start(items.len() as int, k)).fold_left(e, f),
    decreases k,
{
    let n = items.len() as int;
    lemma_count_positive(n);
    law_chunks_cover(n, 0);
    if k == 0 {
        assert(items.take(0) =~= Seq::<T>::empty());
    } else {
        lemma_reduce_up_to(init, step, merge, e, f, items, parts, accs, k - 1);
        law_chunks_cover(n, k - 1);
        let c = chunk_of(items, k - 1);
        assert(folds(init, step, c, parts[k - 1]));
        let steps = choose|steps: Seq<U>| #[trigger]
            fold_steps(init, step, c, steps) && steps.last() == parts[k - 1];
        lemma_steps_fold(init, step, e, f, c, steps, c.len() as int);
        assert(c.take(c.len() as int) =~= c);
        assert(parts[k - 1] == c.fold_left(e, f));
        assert(call_ensures(merge, (accs[k - 1], parts[k - 1]), accs[k]));
        assert(accs[k] == c.fold_left(accs[k - 1], f));
        let head = items.take(chunk_start(n, k - 1));
        let both = items.take(chunk_start(n, k));
        assert(both =~= head + c);
        both.lemma_fold_left_split(e, f, head.len() as int);
        assert(both.subrange(0, head.len() as int) =~= head);
        assert(both.subrange(head.len() as int, both.len() as int) =~= c);
    }
}

/// The steps of a fold with functions are the folds of the beginnings.
proof fn lemma_steps_fold<T, U, I: Fn() -> U, S: Fn(U, &T) -> U>(
    init: I,
    step: S,
    e: U,
    f: spec_fn(U, T) -> U,
    items: Seq<T>,
    accs: Seq<U>,
    k: int,
)
    requires
        0 <= k <= items.len(),
        forall|a: U| call_ensures(init, (), a) ==> a == e,
        forall|a: U, x: T, b: U| #[trigger] call_ensures(step, (a, &x), b) ==> b == f(a, x),
        fold_steps(init, step, items, accs),
    ensures
        accs[k] == items.take(k).fold_left(e, f),
    decreases k,
{
    if k == 0 {
        assert(items.take(0) =~= Seq::<T>::empty());
    } else {
        lemma_steps_fold(init, step, e, f, items, accs, k - 1);
        assert(items.take(k).drop_last() =~= items.take(k - 1));
        assert(call_ensures(step, (accs[k - 1], &items[k - 1]), accs[k]));
    }
}

/// Whether a place holds what `f` makes of an item.
spec fn mapped<T, U, A: Apply<T, U>>(f: A, x: T, slot: Option<U>) -> bool {
    slot matches Some(u) && f.gives(x, u)
}

/// What each function was applied to, counted.
pub open spec fn tallies(met: Seq<Seq<i64>>) -> Seq<Multiset<i64>> {
    Seq::new(met.len(), |i: int| met[i].to_multiset())
}

/// What was counted first and what was counted then, together.
pub open spec fn added(x: Seq<Multiset<i64>>, y: Seq<Multiset<i64>>) -> Seq<Multiset<i64>> {
    Seq::new(x.len(), |i: int| x[i].add(y[i]))
}

/// What came first and what came then, one behind the other.
pub open spec fn zipped(x: Seq<Seq<i64>>, y: Seq<Seq<i64>>) -> Seq<Seq<i64>> {
    Seq::new(x.len(), |i: int| x[i] + y[i])
}

/// Something that gives the items of a range, chunk by chunk. On their way the items meet functions,
/// which keep account of what they were applied to.
pub trait ChunkFn: Sized {
    /// How many functions there are.
    spec fn depth() -> nat;

    /// Whether the range can be asked for.
    spec fn ready(&self, start: int, end: int) -> bool;

    /// Whether `out` can be what the range gives if function `i` is applied to the items `met[i]`,
    /// to each of them once, and to nothing else.
    spec fn gives_by(&self, start: int, end: int, met: Seq<Seq<i64>>, out: Seq<i64>) -> bool;

    /// Whether `after` is `before` once function `i` was applied to what is in `more[i]`.
    spec fn recorded(before: Self, after: Self, more: Seq<Multiset<i64>>) -> bool;

    /// The items of the range.
    fn chunk(&mut self, start: usize, end: usize) -> (out: Vec<i64>)
        requires
            start <= end,
            old(self).ready(start as int, end as int),
        ensures
            exists|met: Seq<Seq<i64>>| #[trigger]
                old(self).gives_by(start as int, end as int, met, out@) && Self::recorded(
                    *old(self),
                    *final(self),
                    tallies(met),
                ),
    ;

    /// There is one account for each function.
    proof fn lemma_depth(&self, start: int, end: int, met: Seq<Seq<i64>>, out: Seq<i64>)
        requires
            self.gives_by(start, end, met, out),
        ensures
            met.len() == Self::depth(),
    ;

    /// What the ranges give stays the same, however often they are asked for.
    proof fn lemma_stays(before: Self, after: Self, more: Seq<Multiset<i64>>)
        requires
            Self::recorded(before, after, more),
        ensures
            forall|start: int, end: int| #[trigger]
                after.ready(start, end) == before.ready(start, end),
            forall|start: int, end: int, met: Seq<Seq<i64>>, out: Seq<i64>| #[trigger]
                after.gives_by(start, end, met, out) == before.gives_by(start, end, met, out),
    ;

    /// Where nothing is done, nothing is counted.
    proof fn lemma_nothing(&self, more: Seq<Multiset<i64>>)
        requires
            more.len() == Self::depth(),
            forall|i: int| 0 <= i < more.len() ==> #[trigger] more[i] == Multiset::<i64>::empty(),
        ensures
            Self::recorded(*self, *self, more),
    ;

    /// What is counted in two turns is counted in both together.
    proof fn lemma_more(
        a: Self,
        b: Self,
        c: Self,
        x: Seq<Multiset<i64>>,
        y: Seq<Multiset<i64>>,
    )
        requires
            Self::recorded(a, b, x),
            Self::recorded(b, c, y),
        ensures
            x.len() == Self::depth(),
            y.len() == Self::depth(),
            Self::recorded(a, c, added(x, y)),
    ;

    /// What two ranges give that follow each other, the two together give.
    proof fn lemma_joins(
        &self,
        a: int,
        b: int,
        c: int,
        mx: Seq<Seq<i64>>,
        x: Seq<i64>,
        my: Seq<Seq<i64>>,
        y: Seq<i64>,
    )
        requires
            0 <= a <= b <= c,
            self.gives_by(a, b, mx, x),
            self.gives_by(b, c, my, y),
        ensures
            self.gives_by(a, c, zipped(mx, my), x + y),
    ;
}

/// Whether the items can be what the range gives.
pub open spec fn may_give<C: ChunkFn>(c: C, start: int, end: int, out: Seq<i64>) -> bool {
    exists|met: Seq<Seq<i64>>| #[trigger] c.gives_by(start, end, met, out)
}

/// The items of a slice.
#[derive(Clone)]
pub struct SliceChunks {
    pub buf: Arc<Vec<i64>>,
}

impl ChunkFn for SliceChunks {
    open spec fn depth() -> nat {
        0
    }

    open spec fn ready(&self, start: int, end: int) -> bool {
        0 <= start <= end <= self.buf@.len()
    }

    open spec fn gives_by(
        &self,
        start: int,
        end: int,
        met: Seq<Seq<i64>>,
        out: Seq<i64>,
    ) -> bool {
        &&& 0 <= start <= end <= self.buf@.len()
        &&& met.len() == 0
        &&& out == self.buf@.subrange(start, end)
    }

    open spec fn recorded(before: Self, after: Self, more: Seq<Multiset<i64>>) -> bool {
        after == before && more.len() == 0
    }

    fn chunk(&mut self, start: usize, end: usize) -> (out: Vec<i64>) {
        let buf: &Vec<i64> = &self.buf;
        let mut out: Vec<i64> = Vec::new();
        let mut i: usize = start;
        while i < end
            invariant
                start <= i <= end <= buf@.len(),
                out@ == buf@.subrange(start as int, i as int),
            decreases end - i,
        {
            out.push(buf[i]);
            i += 1;
            assert(out@ =~= buf@.subrange(start as int, i as int));
        }
        assert(self.gives_by(start as int, end as int, Seq::empty(), out@));
        out
    }

    proof fn lemma_depth(&self, start: int, end: int, met: Seq<Seq<i64>>, out: Seq<i64>) {
    }

    proof fn lemma_stays(before: Self, after: Self, more: Seq<Multiset<i64>>) {
    }

    proof fn lemma_nothing(&self, more: Seq<Multiset<i64>>) {
    }

    proof fn lemma_more(
        a: Self,
        b: Self,
        c: Self,
        x: Seq<Multiset<i64>>,
        y: Seq<Multiset<i64>>,
    ) {
    }

    proof fn lemma_joins(
        &self,
        a: int,
        b: int,
        c: int,
        mx: Seq<Seq<i64>>,
        x: Seq<i64>,
        my: Seq<Seq<i64>>,
        y: Seq<i64>,
    ) {
        assert(self.buf@.subrange(a, c) =~= x + y);
    }
}

/// Whether a function takes and gives the same as another.
pub open spec fn same_function<B, A: Apply<i64, B>>(f: A, g: A) -> bool {
    &&& forall|x: i64| #[trigger] g.takes(x) == f.takes(x)
    &&& forall|x: i64, y: B| #[trigger] g.gives(x, y) == f.gives(x, y)
}

/// Whether `out` can be what a function makes of the items.
pub open spec fn makes_of<B, A: Apply<i64, B>>(f: A, items: Seq<i64>, out: Seq<B>) -> bool {
    &&& out.len() == items.len()
    &&& forall|i: int| 0 <= i < out.len() ==> f.gives(items[i], #[trigger] out[i])
}

/// Whether the range can be asked for, and a function takes every item it gives.
pub open spec fn takes_all<B, C: ChunkFn, A: Apply<i64, B>>(
    prev: C,
    f: A,
    start: int,
    end: int,
) -> bool {
    &&& prev.ready(start, end)
    &&& forall|items: Seq<i64>, i: int|
        #![trigger may_give(prev, start, end, items), items[i]]
        may_give(prev, start, end, items) && 0 <= i < items.len() ==> f.takes(items[i])
}

/// Whether a function is as it was, but for having been applied to `more`.
pub open spec fn applied<B, A: Apply<i64, B>>(before: A, after: A, more: Multiset<i64>) -> bool {
    same_function(before, after) && after.seen() == before.seen().add(more)
}

/// A function that takes what it took takes all that it took.
proof fn lemma_takes_all<B, C: ChunkFn, A: Apply<i64, B>>(
    c: C,
    d: C,
    f: A,
    g: A,
    start: int,
    end: int,
)
    requires
        takes_all(c, f, start, end),
        d.ready(start, end),
        forall|met: Seq<Seq<i64>>, out: Seq<i64>| #[trigger]
            d.gives_by(start, end, met, out) ==> c.gives_by(start, end, met, out),
        same_function(f, g),
    ensures
        takes_all(d, g, start, end),
{
    assert forall|items: Seq<i64>, i: int|
        #![trigger may_give(d, start, end, items), items[i]]
        may_give(d, start, end, items) && 0 <= i < items.len() implies g.takes(items[i]) by {
        let met = choose|met: Seq<Seq<i64>>| #[trigger] d.gives_by(start, end, met, items);
        assert(c.gives_by(start, end, met, items));
        assert(may_give(c, start, end, items));
        assert(f.takes(items[i]));
    }
}

/// Applies a function to each of the items, once and in order.
fn apply_to_all<B, A: Apply<i64, B>>(f: &mut A, items: &Vec<i64>) -> (out: Vec<B>)
    requires
        forall|i: int| 0 <= i < items@.len() ==> old(f).takes(#[trigger] items@[i]),
    ensures
        makes_of(*old(f), items@, out@),
        applied(*old(f), *final(f), items@.to_multiset()),
{
    broadcast use vstd::seq_lib::group_to_multiset_ensures;

    let mut out: Vec<B> = Vec::new();
    let mut i: usize = 0;
    assert(items@.take(0).to_multiset() =~= Multiset::<i64>::empty());
    assert(f.seen() =~= f.seen().add(items@.take(0).to_multiset()));
    while i < items.len()
        invariant
            i <= items@.len(),
            forall|i: int| 0 <= i < items@.len() ==> old(f).takes(#[trigger] items@[i]),
            out@.len() == i,
            forall|j: int| 0 <= j < i ==> old(f).gives(items@[j], #[trigger] out@[j]),
            applied(*old(f), *f, items@.take(i as int).to_multiset()),
        decreases items@.len() - i,
    {
        let ghost x = items@[i as int];
        let ghost before = *f;
        assert(old(f).takes(x));
        let y: B = f.apply(&items[i]);
        assert(before.gives(x, y));
        out.push(y);
        proof {
            broadcast use vstd::seq_lib::group_to_multiset_ensures;

            let t = items@.take(i as int);
            assert(items@.take(i + 1) =~= t.push(x));
            assert(t.push(x).to_multiset() =~= t.to_multiset().insert(x));
            assert(f.seen() =~= old(f).seen().add(items@.take(i + 1).to_multiset()));
        }
        i += 1;
    }
    assert(items@.take(items@.len() as int) =~= items@);
    out
}

/// The items that another source gives, each put through a function.
#[derive(Clone)]
pub struct MapChunks<C, F> {
    pub prev: C,
    pub f: F,
}

/// Whether `out` can be what the function makes of what the range gives.
pub open spec fn map_gives_by<C: ChunkFn, F: Apply<i64, i64>>(
    prev: C,
    f: F,
    start: int,
    end: int,
    met: Seq<Seq<i64>>,
    out: Seq<i64>,
) -> bool {
    &&& met.len() > 0
    &&& prev.gives_by(start, end, met.drop_last(), met.last())
    &&& makes_of(f, met.last(), out)
}

/// Whether the function, and what comes before it, was applied to some more items.
pub open spec fn map_recorded<C: ChunkFn, F: Apply<i64, i64>>(
    before: MapChunks<C, F>,
    after: MapChunks<C, F>,
    more: Seq<Multiset<i64>>,
) -> bool {
    &&& more.len() > 0
    &&& C::recorded(before.prev, after.prev, more.drop_last())
    &&& applied(before.f, after.f, more.last())
}

impl<C: ChunkFn, F: Apply<i64, i64>> ChunkFn for MapChunks<C, F> {
    open spec fn depth() -> nat {
        C::depth() + 1
    }

    open spec fn ready(&self, start: int, end: int) -> bool {
        takes_all(self.prev, self.f, start, end)
    }

    open spec fn gives_by(
        &self,
        start: int,
        end: int,
        met: Seq<Seq<i64>>,
        out: Seq<i64>,
    ) -> bool {
        map_gives_by(self.prev, self.f, start, end, met, out)
    }

    open spec fn recorded(before: Self, after: Self, more: Seq<Multiset<i64>>) -> bool {
        map_recorded(before, after, more)
    }

    fn chunk(&mut self, start: usize, end: usize) -> (out: Vec<i64>) {
        let items = self.prev.chunk(start, end);
        let ghost m = choose|m: Seq<Seq<i64>>| #[trigger]
            old(self).prev.gives_by(start as int, end as int, m, items@) && C::recorded(
                old(self).prev,
                self.prev,
                tallies(m),
            );
        assert(may_give(old(self).prev, start as int, end as int, items@));
        let out = apply_to_all(&mut self.f, &items);
        proof {
            let met = m.push(items@);
            assert(met.drop_last() =~= m);
            assert(tallies(met).drop_last() =~= tallies(m));
            assert(old(self).gives_by(start as int, end as int, met, out@));
            assert(Self::recorded(*old(self), *self, tallies(met)));
        }
        out
    }

    proof fn lemma_depth(&self, start: int, end: int, met: Seq<Seq<i64>>, out: Seq<i64>) {
        self.prev.lemma_depth(start, end, met.drop_last(), met.last());
    }

    proof fn lemma_stays(before: Self, after: Self, more: Seq<Multiset<i64>>) {
        C::lemma_stays(before.prev, after.prev, more.drop_last());
        assert forall|start: int, end: int| #[trigger]
            after.ready(start, end) == before.ready(start, end) by {
            if before.ready(start, end) {
                lemma_takes_all(before.prev, after.prev, before.f, after.f, start, end);
            }
            if after.ready(start, end) {
                lemma_takes_all(after.prev, before.prev, after.f, before.f, start, end);
            }
        }
        assert forall|start: int, end: int, met: Seq<Seq<i64>>, out: Seq<i64>| #[trigger]
            after.gives_by(start, end, met, out) == before.gives_by(start, end, met, out) by {
            assert(after.prev.gives_by(start, end, met.drop_last(), met.last())
                == before.prev.gives_by(start, end, met.drop_last(), met.last()));
            lemma_same_makes(before.f, after.f, met.last(), out);
        }
    }

    proof fn lemma_nothing(&self, more: Seq<Multiset<i64>>) {
        assert forall|i: int| 0 <= i < more.drop_last().len() implies #[trigger] more.drop_last()[i]
            == Multiset::<i64>::empty() by {
            assert(more.drop_last()[i] == more[i]);
        }
        self.prev.lemma_nothing(more.drop_last());
        assert(self.f.seen() =~= self.f.seen().add(more.last()));
    }

    proof fn lemma_more(
        a: Self,
        b: Self,
        c: Self,
        x: Seq<Multiset<i64>>,
        y: Seq<Multiset<i64>>,
    ) {
        C::lemma_more(a.prev, b.prev, c.prev, x.drop_last(), y.drop_last());
        assert(added(x, y).drop_last() =~= added(x.drop_last(), y.drop_last()));
        assert(c.f.seen() =~= a.f.seen().add(x.last().add(y.last())));
        lemma_same_twice(a.f, b.f, c.f);
    }

    proof fn lemma_joins(
        &self,
        a: int,
        b: int,
        c: int,
        mx: Seq<Seq<i64>>,
        x: Seq<i64>,
        my: Seq<Seq<i64>>,
        y: Seq<i64>,
    ) {
        self.lemma_depth(a, b, mx, x);
        self.lemma_depth(b, c, my, y);
        self.prev.lemma_joins(a, b, c, mx.drop_last(), mx.last(), my.drop_last(), my.last());
        assert(zipped(mx, my).drop_last() =~= zipped(mx.drop_last(), my.drop_last()));
        lemma_makes_both(self.f, mx.last(), x, my.last(), y);
    }
}

/// What a function can make of items, the same function can.
proof fn lemma_same_makes<B, A: Apply<i64, B>>(f: A, g: A, items: Seq<i64>, out: Seq<B>)
    requires
        same_function(f, g),
    ensures
        makes_of(f, items, out) == makes_of(g, items, out),
{
    if makes_of(f, items, out) {
        assert forall|i: int| 0 <= i < out.len() implies g.gives(items[i], #[trigger] out[i]) by {
            assert(f.gives(items[i], out[i]));
        }
    }
    if makes_of(g, items, out) {
        assert forall|i: int| 0 <= i < out.len() implies f.gives(items[i], #[trigger] out[i]) by {
            assert(g.gives(items[i], out[i]));
        }
    }
}

/// What is the same twice is the same.
proof fn lemma_same_twice<B, A: Apply<i64, B>>(f: A, g: A, h: A)
    requires
        same_function(f, g),
        same_function(g, h),
    ensures
        same_function(f, h),
{
    assert forall|x: i64| #[trigger] h.takes(x) == f.takes(x) by {
        assert(g.takes(x) == f.takes(x));
    }
    assert forall|x: i64, y: B| #[trigger] h.gives(x, y) == f.gives(x, y) by {
        assert(g.gives(x, y) == f.gives(x, y));
    }
}

/// What a function makes of two runs of items, it makes of both together.
proof fn lemma_makes_both<B, A: Apply<i64, B>>(
    f: A,
    p: Seq<i64>,
    x: Seq<B>,
    q: Seq<i64>,
    y: Seq<B>,
)
    requires
        makes_of(f, p, x),
        makes_of(f, q, y),
    ensures
        makes_of(f, p + q, x + y),
{
    let items = p + q;
    let out = x + y;
    assert forall|i: int| 0 <= i < out.len() implies f.gives(items[i], #[trigger] out[i]) by {
        if i < x.len() {
            assert(out[i] == x[i]);
        } else {
            assert(out[i] == y[i - x.len()]);
        }
    }
}

/// The items that another source gives, without those that do not pass a test.
#[derive(Clone)]
pub struct FilterChunks<C, F> {
    pub prev: C,
    pub pred: F,
}

/// The items for which the flag is set.
pub open spec fn flagged(items: Seq<i64>, flags: Seq<bool>) -> Seq<i64>
    decreases items.len(),
{
    if items.len() == 0 {
        Seq::empty()
    } else {
        let rest = flagged(items.drop_last(), flags.drop_last());
        if flags.last() {
            rest.push(items.last())
        } else {
            rest
        }
    }
}

proof fn lemma_flagged_joins(p: Seq<i64>, f: Seq<bool>, q: Seq<i64>, g: Seq<bool>)
    requires
        p.len() == f.len(),
        q.len() == g.len(),
    ensures
        flagged(p + q, f + g) == flagged(p, f) + flagged(q, g),
    decreases q.len(),
{
    if q.len() == 0 {
        assert(p + q =~= p);
        assert(f + g =~= f);
        assert(flagged(p, f) + flagged(q, g) =~= flagged(p, f));
    } else {
        lemma_flagged_joins(p, f, q.drop_last(), g.drop_last());
        assert((p + q).drop_last() =~= p + q.drop_last());
        assert((f + g).drop_last() =~= f + g.drop_last());
        assert(flagged(p + q, f + g) =~= flagged(p, f) + flagged(q, g));
    }
}

/// Whether `out` can be what the test lets through of what the range gives.
pub open spec fn filter_gives_by<C: ChunkFn, F: Apply<i64, bool>>(
    prev: C,
    pred: F,
    start: int,
    end: int,
    met: Seq<Seq<i64>>,
    out: Seq<i64>,
) -> bool {
    &&& met.len() > 0
    &&& prev.gives_by(start, end, met.drop_last(), met.last())
    &&& exists|flags: Seq<bool>| #[trigger]
        makes_of(pred, met.last(), flags) && out == flagged(met.last(), flags)
}

/// Whether the test, and what comes before it, was applied to some more items.
pub open spec fn filter_recorded<C: ChunkFn, F: Apply<i64, bool>>(
    before: FilterChunks<C, F>,
    after: FilterChunks<C, F>,
    more: Seq<Multiset<i64>>,
) -> bool {
    &&& more.len() > 0
    &&& C::recorded(before.prev, after.prev, more.drop_last())
    &&& applied(before.pred, after.pred, more.last())
}

impl<C: ChunkFn, F: Apply<i64, bool>> ChunkFn for FilterChunks<C, F> {
    open spec fn depth() -> nat {
        C::depth() + 1
    }

    open spec fn ready(&self, start: int, end: int) -> bool {
        takes_all(self.prev, self.pred, start, end)
    }

    open spec fn gives_by(
        &self,
        start: int,
        end: int,
        met: Seq<Seq<i64>>,
        out: Seq<i64>,
    ) -> bool {
        filter_gives_by(self.prev, self.pred, start, end, met, out)
    }

    open spec fn recorded(before: Self, after: Self, more: Seq<Multiset<i64>>) -> bool {
        filter_recorded(before, after, more)
    }

    fn chunk(&mut self, start: usize, end: usize) -> (out: Vec<i64>) {
        let items = self.prev.chunk(start, end);
        let ghost m = choose|m: Seq<Seq<i64>>| #[trigger]
            old(self).prev.gives_by(start as int, end as int, m, items@) && C::recorded(
                old(self).prev,
                self.prev,
                tallies(m),
            );
        assert(may_give(old(self).prev, start as int, end as int, items@));
        let flags = apply_to_all(&mut self.pred, &items);
        let mut out: Vec<i64> = Vec::new();
        let mut i: usize = 0;
        while i < items.len()
            invariant
                i <= items@.len(),
                flags@.len() == items@.len(),
                out@ == flagged(items@.take(i as int), flags@.take(i as int)),
            decreases items@.len() - i,
        {
            if flags[i] {
                out.push(items[i]);
            }
            i += 1;
            assert(items@.take(i as int).drop_last() =~= items@.take(i - 1));
            assert(flags@.take(i as int).drop_last() =~= flags@.take(i - 1));
        }
        proof {
            assert(items@.take(items@.len() as int) =~= items@);
            assert(flags@.take(items@.len() as int) =~= flags@);
            let met = m.push(items@);
            assert(met.drop_last() =~= m);
            assert(tallies(met).drop_last() =~= tallies(m));
            assert(makes_of(old(self).pred, met.last(), flags@));
            assert(old(self).gives_by(start as int, end as int, met, out@));
            assert(Self::recorded(*old(self), *self, tallies(met)));
        }
        out
    }

    proof fn lemma_depth(&self, start: int, end: int, met: Seq<Seq<i64>>, out: Seq<i64>) {
        self.prev.lemma_depth(start, end, met.drop_last(), met.last());
    }

    proof fn lemma_stays(before: Self, after: Self, more: Seq<Multiset<i64>>) {
        C::lemma_stays(before.prev, after.prev, more.drop_last());
        assert forall|start: int, end: int| #[trigger]
            after.ready(start, end) == before.ready(start, end) by {
            if before.ready(start, end) {
                lemma_takes_all(before.prev, after.prev, before.pred, after.pred, start, end);
            }
            if after.ready(start, end) {
                lemma_takes_all(after.prev, before.prev, after.pred, before.pred, start, end);
            }
        }
        assert forall|start: int, end: int, met: Seq<Seq<i64>>, out: Seq<i64>| #[trigger]
            after.gives_by(start, end, met, out) == before.gives_by(start, end, met, out) by {
            assert(after.prev.gives_by(start, end, met.drop_last(), met.last())
                == before.prev.gives_by(start, end, met.drop_last(), met.last()));
            assert forall|flags: Seq<bool>| #[trigger]
                makes_of(before.pred, met.last(), flags) == makes_of(
                    after.pred,
                    met.last(),
                    flags,
                ) by {
                lemma_same_makes(before.pred, after.pred, met.last(), flags);
            }
            if before.gives_by(start, end, met, out) {
                let flags = choose|flags: Seq<bool>| #[trigger]
                    makes_of(before.pred, met.last(), flags) && out == flagged(met.last(), flags);
                assert(makes_of(after.pred, met.last(), flags));
            }
            if after.gives_by(start, end, met, out) {
                let flags = choose|flags: Seq<bool>| #[trigger]
                    makes_of(after.pred, met.last(), flags) && out == flagged(met.last(), flags);
                assert(makes_of(before.pred, met.last(), flags));
            }
        }
    }

    proof fn lemma_nothing(&self, more: Seq<Multiset<i64>>) {
        assert forall|i: int| 0 <= i < more.drop_last().len() implies #[trigger] more.drop_last()[i]
            == Multiset::<i64>::empty() by {
            assert(more.drop_last()[i] == more[i]);
        }
        self.prev.lemma_nothing(more.drop_last());
        assert(self.pred.seen() =~= self.pred.seen().add(more.last()));
    }

    proof fn lemma_more(
        a: Self,
        b: Self,
        c: Self,
        x: Seq<Multiset<i64>>,
        y: Seq<Multiset<i64>>,
    ) {
        C::lemma_more(a.prev, b.prev, c.prev, x.drop_last(), y.drop_last());
        assert(added(x, y).drop_last() =~= added(x.drop_last(), y.drop_last()));
        assert(c.pred.seen() =~= a.pred.seen().add(x.last().add(y.last())));
        lemma_same_twice(a.pred, b.pred, c.pred);
    }

    proof fn lemma_joins(
        &self,
        a: int,
        b: int,
        c: int,
        mx: Seq<Seq<i64>>,
        x: Seq<i64>,
        my: Seq<Seq<i64>>,
        y: Seq<i64>,
    ) {
        self.lemma_depth(a, b, mx, x);
        self.lemma_depth(b, c, my, y);
        self.prev.lemma_joins(a, b, c, mx.drop_last(), mx.last(), my.drop_last(), my.last());
        assert(zipped(mx, my).drop_last() =~= zipped(mx.drop_last(), my.drop_last()));
        let f = choose|f: Seq<bool>| #[trigger]
            makes_of(self.pred, mx.last(), f) && x == flagged(mx.last(), f);
        let g = choose|g: Seq<bool>| #[trigger]
            makes_of(self.pred, my.last(), g) && y == flagged(my.last(), g);
        lemma_makes_both(self.pred, mx.last(), f, my.last(), g);
        lemma_flagged_joins(mx.last(), f, my.last(), g);
        assert(makes_of(self.pred, zipped(mx, my).last(), f + g));
    }
}

/// A filter lets through exactly the items that pass, in their order: if the test is that of a
/// function, what comes out are the items that come in for which the function is true.
pub proof fn law_filter_keeps_what_passes<C: ChunkFn, F: Apply<i64, bool>>(
    c: FilterChunks<C, F>,
    p: spec_fn(i64) -> bool,
    start: int,
    end: int,
    met: Seq<Seq<i64>>,
    out: Seq<i64>,
)
    requires
        c.gives_by(start, end, met, out),
        forall|x: i64, b: bool| #[trigger] c.pred.gives(x, b) ==> b == p(x),
    ensures
        met.len() > 0,
        c.prev.gives_by(start, end, met.drop_last(), met.last()),
        out == met.last().filter(p),
{
    let items = met.last();
    let flags = choose|flags: Seq<bool>| #[trigger]
        makes_of(c.pred, items, flags) && out == flagged(items, flags);
    assert forall|i: int| 0 <= i < items.len() implies #[trigger] flags[i] == p(items[i]) by {
        assert(c.pred.gives(items[i], flags[i]));
    }
    lemma_flagged_is_filter(items, flags, p);
}

proof fn lemma_flagged_is_filter(items: Seq<i64>, flags: Seq<bool>, p: spec_fn(i64) -> bool)
    requires
        flags.len() == items.len(),
        forall|i: int| 0 <= i < items.len() ==> #[trigger] flags[i] == p(items[i]),
    ensures
        flagged(items, flags) == items.filter(p),
    decreases items.len(),
{
    reveal(Seq::filter);
    if items.len() > 0 {
        assert forall|i: int| 0 <= i < items.len() - 1 implies #[trigger] flags.drop_last()[i] == p(
            items.drop_last()[i],
        ) by {
            assert(flags.drop_last()[i] == flags[i]);
        }
        lemma_flagged_is_filter(items.drop_last(), flags.drop_last(), p);
    }
}

/// Whatever a test says of the items, also if it says different things of equal ones: what comes
/// out are the items whose flags are set, in their order, and no others.
pub proof fn law_flagged_are_picked(items: Seq<i64>, flags: Seq<bool>)
    requires
        flags.len() == items.len(),
    ensures
        flagged(items, flags) == Seq::new(items.len(), |i: int| (items[i], flags[i])).filter(
            |x: (i64, bool)| x.1,
        ).map_values(|x: (i64, bool)| x.0),
    decreases items.len(),
{
    reveal(Seq::filter);
    let pairs = Seq::new(items.len(), |i: int| (items[i], flags[i]));
    let set = |x: (i64, bool)| x.1;
    let item = |x: (i64, bool)| x.0;
    if items.len() > 0 {
        let (i2, f2) = (items.drop_last(), flags.drop_last());
        law_flagged_are_picked(i2, f2);
        assert(pairs.drop_last() =~= Seq::new(i2.len(), |i: int| (i2[i], f2[i])));
        let rest = pairs.drop_last().filter(set);
        if flags.last() {
            assert(pairs.filter(set) == rest.push(pairs.last()));
            assert(rest.push(pairs.last()).map_values(item) =~= rest.map_values(item).push(
                items.last(),
            ));
        } else {
            assert(pairs.filter(set) == rest);
        }
    }
}

/// What a map gives is what its function makes of each item that comes in, one for one and in
/// order.
pub proof fn law_map_makes_each<C: ChunkFn, F: Apply<i64, i64>>(
    c: MapChunks<C, F>,
    f: spec_fn(i64) -> i64,
    start: int,
    end: int,
    met: Seq<Seq<i64>>,
    out: Seq<i64>,
)
    requires
        c.gives_by(start, end, met, out),
        forall|x: i64, y: i64| #[trigger] c.f.gives(x, y) ==> y == f(x),
    ensures
        met.len() > 0,
        c.prev.gives_by(start, end, met.drop_last(), met.last()),
        out == met.last().map_values(f),
{
    let items = met.last();
    assert forall|i: int| 0 <= i < out.len() implies #[trigger] out[i] == f(items[i]) by {
        assert(c.f.gives(items[i], out[i]));
    }
    assert(out =~= items.map_values(f));
}

/// What is at the source are the items of the slice.
pub proof fn law_slice_gives_its_items(
    c: SliceChunks,
    start: int,
    end: int,
    met: Seq<Seq<i64>>,
    out: Seq<i64>,
)
    requires
        c.gives_by(start, end, met, out),
    ensures
        0 <= start <= end <= c.buf@.len(),
        out == c.buf@.subrange(start, end),
{
}

/// What an iteration over a slice through a function and a test comes to: the items of the slice,
/// each put through the function, without those that do not pass, added up. On the way the function
/// is applied once to each item of the slice, and the test once to each item that the function has
/// made.
pub proof fn law_map_filter_sum<F: Apply<i64, i64>, G: Apply<i64, bool>>(
    before: FilterChunks<MapChunks<SliceChunks, F>, G>,
    after: FilterChunks<MapChunks<SliceChunks, F>, G>,
    f: spec_fn(i64) -> i64,
    p: spec_fn(i64) -> bool,
    met: Seq<Seq<i64>>,
    v: Seq<i64>,
)
    requires
        before.gives_by(0, before.prev.prev.buf@.len() as int, met, v),
        FilterChunks::recorded(before, after, tallies(met)),
        forall|x: i64, y: i64| #[trigger] before.prev.f.gives(x, y) ==> y == f(x),
        forall|x: i64, b: bool| #[trigger] before.pred.gives(x, b) ==> b == p(x),
    ensures
        v == before.prev.prev.buf@.map_values(f).filter(p),
        sum_of(v) == before.prev.prev.buf@.map_values(f).filter(p).fold_left(
            0int,
            |a: int, x: i64| a + x,
        ),
        after.prev.f.seen() == before.prev.f.seen().add(before.prev.prev.buf@.to_multiset()),
        after.pred.seen() == before.pred.seen().add(
            before.prev.prev.buf@.map_values(f).to_multiset(),
        ),
        after.prev.prev == before.prev.prev,
{
    let buf = before.prev.prev.buf@;
    let n = buf.len() as int;
    law_filter_keeps_what_passes(before, p, 0, n, met, v);
    law_map_makes_each(before.prev, f, 0, n, met.drop_last(), met.last());
    law_slice_gives_its_items(
        before.prev.prev,
        0,
        n,
        met.drop_last().drop_last(),
        met.drop_last().last(),
    );
    assert(buf.subrange(0, n) =~= buf);
    law_sum_adds_up(v, Seq::empty());
    let m = tallies(met);
    assert(m.last() == met.last().to_multiset());
    assert(m.drop_last().last() == met.drop_last().last().to_multiset());
}

/// Two functions, one behind the other, are one: each item goes through both, and the second is
/// applied to what the first has made of it, as often as the first.
pub proof fn law_map_of_map<C: ChunkFn, F: Apply<i64, i64>, G: Apply<i64, i64>>(
    c: MapChunks<MapChunks<C, F>, G>,
    start: int,
    end: int,
    met: Seq<Seq<i64>>,
    out: Seq<i64>,
)
    requires
        c.gives_by(start, end, met, out),
    ensures
        ({
            let first = met[met.len() - 2];
            let second = met[met.len() - 1];
            &&& met.len() >= 2
            &&& first.len() == second.len() == out.len()
            &&& c.prev.prev.gives_by(start, end, met.take(met.len() - 2), first)
            &&& forall|i: int|
                0 <= i < out.len() ==> c.prev.f.gives(first[i], second[i]) && c.f.gives(
                    second[i],
                    #[trigger] out[i],
                )
        }),
{
    let m = met.drop_last();
    let n = met.len() as int;
    assert(c.prev.gives_by(start, end, m, met.last()));
    assert(m.drop_last() =~= met.take(n - 2));
    assert(m.last() == met[n - 2]);
    let first = met[n - 2];
    let second = met[n - 1];
    assert forall|i: int| 0 <= i < out.len() implies c.prev.f.gives(first[i], second[i])
        && c.f.gives(second[i], #[trigger] out[i]) by {
        assert(makes_of(c.prev.f, first, second));
        assert(c.prev.f.gives(first[i], second[i]));
    }
}

/// The sum of the items.
pub open spec fn sum_of(s: Seq<i64>) -> int
    decreases s.len(),
{
    if s.len() == 0 {
        0
    } else {
        sum_of(s.drop_last()) + s.last()
    }
}

proof fn lemma_sum_joins(x: Seq<i64>, y: Seq<i64>)
    ensures
        sum_of(x + y) == sum_of(x) + sum_of(y),
    decreases y.len(),
{
    if y.len() == 0 {
        assert(x + y =~= x);
    } else {
        assert((x + y).drop_last() =~= x + y.drop_last());
        lemma_sum_joins(x, y.drop_last());
    }
}

/// The sum is what adding the items one after the other to zero comes to, negative ones and all;
/// and the sum of two runs of items is the sum of both together.
pub proof fn law_sum_adds_up(s: Seq<i64>, t: Seq<i64>)
    ensures
        sum_of(s) == s.fold_left(0int, |a: int, x: i64| a + x),
        sum_of(Seq::empty()) == 0,
        forall|x: i64| sum_of(#[trigger] s.push(x)) == sum_of(s) + x,
        sum_of(s + t) == sum_of(s) + sum_of(t),
    decreases s.len(),
{
    assert forall|x: i64| sum_of(#[trigger] s.push(x)) == sum_of(s) + x by {
        assert(s.push(x).drop_last() =~= s);
    }
    lemma_sum_joins(s, t);
    if s.len() > 0 {
        law_sum_adds_up(s.drop_last(), t);
    }
}

/// Whether a number fits.
pub open spec fn fits(v: int) -> bool {
    i64::MIN <= v <= i64::MAX
}

/// What function `i` was applied to, chunk by chunk.
spec fn column(mets: Seq<Seq<Seq<i64>>>, i: int) -> Seq<Seq<i64>> {
    Seq::new(mets.len(), |k: int| mets[k][i])
}

/// What each of `d` functions was applied to in all chunks, counted.
spec fn tally(mets: Seq<Seq<Seq<i64>>>, d: nat) -> Seq<Multiset<i64>> {
    Seq::new(d, |i: int| sched::held(column(mets, i)))
}

/// What each of `d` functions was applied to in all chunks, one chunk behind the other.
spec fn whole(mets: Seq<Seq<Seq<i64>>>, d: nat) -> Seq<Seq<i64>> {
    Seq::new(d, |i: int| joined(column(mets, i)))
}

/// The accounts of a chunk that did not run yet.
spec fn unmet(d: nat) -> Seq<Seq<i64>> {
    Seq::new(d, |i: int| Seq::<i64>::empty())
}

/// Before any chunk ran, nothing is counted.
proof fn lemma_unmet(mets: Seq<Seq<Seq<i64>>>, d: nat)
    requires
        forall|k: int| 0 <= k < mets.len() ==> #[trigger] mets[k] == unmet(d),
    ensures
        forall|i: int| 0 <= i < d ==> #[trigger] tally(mets, d)[i] == Multiset::<i64>::empty(),
{
    assert forall|i: int| 0 <= i < d implies #[trigger] tally(mets, d)[i]
        == Multiset::<i64>::empty() by {
        lemma_held_nothing(column(mets, i));
    }
}

/// When chunk `k` has run, its accounts are added.
proof fn lemma_tally(mets: Seq<Seq<Seq<i64>>>, k: int, met: Seq<Seq<i64>>, d: nat)
    requires
        0 <= k < mets.len(),
        mets[k] == unmet(d),
        met.len() == d,
    ensures
        tally(mets.update(k, met), d) == added(tally(mets, d), tallies(met)),
{
    let next = mets.update(k, met);
    assert forall|i: int| 0 <= i < d implies #[trigger] tally(next, d)[i] == added(
        tally(mets, d),
        tallies(met),
    )[i] by {
        let c = column(mets, i);
        lemma_held_more(c, k, met[i]);
        assert(c[k] + met[i] =~= met[i]);
        assert(column(next, i) =~= c.update(k, c[k] + met[i]));
    }
    assert(tally(next, d) =~= added(tally(mets, d), tallies(met)));
}

/// Counted, what was met chunk by chunk is what was met in all.
proof fn lemma_whole_tally(mets: Seq<Seq<Seq<i64>>>, d: nat)
    ensures
        tallies(whole(mets, d)) == tally(mets, d),
{
    assert forall|i: int| 0 <= i < d implies #[trigger] tallies(whole(mets, d))[i] == tally(
        mets,
        d,
    )[i] by {
        lemma_joined_multiset(column(mets, i));
    }
    assert(tallies(whole(mets, d)) =~= tally(mets, d));
}

/// One chunk more.
proof fn lemma_whole_next(mets: Seq<Seq<Seq<i64>>>, k: int, d: nat)
    requires
        0 < k <= mets.len(),
        mets[k - 1].len() == d,
    ensures
        whole(mets.take(k), d) == zipped(whole(mets.take(k - 1), d), mets[k - 1]),
{
    assert forall|i: int| 0 <= i < d implies #[trigger] whole(mets.take(k), d)[i] == zipped(
        whole(mets.take(k - 1), d),
        mets[k - 1],
    )[i] by {
        assert(column(mets.take(k), i).drop_last() =~= column(mets.take(k - 1), i));
    }
    assert(whole(mets.take(k), d) =~= zipped(whole(mets.take(k - 1), d), mets[k - 1]));
}

/// A lazy parallel iteration over `n` items.
pub struct ParIter<C> {
    pub n: usize,
    pub chunk_fn: C,
}

impl ParIter<SliceChunks> {
    /// An iteration over the items of a slice.
    pub fn from_slice(slice: &[i64]) -> (p: ParIter<SliceChunks>)
        ensures
            p.n == slice@.len(),
            p.chunk_fn.buf@ == slice@,
    {
        let mut buf: Vec<i64> = Vec::new();
        let mut i: usize = 0;
        while i < slice.len()
            invariant
                i <= slice@.len(),
                buf@ == slice@.take(i as int),
            decreases slice@.len() - i,
        {
            buf.push(slice[i]);
            i += 1;
            assert(buf@ =~= slice@.take(i as int));
        }
        assert(buf@ =~= slice@);
        ParIter { n: slice.len(), chunk_fn: SliceChunks { buf: Arc::new(buf) } }
    }
}

impl<C: ChunkFn> ParIter<C> {
    /// The same iteration with each item put through `f`. The function is not applied to anything
    /// yet.
    pub fn map<F: Apply<i64, i64>>(self, f: F) -> (p: ParIter<MapChunks<C, F>>)
        ensures
            p.n == self.n,
            p.chunk_fn == (MapChunks { prev: self.chunk_fn, f }),
            forall|start: int, end: int| #[trigger]
                p.chunk_fn.ready(start, end) == takes_all(self.chunk_fn, f, start, end),
            forall|start: int, end: int, met: Seq<Seq<i64>>, out: Seq<i64>| #[trigger]
                p.chunk_fn.gives_by(start, end, met, out) == map_gives_by(
                    self.chunk_fn,
                    f,
                    start,
                    end,
                    met,
                    out,
                ),
            forall|
                before: MapChunks<C, F>,
                after: MapChunks<C, F>,
                more: Seq<Multiset<i64>>,
            | #[trigger]
                <MapChunks<C, F> as ChunkFn>::recorded(before, after, more) == map_recorded(
                    before,
                    after,
                    more,
                ),
    {
        ParIter { n: self.n, chunk_fn: MapChunks { prev: self.chunk_fn, f } }
    }

    /// The same iteration without the items that do not pass the test. The test is not applied to
    /// anything yet.
    pub fn filter<F: Apply<i64, bool>>(self, pred: F) -> (p: ParIter<FilterChunks<C, F>>)
        ensures
            p.n == self.n,
            p.chunk_fn == (FilterChunks { prev: self.chunk_fn, pred }),
            forall|start: int, end: int| #[trigger]
                p.chunk_fn.ready(start, end) == takes_all(self.chunk_fn, pred, start, end),
            forall|start: int, end: int, met: Seq<Seq<i64>>, out: Seq<i64>| #[trigger]
                p.chunk_fn.gives_by(start, end, met, out) == filter_gives_by(
                    self.chunk_fn,
                    pred,
                    start,
                    end,
                    met,
                    out,
                ),
            forall|
                before: FilterChunks<C, F>,
                after: FilterChunks<C, F>,
                more: Seq<Multiset<i64>>,
            | #[trigger]
                <FilterChunks<C, F> as ChunkFn>::recorded(before, after, more) == filter_recorded(
                    before,
                    after,
                    more,
                ),
    {
        ParIter { n: self.n, chunk_fn: FilterChunks { prev: self.chunk_fn, pred } }
    }

    /// Whether every chunk can be asked for.
    pub open spec fn chunks_ready(self) -> bool {
        forall|k: int|
            #![trigger chunk_start(self.n as int, k)]
            0 <= k < chunk_count(self.n as int) ==> self.chunk_fn.ready(
                chunk_start(self.n as int, k),
                chunk_start(self.n as int, k + 1),
            )
    }

    /// Whether the items can be what chunk `k` gives.
    pub open spec fn chunk_gives(self, k: int, out: Seq<i64>) -> bool {
        may_give(
            self.chunk_fn,
            chunk_start(self.n as int, k),
            chunk_start(self.n as int, k + 1),
            out,
        )
    }

    /// Whether the items can be what the first `k` chunks give.
    pub open spec fn chunks_give(self, k: int, out: Seq<i64>) -> bool {
        may_give(self.chunk_fn, 0, chunk_start(self.n as int, k), out)
    }

    /// Whether chunk `k` gives `out` if the functions are applied to what is in `met`.
    spec fn chunk_gives_by(self, k: int, met: Seq<Seq<i64>>, out: Seq<i64>) -> bool {
        self.chunk_fn.gives_by(
            chunk_start(self.n as int, k),
            chunk_start(self.n as int, k + 1),
            met,
            out,
        )
    }

    /// Joins what the first `k` chunks give, and what the functions were applied to for it.
    proof fn lemma_parts(self, mets: Seq<Seq<Seq<i64>>>, parts: Seq<Seq<i64>>, k: int)
        requires
            self.n > 0,
            0 < k <= parts.len() == chunk_count(self.n as int),
            mets.len() == parts.len(),
            forall|j: int|
                0 <= j < parts.len() ==> self.chunk_gives_by(j, mets[j], #[trigger] parts[j]),
        ensures
            self.chunk_fn.gives_by(
                0,
                chunk_start(self.n as int, k),
                whole(mets.take(k), C::depth()),
                joined(parts.take(k)),
            ),
        decreases k,
    {
        let n = self.n as int;
        let d = C::depth();
        law_chunks_cover(n, k - 1);
        assert(parts.take(k).drop_last() =~= parts.take(k - 1));
        assert(self.chunk_gives_by(k - 1, mets[k - 1], parts[k - 1]));
        self.chunk_fn.lemma_depth(
            chunk_start(n, k - 1),
            chunk_start(n, k),
            mets[k - 1],
            parts[k - 1],
        );
        lemma_whole_next(mets, k, d);
        if k == 1 {
            assert(parts.take(0) =~= Seq::<Seq<i64>>::empty());
            reveal_with_fuel(joined, 2);
            assert(joined(parts.take(1)) =~= parts[0]);
            assert forall|i: int| 0 <= i < d implies #[trigger] whole(mets.take(1), d)[i]
                == mets[0][i] by {
                assert(column(mets.take(0), i) =~= Seq::<Seq<i64>>::empty());
                assert(joined(column(mets.take(0), i)) =~= Seq::<i64>::empty());
                assert(Seq::<i64>::empty() + mets[0][i] =~= mets[0][i]);
            }
            assert(whole(mets.take(1), d) =~= mets[0]);
        } else {
            self.lemma_parts(mets, parts, k - 1);
            self.chunk_fn.lemma_joins(
                0,
                chunk_start(n, k - 1),
                chunk_start(n, k),
                whole(mets.take(k - 1), d),
                joined(parts.take(k - 1)),
                mets[k - 1],
                parts[k - 1],
            );
        }
    }

    /// Runs chunk `k` of the iteration that began as `first`, when the chunks that ran before it
    /// have left the accounts `mets`. Gives the items, and what the functions were applied to for
    /// them.
    fn run_chunk(
        &mut self,
        k: usize,
        range: (usize, usize),
        Ghost(first): Ghost<ParIter<C>>,
        Ghost(mets): Ghost<Seq<Seq<Seq<i64>>>>,
    ) -> (r: (Vec<i64>, Ghost<Seq<Seq<i64>>>))
        requires
            old(self).n == first.n,
            first.n > 0,
            k < mets.len() == chunk_count(first.n as int),
            range.0 == chunk_start(first.n as int, k as int),
            range.1 == chunk_start(first.n as int, k + 1),
            first.chunks_ready(),
            mets[k as int] == unmet(C::depth()),
            C::recorded(first.chunk_fn, old(self).chunk_fn, tally(mets, C::depth())),
        ensures
            final(self).n == old(self).n,
            first.chunk_gives_by(k as int, r.1@, r.0@),
            C::recorded(
                first.chunk_fn,
                final(self).chunk_fn,
                tally(mets.update(k as int, r.1@), C::depth()),
            ),
    {
        let ghost n = first.n as int;
        proof {
            law_chunks_cover(n, k as int);
            C::lemma_stays(first.chunk_fn, self.chunk_fn, tally(mets, C::depth()));
            assert(first.chunk_fn.ready(chunk_start(n, k as int), chunk_start(n, k + 1)));
        }
        let ghost before = self.chunk_fn;
        let v = self.chunk_fn.chunk(range.0, range.1);
        let ghost met = choose|met: Seq<Seq<i64>>| #[trigger]
            before.gives_by(range.0 as int, range.1 as int, met, v@) && C::recorded(
                before,
                self.chunk_fn,
                tallies(met),
            );
        proof {
            first.chunk_fn.lemma_depth(range.0 as int, range.1 as int, met, v@);
            lemma_tally(mets, k as int, met, C::depth());
            C::lemma_more(
                first.chunk_fn,
                before,
                self.chunk_fn,
                tally(mets, C::depth()),
                tallies(met),
            );
        }
        (v, Ghost(met))
    }

    /// The sum of all items, added up within each chunk and then chunk by chunk. Each function on
    /// the way is applied once to each item that comes to it.
    pub fn sum<O: FnOnceOnce>(&mut self, pool: &mut StealingPool<Work<O>>) -> (total: i64)
        requires
            old(pool).wf(),
            old(pool).workers() > 0 || old(self).n == 0,
            old(pool)@.waiting() + chunk_count(old(self).n as int) <= usize::MAX,
            work::only_others(old(pool)@.tasks()),
            old(self).chunks_ready(),
            forall|k: int, v: Seq<i64>, j: int|
                #![trigger old(self).chunk_gives(k, v), v.take(j)]
                0 <= k < chunk_count(old(self).n as int) && old(self).chunk_gives(k, v) && 0 <= j
                    <= v.len() ==> fits(sum_of(v.take(j))),
            forall|k: int, v: Seq<i64>|
                0 <= k <= chunk_count(old(self).n as int) && #[trigger] old(self).chunks_give(k, v)
                    ==> fits(sum_of(v)),
        ensures
            final(pool).wf(),
            final(pool).workers() == old(pool).workers(),
            final(pool).is_shut_down() == old(pool).is_shut_down(),
            final(pool)@.waiting() <= old(pool)@.waiting(),
            work::only_others(final(pool)@.tasks()),
            work::others_ran(old(pool)@.tasks(), final(pool)@.tasks()),
            final(self).n == old(self).n,
            old(self).n == 0 ==> total == 0 && *final(self) == *old(self),
            old(self).n > 0 ==> exists|met: Seq<Seq<i64>>, v: Seq<i64>| #[trigger]
                old(self).chunk_fn.gives_by(0, old(self).n as int, met, v) && total == sum_of(v)
                    && total == v.fold_left(0int, |a: int, x: i64| a + x) && C::recorded(
                    old(self).chunk_fn,
                    final(self).chunk_fn,
                    tallies(met),
                ),
    {
        let n: usize = self.n;
        if n == 0 {
            return 0;
        }
        let ghost first = *self;
        let ghost d = C::depth();
        let ranges = chunk_ranges(n);
        let m: usize = ranges.len();
        let mut slots: Vec<i64> = Vec::new();
        let mut i: usize = 0;
        while i < m
            invariant
                i <= m,
                slots@.len() == i,
            decreases m - i,
        {
            slots.push(0);
            i += 1;
        }
        let spawned = spawn_chunks(pool, m);
        let ghost mut mine: Multiset<Work<O>> = spawned@;
        let ghost mut done: Seq<bool> = Seq::new(m as nat, |k: int| false);
        let ghost mut parts: Seq<Seq<i64>> = Seq::new(m as nat, |k: int| Seq::<i64>::empty());
        let ghost mut mets: Seq<Seq<Seq<i64>>> = Seq::new(m as nat, |k: int| unmet(d));
        proof {
            lemma_unmet(mets, d);
            self.chunk_fn.lemma_nothing(tally(mets, d));
        }
        let mut left: usize = m;
        while left > 0
            invariant
                pool.wf(),
                pool.workers() == old(pool).workers(),
                pool.workers() > 0,
                pool.is_shut_down() == old(pool).is_shut_down(),
                mine.len() == left,
                pool@.waiting() <= old(pool)@.waiting() + left,
                to_do(mine, done),
                work::owns(pool@.tasks(), mine),
                work::others_ran(old(pool)@.tasks(), pool@.tasks()),
                first == *old(self),
                n == first.n,
                self.n == first.n,
                n > 0,
                d == C::depth(),
                m == chunk_count(n as int),
                ranges@.len() == m,
                forall|k: int|
                    0 <= k < ranges@.len() ==> (#[trigger] ranges@[k]).0 == chunk_start(n as int, k)
                        && ranges@[k].1 == chunk_start(n as int, k + 1),
                first.chunks_ready(),
                forall|k: int, v: Seq<i64>, j: int|
                    #![trigger first.chunk_gives(k, v), v.take(j)]
                    0 <= k < chunk_count(first.n as int) && first.chunk_gives(k, v) && 0 <= j
                        <= v.len() ==> fits(sum_of(v.take(j))),
                slots@.len() == m,
                done.len() == m,
                parts.len() == m,
                mets.len() == m,
                forall|k: int| 0 <= k < m && !done[k] ==> #[trigger] mets[k] == unmet(d),
                forall|k: int|
                    0 <= k < m && done[k] ==> first.chunk_gives_by(k, mets[k], #[trigger] parts[k]),
                forall|k: int|
                    0 <= k < m && done[k] ==> #[trigger] slots@[k] == sum_of(parts[k]),
                C::recorded(first.chunk_fn, self.chunk_fn, tally(mets, d)),
            decreases left,
        {
            let k: usize = next_chunk(pool, Ghost(mine), Ghost(done));
            proof {
                mine = mine.remove(Work::Chunk(k));
            }
            let (v, met) = self.run_chunk(k, ranges[k], Ghost(first), Ghost(mets));
            assert(first.chunk_gives(k as int, v@));
            let mut part: i64 = 0;
            let mut i: usize = 0;
            assert(v@.take(0) =~= Seq::<i64>::empty());
            while i < v.len()
                invariant
                    i <= v@.len(),
                    part == sum_of(v@.take(i as int)),
                    0 <= k < chunk_count(first.n as int),
                    first.chunk_gives(k as int, v@),
                    forall|k: int, v: Seq<i64>, j: int|
                        #![trigger first.chunk_gives(k, v), v.take(j)]
                        0 <= k < chunk_count(first.n as int) && first.chunk_gives(k, v) && 0 <= j
                            <= v.len() ==> fits(sum_of(v.take(j))),
                decreases v@.len() - i,
            {
                assert(v@.take(i + 1).drop_last() =~= v@.take(i as int));
                assert(fits(sum_of(v@.take(i + 1))));
                part = part + v[i];
                i += 1;
            }
            assert(v@.take(v@.len() as int) =~= v@);
            slots.set(k, part);
            proof {
                done = done.update(k as int, true);
                parts = parts.update(k as int, v@);
                mets = mets.update(k as int, met@);
            }
            left -= 1;
        }
        proof {
            assert(mine =~= Multiset::empty());
            work::lemma_owns_nothing(pool@.tasks());
            assert forall|k: int| 0 <= k < m implies first.chunk_gives_by(
                k,
                mets[k],
                #[trigger] parts[k],
            ) && slots@[k] == sum_of(parts[k]) by {
                lemma_all_done(mine, done, k);
                assert(done[k]);
                assert(slots@[k] == sum_of(parts[k]));
            }
            lemma_count_positive(n as int);
        }
        let mut total: i64 = 0;
        let mut k: usize = 0;
        assert(parts.take(0) =~= Seq::<Seq<i64>>::empty());
        while k < m
            invariant
                k <= m,
                first == *old(self),
                n == first.n,
                n > 0,
                m == chunk_count(n as int),
                m == slots@.len(),
                m == parts.len(),
                m == mets.len(),
                forall|k: int|
                    0 <= k < m ==> first.chunk_gives_by(k, mets[k], #[trigger] parts[k])
                        && slots@[k] == sum_of(parts[k]),
                forall|k: int, v: Seq<i64>|
                    0 <= k <= chunk_count(first.n as int) && #[trigger] first.chunks_give(k, v)
                        ==> fits(sum_of(v)),
                total == sum_of(joined(parts.take(k as int))),
            decreases m - k,
        {
            proof {
                assert(parts.take(k + 1).drop_last() =~= parts.take(k as int));
                assert(parts.take(k + 1).last() == parts[k as int]);
                lemma_sum_joins(joined(parts.take(k as int)), parts[k as int]);
                first.lemma_parts(mets, parts, k + 1);
                assert(first.chunks_give(k + 1, joined(parts.take(k + 1))));
            }
            total = total + slots[k];
            k += 1;
        }
        proof {
            first.lemma_parts(mets, parts, m as int);
            assert(parts.take(m as int) =~= parts);
            assert(mets.take(m as int) =~= mets);
            law_chunks_cover(n as int, 0);
            lemma_whole_tally(mets, d);
            law_sum_adds_up(joined(parts), Seq::empty());
            assert(first.chunk_fn.gives_by(0, n as int, whole(mets, d), joined(parts)));
        }
        total
    }

    /// Applies `f` to each item, once. Items of one chunk come in their order. Each function on the
    /// way is applied once to each item that comes to it.
    pub fn for_each<A: Apply<i64, ()>, O: FnOnceOnce>(
        &mut self,
        pool: &mut StealingPool<Work<O>>,
        f: &mut A,
    )
        requires
            old(pool).wf(),
            old(pool).workers() > 0 || old(self).n == 0,
            old(pool)@.waiting() + chunk_count(old(self).n as int) <= usize::MAX,
            work::only_others(old(pool)@.tasks()),
            old(self).chunks_ready(),
            forall|k: int, v: Seq<i64>, i: int|
                #![trigger old(self).chunk_gives(k, v), v[i]]
                0 <= k < chunk_count(old(self).n as int) && old(self).chunk_gives(k, v) && 0 <= i
                    < v.len() ==> old(f).takes(v[i]),
        ensures
            final(pool).wf(),
            final(pool).workers() == old(pool).workers(),
            final(pool).is_shut_down() == old(pool).is_shut_down(),
            final(pool)@.waiting() <= old(pool)@.waiting(),
            work::only_others(final(pool)@.tasks()),
            work::others_ran(old(pool)@.tasks(), final(pool)@.tasks()),
            final(self).n == old(self).n,
            old(self).n == 0 ==> final(f).seen() == old(f).seen() && *final(self) == *old(self),
            old(self).n > 0 ==> exists|met: Seq<Seq<i64>>, v: Seq<i64>| #[trigger]
                old(self).chunk_fn.gives_by(0, old(self).n as int, met, v) && final(f).seen()
                    == old(f).seen().add(v.to_multiset()) && C::recorded(
                    old(self).chunk_fn,
                    final(self).chunk_fn,
                    tallies(met),
                ),
            forall|x: i64| #[trigger] final(f).takes(x) == old(f).takes(x),
            forall|x: i64, y: ()| #[trigger] final(f).gives(x, y) == old(f).gives(x, y),
    {
        let n: usize = self.n;
        if n == 0 {
            return ;
        }
        let ghost first = *self;
        let ghost d = C::depth();
        let ranges = chunk_ranges(n);
        let m: usize = ranges.len();
        let spawned = spawn_chunks(pool, m);
        let ghost mut mine: Multiset<Work<O>> = spawned@;
        let ghost mut done: Seq<bool> = Seq::new(m as nat, |k: int| false);
        let ghost mut parts: Seq<Seq<i64>> = Seq::new(m as nat, |k: int| Seq::<i64>::empty());
        let ghost mut mets: Seq<Seq<Seq<i64>>> = Seq::new(m as nat, |k: int| unmet(d));
        proof {
            lemma_held_nothing(parts);
            assert(f.seen().add(sched::held(parts)) =~= f.seen());
            lemma_unmet(mets, d);
            self.chunk_fn.lemma_nothing(tally(mets, d));
        }
        let mut left: usize = m;
        while left > 0
            invariant
                pool.wf(),
                pool.workers() == old(pool).workers(),
                pool.workers() > 0,
                pool.is_shut_down() == old(pool).is_shut_down(),
                mine.len() == left,
                pool@.waiting() <= old(pool)@.waiting() + left,
                to_do(mine, done),
                work::owns(pool@.tasks(), mine),
                work::others_ran(old(pool)@.tasks(), pool@.tasks()),
                first == *old(self),
                n == first.n,
                self.n == first.n,
                n > 0,
                d == C::depth(),
                m == chunk_count(n as int),
                ranges@.len() == m,
                forall|k: int|
                    0 <= k < ranges@.len() ==> (#[trigger] ranges@[k]).0 == chunk_start(n as int, k)
                        && ranges@[k].1 == chunk_start(n as int, k + 1),
                first.chunks_ready(),
                forall|k: int, v: Seq<i64>, i: int|
                    #![trigger first.chunk_gives(k, v), v[i]]
                    0 <= k < chunk_count(first.n as int) && first.chunk_gives(k, v) && 0 <= i
                        < v.len() ==> old(f).takes(v[i]),
                forall|x: i64| #[trigger] f.takes(x) == old(f).takes(x),
                forall|x: i64, y: ()| #[trigger] f.gives(x, y) == old(f).gives(x, y),
                done.len() == m,
                parts.len() == m,
                mets.len() == m,
                forall|k: int| 0 <= k < m && !done[k] ==> #[trigger] mets[k] == unmet(d),
                forall|k: int|
                    0 <= k < m ==> if done[k] {
                        first.chunk_gives_by(k, mets[k], #[trigger] parts[k])
                    } else {
                        parts[k] == Seq::<i64>::empty()
                    },
                f.seen() == old(f).seen().add(sched::held(parts)),
                C::recorded(first.chunk_fn, self.chunk_fn, tally(mets, d)),
            decreases left,
        {
            let k: usize = next_chunk(pool, Ghost(mine), Ghost(done));
            proof {
                mine = mine.remove(Work::Chunk(k));
            }
            let (v, met) = self.run_chunk(k, ranges[k], Ghost(first), Ghost(mets));
            assert(first.chunk_gives(k as int, v@));
            let ghost before = parts;
            let mut i: usize = 0;
            assert(v@.take(0) =~= Seq::<i64>::empty());
            assert(parts =~= before.update(k as int, v@.take(0)));
            while i < v.len()
                invariant
                    i <= v@.len(),
                    0 <= k < chunk_count(first.n as int),
                    k < before.len(),
                    first.chunk_gives(k as int, v@),
                    forall|k: int, v: Seq<i64>, i: int|
                        #![trigger first.chunk_gives(k, v), v[i]]
                        0 <= k < chunk_count(first.n as int) && first.chunk_gives(k, v) && 0 <= i
                            < v.len() ==> old(f).takes(v[i]),
                    forall|x: i64| #[trigger] f.takes(x) == old(f).takes(x),
                    forall|x: i64, y: ()| #[trigger] f.gives(x, y) == old(f).gives(x, y),
                    parts == before.update(k as int, v@.take(i as int)),
                    f.seen() == old(f).seen().add(sched::held(parts)),
                decreases v@.len() - i,
            {
                assert(old(f).takes(v@[i as int]));
                f.apply(&v[i]);
                proof {
                    let x = v@[i as int];
                    lemma_held_more(parts, k as int, seq![x]);
                    lemma_one(x);
                    assert(v@.take(i as int) + seq![x] =~= v@.take(i + 1));
                    let next = parts.update(k as int, v@.take(i + 1));
                    assert(next =~= before.update(k as int, v@.take(i + 1)));
                    assert(f.seen() =~= old(f).seen().add(sched::held(next)));
                    parts = next;
                }
                i += 1;
            }
            proof {
                assert(v@.take(v@.len() as int) =~= v@);
                done = done.update(k as int, true);
                mets = mets.update(k as int, met@);
            }
            left -= 1;
        }
        proof {
            assert(mine =~= Multiset::empty());
            work::lemma_owns_nothing(pool@.tasks());
            assert forall|k: int| 0 <= k < m implies first.chunk_gives_by(
                k,
                mets[k],
                #[trigger] parts[k],
            ) by {
                lemma_all_done(mine, done, k);
            }
            lemma_count_positive(n as int);
            law_chunks_cover(n as int, 0);
            first.lemma_parts(mets, parts, m as int);
            assert(parts.take(m as int) =~= parts);
            assert(mets.take(m as int) =~= mets);
            lemma_joined_multiset(parts);
            lemma_whole_tally(mets, d);
            assert(first.chunk_fn.gives_by(0, n as int, whole(mets, d), joined(parts)));
        }
    }
}

/// What a list of calls that each start from the result of the one before ends with, where every
/// call computes a function.
proof fn lemma_calls_fold<T, U>(items: Seq<T>, f: spec_fn(U, T) -> U, accs: Seq<U>, j: int)
    requires
        accs.len() == items.len() + 1,
        forall|i: int| 0 <= i < items.len() ==> accs[i + 1] == f(accs[i], #[trigger] items[i]),
        0 <= j <= items.len(),
    ensures
        accs[j] == items.take(j).fold_left(accs[0], f),
    decreases j,
{
    if j > 0 {
        lemma_calls_fold(items, f, accs, j - 1);
        assert(items.take(j).drop_last() =~= items.take(j - 1));
        assert(accs[j - 1 + 1] == f(accs[j - 1], items[j - 1]));
    }
}

/// Where the three closures compute functions, a reduction folds each chunk from the initial
/// value, and then merges the results, in the order of the chunks, into another initial value.
/// That holds of every way to merge.
pub proof fn law_reduce_merges_the_folds<
    T,
    U,
    I: Fn() -> U,
    S: Fn(U, &T) -> U,
    M: Fn(U, U) -> U,
>(
    init: I,
    step: S,
    merge: M,
    e: U,
    f: spec_fn(U, T) -> U,
    g: spec_fn(U, U) -> U,
    items: Seq<T>,
    parts: Seq<U>,
    u: U,
)
    requires
        forall|a: U| call_ensures(init, (), a) ==> a == e,
        forall|a: U, x: T, b: U| #[trigger] call_ensures(step, (a, &x), b) ==> b == f(a, x),
        forall|a: U, b: U, c: U| #[trigger] call_ensures(merge, (a, b), c) ==> c == g(a, b),
        are_parts(init, step, items, parts),
        merges(init, merge, parts, u),
    ensures
        parts.len() == chunk_count(items.len() as int),
        forall|k: int|
            0 <= k < parts.len() ==> #[trigger] parts[k] == items.subrange(
                chunk_start(items.len() as int, k),
                chunk_start(items.len() as int, k + 1),
            ).fold_left(e, f),
        u == parts.fold_left(e, g),
{
    assert forall|k: int| 0 <= k < parts.len() implies #[trigger] parts[k] == items.subrange(
        chunk_start(items.len() as int, k),
        chunk_start(items.len() as int, k + 1),
    ).fold_left(e, f) by {
        let c = chunk_of(items, k);
        assert(folds(init, step, c, parts[k]));
        let accs = choose|accs: Seq<U>| #[trigger]
            fold_steps(init, step, c, accs) && accs.last() == parts[k];
        assert forall|i: int| 0 <= i < c.len() implies accs[i + 1] == f(
            accs[i],
            #[trigger] c[i],
        ) by {
            assert(call_ensures(step, (accs[i], &c[i]), accs[i + 1]));
        }
        lemma_calls_fold(c, f, accs, c.len() as int);
        assert(c.take(c.len() as int) =~= c);
    }
    let accs = choose|accs: Seq<U>| #[trigger]
        merge_steps(init, merge, parts, accs) && accs.last() == u;
    assert forall|i: int| 0 <= i < parts.len() implies accs[i + 1] == g(
        accs[i],
        #[trigger] parts[i],
    ) by {
        assert(call_ensures(merge, (accs[i], parts[i]), accs[i + 1]));
    }
    lemma_calls_fold(parts, g, accs, parts.len() as int);
    assert(parts.take(parts.len() as int) =~= parts);
}

/// What a chunk needs: a slice needs its places to be there; a map or a filter needs what comes
/// before it to be ready, and its closure to take whatever that may give.
pub proof fn law_what_a_chunk_needs<C: ChunkFn, F: Apply<i64, i64>, G: Apply<i64, bool>>(
    s: SliceChunks,
    m: MapChunks<C, F>,
    p: FilterChunks<C, G>,
    start: int,
    end: int,
)
    ensures
        s.ready(start, end) <==> 0 <= start <= end <= s.buf@.len(),
        m.prev.ready(start, end) && (forall|x: i64| #[trigger] m.f.takes(x)) ==> m.ready(start, end),
        p.prev.ready(start, end) && (forall|x: i64| #[trigger] p.pred.takes(x)) ==> p.ready(
            start,
            end,
        ),
{
}

} // verus!
