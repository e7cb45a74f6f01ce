//! Sorting on the work-stealing pool.
//!
//! A range that is long is divided by a pivot into what is less, the same and greater; the two
//! outer parts become tasks. A short range is sorted at once. Whatever the order in which the
//! pool runs the tasks, the slice ends up sorted.

use std::cmp::Ordering;
use vstd::multiset::Multiset;
use vstd::prelude::*;
use vstd::std_specs::cmp::OrdSpec;

use crate::counting;
use crate::pool::order;
use crate::pool::order::Sign;
use crate::pool::par::PAR_SORT_CUTOFF;
use crate::pool::task::FnOnceOnce;
use crate::pool::v3_stealing::StealingPool;
use crate::pool::work;
use crate::pool::work::Work;

verus! {

/// Whether the items stand in ascending order.
pub open spec fn is_sorted<T: Ord>(s: Seq<T>) -> bool {
    forall|i: int, j: int| 0 <= i < j < s.len() ==> order::le(#[trigger] s[i], #[trigger] s[j])
}

/// Whether a clone compares as the same.
pub open spec fn clones_same<T: Ord + Clone>() -> bool {
    forall|a: T, b: T| #[trigger] cloned(a, b) ==> order::sign(a, b) is Same
}

/// Whether `t` is `s` with the items from `lo` to `hi` in another order.
pub open spec fn rearranged<T>(s: Seq<T>, t: Seq<T>, lo: int, hi: int) -> bool {
    &&& s.len() == t.len()
    &&& 0 <= lo <= hi <= s.len()
    &&& forall|i: int| 0 <= i < lo || hi <= i < s.len() ==> s[i] == #[trigger] t[i]
    &&& s.subrange(lo, hi).to_multiset() == t.subrange(lo, hi).to_multiset()
}

proof fn lemma_rearranged_trans<T>(s: Seq<T>, t: Seq<T>, u: Seq<T>, lo: int, hi: int)
    requires
        rearranged(s, t, lo, hi),
        rearranged(t, u, lo, hi),
    ensures
        rearranged(s, u, lo, hi),
{
    assert forall|i: int| 0 <= i < lo || hi <= i < s.len() implies s[i] == #[trigger] u[i] by {
        assert(s[i] == t[i]);
    }
}

/// Exchanging two items of a range rearranges it.
proof fn lemma_swap<T>(s: Seq<T>, lo: int, hi: int, i: int, j: int)
    requires
        0 <= lo <= i < hi <= s.len(),
        lo <= j < hi,
    ensures
        rearranged(s, s.update(i, s[j]).update(j, s[i]), lo, hi),
{
    broadcast use vstd::seq_lib::group_to_multiset_ensures;

    let t = s.update(i, s[j]).update(j, s[i]);
    let a = s.subrange(lo, hi);
    let b = t.subrange(lo, hi);
    let x = i - lo;
    let y = j - lo;
    assert(b =~= a.update(x, a[y]).update(y, a[x]));
    let c = a.update(x, a[y]);
    vstd::seq_lib::to_multiset_update(a, x, a[y]);
    vstd::seq_lib::to_multiset_update(c, y, a[x]);
    if x == y {
        assert(b =~= a);
    } else {
        assert(c[y] == a[y]);
        assert(a.contains(a[x]));
        assert(a.contains(a[y]));
        assert(b.to_multiset() =~= a.to_multiset());
    }
}

/// An item of a rearranged range was in the range before.
proof fn lemma_came_from<T>(s: Seq<T>, t: Seq<T>, lo: int, hi: int, i: int) -> (j: int)
    requires
        rearranged(s, t, lo, hi),
        lo <= i < hi,
    ensures
        lo <= j < hi,
        s[j] == t[i],
{
    broadcast use vstd::seq_lib::group_to_multiset_ensures;

    let a = s.subrange(lo, hi);
    let b = t.subrange(lo, hi);
    assert(b[i - lo] == t[i]);
    assert(b.contains(t[i]));
    assert(a.to_multiset().count(t[i]) > 0);
    assert(a.contains(t[i]));
    let k = choose|k: int| 0 <= k < a.len() && a[k] == t[i];
    k + lo
}

/// Rearranging a range rearranges the whole.
proof fn lemma_whole<T>(s: Seq<T>, t: Seq<T>, lo: int, hi: int)
    requires
        rearranged(s, t, lo, hi),
    ensures
        s.to_multiset() == t.to_multiset(),
{
    let n = s.len() as int;
    assert(s =~= s.subrange(0, lo) + s.subrange(lo, hi) + s.subrange(hi, n));
    assert(t =~= t.subrange(0, lo) + t.subrange(lo, hi) + t.subrange(hi, n));
    assert(s.subrange(0, lo) =~= t.subrange(0, lo));
    assert(s.subrange(hi, n) =~= t.subrange(hi, n));
    vstd::seq_lib::lemma_multiset_commutative(s.subrange(0, lo), s.subrange(lo, hi));
    vstd::seq_lib::lemma_multiset_commutative(
        s.subrange(0, lo) + s.subrange(lo, hi),
        s.subrange(hi, n),
    );
    vstd::seq_lib::lemma_multiset_commutative(t.subrange(0, lo), t.subrange(lo, hi));
    vstd::seq_lib::lemma_multiset_commutative(
        t.subrange(0, lo) + t.subrange(lo, hi),
        t.subrange(hi, n),
    );
}

/// Exchanges the items at two places of a slice.
fn swap_items<T>(s: &mut [T], i: usize, j: usize)
    requires
        i < old(s)@.len(),
        j < old(s)@.len(),
    ensures
        final(s)@ == old(s)@.update(i as int, old(s)@[j as int]).update(
            j as int,
            old(s)@[i as int],
        ),
{
    if i == j {
        return;
    }
    let (lo, hi) = if i < j {
        (i, j)
    } else {
        (j, i)
    };
    let ghost before = s@;
    let (left, right) = s.split_at_mut(hi);
    core::mem::swap(&mut left[lo], &mut right[0]);
    proof {
        let x = before[lo as int];
        let y = before[hi as int];
        let lefts = before.subrange(0, hi as int).update(lo as int, y);
        let rights = before.subrange(hi as int, before.len() as int).update(0, x);
        assert(lefts + rights =~= before.update(i as int, before[j as int]).update(
            j as int,
            before[i as int],
        ));
    }
}

/// The items that compare as the same as `p`.
pub open spec fn same_as<T: Ord>(s: Seq<T>, p: T) -> Seq<T> {
    s.filter(|x: T| order::sign(x, p) is Same)
}

/// `<[T]>::sort`: puts the items of a slice in ascending order. Items that compare as the same
/// keep their order among themselves.
#[verifier::external_body]
fn sort_items<T: Ord>(s: &mut [T])
    requires
        order::well_ordered::<T>(),
    ensures
        is_sorted(final(s)@),
        final(s)@.to_multiset() == old(s)@.to_multiset(),
        forall|p: T| #[trigger] same_as(final(s)@, p) == same_as(old(s)@, p),
{
    s.sort();
}

/// Sorts the items from `lo` to `hi` and leaves the rest of the slice alone.
fn sort_range<T: Ord>(s: &mut [T], lo: usize, hi: usize)
    requires
        lo <= hi <= old(s)@.len(),
        order::well_ordered::<T>(),
    ensures
        rearranged(old(s)@, final(s)@, lo as int, hi as int),
        is_sorted(final(s)@.subrange(lo as int, hi as int)),
        forall|p: T| #[trigger]
            same_as(final(s)@.subrange(lo as int, hi as int), p) == same_as(
                old(s)@.subrange(lo as int, hi as int),
                p,
            ),
{
    broadcast use vstd::seq_lib::group_to_multiset_ensures;

    let ghost before = s@;
    let (front, _) = s.split_at_mut(hi);
    let ghost head = front@;
    let (_, middle) = front.split_at_mut(lo);
    let ghost mid = middle@;
    sort_items(middle);
    proof {
        assert(mid.to_multiset().len() == middle@.to_multiset().len());
        assert(mid =~= before.subrange(lo as int, hi as int));
        assert(s@.subrange(lo as int, hi as int) =~= middle@);
    }
}

/// Whether `m` is the middle one of three values.
pub open spec fn is_median<T: Ord>(m: T, a: T, b: T, c: T) -> bool {
    &&& m == a || m == b || m == c
    &&& order::le(a, m) || order::le(b, m)
    &&& order::le(a, m) || order::le(c, m)
    &&& order::le(b, m) || order::le(c, m)
    &&& order::le(m, a) || order::le(m, b)
    &&& order::le(m, a) || order::le(m, c)
    &&& order::le(m, b) || order::le(m, c)
}

/// The middle one of three values.
fn median<'a, T: Ord>(a: &'a T, b: &'a T, c: &'a T) -> (m: &'a T)
    requires
        order::well_ordered::<T>(),
    ensures
        is_median(*m, *a, *b, *c),
{
    proof {
        order::lemma_order(*a, *b, *c);
        order::lemma_order(*b, *a, *c);
        order::lemma_order(*a, *c, *b);
        order::lemma_order(*c, *a, *b);
        order::lemma_order(*b, *c, *a);
        order::lemma_order(*c, *b, *a);
    }
    let (lo, hi) = match order::compare(a, b) {
        Sign::Greater => (b, a),
        _ => (a, b),
    };
    match order::compare(hi, c) {
        Sign::Greater => match order::compare(lo, c) {
            Sign::Greater => lo,
            _ => c,
        },
        _ => hi,
    }
}

/// Whether the items from `lo` to `hi` are divided by `p`: less up to `lt`, the same up to `gt`,
/// then greater.
pub open spec fn divided<T: Ord>(s: Seq<T>, lo: int, lt: int, gt: int, hi: int, p: T) -> bool {
    &&& lo <= lt <= gt <= hi
    &&& forall|i: int| lo <= i < lt ==> order::sign(#[trigger] s[i], p) is Less
    &&& forall|i: int| lt <= i < gt ==> order::sign(#[trigger] s[i], p) is Same
    &&& forall|i: int| gt <= i < hi ==> order::sign(#[trigger] s[i], p) is Greater
}

/// Whether the items from `lo` to `hi` are divided by what was the middle one of the first, the
/// middle and the last of them.
pub open spec fn median_divides<T: Ord>(
    before: Seq<T>,
    after: Seq<T>,
    lo: int,
    lt: int,
    gt: int,
    hi: int,
) -> bool {
    exists|p: T| #[trigger]
        divided(after, lo, lt, gt, hi, p) && is_median(
            p,
            before[lo],
            before[lo + (hi - lo) / 2],
            before[hi - 1],
        )
}

/// Divides the items from `lo` to `hi` by the middle one of the first, the middle and the last
/// of them. At least that one is the same as the pivot.
pub fn partition_three_way<T: Ord + Clone>(s: &mut [T], lo: usize, hi: usize) -> (r: (usize, usize))
    requires
        lo + 3 <= hi <= old(s)@.len(),
        order::well_ordered::<T>(),
        clones_same::<T>(),
    ensures
        rearranged(old(s)@, final(s)@, lo as int, hi as int),
        r.0 < r.1,
        median_divides(old(s)@, final(s)@, lo as int, r.0 as int, r.1 as int, hi as int),
{
    let mid: usize = lo + (hi - lo) / 2;
    let m = median(&s[lo], &s[mid], &s[hi - 1]);
    let ghost chosen = *m;
    let pivot = m.clone();
    assert(cloned(chosen, pivot));
    let ghost at: int = if chosen == s@[lo as int] {
        lo as int
    } else if chosen == s@[mid as int] {
        mid as int
    } else {
        hi - 1
    };
    proof {
        assert(s@.update(lo as int, s@[lo as int]).update(lo as int, s@[lo as int]) =~= s@);
        lemma_swap(s@, lo as int, hi as int, lo as int, lo as int);
    }
    let mut lt: usize = lo;
    let mut gt: usize = hi;
    let mut i: usize = lo;
    while i < gt
        invariant
            lo <= lt <= i <= gt <= hi <= s@.len(),
            order::well_ordered::<T>(),
            rearranged(old(s)@, s@, lo as int, hi as int),
            forall|k: int| lo <= k < lt ==> order::sign(#[trigger] s@[k], pivot) is Less,
            forall|k: int| lt <= k < i ==> order::sign(#[trigger] s@[k], pivot) is Same,
            forall|k: int| gt <= k < hi ==> order::sign(#[trigger] s@[k], pivot) is Greater,
        decreases gt - i,
    {
        let ghost before = s@;
        match order::compare(&s[i], &pivot) {
            Sign::Less => {
                proof {
                    lemma_swap(before, lo as int, hi as int, lt as int, i as int);
                    lemma_rearranged_trans(
                        old(s)@,
                        before,
                        before.update(lt as int, before[i as int]).update(
                            i as int,
                            before[lt as int],
                        ),
                        lo as int,
                        hi as int,
                    );
                }
                swap_items(s, lt, i);
                lt += 1;
                i += 1;
            },
            Sign::Same => {
                i += 1;
            },
            Sign::Greater => {
                gt -= 1;
                proof {
                    lemma_swap(before, lo as int, hi as int, i as int, gt as int);
                    lemma_rearranged_trans(
                        old(s)@,
                        before,
                        before.update(i as int, before[gt as int]).update(
                            gt as int,
                            before[i as int],
                        ),
                        lo as int,
                        hi as int,
                    );
                }
                swap_items(s, i, gt);
            },
        }
    }
    proof {
        assert forall|k: int| lo <= k < hi implies order::sign(#[trigger] s@[k], chosen)
            == order::sign(s@[k], pivot) by {
            order::lemma_order(s@[k], chosen, pivot);
            order::lemma_order(s@[k], pivot, chosen);
            order::lemma_order(chosen, s@[k], pivot);
            order::lemma_order(pivot, s@[k], chosen);
            order::lemma_order(chosen, pivot, s@[k]);
            order::lemma_order(pivot, chosen, s@[k]);
        }
        assert(divided(s@, lo as int, lt as int, gt as int, hi as int, chosen));
        assert(median_divides(old(s)@, s@, lo as int, lt as int, gt as int, hi as int));
        // The chosen item is somewhere in the range, and compares as the same.
        lemma_rearranged_back(old(s)@, s@, lo as int, hi as int);
        let j = lemma_came_from(s@, old(s)@, lo as int, hi as int, at);
        assert(order::sign(s@[j], pivot) is Same);
        assert(lt <= j < gt);
    }
    (lt, gt)
}

proof fn lemma_rearranged_back<T>(s: Seq<T>, t: Seq<T>, lo: int, hi: int)
    requires
        rearranged(s, t, lo, hi),
    ensures
        rearranged(t, s, lo, hi),
{
}

/// To which waiting range each place of the slice belongs.
spec fn pieces_ok(pieces: Seq<Option<(usize, usize)>>, tasks: Multiset<(usize, usize)>) -> bool {
    &&& forall|i: int|
        0 <= i < pieces.len() ==> (#[trigger] pieces[i] matches Some(r) ==> {
            &&& r.0 <= i < r.1 <= pieces.len()
            &&& forall|j: int| r.0 <= j < r.1 ==> #[trigger] pieces[j] == Some(r)
        })
    &&& forall|r: (usize, usize)| #[trigger]
        tasks.count(r) > 0 ==> r.0 <= r.1 <= pieces.len()
    &&& forall|r: (usize, usize)|
        r.0 < r.1 ==> #[trigger] tasks.count(r) == (if r.0 < pieces.len() && pieces[r.0 as int]
            == Some(r) {
            1nat
        } else {
            0nat
        })
}

/// Whether two places belong to the same waiting range.
spec fn together(pieces: Seq<Option<(usize, usize)>>, i: int, j: int) -> bool {
    pieces[i] is Some && pieces[i] == pieces[j]
}

/// Whether the items are in order, but for those that belong to the same waiting range.
spec fn almost_sorted<T: Ord>(s: Seq<T>, pieces: Seq<Option<(usize, usize)>>) -> bool {
    forall|i: int, j: int|
        0 <= i < j < s.len() && !together(pieces, i, j) ==> order::le(
            #[trigger] s[i],
            #[trigger] s[j],
        )
}

/// The pieces after the range from `lo` to `hi` was replaced by those up to `lt` and from `gt`.
spec fn cut(
    pieces: Seq<Option<(usize, usize)>>,
    lo: usize,
    lt: usize,
    gt: usize,
    hi: usize,
) -> Seq<Option<(usize, usize)>> {
    Seq::new(
        pieces.len(),
        |i: int|
            if lo <= i < lt {
                Some((lo, lt))
            } else if lt <= i < gt {
                None
            } else if gt <= i < hi {
                Some((gt, hi))
            } else {
                pieces[i]
            },
    )
}

/// What cutting a waiting range does to the tasks.
proof fn lemma_cut(
    pieces: Seq<Option<(usize, usize)>>,
    tasks: Multiset<(usize, usize)>,
    lo: usize,
    lt: usize,
    gt: usize,
    hi: usize,
)
    requires
        pieces_ok(pieces, tasks),
        tasks.contains((lo, hi)),
        lo <= lt < gt <= hi || (lo == lt && gt == hi && lo <= hi),
    ensures
        lo < hi ==> forall|i: int| lo <= i < hi ==> #[trigger] pieces[i] == Some((lo, hi)),
        lo == lt && gt == hi ==> pieces_ok(cut(pieces, lo, lt, gt, hi), tasks.remove((lo, hi))),
        lt < gt ==> pieces_ok(
            cut(pieces, lo, lt, gt, hi),
            tasks.remove((lo, hi)).insert((lo, lt)).insert((gt, hi)),
        ),
{
    let r = (lo, hi);
    assert(tasks.count(r) > 0);
    let p2 = cut(pieces, lo, lt, gt, hi);
    if lo < hi {
        assert(pieces[lo as int] == Some(r));
    }
    assert forall|i: int| 0 <= i < p2.len() implies (#[trigger] p2[i] matches Some(x) ==> {
        &&& x.0 <= i < x.1 <= p2.len()
        &&& forall|j: int| x.0 <= j < x.1 ==> #[trigger] p2[j] == Some(x)
    }) by {
        if let Some(x) = p2[i] {
            if !(lo <= i < hi) {
                assert(pieces[i] == Some(x));
                assert forall|j: int| x.0 <= j < x.1 implies #[trigger] p2[j] == Some(x) by {
                    assert(pieces[j] == Some(x));
                    if lo <= j < hi {
                        assert(pieces[j] == Some(r));
                    }
                }
            }
        }
    }
    let t1 = tasks.remove(r);
    let t2 = t1.insert((lo, lt)).insert((gt, hi));
    assert forall|x: (usize, usize)| x.0 < x.1 && lo == lt && gt == hi implies #[trigger] t1.count(x)
        == (if x.0 < p2.len() && p2[x.0 as int] == Some(x) {
        1nat
    } else {
        0nat
    }) by {
        assert(tasks.count(x) == (if x.0 < pieces.len() && pieces[x.0 as int] == Some(x) {
            1nat
        } else {
            0nat
        }));
    }
    assert forall|x: (usize, usize)| x.0 < x.1 && lt < gt implies #[trigger] t2.count(x) == (if x.0
        < p2.len() && p2[x.0 as int] == Some(x) {
        1nat
    } else {
        0nat
    }) by {
        assert(tasks.count(x) == (if x.0 < pieces.len() && pieces[x.0 as int] == Some(x) {
            1nat
        } else {
            0nat
        }));
        assert(t1.count(x) == (if x == r {
            (tasks.count(x) - 1) as nat
        } else {
            tasks.count(x)
        }));
    }
    assert forall|x: (usize, usize)| #[trigger] t1.count(x) > 0 implies x.0 <= x.1 <= p2.len() by {
        assert(tasks.count(x) > 0);
    }
    assert forall|x: (usize, usize)| #[trigger] t2.count(x) > 0 && lt < gt implies x.0 <= x.1
        <= p2.len() by {
        if x != (lo, lt) && x != (gt, hi) {
            assert(tasks.count(x) > 0);
        }
    }
}

/// Rearranging a waiting range keeps the order towards the rest.
proof fn lemma_still_almost<T: Ord>(
    s: Seq<T>,
    t: Seq<T>,
    pieces: Seq<Option<(usize, usize)>>,
    lo: usize,
    hi: usize,
)
    requires
        almost_sorted(s, pieces),
        pieces.len() == s.len(),
        rearranged(s, t, lo as int, hi as int),
        forall|i: int| lo <= i < hi ==> #[trigger] pieces[i] == Some((lo, hi)),
        forall|i: int|
            0 <= i < pieces.len() ==> (#[trigger] pieces[i] matches Some(r) ==> r.0 <= i < r.1),
    ensures
        almost_sorted(t, pieces),
{
    assert forall|i: int, j: int| 0 <= i < j < t.len() && !together(pieces, i, j) implies order::le(
        #[trigger] t[i],
        #[trigger] t[j],
    ) by {
        let a = if lo <= i < hi {
            lemma_came_from(s, t, lo as int, hi as int, i)
        } else {
            i
        };
        let b = if lo <= j < hi {
            lemma_came_from(s, t, lo as int, hi as int, j)
        } else {
            j
        };
        assert(s[a] == t[i] && s[b] == t[j]);
        assert(pieces[a] == pieces[i] && pieces[b] == pieces[j]);
        assert(a < b);
        assert(!together(pieces, a, b));
    }
}

/// Fewer places wait after a cut; fewer still if the cut settles one.
proof fn lemma_fewer(
    pieces: Seq<Option<(usize, usize)>>,
    lo: usize,
    lt: usize,
    gt: usize,
    hi: usize,
)
    requires
        lo <= lt <= gt <= hi <= pieces.len(),
        forall|i: int| lo <= i < hi ==> #[trigger] pieces[i] == Some((lo, hi)),
    ensures
        counting::count(
            cut(pieces, lo, lt, gt, hi),
            |p: Option<(usize, usize)>| p is Some,
        ) + (if lt < gt {
            1int
        } else {
            0
        }) <= counting::count(pieces, |p: Option<(usize, usize)>| p is Some),
{
    let w = |p: Option<(usize, usize)>| p is Some;
    let p2 = cut(pieces, lo, lt, gt, hi);
    if lt < gt {
        let mid = p2.update(lt as int, pieces[lt as int]);
        counting::lemma_count_update(p2, lt as int, pieces[lt as int], w);
        assert(pieces[lt as int] is Some);
        counting::lemma_count_le(mid, pieces, w);
    } else {
        counting::lemma_count_le(p2, pieces, w);
    }
}

/// Whether the pieces of work are the ranges.
spec fn are_ranges<O>(mine: Multiset<Work<O>>, ranges: Multiset<(usize, usize)>) -> bool {
    &&& forall|lo: usize, hi: usize| #[trigger]
        mine.count(Work::Range(lo, hi)) == ranges.count((lo, hi))
    &&& forall|t: Work<O>| #[trigger] mine.count(t) > 0 ==> t is Range
}

/// Another range is another piece.
proof fn lemma_more_ranges<O>(
    mine: Multiset<Work<O>>,
    ranges: Multiset<(usize, usize)>,
    lo: usize,
    hi: usize,
)
    requires
        are_ranges(mine, ranges),
    ensures
        are_ranges(mine.insert(Work::Range(lo, hi)), ranges.insert((lo, hi))),
        are_ranges(mine.remove(Work::Range(lo, hi)), ranges.remove((lo, hi))),
{
    let r = Work::<O>::Range(lo, hi);
    assert forall|a: usize, b: usize| #[trigger]
        mine.insert(r).count(Work::Range(a, b)) == ranges.insert((lo, hi)).count((a, b)) by {
        assert(mine.count(Work::Range(a, b)) == ranges.count((a, b)));
    }
    assert forall|t: Work<O>| #[trigger] mine.insert(r).count(t) > 0 implies t is Range by {
        if t != r {
            assert(mine.count(t) > 0);
        }
    }
    assert(mine.count(r) == ranges.count((lo, hi)));
    assert forall|a: usize, b: usize| #[trigger]
        mine.remove(r).count(Work::Range(a, b)) == ranges.remove((lo, hi)).count((a, b)) by {
        assert(mine.count(Work::Range(a, b)) == ranges.count((a, b)));
    }
    assert forall|t: Work<O>| #[trigger] mine.remove(r).count(t) > 0 implies t is Range by {
        assert(mine.count(t) > 0);
    }
}

/// Sorts a slice into ascending order. A short slice is sorted at once; the parts of a longer one
/// are pieces of work for the pool. In a short slice, items that compare as the same keep their
/// order among themselves.
pub fn par_sort<T: Ord + Clone, O: FnOnceOnce>(
    pool: &mut StealingPool<Work<O>>,
    slice: &mut [T],
)
    requires
        old(pool).wf(),
        old(pool).workers() > 0 || old(slice)@.len() <= PAR_SORT_CUTOFF,
        old(pool)@.waiting() + old(slice)@.len() < usize::MAX || old(slice)@.len()
            <= PAR_SORT_CUTOFF,
        work::only_others(old(pool)@.tasks()),
        order::well_ordered::<T>(),
        clones_same::<T>(),
    ensures
        final(pool).wf(),
        final(pool).workers() == old(pool).workers(),
        final(pool).is_shut_down() == old(pool).is_shut_down(),
        final(pool)@.waiting() <= old(pool)@.waiting(),
        work::only_others(final(pool)@.tasks()),
        work::others_ran(old(pool)@.tasks(), final(pool)@.tasks()),
        final(slice)@.len() == old(slice)@.len(),
        is_sorted(final(slice)@),
        final(slice)@.to_multiset() == old(slice)@.to_multiset(),
        old(slice)@.len() <= PAR_SORT_CUTOFF ==> forall|p: T| #[trigger]
            same_as(final(slice)@, p) == same_as(old(slice)@, p),
        old(slice)@.len() <= 1024 ==> forall|p: T| #[trigger]
            same_as(final(slice)@, p) == same_as(old(slice)@, p),
{
    let n: usize = slice.len();
    if n <= PAR_SORT_CUTOFF {
        sort_range(slice, 0, n);
        proof {
            lemma_whole(old(slice)@, slice@, 0, n as int);
            assert(slice@.subrange(0, n as int) =~= slice@);
            assert(old(slice)@.subrange(0, n as int) =~= old(slice)@);
        }
        return ;
    }
    let ghost mut pieces: Seq<Option<(usize, usize)>> = Seq::new(
        n as nat,
        |i: int| Some((0usize, n)),
    );
    let ghost mut mine: Multiset<Work<O>> = Multiset::empty();
    let ghost mut ranges: Multiset<(usize, usize)> = Multiset::empty();
    proof {
        work::lemma_owns_nothing(pool@.tasks());
    }
    work::put_piece(pool, Work::Range(0, n), Ghost(mine));
    let mut left: usize = 1;
    proof {
        lemma_more_ranges(mine, ranges, 0, n);
        mine = mine.insert(Work::Range(0, n));
        ranges = ranges.insert((0usize, n));
        assert(pieces_ok(pieces, ranges));
        counting::lemma_count_bound(pieces, |p: Option<(usize, usize)>| p is Some);
    }
    while left > 0
        invariant
            pool.wf(),
            pool.workers() == old(pool).workers(),
            pool.workers() > 0,
            pool.is_shut_down() == old(pool).is_shut_down(),
            work::owns(pool@.tasks(), mine),
            work::others_ran(old(pool)@.tasks(), pool@.tasks()),
            are_ranges(mine, ranges),
            mine.len() == left,
            pool@.waiting() <= old(pool)@.waiting() + left,
            old(pool)@.waiting() + n < usize::MAX,
            order::well_ordered::<T>(),
            clones_same::<T>(),
            n == slice@.len(),
            pieces.len() == n,
            pieces_ok(pieces, ranges),
            almost_sorted(slice@, pieces),
            slice@.to_multiset() == old(slice)@.to_multiset(),
            counting::count(pieces, |p: Option<(usize, usize)>| p is Some) + left <= n + 1,
        decreases 2 * counting::count(pieces, |p: Option<(usize, usize)>| p is Some) + left,
    {
        let ghost tasks = ranges;
        let ghost before = slice@;
        match work::next_piece(pool, Ghost(mine)) {
            Work::Range(lo, hi) => {
                proof {
                    assert(mine.count(Work::Range(lo, hi)) == tasks.count((lo, hi)));
                    lemma_more_ranges(mine, ranges, lo, hi);
                    mine = mine.remove(Work::Range(lo, hi));
                    ranges = ranges.remove((lo, hi));
                }
                left -= 1;
                if hi - lo <= PAR_SORT_CUTOFF {
                    proof {
                        lemma_cut(pieces, tasks, lo, lo, hi, hi);
                        lemma_fewer(pieces, lo, lo, hi, hi);
                    }
                    sort_range(slice, lo, hi);
                    proof {
                        lemma_still_almost(before, slice@, pieces, lo, hi);
                        lemma_whole(before, slice@, lo as int, hi as int);
                        let next = cut(pieces, lo, lo, hi, hi);
                        let sub = slice@.subrange(lo as int, hi as int);
                        assert forall|i: int, j: int|
                            0 <= i < j < slice@.len() && !together(next, i, j) implies order::le(
                            #[trigger] slice@[i],
                            #[trigger] slice@[j],
                        ) by {
                            if lo <= i < hi && lo <= j < hi {
                                assert(sub[i - lo] == slice@[i]);
                                assert(sub[j - lo] == slice@[j]);
                            } else {
                                assert(!together(pieces, i, j));
                            }
                        }
                        pieces = next;
                    }
                } else {
                    let (lt, gt) = partition_three_way(slice, lo, hi);
                    proof {
                        let p = choose|p: T| #[trigger]
                            divided(slice@, lo as int, lt as int, gt as int, hi as int, p);
                        lemma_cut(pieces, tasks, lo, lt, gt, hi);
                        lemma_fewer(pieces, lo, lt, gt, hi);
                        lemma_still_almost(before, slice@, pieces, lo, hi);
                        lemma_whole(before, slice@, lo as int, hi as int);
                        let next = cut(pieces, lo, lt, gt, hi);
                        assert forall|i: int, j: int|
                            0 <= i < j < slice@.len() && !together(next, i, j) implies order::le(
                            #[trigger] slice@[i],
                            #[trigger] slice@[j],
                        ) by {
                            if lo <= i < hi && lo <= j < hi {
                                order::lemma_order(slice@[i], p, slice@[j]);
                                order::lemma_order(slice@[j], p, slice@[i]);
                                order::lemma_order(p, slice@[j], slice@[i]);
                            } else {
                                assert(!together(pieces, i, j));
                            }
                        }
                        // At least two places wait, so there is room for two more tasks.
                        counting::lemma_count_two(
                            pieces,
                            lo as int,
                            lo + 1,
                            |p: Option<(usize, usize)>| p is Some,
                        );
                        pieces = next;
                    }
                    work::put_piece(pool, Work::Range(lo, lt), Ghost(mine));
                    proof {
                        lemma_more_ranges(mine, ranges, lo, lt);
                        mine = mine.insert(Work::Range(lo, lt));
                        ranges = ranges.insert((lo, lt));
                    }
                    work::put_piece(pool, Work::Range(gt, hi), Ghost(mine));
                    proof {
                        lemma_more_ranges(mine, ranges, gt, hi);
                        mine = mine.insert(Work::Range(gt, hi));
                        ranges = ranges.insert((gt, hi));
                    }
                    left += 2;
                }
            },
            _ => {
                assert(false);
            },
        }
    }
    proof {
        assert(mine =~= Multiset::empty());
        work::lemma_owns_nothing(pool@.tasks());
        assert forall|i: int, j: int| 0 <= i < j < slice@.len() implies order::le(
            #[trigger] slice@[i],
            #[trigger] slice@[j],
        ) by {
            if together(pieces, i, j) {
                let r = pieces[i]->0;
                assert(pieces[r.0 as int] == Some(r));
                assert(ranges.count(r) == 1);
                assert(mine.count(Work::Range(r.0, r.1)) == ranges.count((r.0, r.1)));
            }
        }
    }
}

/// Sorted means that no item is greater than one behind it, by the order of the type; and what is
/// kept together when sorting keeps its order are the items that the type holds for equal.
pub proof fn law_sorted_is_ascending<T: Ord>(s: Seq<T>, p: T)
    ensures
        is_sorted(s) <==> forall|i: int, j: int|
            #![trigger s[i], s[j]]
            0 <= i < j < s.len() ==> s[i].cmp_spec(&s[j]) != Ordering::Greater,
        same_as(s, p) == s.filter(|x: T| x.cmp_spec(&p) == Ordering::Equal),
{
    assert((|x: T| order::sign(x, p) is Same) =~= (|x: T| x.cmp_spec(&p) == Ordering::Equal));
    if is_sorted(s) {
        assert forall|i: int, j: int|
            #![trigger s[i], s[j]]
            0 <= i < j < s.len() implies s[i].cmp_spec(&s[j]) != Ordering::Greater by {
            assert(order::le(s[i], s[j]));
        }
    }
}

/// Of numbers, sorted means that they do not fall.
pub proof fn law_sorted_numbers(s: Seq<i64>)
    ensures
        is_sorted(s) <==> forall|i: int, j: int|
            0 <= i < j < s.len() ==> #[trigger] s[i] <= #[trigger] s[j],
{
    if is_sorted(s) {
        assert forall|i: int, j: int| 0 <= i < j < s.len() implies #[trigger] s[i]
            <= #[trigger] s[j] by {
            assert(order::le(s[i], s[j]));
        }
    }
}

/// Numbers are well ordered and are copied as they are, so that every slice of them can be sorted.
pub proof fn law_numbers_can_be_sorted()
    ensures
        order::well_ordered::<i64>(),
        clones_same::<i64>(),
{
}

} // verus!
