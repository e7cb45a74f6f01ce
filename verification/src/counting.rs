//! Counting the members of a sequence that have a property.

use vstd::prelude::*;

verus! {

/// How many members of `s` have the property `p`.
pub open spec fn count<A>(s: Seq<A>, p: spec_fn(A) -> bool) -> nat
    decreases s.len(),
{
    if s.len() == 0 {
        0
    } else {
        count(s.drop_last(), p) + (if p(s.last()) {
            1nat
        } else {
            0nat
        })
    }
}

/// Changing one member changes the count by what that member contributes.
pub proof fn lemma_count_update<A>(s: Seq<A>, i: int, v: A, p: spec_fn(A) -> bool)
    requires
        0 <= i < s.len(),
    ensures
        count(s.update(i, v), p) + (if p(s[i]) {
            1int
        } else {
            0
        }) == count(s, p) + (if p(v) {
            1int
        } else {
            0
        }),
    decreases s.len(),
{
    let t = s.update(i, v);
    if i == s.len() - 1 {
        assert(t.drop_last() =~= s.drop_last());
    } else {
        assert(t.drop_last() =~= s.drop_last().update(i, v));
        lemma_count_update(s.drop_last(), i, v, p);
    }
}

/// A new member adds what it contributes.
pub proof fn lemma_count_push<A>(s: Seq<A>, v: A, p: spec_fn(A) -> bool)
    ensures
        count(s.push(v), p) == count(s, p) + (if p(v) {
            1nat
        } else {
            0nat
        }),
{
    assert(s.push(v).drop_last() =~= s);
}

/// No count exceeds the length.
pub proof fn lemma_count_bound<A>(s: Seq<A>, p: spec_fn(A) -> bool)
    ensures
        count(s, p) <= s.len(),
    decreases s.len(),
{
    if s.len() > 0 {
        lemma_count_bound(s.drop_last(), p);
    }
}

/// A member that has the property makes the count positive.
pub proof fn lemma_count_member<A>(s: Seq<A>, i: int, p: spec_fn(A) -> bool)
    requires
        0 <= i < s.len(),
        p(s[i]),
    ensures
        count(s, p) >= 1,
    decreases s.len(),
{
    if i < s.len() - 1 {
        lemma_count_member(s.drop_last(), i, p);
    }
}

/// Two members that have the property make the count at least two.
pub proof fn lemma_count_two<A>(s: Seq<A>, i: int, j: int, p: spec_fn(A) -> bool)
    requires
        0 <= i < j < s.len(),
        p(s[i]),
        p(s[j]),
    ensures
        count(s, p) >= 2,
    decreases s.len(),
{
    if j < s.len() - 1 {
        lemma_count_two(s.drop_last(), i, j, p);
    } else {
        lemma_count_member(s.drop_last(), i, p);
    }
}

/// A member that lacks the property keeps the count below the length.
pub proof fn lemma_count_missing<A>(s: Seq<A>, i: int, p: spec_fn(A) -> bool)
    requires
        0 <= i < s.len(),
        !p(s[i]),
    ensures
        count(s, p) < s.len(),
    decreases s.len(),
{
    if i < s.len() - 1 {
        lemma_count_missing(s.drop_last(), i, p);
    } else {
        lemma_count_bound(s.drop_last(), p);
    }
}

/// A positive count has a member that has the property.
pub proof fn lemma_count_witness<A>(s: Seq<A>, p: spec_fn(A) -> bool) -> (i: int)
    requires
        count(s, p) >= 1,
    ensures
        0 <= i < s.len(),
        p(s[i]),
    decreases s.len(),
{
    if p(s.last()) {
        s.len() - 1
    } else {
        lemma_count_witness(s.drop_last(), p)
    }
}

/// A count below the length leaves a member that lacks the property.
pub proof fn lemma_count_lacking<A>(s: Seq<A>, p: spec_fn(A) -> bool) -> (i: int)
    requires
        count(s, p) < s.len(),
    ensures
        0 <= i < s.len(),
        !p(s[i]),
    decreases s.len(),
{
    if !p(s.last()) {
        s.len() - 1
    } else {
        lemma_count_lacking(s.drop_last(), p)
    }
}

/// Where every member that has the property has a counterpart that has it too, there are no
/// more of them.
pub proof fn lemma_count_le<A>(s: Seq<A>, t: Seq<A>, p: spec_fn(A) -> bool)
    requires
        s.len() == t.len(),
        forall|i: int| 0 <= i < s.len() && p(#[trigger] s[i]) ==> p(t[i]),
    ensures
        count(s, p) <= count(t, p),
    decreases s.len(),
{
    if s.len() > 0 {
        let a = s.drop_last();
        let b = t.drop_last();
        assert forall|i: int| 0 <= i < a.len() && p(#[trigger] a[i]) implies p(b[i]) by {
            assert(a[i] == s[i]);
        }
        assert(s[s.len() - 1] == s.last());
        lemma_count_le(a, b, p);
    }
}

/// Mapping members without changing who has which property relates the counts.
pub proof fn lemma_count_same<A>(s: Seq<A>, t: Seq<A>, p: spec_fn(A) -> bool, q: spec_fn(A) -> bool)
    requires
        s.len() == t.len(),
        forall|i: int| 0 <= i < s.len() ==> (p(#[trigger] s[i]) <==> q(t[i])),
    ensures
        count(s, p) == count(t, q),
    decreases s.len(),
{
    if s.len() > 0 {
        let a = s.drop_last();
        let b = t.drop_last();
        assert forall|i: int| 0 <= i < a.len() implies (p(#[trigger] a[i]) <==> q(b[i])) by {
            assert(a[i] == s[i]);
        }
        assert(s[s.len() - 1] == s.last());
        lemma_count_same(a, b, p, q);
    }
}

/// The sum of a number for each item.
pub open spec fn total<T>(s: Seq<T>, f: spec_fn(T) -> nat) -> nat
    decreases s.len(),
{
    if s.len() == 0 {
        0
    } else {
        total(s.drop_last(), f) + f(s.last())
    }
}

/// Replacing one item replaces its number.
pub proof fn lemma_total_update<T>(s: Seq<T>, i: int, v: T, f: spec_fn(T) -> nat)
    requires
        0 <= i < s.len(),
    ensures
        total(s.update(i, v), f) + f(s[i]) == total(s, f) + f(v),
    decreases s.len(),
{
    if i == s.len() - 1 {
        assert(s.update(i, v).drop_last() =~= s.drop_last());
    } else {
        lemma_total_update(s.drop_last(), i, v, f);
        assert(s.update(i, v).drop_last() =~= s.drop_last().update(i, v));
    }
}

/// Where each number is at most `b`, so is their average.
pub proof fn lemma_total_bound<T>(s: Seq<T>, f: spec_fn(T) -> nat, b: nat)
    requires
        forall|t: T| #[trigger] f(t) <= b,
    ensures
        total(s, f) <= b * s.len(),
    decreases s.len(),
{
    if s.len() > 0 {
        lemma_total_bound(s.drop_last(), f, b);
        assert(f(s.last()) <= b);
        assert(b * (s.len() - 1) + b == b * s.len()) by (nonlinear_arith);
    }
}

} // verus!
