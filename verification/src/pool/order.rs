//! The order of a type, in words that the algorithms use.

use std::cmp::Ordering;

use vstd::prelude::*;
use vstd::std_specs::cmp::OrdSpec;
use vstd::std_specs::cmp::PartialEqSpec;
use vstd::std_specs::cmp::PartialOrdSpec;

verus! {

/// How one value stands to another.
#[derive(Clone, Copy, Debug, PartialEq, Eq, Structural)]
pub enum Sign {
    Less,
    Same,
    Greater,
}

/// Whether the comparison of the type is a total order.
pub open spec fn well_ordered<T: Ord>() -> bool {
    vstd::laws_cmp::obeys_cmp::<T>()
}

/// How `a` stands to `b`.
pub open spec fn sign<T: Ord>(a: T, b: T) -> Sign {
    match a.cmp_spec(&b) {
        Ordering::Less => Sign::Less,
        Ordering::Equal => Sign::Same,
        Ordering::Greater => Sign::Greater,
    }
}

/// Whether `a` is not greater than `b`.
pub open spec fn le<T: Ord>(a: T, b: T) -> bool {
    !(sign(a, b) is Greater)
}

/// Compares two values.
pub fn compare<T: Ord>(a: &T, b: &T) -> (s: Sign)
    requires
        well_ordered::<T>(),
    ensures
        s == sign(*a, *b),
{
    proof {
        reveal(vstd::laws_cmp::obeys_cmp_ord);
    }
    match a.cmp(b) {
        Ordering::Less => Sign::Less,
        Ordering::Equal => Sign::Same,
        Ordering::Greater => Sign::Greater,
    }
}

/// What a total order is.
pub proof fn lemma_order<T: Ord>(a: T, b: T, c: T)
    requires
        well_ordered::<T>(),
    ensures
        sign(a, a) is Same,
        sign(a, b) is Less <==> sign(b, a) is Greater,
        sign(a, b) is Same <==> sign(b, a) is Same,
        sign(a, b) is Less && sign(b, c) is Less ==> sign(a, c) is Less,
        le(a, b) && le(b, c) ==> le(a, c),
        sign(a, b) is Less && sign(b, c) is Same ==> sign(a, c) is Less,
        sign(a, b) is Same && sign(b, c) is Less ==> sign(a, c) is Less,
        sign(a, b) is Same && sign(b, c) is Same ==> sign(a, c) is Same,
{
    reveal(vstd::laws_cmp::obeys_cmp_ord);
    reveal(vstd::laws_cmp::obeys_cmp_partial_ord);
    reveal(vstd::laws_cmp::obeys_partial_cmp_spec_properties);
    reveal(vstd::laws_eq::obeys_eq_spec_properties);
    assert(a.partial_cmp_spec(&a) == Some(a.cmp_spec(&a)));
    assert(a.partial_cmp_spec(&b) == Some(a.cmp_spec(&b)));
    assert(b.partial_cmp_spec(&a) == Some(b.cmp_spec(&a)));
    assert(b.partial_cmp_spec(&c) == Some(b.cmp_spec(&c)));
    assert(c.partial_cmp_spec(&b) == Some(c.cmp_spec(&b)));
    assert(a.partial_cmp_spec(&c) == Some(a.cmp_spec(&c)));
    assert(c.partial_cmp_spec(&a) == Some(c.cmp_spec(&a)));
}

} // verus!
