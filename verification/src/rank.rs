//! The order that a type's `Ord` puts on its values.

use std::cmp::Ordering;
use vstd::laws_cmp;
use vstd::prelude::*;
use vstd::std_specs::cmp::{OrdSpec, PartialEqSpec, PartialOrdSpec};

use crate::double::Double;

verus! {

/// `T`'s `Ord` is a total order, as the trait asks of every implementation.
pub open spec fn totally_ordered<T: Ord>() -> bool {
    laws_cmp::obeys_cmp::<T>()
}

/// `a` is less than or equal to `b`.
pub open spec fn not_after<T: Ord>(a: T, b: T) -> bool {
    a.cmp_spec(&b) != Ordering::Greater
}

/// The sequence ascends.
pub open spec fn ascending<T: Ord>(s: Seq<T>) -> bool {
    forall|i: int, j: int| 0 <= i < j < s.len() ==> not_after(#[trigger] s[i], #[trigger] s[j])
}

/// Values that rank alike are identical.
pub open spec fn equals_are_identical<T: Ord>() -> bool {
    forall|a: T, b: T| #[trigger] not_after(a, b) && not_after(b, a) ==> a == b
}

pub(crate) proof fn lemma_total<T: Ord>(a: T, b: T)
    requires
        totally_ordered::<T>(),
    ensures
        not_after(a, b) || not_after(b, a),
{
    reveal(laws_cmp::obeys_partial_cmp_spec_properties);
    reveal(laws_cmp::obeys_cmp_ord);
}

pub(crate) proof fn lemma_transitive<T: Ord>(a: T, b: T, c: T)
    requires
        totally_ordered::<T>(),
        not_after(a, b),
        not_after(b, c),
    ensures
        not_after(a, c),
{
    reveal(laws_cmp::obeys_partial_cmp_spec_properties);
    reveal(laws_cmp::obeys_cmp_ord);
    reveal(vstd::laws_eq::obeys_eq_spec_properties);
    assert(a.partial_cmp_spec(&b) == Some(a.cmp_spec(&b)));
    assert(b.partial_cmp_spec(&c) == Some(b.cmp_spec(&c)));
    assert(a.partial_cmp_spec(&c) == Some(a.cmp_spec(&c)));
    assert(c.partial_cmp_spec(&a) == Some(c.cmp_spec(&a)));
    assert(c.partial_cmp_spec(&b) == Some(c.cmp_spec(&b)));
    assert(b.partial_cmp_spec(&a) == Some(b.cmp_spec(&a)));
}

/// There is one way to put given items in ascending order.
pub(crate) proof fn lemma_ascending_unique<T: Ord>(a: Seq<T>, b: Seq<T>)
    requires
        totally_ordered::<T>(),
        equals_are_identical::<T>(),
        ascending(a),
        ascending(b),
        a.to_multiset() == b.to_multiset(),
    ensures
        a == b,
{
    let leq = |x: T, y: T| not_after(x, y);
    assert forall|x: T, y: T, z: T| #[trigger] leq(x, y) && #[trigger] leq(y, z) implies leq(
        x,
        z,
    ) by {
        lemma_transitive(x, y, z);
    }
    assert forall|x: T, y: T| #[trigger] leq(x, y) || #[trigger] leq(y, x) by {
        lemma_total(x, y);
    }
    vstd::seq_lib::lemma_sorted_unique(a, b, leq);
}

/// Whether `a` stands before `b`, where `tie` decides between equals.
pub(crate) fn stands_before<T: Ord>(a: &T, b: &T, tie: bool) -> (before: bool)
    ensures
        totally_ordered::<T>() ==> before == (not_after(*a, *b) && (not_after(*b, *a) ==> tie)),
{
    proof {
        reveal(laws_cmp::obeys_partial_cmp_spec_properties);
        reveal(laws_cmp::obeys_cmp_ord);
        reveal(vstd::laws_eq::obeys_eq_spec_properties);
    }
    match a.cmp(b) {
        Ordering::Less => true,
        Ordering::Equal => tie,
        Ordering::Greater => false,
    }
}

/// Comparisons of doubles go by the values, and what is no number compares with
/// nothing.
pub proof fn doubles_rank_by_value(x: Double, y: Double)
    ensures
        Double::obeys_eq_spec(),
        Double::obeys_partial_cmp_spec(),
        x.is_nan() || y.is_nan() ==> !x.eq_spec(&y) && x.partial_cmp_spec(&y) is None,
        !x.is_nan() && !y.is_nan() ==> {
            &&& x.eq_spec(&y) <==> x@ == y@
            &&& x.partial_cmp_spec(&y) == Some(Ordering::Less) <==> x@ < y@
            &&& x.partial_cmp_spec(&y) == Some(Ordering::Equal) <==> x@ == y@
            &&& x.partial_cmp_spec(&y) == Some(Ordering::Greater) <==> x@ > y@
        },
{
}

/// A value does not come after another if and only if it compares as less or
/// equal, and a sequence ascends if and only if no item compares as greater than
/// a later one.
pub proof fn order_is_that_of_comparison<T: Ord>(s: Seq<T>)
    ensures
        totally_ordered::<T>() <==> laws_cmp::obeys_cmp::<T>(),
        forall|a: T, b: T| #[trigger] not_after(a, b) <==> a.cmp_spec(&b) is Less
            || a.cmp_spec(&b) is Equal,
        ascending(s) <==> forall|i: int, j: int|
            #![trigger s[i], s[j]]
            0 <= i < j < s.len() ==> !(s[i].cmp_spec(&s[j]) is Greater),
{
}

} // verus!
