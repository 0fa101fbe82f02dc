//! Sums over sequences.

use vstd::prelude::*;
use vstd::seq_lib::{to_multiset_contains, to_multiset_len, to_multiset_remove};

verus! {

/// The sum of what `f` assigns to the items of `s`.
pub open spec fn sum_by<A>(s: Seq<A>, f: spec_fn(A) -> int) -> int
    decreases s.len(),
{
    if s.len() == 0 {
        0
    } else {
        sum_by(s.drop_last(), f) + f(s.last())
    }
}

pub(crate) proof fn lemma_sum_push<A>(s: Seq<A>, x: A, f: spec_fn(A) -> int)
    ensures
        sum_by(s.push(x), f) == sum_by(s, f) + f(x),
{
    assert(s.push(x).drop_last() =~= s);
}

pub(crate) proof fn lemma_sum_concat<A>(a: Seq<A>, b: Seq<A>, f: spec_fn(A) -> int)
    ensures
        sum_by(a + b, f) == sum_by(a, f) + sum_by(b, f),
    decreases b.len(),
{
    if b.len() == 0 {
        assert(a + b =~= a);
    } else {
        assert((a + b).drop_last() =~= a + b.drop_last());
        lemma_sum_concat(a, b.drop_last(), f);
    }
}

pub(crate) proof fn lemma_sum_remove<A>(s: Seq<A>, i: int, f: spec_fn(A) -> int)
    requires
        0 <= i < s.len(),
    ensures
        sum_by(s.remove(i), f) + f(s[i]) == sum_by(s, f),
{
    let (front, back) = (s.take(i), s.skip(i + 1));
    assert(s =~= front.push(s[i]) + back);
    assert(s.remove(i) =~= front + back);
    lemma_sum_concat(front.push(s[i]), back, f);
    lemma_sum_concat(front, back, f);
    lemma_sum_push(front, s[i], f);
}

/// Sequences with the same items, in whatever order, have the same sum.
pub(crate) proof fn lemma_sum_permuted<A>(a: Seq<A>, b: Seq<A>, f: spec_fn(A) -> int)
    requires
        a.to_multiset() == b.to_multiset(),
    ensures
        sum_by(a, f) == sum_by(b, f),
    decreases a.len(),
{
    to_multiset_len(a);
    to_multiset_len(b);
    if a.len() > 0 {
        let last = a.len() - 1;
        to_multiset_contains(a, a[last]);
        to_multiset_contains(b, a[last]);
        let i = b.index_of(a[last]);
        to_multiset_remove(a, last);
        to_multiset_remove(b, i);
        lemma_sum_remove(a, last, f);
        lemma_sum_remove(b, i, f);
        lemma_sum_permuted(a.remove(last), b.remove(i), f);
    }
}

/// A sum splits into the sum over what satisfies `p` and the sum over the rest.
pub(crate) proof fn lemma_sum_split<A>(
    s: Seq<A>,
    p: spec_fn(A) -> bool,
    q: spec_fn(A) -> bool,
    f: spec_fn(A) -> int,
)
    requires
        forall|x: A| #[trigger] q(x) == !p(x),
    ensures
        sum_by(s, f) == sum_by(s.filter(p), f) + sum_by(s.filter(q), f),
    decreases s.len(),
{
    reveal(Seq::filter);
    if s.len() > 0 {
        lemma_sum_split(s.drop_last(), p, q, f);
        lemma_sum_push(s.drop_last().filter(p), s.last(), f);
        lemma_sum_push(s.drop_last().filter(q), s.last(), f);
    }
}

pub(crate) proof fn lemma_sum_non_negative<A>(s: Seq<A>, f: spec_fn(A) -> int)
    requires
        forall|x: A| 0 <= #[trigger] f(x),
    ensures
        0 <= sum_by(s, f),
    decreases s.len(),
{
    if s.len() > 0 {
        lemma_sum_non_negative(s.drop_last(), f);
    }
}

/// A prefix sums up to no more than the whole.
pub(crate) proof fn lemma_sum_prefix<A>(s: Seq<A>, n: int, f: spec_fn(A) -> int)
    requires
        forall|x: A| 0 <= #[trigger] f(x),
        0 <= n <= s.len(),
    ensures
        sum_by(s.take(n), f) <= sum_by(s, f),
{
    assert(s =~= s.take(n) + s.skip(n));
    lemma_sum_concat(s.take(n), s.skip(n), f);
    lemma_sum_non_negative(s.skip(n), f);
}

/// What adds up item by item adds up in the sums.
pub(crate) proof fn lemma_sum_additive<A>(
    s: Seq<A>,
    f: spec_fn(A) -> int,
    g: spec_fn(A) -> int,
    h: spec_fn(A) -> int,
)
    requires
        forall|i: int| 0 <= i < s.len() ==> f(#[trigger] s[i]) == g(s[i]) + h(s[i]),
    ensures
        sum_by(s, f) == sum_by(s, g) + sum_by(s, h),
    decreases s.len(),
{
    if s.len() > 0 {
        let shorter = s.drop_last();
        assert forall|i: int| 0 <= i < shorter.len() implies f(#[trigger] shorter[i]) == g(
            shorter[i],
        ) + h(shorter[i]) by {
            assert(shorter[i] == s[i]);
        }
        lemma_sum_additive(shorter, f, g, h);
    }
}

/// Mapping permuted sequences gives permuted sequences.
pub(crate) proof fn lemma_map_permuted<A, B>(a: Seq<A>, b: Seq<A>, f: spec_fn(A) -> B)
    requires
        a.to_multiset() == b.to_multiset(),
    ensures
        a.map_values(f).to_multiset() == b.map_values(f).to_multiset(),
    decreases a.len(),
{
    to_multiset_len(a);
    to_multiset_len(b);
    if a.len() > 0 {
        let last = a.len() - 1;
        to_multiset_contains(a, a[last]);
        to_multiset_contains(b, a[last]);
        let i = b.index_of(a[last]);
        let (image_a, image_b) = (a.map_values(f), b.map_values(f));
        to_multiset_remove(a, last);
        to_multiset_remove(b, i);
        lemma_map_permuted(a.remove(last), b.remove(i), f);
        assert(a.remove(last).map_values(f) =~= image_a.remove(last));
        assert(b.remove(i).map_values(f) =~= image_b.remove(i));
        to_multiset_remove(image_a, last);
        to_multiset_remove(image_b, i);
        to_multiset_contains(image_a, image_a[last]);
        to_multiset_contains(image_b, image_b[i]);
        assert(image_a.contains(image_a[last]));
        assert(image_b.contains(image_b[i]));
        let (m, n) = (image_a.to_multiset(), image_b.to_multiset());
        let x = image_a[last];
        assert(m.remove(x) == n.remove(x));
        assert(m =~= n) by {
            broadcast use vstd::multiset::group_multiset_axioms;

            assert forall|v: B| m.count(v) == n.count(v) by {
                assert(m.remove(x).count(v) == n.remove(x).count(v));
            }
        }
    } else {
        assert(a =~= b);
    }
}

} // verus!
