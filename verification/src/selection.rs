//! Which segments a compaction job takes, and in what order.

use vstd::prelude::*;
use vstd::relations::total_ordering;
use vstd::seq_lib::{
    lemma_multiset_commutative, lemma_sorted_unique, to_multiset_build, to_multiset_contains,
    to_multiset_len,
};

use crate::segment::Segment;
use crate::state::CompactionState;
use crate::sums::lemma_map_permuted;

verus! {

/// Segment `i` is taken before segment `j`: the more fragmented one is, and of
/// two equally fragmented ones that which is listed first.
pub open spec fn taken_before(segments: Seq<Segment>, i: int, j: int) -> bool {
    let (a, b) = (segments[i].fragmentation(), segments[j].fragmentation());
    &&& b <= a
    &&& a <= b ==> i <= j
}

/// `taken_before` as a relation on positions.
pub open spec fn priority(segments: Seq<Segment>) -> spec_fn(int, int) -> bool {
    |i: int, j: int| taken_before(segments, i, j)
}

/// The positions, among the first `n`, of segments that need compaction, as
/// listed.
pub open spec fn candidates_among(segments: Seq<Segment>, n: nat) -> Seq<int> {
    Seq::new(n, |i: int| i).filter(|i: int| segments[i].fragmented())
}

/// The positions of the segments that need compaction, as listed.
pub open spec fn candidates(segments: Seq<Segment>) -> Seq<int> {
    candidates_among(segments, segments.len())
}

/// The positions of the segments that need compaction, worst first.
pub open spec fn compaction_order(segments: Seq<Segment>) -> Seq<int> {
    candidates(segments).sort_by(priority(segments))
}

/// The segments that a job of at most `max_sources` sources takes: those that
/// need compaction, worst first, up to that number.
pub open spec fn selection(segments: Seq<Segment>, max_sources: int) -> Seq<Segment> {
    let order = compaction_order(segments);
    let count = if max_sources <= order.len() {
        max_sources
    } else {
        order.len() as int
    };
    order.take(count).map_values(|i: int| segments[i])
}

/// Positions as mathematical integers.
pub(crate) open spec fn positions(indices: Seq<usize>) -> Seq<int> {
    indices.map_values(|i: usize| i as int)
}

pub(crate) proof fn lemma_priority_is_total(segments: Seq<Segment>)
    ensures
        total_ordering(priority(segments)),
{
}

/// Which positions are candidates.
pub(crate) proof fn lemma_candidates(segments: Seq<Segment>, n: nat)
    ensures
        candidates_among(segments, n).no_duplicates(),
        forall|i: int| #[trigger]
            candidates_among(segments, n).contains(i) <==> 0 <= i < n && segments[i].fragmented(),
    decreases n,
{
    let c = candidates_among(segments, n);
    reveal(Seq::filter);
    if n > 0 {
        let m = (n - 1) as nat;
        let before = candidates_among(segments, m);
        lemma_candidates(segments, m);
        lemma_candidates_step(segments, m);
        assert forall|i: int| #[trigger] c.contains(i) <==> 0 <= i < n
            && segments[i].fragmented() by {
            assert(before.contains(i) <==> 0 <= i < m && segments[i].fragmented());
            if segments[m as int].fragmented() {
                assert(c == before.push(m as int));
                assert(c[c.len() - 1] == m);
                if before.contains(i) {
                    assert(c[before.index_of(i)] == i);
                }
            }
        }
        assert(!before.contains(m as int));
        assert forall|i: int, j: int| 0 <= i < j < c.len() implies c[i] != c[j] by {
            assert(before.contains(c[i]));
        }
    }
}

/// One more segment looked at.
pub(crate) proof fn lemma_candidates_step(segments: Seq<Segment>, n: nat)
    ensures
        candidates_among(segments, n + 1) == if segments[n as int].fragmented() {
            candidates_among(segments, n).push(n as int)
        } else {
            candidates_among(segments, n)
        },
{
    let shorter = Seq::new(n, |i: int| i);
    assert(Seq::new(n + 1, |i: int| i) =~= shorter.push(n as int));
    shorter.lemma_filter_push(n as int, |i: int| segments[i].fragmented());
}

/// The compaction order lists exactly the segments that need compaction, each
/// once, and whatever stands earlier is taken before what stands later.
pub proof fn compaction_order_is_worst_first(segments: Seq<Segment>)
    ensures
        compaction_order(segments).no_duplicates(),
        compaction_order(segments).len() == candidates(segments).len(),
        forall|i: int| #[trigger]
            compaction_order(segments).contains(i) <==> 0 <= i < segments.len()
                && segments[i].fragmented(),
        forall|a: int, b: int|
            0 <= a < b < compaction_order(segments).len() ==> taken_before(
                segments,
                #[trigger] compaction_order(segments)[a],
                #[trigger] compaction_order(segments)[b],
            ),
{
    let c = candidates(segments);
    let order = compaction_order(segments);
    lemma_priority_is_total(segments);
    lemma_candidates(segments, segments.len());
    c.lemma_sort_by_ensures(priority(segments));
    c.lemma_multiset_has_no_duplicates();
    order.lemma_multiset_has_no_duplicates_conv();
    to_multiset_len(c);
    to_multiset_len(order);
    assert forall|i: int| #[trigger] order.contains(i) <==> 0 <= i < segments.len()
        && segments[i].fragmented() by {
        to_multiset_contains(c, i);
        to_multiset_contains(order, i);
    }
    assert forall|a: int, b: int| 0 <= a < b < order.len() implies taken_before(
        segments,
        #[trigger] order[a],
        #[trigger] order[b],
    ) by {
        assert(priority(segments)(order[a], order[b]));
    }
}

/// There is only one such order.
pub proof fn compaction_order_is_unique(segments: Seq<Segment>, order: Seq<int>)
    requires
        order.no_duplicates(),
        forall|i: int| #[trigger]
            order.contains(i) <==> 0 <= i < segments.len() && segments[i].fragmented(),
        forall|a: int, b: int|
            0 <= a < b < order.len() ==> taken_before(
                segments,
                #[trigger] order[a],
                #[trigger] order[b],
            ),
    ensures
        order == compaction_order(segments),
{
    let c = candidates(segments);
    lemma_candidates(segments, segments.len());
    lemma_same_items(order, c);
    lemma_sorted_is_compaction_order(segments, order);
}

/// Without repetitions, two sequences with the same members have the same items.
pub(crate) proof fn lemma_same_items<A>(a: Seq<A>, b: Seq<A>)
    requires
        a.no_duplicates(),
        b.no_duplicates(),
        forall|x: A| #[trigger] a.contains(x) <==> b.contains(x),
    ensures
        a.to_multiset() == b.to_multiset(),
{
    a.lemma_multiset_has_no_duplicates();
    b.lemma_multiset_has_no_duplicates();
    assert forall|x: A| a.to_multiset().count(x) == b.to_multiset().count(x) by {
        to_multiset_contains(a, x);
        to_multiset_contains(b, x);
        assert(a.contains(x) <==> b.contains(x));
    }
    assert(a.to_multiset() =~= b.to_multiset());
}

pub(crate) proof fn lemma_sorted_is_compaction_order(segments: Seq<Segment>, order: Seq<int>)
    requires
        order.to_multiset() == candidates(segments).to_multiset(),
        forall|a: int, b: int|
            0 <= a < b < order.len() ==> taken_before(
                segments,
                #[trigger] order[a],
                #[trigger] order[b],
            ),
    ensures
        order == compaction_order(segments),
{
    lemma_priority_is_total(segments);
    candidates(segments).lemma_sort_by_ensures(priority(segments));
    lemma_sorted_unique(order, compaction_order(segments), priority(segments));
}

/// Segment `i` is taken before segment `j`.
fn goes_before(segments: &Vec<Segment>, i: usize, j: usize) -> (before: bool)
    requires
        i < segments@.len(),
        j < segments@.len(),
    ensures
        before == taken_before(segments@, i as int, j as int),
{
    let (a, b) = (segments[i].fragmentation_ratio(), segments[j].fragmentation_ratio());
    b.is_at_most(&a) && (i <= j || !a.is_at_most(&b))
}

/// The indices stand in the order in which their segments are taken.
spec fn in_order(segments: Seq<Segment>, indices: Seq<usize>) -> bool {
    forall|a: int, b: int|
        0 <= a < b < indices.len() ==> taken_before(
            segments,
            #[trigger] indices[a] as int,
            #[trigger] indices[b] as int,
        )
}

/// Every index is that of a segment.
spec fn all_exist(segments: Seq<Segment>, indices: Seq<usize>) -> bool {
    forall|a: int| 0 <= a < indices.len() ==> (#[trigger] indices[a]) < segments.len()
}

/// Appending the index that is taken next keeps the order.
proof fn lemma_append_next(
    segments: Seq<Segment>,
    done: Seq<usize>,
    left: Seq<usize>,
    right: Seq<usize>,
)
    requires
        in_order(segments, done),
        in_order(segments, left),
        left.len() > 0,
        right.len() > 0 ==> taken_before(segments, left[0] as int, right[0] as int),
        in_order(segments, right),
        forall|a: int, b: int|
            0 <= a < done.len() && 0 <= b < left.len() ==> taken_before(
                segments,
                #[trigger] done[a] as int,
                #[trigger] left[b] as int,
            ),
        forall|a: int, b: int|
            0 <= a < done.len() && 0 <= b < right.len() ==> taken_before(
                segments,
                #[trigger] done[a] as int,
                #[trigger] right[b] as int,
            ),
    ensures
        in_order(segments, done.push(left[0])),
        forall|a: int, b: int|
            0 <= a < done.len() + 1 && 0 <= b < left.len() - 1 ==> taken_before(
                segments,
                #[trigger] done.push(left[0])[a] as int,
                #[trigger] left.skip(1)[b] as int,
            ),
        forall|a: int, b: int|
            0 <= a < done.len() + 1 && 0 <= b < right.len() ==> taken_before(
                segments,
                #[trigger] done.push(left[0])[a] as int,
                #[trigger] right[b] as int,
            ),
{
    lemma_priority_is_total(segments);
    let r = priority(segments);
    assert forall|b: int| 0 <= b < right.len() implies taken_before(
        segments,
        left[0] as int,
        #[trigger] right[b] as int,
    ) by {
        if b > 0 {
            assert(r(left[0] as int, right[0] as int) && r(right[0] as int, right[b] as int));
        }
    }
}

/// Merges two lists of indices, each in the order of taking.
#[verifier::loop_isolation(false)]
fn merge_lists(segments: &Vec<Segment>, left: &Vec<usize>, right: &Vec<usize>) -> (all: Vec<usize>)
    requires
        all_exist(segments@, left@),
        all_exist(segments@, right@),
        in_order(segments@, left@),
        in_order(segments@, right@),
    ensures
        all_exist(segments@, all@),
        in_order(segments@, all@),
        all@.to_multiset() == left@.to_multiset().add(right@.to_multiset()),
{
    let mut all: Vec<usize> = Vec::new();
    let (mut i, mut j): (usize, usize) = (0, 0);
    proof {
        lemma_multiset_commutative(all@, left@ + right@);
        lemma_multiset_commutative(left@, right@);
        assert(left@.skip(0) =~= left@);
        assert(right@.skip(0) =~= right@);
        assert(all@ + (left@ + right@) =~= left@ + right@);
    }
    while i < left.len() || j < right.len()
        invariant
            i <= left@.len(),
            j <= right@.len(),
            all_exist(segments@, all@),
            in_order(segments@, all@),
            all@.to_multiset().add(left@.skip(i as int).to_multiset()).add(
                right@.skip(j as int).to_multiset(),
            ) =~= left@.to_multiset().add(right@.to_multiset()),
            forall|a: int, b: int|
                0 <= a < all@.len() && 0 <= b < left@.len() - i ==> taken_before(
                    segments@,
                    #[trigger] all@[a] as int,
                    #[trigger] left@.skip(i as int)[b] as int,
                ),
            forall|a: int, b: int|
                0 <= a < all@.len() && 0 <= b < right@.len() - j ==> taken_before(
                    segments@,
                    #[trigger] all@[a] as int,
                    #[trigger] right@.skip(j as int)[b] as int,
                ),
        decreases left.len() - i + right.len() - j,
    {
        let ghost (rest_left, rest_right) = (left@.skip(i as int), right@.skip(j as int));
        let ghost done = all@;
        let from_left = j >= right.len() || (i < left.len() && goes_before(
            segments,
            left[i],
            right[j],
        ));
        proof {
            broadcast use vstd::multiset::group_multiset_axioms;

            if from_left {
                lemma_append_next(segments@, done, rest_left, rest_right);
                assert(rest_left.skip(1) =~= left@.skip(i + 1));
                lemma_take_first(rest_left);
                to_multiset_build(done, rest_left[0]);
            } else {
                lemma_priority_is_total(segments@);
                assert(i < left.len() ==> priority(segments@)(
                    right@[j as int] as int,
                    left@[i as int] as int,
                ) || priority(segments@)(left@[i as int] as int, right@[j as int] as int));
                lemma_append_next(segments@, done, rest_right, rest_left);
                assert(rest_right.skip(1) =~= right@.skip(j + 1));
                lemma_take_first(rest_right);
                to_multiset_build(done, rest_right[0]);
            }
        }
        if from_left {
            all.push(left[i]);
            i += 1;
        } else {
            all.push(right[j]);
            j += 1;
        }
    }
    proof {
        broadcast use vstd::multiset::group_multiset_axioms;

        to_multiset_len(left@.skip(i as int));
        to_multiset_len(right@.skip(j as int));
        assert(all@.to_multiset() =~= left@.to_multiset().add(right@.to_multiset()));
    }
    all
}

proof fn lemma_take_first(s: Seq<usize>)
    requires
        s.len() > 0,
    ensures
        s.to_multiset() == s.skip(1).to_multiset().insert(s[0]),
{
    broadcast use vstd::multiset::group_multiset_axioms;

    let rest = s.skip(1);
    assert(s =~= seq![s[0]] + rest);
    lemma_multiset_commutative(seq![s[0]], rest);
    lemma_multiset_commutative(rest, seq![s[0]]);
    assert(rest + seq![s[0]] =~= rest.push(s[0]));
    to_multiset_build(rest, s[0]);
    assert(s.to_multiset() =~= rest.to_multiset().insert(s[0]));
}

/// Sorts the indices from `start` to `end` into the order of taking.
fn sort_range(segments: &Vec<Segment>, indices: &Vec<usize>, start: usize, end: usize) -> (sorted:
    Vec<usize>)
    requires
        start <= end <= indices@.len(),
        all_exist(segments@, indices@),
    ensures
        all_exist(segments@, sorted@),
        in_order(segments@, sorted@),
        sorted@.to_multiset() == indices@.subrange(start as int, end as int).to_multiset(),
    decreases end - start,
{
    if end - start <= 1 {
        let mut single: Vec<usize> = Vec::new();
        if start < end {
            single.push(indices[start]);
        }
        assert(single@ =~= indices@.subrange(start as int, end as int));
        return single;
    }
    let middle: usize = start + (end - start) / 2;
    let left = sort_range(segments, indices, start, middle);
    let right = sort_range(segments, indices, middle, end);
    proof {
        let (a, b) = (
            indices@.subrange(start as int, middle as int),
            indices@.subrange(middle as int, end as int),
        );
        assert(a + b =~= indices@.subrange(start as int, end as int));
        lemma_multiset_commutative(a, b);
    }
    merge_lists(segments, &left, &right)
}

/// The indices of the segments that need compaction, worst first.
pub(crate) fn worst_first(segments: &Vec<Segment>) -> (order: Vec<usize>)
    requires
        forall|i: int|
            0 <= i < segments@.len() ==> (#[trigger] segments@[i]) == segments@[i].refreshed(),
    ensures
        positions(order@) == compaction_order(segments@),
{
    let mut listed: Vec<usize> = Vec::new();
    let mut i: usize = 0;
    assert(positions(listed@) =~= candidates_among(segments@, 0)) by {
        lemma_candidates(segments@, 0);
        let none = candidates_among(segments@, 0);
        assert(none.len() == 0) by {
            if none.len() > 0 {
                assert(none.contains(none[0]));
            }
        }
    }
    while i < segments.len()
        invariant
            i <= segments@.len(),
            forall|i: int|
                0 <= i < segments@.len() ==> (#[trigger] segments@[i]) == segments@[i].refreshed(),
            positions(listed@) == candidates_among(segments@, i as nat),
            all_exist(segments@, listed@),
        decreases segments.len() - i,
    {
        proof {
            lemma_candidates_step(segments@, i as nat);
        }
        let ghost before = listed@;
        if segments[i].state == CompactionState::NeedsCompaction {
            listed.push(i);
            assert(positions(listed@) =~= positions(before).push(i as int));
        }
        i += 1;
    }
    let order = sort_range(segments, &listed, 0, listed.len());
    proof {
        assert(listed@.subrange(0, listed@.len() as int) =~= listed@);
        lemma_map_permuted(order@, listed@, |i: usize| i as int);
        lemma_sorted_is_compaction_order(segments@, positions(order@));
    }
    order
}

} // verus!
