//! What merging sorted runs means.
//!
//! An item is named by its place: the index of its run and its index there.
//! A merge is an order in which the places of all runs are visited.

use vstd::prelude::*;
use vstd::seq_lib::{to_multiset_contains, to_multiset_len, to_multiset_remove};

use crate::rank::{
    ascending, equals_are_identical, lemma_ascending_unique, lemma_total, lemma_transitive,
    not_after, totally_ordered,
};

verus! {

/// The contents of each run.
pub open spec fn contents<T>(runs: Seq<Vec<T>>) -> Seq<Seq<T>> {
    runs.map_values(|run: Vec<T>| run@)
}

/// The item at a place.
pub open spec fn item<T>(runs: Seq<Seq<T>>, place: (int, int)) -> T {
    runs[place.0][place.1]
}

/// The items at a sequence of places.
pub open spec fn items<T>(runs: Seq<Seq<T>>, places: Seq<(int, int)>) -> Seq<T> {
    places.map_values(|place: (int, int)| item(runs, place))
}

/// Places are ranked by their items; between equal items the earlier run goes
/// first, and in one run the earlier item.
pub open spec fn goes_first<T: Ord>(runs: Seq<Seq<T>>, x: (int, int), y: (int, int)) -> bool {
    &&& not_after(item(runs, x), item(runs, y))
    &&& not_after(item(runs, y), item(runs, x)) ==> x.0 < y.0 || (x.0 == y.0 && x.1 <= y.1)
}

/// `taken` counts, for each run, how many of its items are gone already.
pub open spec fn is_progress<T>(runs: Seq<Seq<T>>, taken: Seq<int>) -> bool {
    &&& taken.len() == runs.len()
    &&& forall|i: int| 0 <= i < runs.len() ==> 0 <= #[trigger] taken[i] <= runs[i].len()
}

/// Nothing has been taken from any run.
pub open spec fn untouched<T>(runs: Seq<Seq<T>>) -> Seq<int> {
    Seq::new(runs.len(), |i: int| 0)
}

/// Run `i` still has an item to give.
pub open spec fn waiting<T>(runs: Seq<Seq<T>>, taken: Seq<int>, i: int) -> bool {
    &&& taken.len() == runs.len()
    &&& 0 <= i < runs.len()
    &&& 0 <= taken[i] < runs[i].len()
}

/// Run `i` has the item that leaves next: among the front items of the runs
/// that still have one, its own goes first.
pub open spec fn is_next<T: Ord>(runs: Seq<Seq<T>>, taken: Seq<int>, i: int) -> bool {
    &&& waiting(runs, taken, i)
    &&& forall|j: int| #[trigger]
        waiting(runs, taken, j) ==> goes_first(runs, (i, taken[i]), (j, taken[j]))
}

/// How many items are still to be taken.
pub open spec fn remaining<T>(runs: Seq<Seq<T>>, taken: Seq<int>) -> nat
    decreases runs.len(),
{
    if runs.len() == 0 {
        0
    } else {
        let left = runs.last().len() - taken[runs.len() - 1];
        remaining(runs.drop_last(), taken) + if left > 0 {
            left as nat
        } else {
            0
        }
    }
}

/// The places in the order in which a merge visits them, from `taken` on: the
/// front item that goes first leaves, and the rest is merged.
pub open spec fn merge_order<T: Ord>(runs: Seq<Seq<T>>, taken: Seq<int>) -> Seq<(int, int)>
    decreases remaining(runs, taken),
{
    if exists|i: int| is_next(runs, taken, i) {
        let i = choose|i: int| is_next(runs, taken, i);
        proof {
            lemma_take_one(runs, taken, i);
        }
        seq![(i, taken[i])] + merge_order(runs, taken.update(i, taken[i] + 1))
    } else {
        Seq::empty()
    }
}

/// All runs merged into one.
pub open spec fn merged<T: Ord>(runs: Seq<Seq<T>>) -> Seq<T> {
    items(runs, merge_order(runs, untouched(runs)))
}

/// `places` visits every place from `taken` on exactly once, and each run from
/// front to back.
pub open spec fn interleaves_from<T>(
    runs: Seq<Seq<T>>,
    taken: Seq<int>,
    places: Seq<(int, int)>,
) -> bool {
    &&& forall|k: int|
        0 <= k < places.len() ==> {
            &&& 0 <= (#[trigger] places[k]).0 < runs.len()
            &&& taken[places[k].0] <= places[k].1 < runs[places[k].0].len()
        }
    &&& forall|i: int, e: int|
        0 <= i < runs.len() && taken[i] <= e < runs[i].len() ==> #[trigger] places.contains((i, e))
    &&& forall|k: int, l: int|
        0 <= k < l < places.len() && (#[trigger] places[k]).0 == (#[trigger] places[l]).0
            ==> places[k].1 < places[l].1
}

/// `places` visits every place of the runs exactly once, and each run from
/// front to back.
pub open spec fn interleaves<T>(runs: Seq<Seq<T>>, places: Seq<(int, int)>) -> bool {
    interleaves_from(runs, untouched(runs), places)
}

proof fn lemma_goes_first_total<T: Ord>(runs: Seq<Seq<T>>, x: (int, int), y: (int, int))
    requires
        totally_ordered::<T>(),
    ensures
        goes_first(runs, x, y) || goes_first(runs, y, x),
{
    lemma_total(item(runs, x), item(runs, y));
}

proof fn lemma_goes_first_transitive<T: Ord>(
    runs: Seq<Seq<T>>,
    x: (int, int),
    y: (int, int),
    z: (int, int),
)
    requires
        totally_ordered::<T>(),
        goes_first(runs, x, y),
        goes_first(runs, y, z),
    ensures
        goes_first(runs, x, z),
{
    let (a, b, c) = (item(runs, x), item(runs, y), item(runs, z));
    lemma_transitive(a, b, c);
    if not_after(c, a) {
        lemma_transitive(c, a, b);
        lemma_transitive(b, c, a);
    }
}

proof fn lemma_remaining_prefix<T>(runs: Seq<Seq<T>>, a: Seq<int>, b: Seq<int>)
    requires
        forall|i: int| 0 <= i < runs.len() ==> a[i] == b[i],
    ensures
        remaining(runs, a) == remaining(runs, b),
    decreases runs.len(),
{
    if runs.len() > 0 {
        lemma_remaining_prefix(runs.drop_last(), a, b);
    }
}

/// Taking one item leaves one fewer.
pub proof fn lemma_take_one<T>(runs: Seq<Seq<T>>, taken: Seq<int>, i: int)
    requires
        0 <= i < runs.len() <= taken.len(),
        0 <= taken[i] < runs[i].len(),
    ensures
        remaining(runs, taken.update(i, taken[i] + 1)) + 1 == remaining(runs, taken),
    decreases runs.len(),
{
    let next = taken.update(i, taken[i] + 1);
    if i == runs.len() - 1 {
        lemma_remaining_prefix(runs.drop_last(), taken, next);
    } else {
        lemma_take_one(runs.drop_last(), taken, i);
    }
}

/// Of finitely many waiting runs one is next.
pub(crate) proof fn lemma_next_exists<T: Ord>(runs: Seq<Seq<T>>, taken: Seq<int>, w: int)
    requires
        totally_ordered::<T>(),
        waiting(runs, taken, w),
    ensures
        exists|i: int| is_next(runs, taken, i),
{
    let i = lemma_next_among(runs, taken, w, runs.len() as int);
    assert(is_next(runs, taken, i));
}

proof fn lemma_next_among<T: Ord>(runs: Seq<Seq<T>>, taken: Seq<int>, w: int, n: int) -> (i: int)
    requires
        totally_ordered::<T>(),
        waiting(runs, taken, w),
        0 <= n <= runs.len(),
    ensures
        waiting(runs, taken, i),
        forall|j: int|
            0 <= j < n && #[trigger] waiting(runs, taken, j) ==> goes_first(
                runs,
                (i, taken[i]),
                (j, taken[j]),
            ),
    decreases n,
{
    if n == 0 {
        w
    } else {
        let i = lemma_next_among(runs, taken, w, n - 1);
        let (x, y) = ((i, taken[i]), (n - 1, taken[n - 1]));
        lemma_goes_first_total(runs, x, y);
        lemma_goes_first_total(runs, y, y);
        if waiting(runs, taken, n - 1) && !goes_first(runs, x, y) {
            assert forall|j: int| 0 <= j < n && #[trigger] waiting(runs, taken, j) implies goes_first(
                runs,
                y,
                (j, taken[j]),
            ) by {
                if j < n - 1 {
                    lemma_goes_first_transitive(runs, y, x, (j, taken[j]));
                }
            }
            n - 1
        } else {
            i
        }
    }
}

/// At most one run is next.
pub(crate) proof fn lemma_next_unique<T: Ord>(runs: Seq<Seq<T>>, taken: Seq<int>, i: int, j: int)
    requires
        is_next(runs, taken, i),
        is_next(runs, taken, j),
    ensures
        i == j,
{
}

/// A merge visits every place exactly once, and each run from front to back.
pub proof fn merge_interleaves<T: Ord>(runs: Seq<Seq<T>>, taken: Seq<int>)
    requires
        totally_ordered::<T>(),
        is_progress(runs, taken),
    ensures
        interleaves_from(runs, taken, merge_order(runs, taken)),
    decreases remaining(runs, taken),
{
    let places = merge_order(runs, taken);
    if exists|i: int| is_next(runs, taken, i) {
        let i = choose|i: int| is_next(runs, taken, i);
        let next = taken.update(i, taken[i] + 1);
        let rest = merge_order(runs, next);
        lemma_take_one(runs, taken, i);
        merge_interleaves(runs, next);
        assert(places == seq![(i, taken[i])] + rest);
        assert forall|j: int, e: int|
            0 <= j < runs.len() && taken[j] <= e < runs[j].len() implies #[trigger] places.contains(
            (j, e),
        ) by {
            if j == i && e == taken[i] {
                assert(places[0] == (j, e));
            } else {
                assert(rest.contains((j, e)));
                let k = rest.index_of((j, e));
                assert(places[k + 1] == (j, e));
            }
        }
        assert forall|k: int| 0 <= k < places.len() implies {
            &&& 0 <= (#[trigger] places[k]).0 < runs.len()
            &&& taken[places[k].0] <= places[k].1 < runs[places[k].0].len()
        } by {
            if k > 0 {
                assert(places[k] == rest[k - 1]);
            }
        }
        assert forall|k: int, l: int|
            0 <= k < l < places.len() && (#[trigger] places[k]).0 == (
            #[trigger] places[l]).0 implies places[k].1 < places[l].1 by {
            assert(places[l] == rest[l - 1]);
            if k > 0 {
                assert(places[k] == rest[k - 1]);
            }
        }
    } else {
        assert forall|j: int, e: int|
            0 <= j < runs.len() && taken[j] <= e < runs[j].len() implies #[trigger] places.contains(
            (j, e),
        ) by {
            lemma_next_exists(runs, taken, j);
        }
    }
}

/// Of ascending runs a merge visits the places in rank order: items ascend, and
/// equal items keep the order of their runs and of their places in a run.
pub proof fn merge_visits_in_rank_order<T: Ord>(runs: Seq<Seq<T>>, taken: Seq<int>)
    requires
        totally_ordered::<T>(),
        is_progress(runs, taken),
        forall|i: int| 0 <= i < runs.len() ==> ascending(#[trigger] runs[i]),
    ensures
        forall|k: int, l: int|
            0 <= k < l < merge_order(runs, taken).len() ==> goes_first(
                runs,
                #[trigger] merge_order(runs, taken)[k],
                #[trigger] merge_order(runs, taken)[l],
            ),
    decreases remaining(runs, taken),
{
    let places = merge_order(runs, taken);
    if exists|i: int| is_next(runs, taken, i) {
        let i = choose|i: int| is_next(runs, taken, i);
        let next = taken.update(i, taken[i] + 1);
        let rest = merge_order(runs, next);
        let x = (i, taken[i]);
        lemma_take_one(runs, taken, i);
        merge_interleaves(runs, next);
        merge_visits_in_rank_order(runs, next);
        assert(places == seq![x] + rest);
        assert forall|k: int, l: int| 0 <= k < l < places.len() implies goes_first(
            runs,
            #[trigger] places[k],
            #[trigger] places[l],
        ) by {
            assert(places[l] == rest[l - 1]);
            if k > 0 {
                assert(places[k] == rest[k - 1]);
            } else {
                let y = rest[l - 1];
                let front = (y.0, taken[y.0]);
                assert(ascending(runs[y.0]));
                assert(waiting(runs, taken, y.0));
                assert(goes_first(runs, x, front));
                if y.1 > taken[y.0] {
                    assert(not_after(runs[y.0][taken[y.0]], runs[y.0][y.1]));
                    assert(goes_first(runs, front, y));
                    lemma_goes_first_transitive(runs, x, front, y);
                }
            }
        }
    }
}

/// A merge takes the places one by one, each run from front to back. Each time it
/// takes the front item of a run that no front item of another run comes before;
/// of fronts that rank alike it takes that of the earliest run.
pub proof fn merge_takes_the_least_front<T: Ord>(runs: Seq<Seq<T>>) -> (places: Seq<(int, int)>)
    requires
        totally_ordered::<T>(),
    ensures
        merged(runs).len() == places.len(),
        forall|k: int|
            #![trigger places[k]]
            0 <= k < places.len() ==> {
                &&& 0 <= places[k].0 < runs.len()
                &&& 0 <= places[k].1 < runs[places[k].0].len()
                &&& merged(runs)[k] == runs[places[k].0][places[k].1]
            },
        forall|i: int, e: int|
            0 <= i < runs.len() && 0 <= e < runs[i].len() ==> #[trigger] places.contains((i, e)),
        forall|k: int, l: int|
            0 <= k < l < places.len() && (#[trigger] places[k]).0 == (#[trigger] places[l]).0
                ==> places[k].1 < places[l].1,
        forall|k: int, l: int|
            #![trigger places[k], places[l]]
            0 <= k < l < places.len() && (forall|m: int|
                k <= m < l ==> (#[trigger] places[m]).0 != places[l].0) ==> {
                let (a, b) = (
                    runs[places[k].0][places[k].1],
                    runs[places[l].0][places[l].1],
                );
                &&& not_after(a, b)
                &&& not_after(b, a) ==> places[k].0 < places[l].0
            },
{
    let none = untouched(runs);
    merge_interleaves(runs, none);
    lemma_fronts_in_order(runs, none);
    merge_order(runs, none)
}

proof fn lemma_fronts_in_order<T: Ord>(runs: Seq<Seq<T>>, taken: Seq<int>)
    requires
        totally_ordered::<T>(),
        is_progress(runs, taken),
    ensures
        ({
            let places = merge_order(runs, taken);
            forall|k: int, l: int|
                #![trigger places[k], places[l]]
                0 <= k < l < places.len() && (forall|m: int|
                    k <= m < l ==> (#[trigger] places[m]).0 != places[l].0) ==> goes_first(
                    runs,
                    places[k],
                    places[l],
                )
        }),
    decreases remaining(runs, taken),
{
    let places = merge_order(runs, taken);
    if exists|i: int| is_next(runs, taken, i) {
        let i = choose|i: int| is_next(runs, taken, i);
        let next = taken.update(i, taken[i] + 1);
        let rest = merge_order(runs, next);
        lemma_take_one(runs, taken, i);
        merge_interleaves(runs, taken);
        lemma_fronts_in_order(runs, next);
        assert(places == seq![(i, taken[i])] + rest);
        assert forall|k: int, l: int|
            #![trigger places[k], places[l]]
            0 <= k < l < places.len() && (forall|m: int|
                k <= m < l ==> (#[trigger] places[m]).0 != places[l].0) implies goes_first(
            runs,
            places[k],
            places[l],
        ) by {
            if k > 0 {
                assert(places[k] == rest[k - 1] && places[l] == rest[l - 1]);
                assert forall|m: int| k - 1 <= m < l - 1 implies (#[trigger] rest[m]).0 != rest[l
                    - 1].0 by {
                    assert(places[m + 1] == rest[m]);
                }
            } else {
                let j = places[l].0;
                assert(places.contains((j, taken[j])));
                let p = places.index_of((j, taken[j]));
                if p < l {
                    assert(places[p].0 == j);
                }
                if p > l {
                    assert(places[l].1 < places[p].1);
                }
                assert(waiting(runs, taken, j));
            }
        }
    }
}

/// Merging ascending runs is stable: items that rank alike keep the order of
/// their runs, and in one run their order there.
pub proof fn merge_is_stable<T: Ord>(runs: Seq<Seq<T>>) -> (places: Seq<(int, int)>)
    requires
        totally_ordered::<T>(),
        forall|i: int| 0 <= i < runs.len() ==> ascending(#[trigger] runs[i]),
    ensures
        merged(runs).len() == places.len(),
        forall|k: int|
            #![trigger places[k]]
            0 <= k < places.len() ==> {
                &&& 0 <= places[k].0 < runs.len()
                &&& 0 <= places[k].1 < runs[places[k].0].len()
                &&& merged(runs)[k] == runs[places[k].0][places[k].1]
            },
        forall|k: int, l: int|
            #![trigger places[k], places[l]]
            0 <= k < l < places.len() ==> {
                let (a, b) = (merged(runs)[k], merged(runs)[l]);
                &&& not_after(a, b)
                &&& not_after(b, a) ==> places[k].0 < places[l].0 || (places[k].0 == places[l].0
                    && places[k].1 < places[l].1)
            },
{
    let none = untouched(runs);
    let places = merge_order(runs, none);
    merge_interleaves(runs, none);
    merge_visits_in_rank_order(runs, none);
    assert forall|k: int, l: int|
        #![trigger places[k], places[l]]
        0 <= k < l < places.len() implies {
        let (a, b) = (merged(runs)[k], merged(runs)[l]);
        &&& not_after(a, b)
        &&& not_after(b, a) ==> places[k].0 < places[l].0 || (places[k].0 == places[l].0
            && places[k].1 < places[l].1)
    } by {
        assert(goes_first(runs, places[k], places[l]));
    }
    places
}

/// The merge of ascending runs ascends.
pub proof fn merge_of_ascending_runs_ascends<T: Ord>(runs: Seq<Seq<T>>)
    requires
        totally_ordered::<T>(),
        forall|i: int| 0 <= i < runs.len() ==> ascending(#[trigger] runs[i]),
    ensures
        ascending(merged(runs)),
{
    merge_visits_in_rank_order(runs, untouched(runs));
    let places = merge_order(runs, untouched(runs));
    assert forall|k: int, l: int| 0 <= k < l < merged(runs).len() implies not_after(
        #[trigger] merged(runs)[k],
        #[trigger] merged(runs)[l],
    ) by {
        assert(goes_first(runs, places[k], places[l]));
    }
}

/// What is left of each run.
pub open spec fn rests<T>(runs: Seq<Seq<T>>, taken: Seq<int>) -> Seq<Seq<T>> {
    Seq::new(runs.len(), |i: int| runs[i].skip(taken[i]))
}

proof fn lemma_flatten_empties<T>(runs: Seq<Seq<T>>)
    requires
        forall|i: int| 0 <= i < runs.len() ==> (#[trigger] runs[i]).len() == 0,
    ensures
        runs.flatten() == Seq::<T>::empty(),
    decreases runs.len(),
{
    if runs.len() > 0 {
        lemma_flatten_empties(runs.drop_first());
    }
}

/// Taking the front item of one run takes that item out of all items.
proof fn lemma_flatten_take_one<T>(runs: Seq<Seq<T>>, i: int)
    requires
        0 <= i < runs.len(),
        runs[i].len() > 0,
    ensures
        runs.update(i, runs[i].drop_first()).flatten().to_multiset().insert(runs[i][0])
            == runs.flatten().to_multiset(),
    decreases runs.len(),
{
    broadcast use vstd::multiset::group_multiset_axioms;

    let after = runs.update(i, runs[i].drop_first());
    let (head, tail) = (runs.first(), runs.drop_first());
    vstd::seq_lib::lemma_multiset_commutative(head, tail.flatten());
    vstd::seq_lib::lemma_multiset_commutative(after.first(), after.drop_first().flatten());
    if i == 0 {
        assert(after.drop_first() =~= tail);
        assert(head =~= seq![head[0]] + head.drop_first());
        vstd::seq_lib::lemma_multiset_commutative(seq![head[0]], head.drop_first());
        assert(seq![head[0]] =~= Seq::<T>::empty().push(head[0]));
        vstd::seq_lib::to_multiset_build(Seq::<T>::empty(), head[0]);
        assert(Seq::<T>::empty().to_multiset() =~= vstd::multiset::Multiset::empty()) by {
            vstd::seq_lib::to_multiset_len(Seq::<T>::empty());
        }
    } else {
        lemma_flatten_take_one(tail, i - 1);
        assert(after.drop_first() =~= tail.update(i - 1, tail[i - 1].drop_first()));
    }
    assert(after.flatten().to_multiset().insert(runs[i][0]) =~= runs.flatten().to_multiset());
}

/// Visiting every place once keeps all items, each as often as it occurs in
/// the runs.
pub proof fn interleaving_keeps_items<T>(
    runs: Seq<Seq<T>>,
    taken: Seq<int>,
    places: Seq<(int, int)>,
)
    requires
        is_progress(runs, taken),
        interleaves_from(runs, taken, places),
    ensures
        items(runs, places).to_multiset() == rests(runs, taken).flatten().to_multiset(),
    decreases places.len(),
{
    if places.len() == 0 {
        assert forall|i: int| 0 <= i < runs.len() implies (#[trigger] rests(
            runs,
            taken,
        )[i]).len() == 0 by {
            if taken[i] < runs[i].len() {
                assert(places.contains((i, taken[i])));
            }
        }
        lemma_flatten_empties(rests(runs, taken));
        assert(items(runs, places) =~= Seq::empty());
    } else {
        let x = places[0];
        let i = x.0;
        assert(places.contains((i, taken[i])));
        let k = places.index_of((i, taken[i]));
        assert(k == 0);
        let next = taken.update(i, taken[i] + 1);
        let rest = places.drop_first();
        assert forall|j: int, e: int|
            0 <= j < runs.len() && next[j] <= e < runs[j].len() implies #[trigger] rest.contains(
            (j, e),
        ) by {
            assert(places.contains((j, e)));
            let k = places.index_of((j, e));
            assert(rest[k - 1] == (j, e));
        }
        assert forall|k: int| 0 <= k < rest.len() implies {
            &&& 0 <= (#[trigger] rest[k]).0 < runs.len()
            &&& next[rest[k].0] <= rest[k].1 < runs[rest[k].0].len()
        } by {
            assert(rest[k] == places[k + 1]);
        }
        interleaving_keeps_items(runs, next, rest);
        let before = rests(runs, taken);
        assert(before[i][0] == item(runs, x));
        assert(rests(runs, next) =~= before.update(i, before[i].drop_first())) by {
            assert(runs[i].skip(taken[i] + 1) =~= runs[i].skip(taken[i]).drop_first());
        }
        lemma_flatten_take_one(before, i);
        assert(items(runs, places) =~= seq![item(runs, x)] + items(runs, rest));
        vstd::seq_lib::lemma_multiset_commutative(seq![item(runs, x)], items(runs, rest));
        vstd::seq_lib::lemma_multiset_commutative(items(runs, rest), seq![item(runs, x)]);
        assert(items(runs, rest) + seq![item(runs, x)] =~= items(runs, rest).push(item(runs, x)));
        vstd::seq_lib::to_multiset_build(items(runs, rest), item(runs, x));
        broadcast use vstd::multiset::group_multiset_axioms;
        assert(items(runs, places).to_multiset() =~= before.flatten().to_multiset());
    }
}

/// However the runs are interleaved, the result holds the items of all runs,
/// each as often as they do.
pub proof fn interleaving_keeps_all_items<T>(runs: Seq<Seq<T>>, places: Seq<(int, int)>)
    requires
        interleaves(runs, places),
    ensures
        items(runs, places).to_multiset() == runs.flatten().to_multiset(),
        places.len() == runs.flatten().len(),
{
    interleaving_keeps_items(runs, untouched(runs), places);
    assert(rests(runs, untouched(runs)) =~= runs) by {
        assert forall|i: int| 0 <= i < runs.len() implies runs[i].skip(0) == #[trigger] runs[i] by {
            assert(runs[i].skip(0) =~= runs[i]);
        }
    }
    to_multiset_len(items(runs, places));
    to_multiset_len(runs.flatten());
}

/// The merge holds the items of all runs, each as often as they do.
pub proof fn merge_keeps_items<T: Ord>(runs: Seq<Seq<T>>)
    requires
        totally_ordered::<T>(),
    ensures
        merged(runs).to_multiset() == runs.flatten().to_multiset(),
        merged(runs).len() == runs.flatten().len(),
{
    merge_interleaves(runs, untouched(runs));
    interleaving_keeps_all_items(runs, merge_order(runs, untouched(runs)));
}

/// The runs that hold anything.
pub open spec fn occupied<T>(runs: Seq<Seq<T>>) -> Seq<Seq<T>> {
    runs.filter(|run: Seq<T>| run.len() > 0)
}

/// Empty runs add nothing to all items.
proof fn lemma_flatten_occupied<T>(runs: Seq<Seq<T>>)
    ensures
        occupied(runs).flatten() == runs.flatten(),
    decreases runs.len(),
{
    reveal(Seq::filter);
    if runs.len() > 0 {
        let (shorter, last) = (runs.drop_last(), runs.last());
        lemma_flatten_occupied(shorter);
        assert(runs =~= shorter.push(last));
        shorter.lemma_flatten_push(last);
        if last.len() > 0 {
            occupied(shorter).lemma_flatten_push(last);
        } else {
            assert(shorter.flatten() + last =~= shorter.flatten());
        }
    }
}

/// Taking out one run takes its items out of all items.
proof fn lemma_flatten_remove<T>(runs: Seq<Seq<T>>, i: int)
    requires
        0 <= i < runs.len(),
    ensures
        runs.flatten().to_multiset() == runs.remove(i).flatten().to_multiset().add(
            runs[i].to_multiset(),
        ),
    decreases runs.len(),
{
    broadcast use vstd::multiset::group_multiset_axioms;

    let (head, tail) = (runs.first(), runs.drop_first());
    vstd::seq_lib::lemma_multiset_commutative(head, tail.flatten());
    if i == 0 {
        assert(runs.remove(0) =~= tail);
    } else {
        let left = runs.remove(i);
        lemma_flatten_remove(tail, i - 1);
        assert(left.first() == head);
        assert(left.drop_first() =~= tail.remove(i - 1));
        vstd::seq_lib::lemma_multiset_commutative(head, tail.remove(i - 1).flatten());
    }
    assert(runs.flatten().to_multiset() =~= runs.remove(i).flatten().to_multiset().add(
        runs[i].to_multiset(),
    ));
}

/// The order of the runs does not matter to what they hold together.
proof fn lemma_flatten_permuted<T>(a: Seq<Seq<T>>, b: Seq<Seq<T>>)
    requires
        a.to_multiset() == b.to_multiset(),
    ensures
        a.flatten().to_multiset() == b.flatten().to_multiset(),
    decreases a.len(),
{
    to_multiset_len(a);
    to_multiset_len(b);
    if a.len() > 0 {
        let last = a.len() - 1;
        to_multiset_contains(a, a[last]);
        to_multiset_contains(b, a[last]);
        let i = b.index_of(a[last]);
        to_multiset_remove(a, last);
        to_multiset_remove(b, i);
        lemma_flatten_remove(a, last);
        lemma_flatten_remove(b, i);
        lemma_flatten_permuted(a.remove(last), b.remove(i));
    } else {
        assert(a =~= b);
    }
}

/// Where values that rank alike are identical, ascending runs that hold the same
/// items have the same merge, however the items are spread over them.
pub proof fn merge_depends_on_items_alone<T: Ord>(a: Seq<Seq<T>>, b: Seq<Seq<T>>)
    requires
        totally_ordered::<T>(),
        equals_are_identical::<T>(),
        forall|i: int| 0 <= i < a.len() ==> ascending(#[trigger] a[i]),
        forall|i: int| 0 <= i < b.len() ==> ascending(#[trigger] b[i]),
        a.flatten().to_multiset() == b.flatten().to_multiset(),
    ensures
        merged(a) == merged(b),
{
    merge_keeps_items(a);
    merge_keeps_items(b);
    merge_of_ascending_runs_ascends(a);
    merge_of_ascending_runs_ascends(b);
    lemma_ascending_unique(merged(a), merged(b));
}

/// Where values that rank alike are identical, the merge of ascending runs
/// depends neither on the order of the runs nor on the empty ones among them.
pub proof fn merge_ignores_order_of_runs<T: Ord>(a: Seq<Seq<T>>, b: Seq<Seq<T>>)
    requires
        totally_ordered::<T>(),
        equals_are_identical::<T>(),
        forall|i: int| 0 <= i < a.len() ==> ascending(#[trigger] a[i]),
        forall|i: int| 0 <= i < b.len() ==> ascending(#[trigger] b[i]),
        occupied(a).to_multiset() == occupied(b).to_multiset(),
    ensures
        merged(a) == merged(b),
{
    lemma_flatten_occupied(a);
    lemma_flatten_occupied(b);
    lemma_flatten_permuted(occupied(a), occupied(b));
    merge_depends_on_items_alone(a, b);
}

} // verus!
