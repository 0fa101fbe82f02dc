//! Merge compaction of sorted runs.

use vstd::prelude::*;
use vstd::seq_lib::to_multiset_contains;

use crate::heap::{ahead, heap_ordered, pop, push, Entry};
use crate::merge::{
    contents, goes_first, interleaves, interleaving_keeps_all_items, is_next, is_progress,
    items, lemma_next_exists, lemma_next_unique, lemma_take_one, merge_ignores_order_of_runs,
    merge_of_ascending_runs_ascends, merge_order, merged, occupied, remaining, untouched, waiting,
};
use crate::rank::{
    ascending, equals_are_identical, lemma_transitive, not_after, totally_ordered,
};

verus! {

/// Performs merge-sort compaction of multiple sorted runs.
///
/// Each sorted run is a `Vec<T>` with `T: Ord`. The compactor merges them into
/// a single sorted output, simulating the kind of merge that would happen on
/// GPU data structures.
pub struct MergeCompactor;

/// `copies` holds a clone of each item of the runs, in the same place.
pub open spec fn are_copies<T: Clone>(runs: Seq<Seq<T>>, copies: Seq<Seq<T>>) -> bool {
    &&& copies.len() == runs.len()
    &&& forall|i: int| 0 <= i < runs.len() ==> (#[trigger] copies[i]).len() == runs[i].len()
    &&& forall|i: int, e: int|
        0 <= i < runs.len() && 0 <= e < runs[i].len() ==> cloned(
            #[trigger] runs[i][e],
            copies[i][e],
        )
}

/// `output` is what compacting the runs gives: each item is cloned once, and the
/// clones are merged. They come out interleaved even where `T`'s `Ord` is no
/// total order.
pub open spec fn is_compaction<T: Ord + Clone>(runs: Seq<Seq<T>>, output: Seq<T>) -> bool {
    exists|copies: Seq<Seq<T>>| #[trigger]
        are_copies(runs, copies) && {
            &&& totally_ordered::<T>() ==> output == merged(copies)
            &&& exists|places: Seq<(int, int)>| #[trigger]
                interleaves(copies, places) && output == items(copies, places)
        }
}

/// A clone ranks as what it was cloned from.
pub open spec fn clones_rank_alike<T: Ord + Clone>() -> bool {
    forall|a: T, b: T| #[trigger] cloned(a, b) ==> not_after(a, b) && not_after(b, a)
}

/// A clone is identical to what it was cloned from.
pub open spec fn clones_are_identical<T: Clone>() -> bool {
    forall|a: T, b: T| #[trigger] cloned(a, b) ==> a == b
}

/// The entry holds the clone of the front item of its run.
spec fn in_front<T>(
    runs: Seq<Seq<T>>,
    seen: Seq<Seq<T>>,
    taken: Seq<int>,
    entry: Entry<T>,
) -> bool {
    &&& waiting(runs, taken, entry.run as int)
    &&& entry.item == taken[entry.run as int]
    &&& entry.value == seen[entry.run as int][entry.item as int]
}

/// The heap holds the front item of each of the first `n` runs that still has
/// one, and nothing else.
spec fn holds_fronts<T>(
    runs: Seq<Seq<T>>,
    seen: Seq<Seq<T>>,
    taken: Seq<int>,
    heap: Seq<Entry<T>>,
    n: int,
) -> bool {
    forall|entry: Entry<T>| #[trigger]
        heap.to_multiset().count(entry) == if entry.run < n && in_front(runs, seen, taken, entry) {
            1nat
        } else {
            0nat
        }
}

/// `seen` holds the clones made so far: of the first `n` runs those of the items
/// that are taken and of the front item, of the others none.
spec fn seen_so_far<T: Clone>(
    runs: Seq<Seq<T>>,
    seen: Seq<Seq<T>>,
    taken: Seq<int>,
    n: int,
) -> bool {
    &&& seen.len() == runs.len()
    &&& forall|i: int|
        0 <= i < runs.len() ==> (#[trigger] seen[i]).len() == if i < n && taken[i] < runs[i].len() {
            taken[i] + 1
        } else {
            taken[i]
        }
    &&& forall|i: int, e: int|
        0 <= i < runs.len() && 0 <= e < seen[i].len() ==> cloned(
            runs[i][e],
            #[trigger] seen[i][e],
        )
}

/// `full` holds a clone of each item of the runs, among them those in `seen`.
spec fn extends<T>(runs: Seq<Seq<T>>, seen: Seq<Seq<T>>, full: Seq<Seq<T>>) -> bool {
    &&& full.len() == runs.len()
    &&& forall|i: int| 0 <= i < runs.len() ==> (#[trigger] full[i]).len() == runs[i].len()
    &&& forall|i: int, e: int|
        0 <= i < runs.len() && 0 <= e < seen[i].len() ==> #[trigger] full[i][e] == seen[i][e]
}

/// Whatever clones are still to come, a merge starts by visiting `places`.
spec fn merge_starts_with<T: Ord>(
    runs: Seq<Seq<T>>,
    seen: Seq<Seq<T>>,
    taken: Seq<int>,
    places: Seq<(int, int)>,
) -> bool {
    forall|full: Seq<Seq<T>>| #[trigger]
        extends(runs, seen, full) ==> places + merge_order(full, taken) == merge_order(
            full,
            untouched(full),
        )
}

/// `places` visits every place before `taken` exactly once, and each run from
/// front to back.
spec fn visited<T>(runs: Seq<Seq<T>>, taken: Seq<int>, places: Seq<(int, int)>) -> bool {
    &&& forall|k: int|
        0 <= k < places.len() ==> {
            &&& 0 <= (#[trigger] places[k]).0 < runs.len()
            &&& 0 <= places[k].1 < taken[places[k].0]
        }
    &&& forall|i: int, e: int|
        0 <= i < runs.len() && 0 <= e < taken[i] ==> #[trigger] places.contains((i, e))
    &&& forall|k: int, l: int|
        0 <= k < l < places.len() && (#[trigger] places[k]).0 == (#[trigger] places[l]).0
            ==> places[k].1 < places[l].1
}

proof fn lemma_visit<T>(
    runs: Seq<Seq<T>>,
    taken: Seq<int>,
    places: Seq<(int, int)>,
    i: int,
)
    requires
        visited(runs, taken, places),
        waiting(runs, taken, i),
    ensures
        visited(runs, taken.update(i, taken[i] + 1), places.push((i, taken[i]))),
{
    let next = taken.update(i, taken[i] + 1);
    let after = places.push((i, taken[i]));
    assert forall|j: int, e: int|
        0 <= j < runs.len() && 0 <= e < next[j] implies #[trigger] after.contains((j, e)) by {
        if j == i && e == taken[i] {
            assert(after[after.len() - 1] == (j, e));
        } else {
            assert(places.contains((j, e)));
            let k = places.index_of((j, e));
            assert(after[k] == (j, e));
        }
    }
}

/// The entry that leaves the heap is the one that a merge visits next, whatever
/// clones are still to come.
proof fn lemma_top_is_next<T: Ord + Clone>(
    runs: Seq<Vec<T>>,
    seen: Seq<Seq<T>>,
    taken: Seq<int>,
    heap: Seq<Entry<T>>,
    top: Entry<T>,
    full: Seq<Seq<T>>,
)
    requires
        runs.len() <= usize::MAX,
        is_progress(contents(runs), taken),
        seen_so_far(contents(runs), seen, taken, runs.len() as int),
        holds_fronts(contents(runs), seen, taken, heap, runs.len() as int),
        in_front(contents(runs), seen, taken, top),
        forall|k: int| 0 <= k < heap.len() ==> ahead(top, #[trigger] heap[k]),
        extends(contents(runs), seen, full),
    ensures
        merge_order(full, taken) == seq![(top.run as int, top.item as int)] + merge_order(
            full,
            taken.update(top.run as int, top.item + 1),
        ),
{
    let all = contents(runs);
    let i = top.run as int;
    assert(full[i][taken[i]] == seen[i][taken[i]]);
    assert forall|j: int| #[trigger] waiting(full, taken, j) implies goes_first(
        full,
        (i, taken[i]),
        (j, taken[j]),
    ) by {
        assert(runs[j].len() == all[j].len());
        assert(full[j][taken[j]] == seen[j][taken[j]]);
        let other = Entry {
            value: seen[j][taken[j]],
            run: j as usize,
            item: taken[j] as usize,
        };
        assert(in_front(all, seen, taken, other));
        to_multiset_contains(heap, other);
        let k = heap.index_of(other);
        assert(ahead(top, heap[k]));
    }
    assert(is_next(full, taken, i));
    let chosen = choose|j: int| is_next(full, taken, j);
    lemma_next_unique(full, taken, chosen, i);
}

/// Of a single run a merge visits the places from front to back.
proof fn lemma_single_run<T: Ord>(runs: Seq<Seq<T>>, taken: Seq<int>)
    requires
        totally_ordered::<T>(),
        runs.len() == 1,
        is_progress(runs, taken),
    ensures
        merge_order(runs, taken) == Seq::new(
            (runs[0].len() - taken[0]) as nat,
            |e: int| (0int, taken[0] + e),
        ),
    decreases remaining(runs, taken),
{
    if waiting(runs, taken, 0) {
        lemma_next_exists(runs, taken, 0);
        let i = choose|i: int| is_next(runs, taken, i);
        assert(i == 0);
        let next = taken.update(0, taken[0] + 1);
        lemma_take_one(runs, taken, 0);
        lemma_single_run(runs, next);
        assert(merge_order(runs, taken) == seq![(0int, taken[0])] + merge_order(runs, next));
    }
    assert(merge_order(runs, taken) =~= Seq::new(
        (runs[0].len() - taken[0]) as nat,
        |e: int| (0int, taken[0] + e),
    ));
}

proof fn lemma_ascends<T: Ord + Clone>(runs: Seq<Vec<T>>, output: Seq<T>)
    requires
        is_compaction(contents(runs), output),
    ensures
        totally_ordered::<T>() && clones_rank_alike::<T>() && (forall|i: int|
            0 <= i < runs.len() ==> ascending((#[trigger] runs[i])@)) ==> ascending(output),
{
    if totally_ordered::<T>() && clones_rank_alike::<T>() && forall|i: int|
        0 <= i < runs.len() ==> ascending((#[trigger] runs[i])@) {
        assert forall|i: int| 0 <= i < contents(runs).len() implies ascending(
            #[trigger] contents(runs)[i],
        ) by {
            assert(contents(runs)[i] == runs[i]@);
        }
        compacted_output_ascends(contents(runs), output);
    }
}

impl MergeCompactor {
    /// Merge-sort multiple sorted runs into a single sorted output.
    ///
    /// All input runs **must** be sorted in ascending order. The output is
    /// guaranteed to be sorted in ascending order. Equal items keep the order
    /// of their runs. Every item comes out, and those of one run in their
    /// order, whatever the runs hold.
    #[verifier::loop_isolation(false)]
    pub fn compact<T: Ord + Clone>(runs: &[Vec<T>]) -> (result: Vec<T>)
        ensures
            is_compaction(contents(runs@), result@),
            totally_ordered::<T>() && clones_rank_alike::<T>() && (forall|i: int|
                0 <= i < runs@.len() ==> ascending((#[trigger] runs@[i])@)) ==> ascending(result@),
    {
        let ghost all = contents(runs@);
        let count: usize = runs.len();
        if count == 0 {
            let result = Vec::new();
            proof {
                assert(are_copies(all, all));
                assert(interleaves(all, Seq::empty()));
                assert(items(all, Seq::empty()) =~= Seq::empty());
                assert(merge_order(all, untouched(all)) =~= Seq::empty());
                assert(merged(all) =~= Seq::empty());
            }
            return result;
        }
        if count == 1 {
            let result = runs[0].clone();
            proof {
                let copies = seq![result@];
                let places = Seq::new(copies[0].len(), |e: int| (0int, e));
                assert(are_copies(all, copies));
                assert forall|i: int, e: int|
                    0 <= i < copies.len() && untouched(copies)[i] <= e
                        < copies[i].len() implies #[trigger] places.contains((i, e)) by {
                    assert(places[e] == (i, e));
                }
                assert(interleaves(copies, places));
                assert(items(copies, places) =~= result@);
                if totally_ordered::<T>() {
                    lemma_single_run(copies, untouched(copies));
                    assert(merge_order(copies, untouched(copies)) =~= places);
                }
                lemma_ascends(runs@, result@);
            }
            return result;
        }
        let mut heap: Vec<Entry<T>> = Vec::new();
        let ghost mut taken = untouched(all);
        let ghost mut seen = Seq::new(all.len(), |i: int| Seq::<T>::empty());
        let mut i: usize = 0;
        proof {
            vstd::seq_lib::to_multiset_len(heap@);
            assert(heap@.to_multiset() =~= vstd::multiset::Multiset::empty()) by {
                broadcast use vstd::multiset::group_multiset_axioms;

            }
        }
        while i < count
            invariant
                i <= count,
                seen_so_far(all, seen, taken, i as int),
                holds_fronts(all, seen, taken, heap@, i as int),
                totally_ordered::<T>() ==> heap_ordered(heap@),
            decreases count - i,
        {
            assert(runs@[i as int].len() == all[i as int].len());
            if runs[i].len() > 0 {
                let value = runs[i][0].clone();
                proof {
                    seen = seen.update(i as int, seq![value]);
                }
                push(&mut heap, Entry { value, run: i, item: 0 });
                proof {
                    broadcast use vstd::multiset::group_multiset_axioms;

                    assert(seen_so_far(all, seen, taken, i + 1));
                    assert(holds_fronts(all, seen, taken, heap@, i + 1));
                }
            }
            i += 1;
        }
        let mut result: Vec<T> = Vec::new();
        let ghost mut places: Seq<(int, int)> = Seq::empty();
        proof {
            assert forall|full: Seq<Seq<T>>| #[trigger] extends(all, seen, full) implies places
                + merge_order(full, taken) == merge_order(full, untouched(full)) by {
                assert(untouched(full) =~= taken);
                assert(places + merge_order(full, taken) =~= merge_order(full, taken));
            }
        }
        loop
            invariant
                is_progress(all, taken),
                seen_so_far(all, seen, taken, count as int),
                holds_fronts(all, seen, taken, heap@, count as int),
                totally_ordered::<T>() ==> heap_ordered(heap@),
                visited(all, taken, places),
                result@ == items(seen, places),
                totally_ordered::<T>() ==> merge_starts_with(all, seen, taken, places),
            decreases remaining(all, taken),
        {
            let ghost fronts = heap@;
            match pop(&mut heap) {
                None => {
                    proof {
                        assert forall|i: int| !#[trigger] waiting(all, taken, i) by {
                            if waiting(all, taken, i) {
                                assert(runs@[i].len() == all[i].len());
                                let entry = Entry {
                                    value: seen[i][taken[i]],
                                    run: i as usize,
                                    item: taken[i] as usize,
                                };
                                assert(in_front(all, seen, taken, entry));
                                to_multiset_contains(fronts, entry);
                            }
                        }
                        assert forall|i: int| 0 <= i < all.len() implies taken[i]
                            == #[trigger] seen[i].len() && seen[i].len() == all[i].len() by {
                            assert(!waiting(all, taken, i));
                        }
                        assert(are_copies(all, seen));
                        assert(interleaves(seen, places));
                        if totally_ordered::<T>() {
                            assert(extends(all, seen, seen));
                            assert(merge_order(seen, taken) =~= Seq::empty());
                            assert(places + merge_order(seen, taken) =~= places);
                        }
                        lemma_ascends(runs@, result@);
                    }
                    return result;
                },
                Some(entry) => {
                    let ghost i = entry.run as int;
                    let ghost before = seen;
                    let ghost next = taken.update(i, taken[i] + 1);
                    let ghost after = places.push((i, taken[i]));
                    proof {
                        to_multiset_contains(fronts, entry);
                        assert(in_front(all, seen, taken, entry));
                        assert(runs@[i].len() == all[i].len());
                        lemma_take_one(all, taken, i);
                        lemma_visit(all, taken, places, i);
                    }
                    let Entry { value, run, item } = entry;
                    result.push(value);
                    let following: usize = item + 1;
                    if following < runs[run].len() {
                        let value = runs[run][following].clone();
                        proof {
                            seen = seen.update(i, seen[i].push(value));
                        }
                        push(&mut heap, Entry { value, run, item: following });
                    }
                    proof {
                        broadcast use vstd::multiset::group_multiset_axioms;

                        assert(seen_so_far(all, seen, next, count as int));
                        assert(holds_fronts(all, seen, next, heap@, count as int));
                        assert(items(seen, after) =~= items(before, places).push(value));
                        if totally_ordered::<T>() {
                            assert forall|full: Seq<Seq<T>>| #[trigger]
                                extends(all, seen, full) implies after + merge_order(full, next)
                                == merge_order(full, untouched(full)) by {
                                assert(extends(all, before, full));
                                lemma_top_is_next(runs@, before, taken, fronts, entry, full);
                                assert(after + merge_order(full, next) =~= places + (seq![
                                    (i, taken[i]),
                                ] + merge_order(full, next)));
                            }
                        }
                        places = after;
                        taken = next;
                    }
                },
            }
        }
    }
}

/// Where a clone ranks as what it was cloned from, compacting ascending runs
/// gives ascending output.
pub proof fn compacted_output_ascends<T: Ord + Clone>(runs: Seq<Seq<T>>, output: Seq<T>)
    requires
        totally_ordered::<T>(),
        forall|i: int| 0 <= i < runs.len() ==> ascending(#[trigger] runs[i]),
        clones_rank_alike::<T>(),
        is_compaction(runs, output),
    ensures
        ascending(output),
{
    let copies = choose|copies: Seq<Seq<T>>| #[trigger]
        are_copies(runs, copies) && output == merged(copies);
    assert forall|i: int| 0 <= i < copies.len() implies ascending(#[trigger] copies[i]) by {
        let (run, copy) = (runs[i], copies[i]);
        assert(ascending(run));
        assert forall|k: int, l: int| 0 <= k < l < copy.len() implies not_after(
            #[trigger] copy[k],
            #[trigger] copy[l],
        ) by {
            assert(cloned(run[k], copy[k]));
            assert(cloned(run[l], copy[l]));
            lemma_transitive(copy[k], run[k], run[l]);
            lemma_transitive(copy[k], run[l], copy[l]);
        }
    }
    merge_of_ascending_runs_ascends(copies);
}

proof fn lemma_identical_copies<T: Clone>(runs: Seq<Seq<T>>, copies: Seq<Seq<T>>)
    requires
        clones_are_identical::<T>(),
        are_copies(runs, copies),
    ensures
        copies == runs,
{
    assert forall|i: int| 0 <= i < runs.len() implies #[trigger] copies[i] == runs[i] by {
        assert forall|e: int| 0 <= e < runs[i].len() implies copies[i][e] == runs[i][e] by {
            assert(cloned(runs[i][e], copies[i][e]));
        }
        assert(copies[i] =~= runs[i]);
    }
    assert(copies =~= runs);
}

proof fn lemma_copies_keep_count<T: Clone>(runs: Seq<Seq<T>>, copies: Seq<Seq<T>>)
    requires
        are_copies(runs, copies),
    ensures
        copies.flatten().len() == runs.flatten().len(),
    decreases runs.len(),
{
    if runs.len() > 0 {
        let (r, c) = (runs.drop_first(), copies.drop_first());
        assert forall|i: int, e: int| 0 <= i < r.len() && 0 <= e < r[i].len() implies cloned(
            #[trigger] r[i][e],
            c[i][e],
        ) by {
            assert(cloned(runs[i + 1][e], copies[i + 1][e]));
        }
        lemma_copies_keep_count(r, c);
    }
}

/// Compacting gives out as many items as the runs hold. Where a clone is
/// identical to what it was cloned from, they are the items of the runs, each as
/// often as it occurs there. Nothing is asked of the order on the items.
pub proof fn compacted_output_keeps_items<T: Ord + Clone>(runs: Seq<Seq<T>>, output: Seq<T>)
    requires
        is_compaction(runs, output),
    ensures
        output.len() == runs.flatten().len(),
        clones_are_identical::<T>() ==> output.to_multiset() == runs.flatten().to_multiset(),
{
    let copies = choose|copies: Seq<Seq<T>>| #[trigger]
        are_copies(runs, copies) && exists|places: Seq<(int, int)>| #[trigger]
            interleaves(copies, places) && output == items(copies, places);
    let places = choose|places: Seq<(int, int)>| #[trigger]
        interleaves(copies, places) && output == items(copies, places);
    interleaving_keeps_all_items(copies, places);
    lemma_copies_keep_count(runs, copies);
    if clones_are_identical::<T>() {
        lemma_identical_copies(runs, copies);
    }
}

/// Every item that compacting gives out is the clone of an item of the runs.
pub proof fn compacted_items_are_clones<T: Ord + Clone>(
    runs: Seq<Vec<T>>,
    output: Seq<T>,
    k: int,
) -> (place: (int, int))
    requires
        is_compaction(contents(runs), output),
        0 <= k < output.len(),
    ensures
        0 <= place.0 < runs.len(),
        0 <= place.1 < runs[place.0]@.len(),
        cloned(runs[place.0]@[place.1], output[k]),
{
    let all = contents(runs);
    let copies = choose|copies: Seq<Seq<T>>| #[trigger]
        are_copies(all, copies) && exists|places: Seq<(int, int)>| #[trigger]
            interleaves(copies, places) && output == items(copies, places);
    let places = choose|places: Seq<(int, int)>| #[trigger]
        interleaves(copies, places) && output == items(copies, places);
    let place = places[k];
    assert(copies[place.0].len() == all[place.0].len());
    assert(cloned(all[place.0][place.1], copies[place.0][place.1]));
    place
}

/// A run counts by what it holds, in its place.
pub proof fn contents_are_the_runs<T>(runs: Seq<Vec<T>>)
    ensures
        contents(runs).len() == runs.len(),
        forall|i: int| 0 <= i < runs.len() ==> #[trigger] contents(runs)[i] == runs[i]@,
{
}

/// Where a clone is identical to what it was cloned from, compacting gives the
/// merge of the runs themselves.
pub proof fn compacted_output_is_the_merge<T: Ord + Clone>(runs: Seq<Seq<T>>, output: Seq<T>)
    requires
        totally_ordered::<T>(),
        clones_are_identical::<T>(),
        is_compaction(runs, output),
    ensures
        output == merged(runs),
{
    let copies = choose|copies: Seq<Seq<T>>| #[trigger]
        are_copies(runs, copies) && output == merged(copies);
    lemma_identical_copies(runs, copies);
}

/// Where clones, and values that rank alike, are identical, the output for
/// ascending runs depends neither on the order of the runs nor on the empty ones
/// among them.
pub proof fn compaction_ignores_order_of_runs<T: Ord + Clone>(
    a: Seq<Seq<T>>,
    output_a: Seq<T>,
    b: Seq<Seq<T>>,
    output_b: Seq<T>,
)
    requires
        totally_ordered::<T>(),
        equals_are_identical::<T>(),
        clones_are_identical::<T>(),
        forall|i: int| 0 <= i < a.len() ==> ascending(#[trigger] a[i]),
        forall|i: int| 0 <= i < b.len() ==> ascending(#[trigger] b[i]),
        occupied(a).to_multiset() == occupied(b).to_multiset(),
        is_compaction(a, output_a),
        is_compaction(b, output_b),
    ensures
        output_a == output_b,
{
    compacted_output_is_the_merge(a, output_a);
    compacted_output_is_the_merge(b, output_b);
    merge_ignores_order_of_runs(a, b);
}

} // verus!
