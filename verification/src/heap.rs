//! A binary min-heap of items that wait to be merged.
//!
//! The root is the entry that goes first. An operation visits at most one
//! position on each level of the tree, and with it that position's neighbours;
//! this is read off the loops, not proved.

use vstd::prelude::*;
use vstd::seq_lib::{to_multiset_build, to_multiset_contains, to_multiset_remove, to_multiset_update};

use crate::rank::{lemma_total, lemma_transitive, not_after, stands_before, totally_ordered};

verus! {

/// An item and where it was cloned from.
pub(crate) struct Entry<T> {
    /// The item.
    pub(crate) value: T,
    /// Index of its run.
    pub(crate) run: usize,
    /// Index of the item in its run.
    pub(crate) item: usize,
}

/// Entries are ranked by their items; between equal items the earlier run goes
/// first, and in one run the earlier item.
pub(crate) open spec fn ahead<T: Ord>(a: Entry<T>, b: Entry<T>) -> bool {
    &&& not_after(a.value, b.value)
    &&& not_after(b.value, a.value) ==> a.run < b.run || (a.run == b.run && a.item <= b.item)
}

/// The parent of a position in the heap.
pub(crate) open spec fn parent(i: int) -> int {
    (i - 1) / 2
}

/// No position's parent goes after it.
pub(crate) open spec fn heap_ordered<T: Ord>(heap: Seq<Entry<T>>) -> bool {
    forall|i: int| 0 < i < heap.len() ==> ahead(heap[parent(i)], #[trigger] heap[i])
}

/// Heap order, but for the link between position `hole` and its parent.
spec fn ordered_above<T: Ord>(heap: Seq<Entry<T>>, hole: int) -> bool {
    &&& forall|i: int|
        0 < i < heap.len() && i != hole ==> ahead(heap[parent(i)], #[trigger] heap[i])
    &&& forall|i: int|
        0 < i < heap.len() && parent(i) == hole && hole > 0 ==> ahead(
            heap[parent(hole)],
            #[trigger] heap[i],
        )
}

/// Heap order, but for the links between position `hole` and its children.
spec fn ordered_below<T: Ord>(heap: Seq<Entry<T>>, hole: int) -> bool {
    &&& forall|i: int|
        0 < i < heap.len() && parent(i) != hole ==> ahead(heap[parent(i)], #[trigger] heap[i])
    &&& forall|i: int|
        0 < i < heap.len() && parent(i) == hole && hole > 0 ==> ahead(
            heap[parent(hole)],
            #[trigger] heap[i],
        )
}

proof fn lemma_ahead_total<T: Ord>(a: Entry<T>, b: Entry<T>)
    requires
        totally_ordered::<T>(),
    ensures
        ahead(a, b) || ahead(b, a),
{
    lemma_total(a.value, b.value);
}

proof fn lemma_ahead_transitive<T: Ord>(a: Entry<T>, b: Entry<T>, c: Entry<T>)
    requires
        totally_ordered::<T>(),
        ahead(a, b),
        ahead(b, c),
    ensures
        ahead(a, c),
{
    lemma_transitive(a.value, b.value, c.value);
    if not_after(c.value, a.value) {
        lemma_transitive(c.value, a.value, b.value);
        lemma_transitive(b.value, c.value, a.value);
    }
}

/// The root of an ordered heap goes first of all.
proof fn lemma_root_goes_first<T: Ord>(heap: Seq<Entry<T>>, k: int)
    requires
        totally_ordered::<T>(),
        heap_ordered(heap),
        0 <= k < heap.len(),
    ensures
        ahead(heap[0], heap[k]),
    decreases k,
{
    if k == 0 {
        lemma_ahead_total(heap[0], heap[0]);
    } else {
        lemma_root_goes_first(heap, parent(k));
        lemma_ahead_transitive(heap[0], heap[parent(k)], heap[k]);
    }
}

/// Exchanging two entries keeps what the heap holds.
proof fn lemma_swap_keeps_entries<T>(heap: Seq<Entry<T>>, i: int, j: int)
    requires
        0 <= i < heap.len(),
        0 <= j < heap.len(),
    ensures
        heap.update(i, heap[j]).update(j, heap[i]).to_multiset() == heap.to_multiset(),
{
    broadcast use vstd::multiset::group_multiset_axioms;

    let first = heap.update(i, heap[j]);
    to_multiset_update(heap, i, heap[j]);
    to_multiset_update(first, j, heap[i]);
    to_multiset_contains(heap, heap[i]);
    to_multiset_contains(heap, heap[j]);
    assert(first.update(j, heap[i]).to_multiset() =~= heap.to_multiset());
}

/// Whether the entry `a` goes first, compared with `b`.
fn precedes<T: Ord>(a: &Entry<T>, b: &Entry<T>) -> (before: bool)
    ensures
        totally_ordered::<T>() ==> before == ahead(*a, *b),
{
    let tie = a.run < b.run || (a.run == b.run && a.item <= b.item);
    stands_before(&a.value, &b.value, tie)
}

fn exchange<T>(heap: &mut Vec<Entry<T>>, i: usize, j: usize)
    requires
        i < j < old(heap)@.len(),
    ensures
        final(heap)@ == old(heap)@.update(i as int, old(heap)@[j as int]).update(
            j as int,
            old(heap)@[i as int],
        ),
        final(heap)@.to_multiset() == old(heap)@.to_multiset(),
{
    proof {
        lemma_swap_keeps_entries(heap@, i as int, j as int);
    }
    let (front, back) = heap.as_mut_slice().split_at_mut(j);
    std::mem::swap(&mut front[i], &mut back[0]);
    assert(heap@ =~= old(heap)@.update(i as int, old(heap)@[j as int]).update(
        j as int,
        old(heap)@[i as int],
    ));
}

/// Puts an entry on the heap.
#[verifier::loop_isolation(false)]
pub(crate) fn push<T: Ord>(heap: &mut Vec<Entry<T>>, entry: Entry<T>)
    requires
        totally_ordered::<T>() ==> heap_ordered(old(heap)@),
    ensures
        totally_ordered::<T>() ==> heap_ordered(final(heap)@),
        final(heap)@.to_multiset() == old(heap)@.to_multiset().insert(entry),
{
    proof {
        to_multiset_build(heap@, entry);
    }
    let ghost all = heap@.push(entry).to_multiset();
    heap.push(entry);
    let mut hole: usize = heap.len() - 1;
    while hole > 0
        invariant
            hole < heap@.len(),
            heap@.to_multiset() == all,
            totally_ordered::<T>() ==> ordered_above(heap@, hole as int),
        decreases hole,
    {
        let up: usize = (hole - 1) / 2;
        if precedes(&heap[up], &heap[hole]) {
            assert(totally_ordered::<T>() ==> heap_ordered(heap@));
            return;
        }
        let ghost before = heap@;
        exchange(heap, up, hole);
        proof {
            if totally_ordered::<T>() {
                lemma_sift_up_step(before, hole as int);
            }
        }
        hole = up;
    }
}

/// One step of letting an entry rise.
proof fn lemma_sift_up_step<T: Ord>(heap: Seq<Entry<T>>, hole: int)
    requires
        totally_ordered::<T>(),
        0 < hole < heap.len(),
        ordered_above(heap, hole),
        !ahead(heap[parent(hole)], heap[hole]),
    ensures
        ordered_above(
            heap.update(parent(hole), heap[hole]).update(hole, heap[parent(hole)]),
            parent(hole),
        ),
{
    let up = parent(hole);
    let after = heap.update(up, heap[hole]).update(hole, heap[up]);
    lemma_ahead_total(heap[up], heap[hole]);
    assert forall|i: int| 0 < i < after.len() && i != up implies ahead(
        after[parent(i)],
        #[trigger] after[i],
    ) by {
        if i != hole {
            assert(ahead(heap[parent(i)], heap[i]));
            if parent(i) == up {
                lemma_ahead_transitive(heap[hole], heap[up], heap[i]);
            }
        }
    }
    assert forall|i: int| 0 < i < after.len() && parent(i) == up && up > 0 implies ahead(
        after[parent(up)],
        #[trigger] after[i],
    ) by {
        assert(ahead(heap[parent(up)], heap[up]));
        if i != hole {
            assert(ahead(heap[up], heap[i]));
            lemma_ahead_transitive(heap[parent(up)], heap[up], heap[i]);
        }
    }
}

/// One step of letting an entry sink: `child` is the child of `hole` that goes
/// first, and it goes before the entry at `hole`.
proof fn lemma_sift_down_step<T: Ord>(heap: Seq<Entry<T>>, hole: int, child: int)
    requires
        totally_ordered::<T>(),
        0 <= hole < heap.len(),
        0 < child < heap.len(),
        parent(child) == hole,
        ordered_below(heap, hole),
        !ahead(heap[hole], heap[child]),
        forall|i: int|
            0 < i < heap.len() && parent(i) == hole ==> ahead(heap[child], #[trigger] heap[i]),
    ensures
        ordered_below(heap.update(hole, heap[child]).update(child, heap[hole]), child),
{
    let after = heap.update(hole, heap[child]).update(child, heap[hole]);
    lemma_ahead_total(heap[hole], heap[child]);
    assert forall|i: int| 0 < i < after.len() && parent(i) != child implies ahead(
        after[parent(i)],
        #[trigger] after[i],
    ) by {
        if parent(i) == hole {
            assert(ahead(heap[child], heap[i]));
        } else if i == hole {
            assert(ahead(heap[parent(hole)], heap[child]));
        } else {
            assert(ahead(heap[parent(i)], heap[i]));
        }
    }
    assert forall|i: int| 0 < i < after.len() && parent(i) == child && child > 0 implies ahead(
        after[parent(child)],
        #[trigger] after[i],
    ) by {
        assert(ahead(heap[parent(i)], heap[i]));
    }
}

/// Takes the entry that goes first off the heap.
#[verifier::loop_isolation(false)]
pub(crate) fn pop<T: Ord>(heap: &mut Vec<Entry<T>>) -> (top: Option<Entry<T>>)
    requires
        totally_ordered::<T>() ==> heap_ordered(old(heap)@),
    ensures
        totally_ordered::<T>() ==> heap_ordered(final(heap)@),
        match top {
            None => old(heap)@.len() == 0 && final(heap)@ == old(heap)@,
            Some(entry) => {
                &&& old(heap)@.contains(entry)
                &&& final(heap)@.to_multiset() == old(heap)@.to_multiset().remove(entry)
                &&& totally_ordered::<T>() ==> forall|k: int|
                    0 <= k < old(heap)@.len() ==> ahead(entry, #[trigger] old(heap)@[k])
            },
        },
{
    let ghost start = heap@;
    if heap.len() == 0 {
        return None;
    }
    let top = heap.swap_remove(0);
    proof {
        let moved = start.update(0, start.last());
        broadcast use vstd::multiset::group_multiset_axioms;

        assert(moved.drop_last() =~= moved.remove(moved.len() - 1));
        to_multiset_update(start, 0, start.last());
        to_multiset_remove(moved, moved.len() - 1);
        to_multiset_contains(start, top);
        to_multiset_contains(start, start.last());
        assert(start.contains(top)) by {
            assert(start[0] == top);
        }
        assert(heap@.to_multiset() =~= start.to_multiset().remove(top));
        if totally_ordered::<T>() {
            assert forall|k: int| 0 <= k < start.len() implies ahead(
                top,
                #[trigger] start[k],
            ) by {
                lemma_root_goes_first(start, k);
            }
        }
    }
    let ghost all = heap@.to_multiset();
    let len: usize = heap.len();
    let mut hole: usize = 0;
    assert(totally_ordered::<T>() ==> ordered_below(heap@, 0));
    while hole < len / 2
        invariant
            len == heap@.len(),
            hole <= len,
            heap@.to_multiset() == all,
            totally_ordered::<T>() ==> ordered_below(heap@, hole as int),
        decreases len - hole,
    {
        let left: usize = 2 * hole + 1;
        let right: usize = left + 1;
        let mut child: usize = left;
        if right < len && precedes(&heap[right], &heap[left]) {
            child = right;
        }
        proof {
            if totally_ordered::<T>() {
                lemma_ahead_total(heap@[left as int], heap@[left as int]);
                if right < len {
                    lemma_ahead_total(heap@[right as int], heap@[right as int]);
                    lemma_ahead_total(heap@[left as int], heap@[right as int]);
                }
                assert forall|i: int| 0 < i < heap@.len() && parent(i) == hole implies ahead(
                    heap@[child as int],
                    #[trigger] heap@[i],
                ) by {
                    assert(i == left || i == right);
                }
            }
        }
        if precedes(&heap[hole], &heap[child]) {
            proof {
                if totally_ordered::<T>() {
                    assert forall|i: int| 0 < i < heap@.len() implies ahead(
                        heap@[parent(i)],
                        #[trigger] heap@[i],
                    ) by {
                        if parent(i) == hole {
                            lemma_ahead_transitive(
                                heap@[hole as int],
                                heap@[child as int],
                                heap@[i],
                            );
                        }
                    }
                }
            }
            return Some(top);
        }
        let ghost before = heap@;
        exchange(heap, hole, child);
        proof {
            if totally_ordered::<T>() {
                lemma_sift_down_step(before, hole as int, child as int);
            }
        }
        hole = child;
    }
    Some(top)
}

} // verus!
