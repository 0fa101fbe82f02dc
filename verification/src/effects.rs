//! What each operation of the scheduler does, field by field and segment by
//! segment.

use vstd::arithmetic::power2::pow2;
use vstd::prelude::*;

use crate::job::CompactionJob;
use crate::laws::{completes, compaction_keeps_live_data, distinct_ids};
use crate::scheduler::{in_state, max_id, sources, SchedulerState};
use crate::segment::{
    capacity, dead, dead_fraction, six_tenths_dead_need_compaction, total_capacity, total_dead,
    total_used, used, Segment,
};
use crate::selection::{compaction_order, compaction_order_is_worst_first, taken_before};
use crate::state::CompactionState;
use crate::stats::sums_add_every_counter;
use crate::sums::{lemma_sum_additive, lemma_sum_push, lemma_sum_split};

verus! {

/// A new scheduler manages the given segments as they are, has issued and
/// counted nothing, and its next target id is one above the greatest id given.
pub proof fn new_schedulers_manage_what_they_get(segments: Seq<Segment>)
    requires
        forall|i: int| 0 <= i < segments.len() ==> (#[trigger] segments[i]).id < u64::MAX,
    ensures
        ({
            let state = SchedulerState::initial(segments);
            &&& state.segments == segments
            &&& state.next_job_id == 0
            &&& state.stats.total_bytes_compacted == 0
            &&& state.stats.space_reclaimed == 0
            &&& state.stats.jobs_completed == 0
            &&& state.stats.segments_merged == 0
            &&& forall|i: int|
                0 <= i < segments.len() ==> (#[trigger] segments[i]).id < state.next_segment_id
            &&& segments.len() == 0 ==> state.next_segment_id == 1
            &&& segments.len() > 0 ==> exists|i: int|
                0 <= i < segments.len() && (#[trigger] segments[i]).id + 1 == state.next_segment_id
        }),
    decreases segments.len(),
{
    if segments.len() > 0 {
        let shorter = segments.drop_last();
        let last = segments.len() - 1;
        assert forall|i: int| 0 <= i < shorter.len() implies (#[trigger] shorter[i]).id
            < u64::MAX by {
            assert(shorter[i] == segments[i]);
        }
        new_schedulers_manage_what_they_get(shorter);
        let before = SchedulerState::initial(shorter).next_segment_id;
        assert(max_id(shorter) < u64::MAX) by {
            if shorter.len() > 0 {
                lemma_max_id_is_one_of(shorter);
            }
        }
        assert forall|i: int| 0 <= i < segments.len() implies (#[trigger] segments[i]).id
            < SchedulerState::initial(segments).next_segment_id by {
            if i < last {
                assert(shorter[i] == segments[i]);
            }
        }
        lemma_max_id_is_one_of(segments);
    }
}

proof fn lemma_max_id_is_one_of(segments: Seq<Segment>)
    requires
        segments.len() > 0,
    ensures
        exists|i: int| 0 <= i < segments.len() && (#[trigger] segments[i]).id == max_id(segments),
    decreases segments.len(),
{
    let shorter = segments.drop_last();
    let last = segments.len() - 1;
    if segments[last].id >= max_id(shorter) {
        assert(segments[last].id == max_id(segments));
    } else {
        lemma_max_id_is_one_of(shorter);
        let i = choose|i: int|
            0 <= i < shorter.len() && (#[trigger] shorter[i]).id == max_id(shorter);
        assert(segments[i].id == max_id(segments));
    }
}

/// Adding a segment lists it last, exactly as it is, and leaves the others where
/// and as they are. The next target id stays above its id, and changes for that
/// alone. Nothing else changes.
pub proof fn added_segments_are_listed_last(state: SchedulerState, seg: Segment)
    requires
        seg.id >= state.next_segment_id ==> seg.id < u64::MAX,
    ensures
        ({
            let after = state.after_add(seg);
            &&& after.segments.len() == state.segments.len() + 1
            &&& after.segments.last() == seg
            &&& after.segments.drop_last() == state.segments
            &&& after.next_segment_id > seg.id
            &&& after.next_segment_id >= state.next_segment_id
            &&& after.next_segment_id == state.next_segment_id || after.next_segment_id == seg.id
                + 1
            &&& state.next_segment_id > seg.id ==> after.next_segment_id == state.next_segment_id
            &&& after.next_job_id == state.next_job_id
            &&& after.stats == state.stats
        }),
{
    assert(state.after_add(seg).segments.drop_last() =~= state.segments);
}

/// A new scheduler to which a segment is added lists what one lists that started
/// with it.
pub proof fn adding_is_starting_with(segments: Seq<Segment>, seg: Segment)
    ensures
        SchedulerState::initial(segments).after_add(seg).segments == SchedulerState::initial(
            segments.push(seg),
        ).segments,
        SchedulerState::initial(segments).after_add(seg).segments == segments + seq![seg],
{
    assert(segments.push(seg) =~= segments + seq![seg]);
}

/// Refreshing keeps every segment in its place, with its id and its sizes. Its
/// state becomes what its sizes ask for: up to a capacity of 2^50 bytes
/// "needs compaction" from six tenths dead on, and "compacted" below three
/// tenths. Nothing else changes.
pub proof fn refreshing_updates_states_only(state: SchedulerState, i: int)
    requires
        0 <= i < state.segments.len(),
    ensures
        ({
            let after = state.after_refresh();
            let (s, r) = (state.segments[i], after.segments[i]);
            &&& after.segments.len() == state.segments.len()
            &&& r.id == s.id
            &&& r.capacity == s.capacity
            &&& r.used_bytes == s.used_bytes
            &&& r.state == CompactionState::NeedsCompaction <==> dead_fraction(
                s.capacity,
                s.used_bytes,
            ) >= 5404319552844595 * pow2(1021)
            &&& s.capacity <= 0x4_0000_0000_0000 ==> {
                &&& r.state == CompactionState::NeedsCompaction <==> s.used_bytes < s.capacity
                    && 10 * (s.capacity - s.used_bytes) >= 6 * s.capacity
                &&& r.state == CompactionState::Compacted <==> s.used_bytes >= s.capacity || 10 * (
                s.capacity - s.used_bytes) < 3 * s.capacity
            }
            &&& after.next_job_id == state.next_job_id
            &&& after.next_segment_id == state.next_segment_id
            &&& after.stats == state.stats
        }),
{
    six_tenths_dead_need_compaction(state.segments[i]);
}

/// There is work if and only if some managed segment's refreshed state is "needs
/// compaction", whatever its size. Where no segment is larger than 2^50 bytes,
/// that is if and only if six tenths of some segment are dead.
pub proof fn work_is_six_tenths_dead(state: SchedulerState)
    ensures
        state.has_work() <==> exists|i: int|
            0 <= i < state.segments.len() && (#[trigger] state.after_refresh().segments[i]).state
                == CompactionState::NeedsCompaction,
        forall|i: int|
            0 <= i < state.segments.len() && (#[trigger] state.segments[i]).capacity
                <= 0x4_0000_0000_0000 && state.segments[i].used_bytes < state.segments[i].capacity
                && 10 * (state.segments[i].capacity - state.segments[i].used_bytes) >= 6
                * state.segments[i].capacity ==> state.has_work(),
        (forall|i: int|
            0 <= i < state.segments.len() ==> (#[trigger] state.segments[i]).capacity
                <= 0x4_0000_0000_0000) ==> (state.has_work() <==> exists|i: int|
            0 <= i < state.segments.len() && (#[trigger] state.segments[i]).used_bytes
                < state.segments[i].capacity && 10 * (state.segments[i].capacity
                - state.segments[i].used_bytes) >= 6 * state.segments[i].capacity),
{
    assert forall|i: int| 0 <= i < state.segments.len() implies {
        &&& (#[trigger] state.segments[i]).fragmented() <==> state.after_refresh().segments[i].state
            == CompactionState::NeedsCompaction
        &&& state.segments[i].capacity <= 0x4_0000_0000_0000 ==> (state.segments[i].fragmented()
            <==> state.segments[i].used_bytes < state.segments[i].capacity && 10 * (
        state.segments[i].capacity - state.segments[i].used_bytes) >= 6
            * state.segments[i].capacity)
    } by {
        six_tenths_dead_need_compaction(state.segments[i]);
    }
    if state.has_work() {
        let i = choose|i: int|
            0 <= i < state.segments.len() && (#[trigger] state.segments[i]).fragmented();
        assert(state.after_refresh().segments[i].state == CompactionState::NeedsCompaction);
    }
    if exists|i: int|
        0 <= i < state.segments.len() && (#[trigger] state.after_refresh().segments[i]).state
            == CompactionState::NeedsCompaction {
        let i = choose|i: int|
            0 <= i < state.segments.len() && (#[trigger] state.after_refresh().segments[i]).state
                == CompactionState::NeedsCompaction;
        assert(state.segments[i].fragmented());
    }
}

/// The segments that a job takes stand at `order`, which lists positions: no
/// position twice, only such whose segment needs compaction, the greater ratio
/// first and among equal ratios the position listed first. Whatever needs
/// compaction is among them unless the limit is reached, and then it stands
/// behind all of them in that order.
pub proof fn jobs_take_the_worst(state: SchedulerState, max_sources: int) -> (order: Seq<int>)
    requires
        0 <= max_sources,
    ensures
        order.len() <= max_sources,
        order.len() == state.selected(max_sources).len(),
        forall|k: int|
            #![trigger order[k]]
            0 <= k < order.len() ==> {
                let s = state.segments[order[k]];
                let taken = state.selected(max_sources)[k];
                &&& 0 <= order[k] < state.segments.len()
                &&& taken.id == s.id
                &&& taken.capacity == s.capacity
                &&& taken.used_bytes == s.used_bytes
                &&& taken.state == CompactionState::NeedsCompaction
                &&& dead_fraction(s.capacity, s.used_bytes) >= 5404319552844595 * pow2(1021)
                &&& s.capacity <= 0x4_0000_0000_0000 ==> s.used_bytes < s.capacity && 10 * (
                s.capacity - s.used_bytes) >= 6 * s.capacity
            },
        forall|k: int, l: int|
            #![trigger order[k], order[l]]
            0 <= k < l < order.len() ==> {
                let (s, t) = (state.segments[order[k]], state.segments[order[l]]);
                let (x, y) = (
                    dead_fraction(s.capacity, s.used_bytes),
                    dead_fraction(t.capacity, t.used_bytes),
                );
                x > y || (x == y && order[k] < order[l])
            },
        forall|i: int|
            #![trigger state.segments[i]]
            0 <= i < state.segments.len() && dead_fraction(
                state.segments[i].capacity,
                state.segments[i].used_bytes,
            ) >= 5404319552844595 * pow2(1021) && !order.contains(i) ==> order.len()
                == max_sources,
        forall|i: int, k: int|
            #![trigger state.segments[i], order[k]]
            0 <= i < state.segments.len() && dead_fraction(
                state.segments[i].capacity,
                state.segments[i].used_bytes,
            ) >= 5404319552844595 * pow2(1021) && !order.contains(i) && 0 <= k < order.len() ==> {
                let (s, t) = (state.segments[order[k]], state.segments[i]);
                let (x, y) = (
                    dead_fraction(s.capacity, s.used_bytes),
                    dead_fraction(t.capacity, t.used_bytes),
                );
                x > y || (x == y && order[k] < i)
            },
{
    let segs = state.after_refresh().segments;
    let whole = compaction_order(segs);
    let chosen = state.selected(max_sources);
    let order = whole.take(chosen.len() as int);
    compaction_order_is_worst_first(segs);
    assert forall|i: int| 0 <= i < segs.len() implies {
        &&& (#[trigger] segs[i]).fragmented() <==> dead_fraction(
            state.segments[i].capacity,
            state.segments[i].used_bytes,
        ) >= 5404319552844595 * pow2(1021)
        &&& segs[i].fragmentation() == dead_fraction(
            state.segments[i].capacity,
            state.segments[i].used_bytes,
        )
        &&& segs[i].fragmented() <==> segs[i].state == CompactionState::NeedsCompaction
        &&& segs[i].capacity <= 0x4_0000_0000_0000 && segs[i].fragmented() ==> segs[i].used_bytes
            < segs[i].capacity && 10 * (segs[i].capacity - segs[i].used_bytes) >= 6
            * segs[i].capacity
    } by {
        six_tenths_dead_need_compaction(segs[i]);
        six_tenths_dead_need_compaction(state.segments[i]);
    }
    assert forall|k: int| 0 <= k < order.len() implies 0 <= #[trigger] order[k] < segs.len()
        && segs[order[k]].fragmented() && chosen[k] == segs[order[k]] by {
        assert(whole.contains(whole[k]));
    }
    assert forall|k: int, l: int|
        #![trigger order[k], order[l]]
        0 <= k < l < order.len() implies {
        let (x, y) = (segs[order[k]].fragmentation(), segs[order[l]].fragmentation());
        x > y || (x == y && order[k] < order[l])
    } by {
        assert(taken_before(segs, whole[k], whole[l]));
        assert(whole[k] != whole[l]);
    }
    assert forall|i: int|
        #![trigger state.segments[i]]
        0 <= i < state.segments.len() && dead_fraction(
            state.segments[i].capacity,
            state.segments[i].used_bytes,
        ) >= 5404319552844595 * pow2(1021) && !order.contains(i) implies order.len()
        == max_sources by {
        lemma_left_out(segs, order, i);
    }
    assert forall|i: int, k: int|
        #![trigger state.segments[i], order[k]]
        0 <= i < state.segments.len() && dead_fraction(
            state.segments[i].capacity,
            state.segments[i].used_bytes,
        ) >= 5404319552844595 * pow2(1021) && !order.contains(i) && 0 <= k
            < order.len() implies {
        let (x, y) = (segs[order[k]].fragmentation(), segs[i].fragmentation());
        x > y || (x == y && order[k] < i)
    } by {
        let p = lemma_left_out(segs, order, i);
        assert(taken_before(segs, whole[k], whole[p]));
        assert(whole[k] != whole[p]);
    }
    order
}

proof fn lemma_left_out(segs: Seq<Segment>, order: Seq<int>, i: int) -> (p: int)
    requires
        order.len() <= compaction_order(segs).len(),
        order == compaction_order(segs).take(order.len() as int),
        0 <= i < segs.len(),
        segs[i].fragmented(),
        !order.contains(i),
    ensures
        order.len() <= p < compaction_order(segs).len(),
        compaction_order(segs)[p] == i,
{
    let whole = compaction_order(segs);
    compaction_order_is_worst_first(segs);
    assert(whole.contains(i));
    let p = whole.index_of(i);
    if p < order.len() {
        assert(order[p] == i);
    }
    p
}

/// A job that is issued lists the ids of the segments it takes, one by one, and
/// has their live bytes to compact. It has not begun. Its id and its target's
/// were the next ones, and both counters move on by one. Where there is no work,
/// the counters stay. Either way the segments are refreshed and the statistics
/// stay.
pub proof fn issued_jobs_compact_their_sources(
    state: SchedulerState,
    max_sources: int,
    job: CompactionJob,
)
    requires
        state.can_schedule(max_sources),
        state.issues(max_sources, job),
    ensures
        ({
            let taken = state.selected(max_sources);
            &&& job.source_ids@.len() == taken.len()
            &&& forall|k: int|
                0 <= k < taken.len() ==> #[trigger] job.source_ids@[k] == taken[k].id
            &&& job.total_bytes == total_used(taken)
            &&& job.bytes_compacted == 0
            &&& !job.done
            &&& job.id == state.next_job_id
            &&& job.target_id == state.next_segment_id
        }),
        ({
            let after = state.after_schedule();
            &&& after.segments == state.after_refresh().segments
            &&& after.stats == state.stats
            &&& state.has_work() ==> after.next_job_id == state.next_job_id + 1
                && after.next_segment_id == state.next_segment_id + 1
            &&& !state.has_work() ==> after.next_job_id == state.next_job_id
                && after.next_segment_id == state.next_segment_id
        }),
{
}

/// Scheduling asks for nothing but that the bytes of the segments it takes can be
/// counted and that ids are left, and not even that where there is no work.
pub proof fn scheduling_needs_room_only(state: SchedulerState, max_sources: int)
    ensures
        state.can_schedule(max_sources) <==> (state.has_work() ==> total_used(
            state.selected(max_sources),
        ) <= u64::MAX && state.next_job_id < u64::MAX && state.next_segment_id < u64::MAX),
{
}

/// Finalizing a job that is not done changes nothing.
pub proof fn unfinished_jobs_change_nothing(state: SchedulerState, job: CompactionJob)
    requires
        !job.done,
    ensures
        state.can_finalize(job),
        state.after_finalize(job) == state,
{
}

/// Finalizing a job that is done keeps, in their order, exactly the segments whose
/// ids are not among its sources, and lists last a full segment of the job's size
/// with the target's id. The counters stay.
pub proof fn finalizing_replaces_sources(state: SchedulerState, job: CompactionJob)
    requires
        job.done,
    ensures
        ({
            let after = state.after_finalize(job);
            let new = after.segments.last();
            &&& after.segments.len() > 0
            &&& after.segments.drop_last() == state.segments.filter(
                |s: Segment| !job.source_ids@.contains(s.id),
            )
            &&& new.id == job.target_id
            &&& new.capacity == job.total_bytes
            &&& new.used_bytes == job.total_bytes
            &&& new.state == CompactionState::Compacted
            &&& after.next_job_id == state.next_job_id
            &&& after.next_segment_id == state.next_segment_id
        }),
{
    let after = state.after_finalize(job).segments;
    assert(after.drop_last() =~= state.segments.filter(
        |s: Segment| !job.source_ids@.contains(s.id),
    ));
}

/// Finalizing a job that is done accounts its bytes as compacted, itself as one
/// job and each of its sources as merged. It accounts as reclaimed exactly what
/// the capacity of all segments falls by: the capacity of those removed, less
/// the job's bytes, and nothing if that is negative.
pub proof fn finalizing_accounts_what_is_freed(state: SchedulerState, job: CompactionJob)
    requires
        job.done,
        state.can_finalize(job),
    ensures
        ({
            let after = state.after_finalize(job);
            let removed = state.segments.filter(|s: Segment| job.source_ids@.contains(s.id));
            let gain = after.stats.space_reclaimed - state.stats.space_reclaimed;
            let freed = total_capacity(removed) - job.total_bytes;
            let fall = total_capacity(state.segments) - total_capacity(after.segments);
            &&& after.stats.total_bytes_compacted == state.stats.total_bytes_compacted
                + job.total_bytes
            &&& after.stats.jobs_completed == state.stats.jobs_completed + 1
            &&& after.stats.segments_merged == state.stats.segments_merged
                + job.source_ids@.len()
            &&& freed == fall
            &&& freed >= 0 ==> gain == freed
            &&& freed <= 0 ==> gain == 0
        }),
{
    let p = |s: Segment| job.source_ids@.contains(s.id);
    let q = |s: Segment| !job.source_ids@.contains(s.id);
    let kept = state.segments.filter(q);
    lemma_sum_split(state.segments, p, q, capacity());
    lemma_sum_push(kept, state.after_finalize(job).segments.last(), capacity());
    assert(state.after_finalize(job).segments =~= kept.push(
        state.after_finalize(job).segments.last(),
    ));
    assert(job.source_ids.len() == job.source_ids@.len());
    sums_add_every_counter(state.stats, state.contribution(job));
}

/// Finalizing asks for nothing but that the capacity of the sources can be
/// counted and that the statistics have room, and not even that of a job that is
/// not done.
pub proof fn finalizing_needs_room_only(state: SchedulerState, job: CompactionJob)
    ensures
        ({
            let removed = total_capacity(
                state.segments.filter(|s: Segment| job.source_ids@.contains(s.id)),
            );
            let freed = if removed >= job.total_bytes {
                removed - job.total_bytes
            } else {
                0
            };
            state.can_finalize(job) <==> (job.done ==> {
                &&& removed <= u64::MAX
                &&& state.stats.total_bytes_compacted + job.total_bytes <= u64::MAX
                &&& state.stats.space_reclaimed + freed <= u64::MAX
                &&& state.stats.jobs_completed + 1 <= u64::MAX
                &&& state.stats.segments_merged + job.source_ids@.len() <= u64::MAX
            })
        }),
{
    assert(sources(state.segments, job) == state.segments.filter(
        |s: Segment| job.source_ids@.contains(s.id),
    ));
    assert(job.source_ids.len() == job.source_ids@.len());
    sums_add_every_counter(state.stats, state.contribution(job));
}

/// Over a whole round, from scheduling a job to finalizing it, the statistics
/// account exactly the live bytes of the segments taken as compacted, and exactly
/// what they had beyond their live bytes as reclaimed.
pub proof fn rounds_account_what_they_free(
    state: SchedulerState,
    max_sources: int,
    issued: CompactionJob,
    done: CompactionJob,
)
    requires
        0 <= max_sources,
        distinct_ids(state.segments),
        state.issues(max_sources, issued),
        completes(issued, done),
        state.after_schedule().can_finalize(done),
    ensures
        ({
            let taken = state.selected(max_sources);
            let after = state.after_schedule().after_finalize(done);
            &&& after.stats.space_reclaimed == state.stats.space_reclaimed + total_capacity(taken)
                - total_used(taken)
            &&& after.stats.space_reclaimed == state.stats.space_reclaimed + total_dead(taken)
            &&& after.stats.total_bytes_compacted == state.stats.total_bytes_compacted
                + total_used(taken)
            &&& after.stats.jobs_completed == state.stats.jobs_completed + 1
            &&& after.stats.segments_merged == state.stats.segments_merged + taken.len()
        }),
{
    let taken = state.selected(max_sources);
    compaction_keeps_live_data(state, max_sources, issued, done);
    assert(done.source_ids.len() == done.source_ids@.len());
    sums_add_every_counter(state.stats, state.after_schedule().contribution(done));
    crate::laws::selection_is_worst_first(state.after_refresh().segments, max_sources);
    assert forall|i: int| 0 <= i < taken.len() implies capacity()(#[trigger] taken[i]) == used()(
        taken[i],
    ) + dead()(taken[i]) by {
        crate::segment::fragmented_segments_have_dead_space(taken[i]);
    }
    lemma_sum_additive(taken, capacity(), used(), dead());
}

/// Listing segments by state goes through them as they are listed: one more
/// segment is listed last if it is in that state, and not at all if it is not.
pub proof fn listings_grow_with_the_segments(
    segments: Seq<Segment>,
    s: Segment,
    state: CompactionState,
)
    ensures
        in_state(Seq::empty(), state) == Seq::<Segment>::empty(),
        s.state == state ==> in_state(segments.push(s), state) == in_state(segments, state).push(s),
        s.state != state ==> in_state(segments.push(s), state) == in_state(segments, state),
{
    reveal(Seq::filter);
    segments.lemma_filter_push(s, |s: Segment| s.state == state);
    assert(in_state(Seq::empty(), state) =~= Seq::<Segment>::empty());
}

} // verus!
