//! What holds of the scheduler over several operations.

use vstd::prelude::*;
use vstd::seq_lib::to_multiset_len;

use crate::job::CompactionJob;
use crate::scheduler::{bystanders, in_state, max_id, refreshed, sources, target, SchedulerState};
use crate::segment::{
    capacity, dead, fragmented_segments_have_dead_space, full_segments_are_healthy,
    total_capacity, total_dead, total_used, used, Segment,
};
use crate::selection::{
    candidates, candidates_among, compaction_order, compaction_order_is_worst_first,
    lemma_candidates, lemma_candidates_step, lemma_same_items, selection, taken_before,
};
use crate::state::CompactionState;
use crate::sums::{
    lemma_map_permuted, lemma_sum_additive, lemma_sum_non_negative, lemma_sum_permuted,
    lemma_sum_prefix, lemma_sum_push, lemma_sum_split,
};

verus! {

/// Every segment's id is below the next target id.
pub open spec fn ids_below_next(state: SchedulerState) -> bool {
    forall|i: int|
        0 <= i < state.segments.len() ==> (#[trigger] state.segments[i]).id < state.next_segment_id
}

/// No two segments share an id.
pub open spec fn distinct_ids(segments: Seq<Segment>) -> bool {
    forall|i: int, j: int|
        0 <= i < j < segments.len() ==> (#[trigger] segments[i]).id != (#[trigger] segments[j]).id
}

/// `done` is the job `issued` after its work was completed.
pub open spec fn completes(issued: CompactionJob, done: CompactionJob) -> bool {
    &&& done.done
    &&& done.id == issued.id
    &&& done.source_ids@ == issued.source_ids@
    &&& done.target_id == issued.target_id
    &&& done.total_bytes == issued.total_bytes
}

/// Advancing a job by all its bytes completes it.
pub proof fn issued_jobs_can_be_completed(issued: CompactionJob)
    ensures
        completes(issued, issued.advanced(issued.total_bytes as int)),
{
}

/// A new scheduler hands out target ids above those of all its segments.
pub proof fn new_schedulers_number_above(segments: Seq<Segment>)
    requires
        forall|i: int| 0 <= i < segments.len() ==> (#[trigger] segments[i]).id < u64::MAX,
    ensures
        ids_below_next(SchedulerState::initial(segments)),
    decreases segments.len(),
{
    if segments.len() > 0 {
        let shorter = segments.drop_last();
        new_schedulers_number_above(shorter);
        lemma_max_id_bounded(segments);
        lemma_max_id_bounded(shorter);
        assert forall|i: int| 0 <= i < segments.len() implies (#[trigger] segments[i]).id
            < SchedulerState::initial(segments).next_segment_id by {
            if i < shorter.len() {
                assert(shorter[i] == segments[i]);
            }
        }
    }
}

proof fn lemma_max_id_bounded(segments: Seq<Segment>)
    requires
        forall|i: int| 0 <= i < segments.len() ==> (#[trigger] segments[i]).id < u64::MAX,
    ensures
        max_id(segments) < u64::MAX,
    decreases segments.len(),
{
    if segments.len() > 0 {
        lemma_max_id_bounded(segments.drop_last());
    }
}

/// Refreshing, adding and scheduling keep every id below the next target id. So
/// does finalizing a job whose target id was handed out before.
pub proof fn ids_stay_below_next(
    state: SchedulerState,
    max_sources: int,
    seg: Segment,
    job: CompactionJob,
)
    requires
        ids_below_next(state),
    ensures
        ids_below_next(state.after_refresh()),
        seg.id < u64::MAX ==> ids_below_next(state.after_add(seg)),
        state.can_schedule(max_sources) ==> ids_below_next(state.after_schedule()),
        job.target_id < state.next_segment_id ==> ids_below_next(state.after_finalize(job)),
{
    assert forall|i: int| 0 <= i < state.segments.len() implies (#[trigger] refreshed(
        state.segments,
    )[i]).id < state.next_segment_id by {
        assert(state.segments[i].id < state.next_segment_id);
    }
    if job.target_id < state.next_segment_id && job.done {
        let kept = bystanders(state.segments, job);
        let after = state.after_finalize(job).segments;
        assert forall|i: int| 0 <= i < after.len() implies (#[trigger] after[i]).id
            < state.next_segment_id by {
            if i < kept.len() {
                lemma_filter_index(state.segments, |s: Segment| !job.source_ids@.contains(s.id), i);
            }
        }
    }
}

/// Whatever a filter keeps was there before.
proof fn lemma_filter_index(s: Seq<Segment>, p: spec_fn(Segment) -> bool, i: int) -> (j: int)
    requires
        0 <= i < s.filter(p).len(),
    ensures
        i <= j < s.len(),
        s[j] == s.filter(p)[i],
        p(s[j]),
    decreases s.len(),
{
    reveal(Seq::filter);
    let shorter = s.drop_last();
    if i < shorter.filter(p).len() {
        lemma_filter_index(shorter, p, i)
    } else {
        shorter.lemma_filter_len(p);
        s.len() - 1
    }
}

/// What a filter keeps stays in order.
proof fn lemma_filter_distinct(s: Seq<Segment>, p: spec_fn(Segment) -> bool)
    requires
        distinct_ids(s),
    ensures
        distinct_ids(s.filter(p)),
    decreases s.len(),
{
    reveal(Seq::filter);
    if s.len() > 0 {
        let shorter = s.drop_last();
        lemma_filter_distinct(shorter, p);
        let f = s.filter(p);
        assert forall|i: int, j: int| 0 <= i < j < f.len() implies (#[trigger] f[i]).id != (
        #[trigger] f[j]).id by {
            if j == shorter.filter(p).len() {
                let k = lemma_filter_index(shorter, p, i);
                assert(s[k] == f[i]);
            }
        }
    }
}

/// The target id of a job that was just issued belongs to no segment, and it
/// will not be handed out again.
pub proof fn issued_targets_are_fresh(
    state: SchedulerState,
    max_sources: int,
    job: CompactionJob,
)
    requires
        ids_below_next(state),
        state.has_work(),
        state.can_schedule(max_sources),
        state.issues(max_sources, job),
    ensures
        forall|i: int|
            0 <= i < state.after_schedule().segments.len() ==> (
            #[trigger] state.after_schedule().segments[i]).id != job.target_id,
        job.target_id < state.after_schedule().next_segment_id,
{
    assert forall|i: int|
        0 <= i < state.after_schedule().segments.len() implies (
    #[trigger] state.after_schedule().segments[i]).id != job.target_id by {
        assert(state.segments[i].id < state.next_segment_id);
    }
}

/// Refreshing and scheduling keep ids apart. So does adding a segment with an
/// unused id, and finalizing a job whose target id is borne by none of the
/// segments that stay.
pub proof fn ids_stay_distinct(state: SchedulerState, seg: Segment, job: CompactionJob)
    requires
        distinct_ids(state.segments),
    ensures
        distinct_ids(state.after_refresh().segments),
        distinct_ids(state.after_schedule().segments),
        (forall|i: int| 0 <= i < state.segments.len() ==> (#[trigger] state.segments[i]).id != seg.id)
            ==> distinct_ids(state.after_add(seg).segments),
        (forall|i: int|
            0 <= i < state.segments.len() && !job.source_ids@.contains(
                (#[trigger] state.segments[i]).id,
            ) ==> state.segments[i].id != job.target_id) ==> distinct_ids(
            state.after_finalize(job).segments,
        ),
{
    lemma_refreshed_distinct(state.segments);
    if forall|i: int|
        0 <= i < state.segments.len() && !job.source_ids@.contains(
            (#[trigger] state.segments[i]).id,
        ) ==> state.segments[i].id != job.target_id {
        let p = |s: Segment| !job.source_ids@.contains(s.id);
        lemma_filter_distinct(state.segments, p);
        let kept = state.segments.filter(p);
        assert forall|i: int| 0 <= i < kept.len() implies (#[trigger] kept[i]).id
            != job.target_id by {
            let k = lemma_filter_index(state.segments, p, i);
            assert(state.segments[k].id != job.target_id);
        }
    }
}

proof fn lemma_refreshed_distinct(segments: Seq<Segment>)
    requires
        distinct_ids(segments),
    ensures
        distinct_ids(refreshed(segments)),
{
    let r = refreshed(segments);
    assert forall|i: int, j: int| 0 <= i < j < r.len() implies (#[trigger] r[i]).id != (
    #[trigger] r[j]).id by {
        assert(segments[i].id != segments[j].id);
    }
}

/// The counters never go back, so of two jobs the one issued later has the
/// greater id and the greater target id.
pub proof fn ids_are_handed_out_in_order(
    state: SchedulerState,
    max_sources: int,
    seg: Segment,
    job: CompactionJob,
)
    requires
        state.can_schedule(max_sources),
        seg.id >= state.next_segment_id ==> seg.id < u64::MAX,
    ensures
        state.next_job_id <= state.after_schedule().next_job_id,
        state.next_segment_id <= state.after_schedule().next_segment_id,
        state.has_work() && state.issues(max_sources, job) ==> {
            &&& job.id < state.after_schedule().next_job_id
            &&& job.target_id < state.after_schedule().next_segment_id
        },
        state.after_refresh().next_job_id == state.next_job_id,
        state.after_refresh().next_segment_id == state.next_segment_id,
        state.after_finalize(job).next_job_id == state.next_job_id,
        state.after_finalize(job).next_segment_id == state.next_segment_id,
        state.after_add(seg).next_job_id == state.next_job_id,
        state.next_segment_id <= state.after_add(seg).next_segment_id,
{
}

/// No operation takes anything back from the statistics.
pub proof fn statistics_never_shrink(state: SchedulerState, job: CompactionJob, seg: Segment)
    requires
        state.can_finalize(job),
    ensures
        state.stats.total_bytes_compacted <= state.after_finalize(job).stats.total_bytes_compacted,
        state.stats.space_reclaimed <= state.after_finalize(job).stats.space_reclaimed,
        state.stats.jobs_completed <= state.after_finalize(job).stats.jobs_completed,
        state.stats.segments_merged <= state.after_finalize(job).stats.segments_merged,
        state.after_refresh().stats == state.stats,
        state.after_schedule().stats == state.stats,
        state.after_add(seg).stats == state.stats,
{
}

/// A job's target is exactly full: it holds no dead bytes, its state is up to
/// date, and it is not picked for compaction.
pub proof fn targets_are_healthy(job: CompactionJob)
    ensures
        target(job).refreshed() == target(job),
        target(job).dead() == 0,
        !target(job).fragmented(),
{
    full_segments_are_healthy(target(job));
}

/// A segment that is left out needs compaction no more urgently than any that
/// is taken, and those taken are as many as there are, up to the limit.
pub proof fn selection_takes_the_worst(
    segments: Seq<Segment>,
    max_sources: int,
    k: int,
    i: int,
)
    requires
        0 <= max_sources,
        0 <= k < selection(segments, max_sources).len(),
        0 <= i < segments.len(),
        segments[i].fragmented(),
        !selection(segments, max_sources).contains(segments[i]),
    ensures
        selection(segments, max_sources)[k].fragmented(),
        segments[i].fragmentation() <= selection(segments, max_sources)[k].fragmentation(),
        selection(segments, max_sources).len() == max_sources,
{
    compaction_order_is_worst_first(segments);
    let order = compaction_order(segments);
    let chosen = selection(segments, max_sources);
    assert(order.contains(i));
    let p = order.index_of(i);
    if p < chosen.len() {
        assert(chosen[p] == segments[i]);
    }
    assert(order.contains(order[k]));
    assert(taken_before(segments, order[k], order[p]));
}

/// The segments are taken in descending order of fragmentation, and each of
/// them needs compaction.
pub proof fn selection_is_worst_first(segments: Seq<Segment>, max_sources: int)
    requires
        0 <= max_sources,
    ensures
        selection(segments, max_sources).len() <= max_sources,
        forall|k: int|
            0 <= k < selection(segments, max_sources).len() ==> (
            #[trigger] selection(segments, max_sources)[k]).fragmented() && segments.contains(
                selection(segments, max_sources)[k],
            ),
        forall|k: int, l: int|
            0 <= k < l < selection(segments, max_sources).len() ==> (#[trigger] selection(
                segments,
                max_sources,
            )[l]).fragmentation() <= (#[trigger] selection(segments, max_sources)[k]).fragmentation(),
{
    compaction_order_is_worst_first(segments);
    let order = compaction_order(segments);
    let chosen = selection(segments, max_sources);
    assert forall|k: int| 0 <= k < chosen.len() implies (#[trigger] chosen[k]).fragmented()
        && segments.contains(chosen[k]) by {
        assert(order.contains(order[k]));
    }
    assert forall|k: int, l: int| 0 <= k < l < chosen.len() implies (
    #[trigger] chosen[l]).fragmentation() <= (#[trigger] chosen[k]).fragmentation() by {
        assert(taken_before(segments, order[k], order[l]));
    }
}

/// Scheduling reserves nothing: until a job is finalized, the same segments
/// would be selected again.
pub proof fn scheduling_reserves_nothing(state: SchedulerState, max_sources: int)
    ensures
        state.after_schedule().selected(max_sources) == state.selected(max_sources),
        state.after_schedule().has_work() == state.has_work(),
        state.after_refresh().after_refresh() == state.after_refresh(),
{
    let (segs, again) = (state.segments, refreshed(state.segments));
    assert(refreshed(again) =~= again);
    if state.has_work() {
        let i = choose|i: int| 0 <= i < segs.len() && (#[trigger] segs[i]).fragmented();
        assert(again[i].fragmented());
    }
    if state.after_schedule().has_work() {
        let i = choose|i: int| 0 <= i < again.len() && (#[trigger] again[i]).fragmented();
        assert(segs[i].fragmented());
    }
}

/// Every segment is listed in exactly one of the three states.
pub proof fn states_partition_segments(segments: Seq<Segment>)
    ensures
        in_state(segments, CompactionState::NeedsCompaction).len() + in_state(
            segments,
            CompactionState::InProgress,
        ).len() + in_state(segments, CompactionState::Compacted).len() == segments.len(),
        forall|s: Segment, state: CompactionState| #[trigger]
            in_state(segments, state).contains(s) <==> segments.contains(s) && s.state == state,
    decreases segments.len(),
{
    reveal(Seq::filter);
    if segments.len() > 0 {
        states_partition_segments(segments.drop_last());
    }
    assert forall|s: Segment, state: CompactionState| #[trigger]
        in_state(segments, state).contains(s) <==> segments.contains(s) && s.state == state by {
        let p = |s: Segment| s.state == state;
        if in_state(segments, state).contains(s) {
            let i = in_state(segments, state).index_of(s);
            let j = lemma_filter_index(segments, p, i);
        }
        if segments.contains(s) && s.state == state {
            let i = segments.index_of(s);
            segments.lemma_filter_contains(p, i);
        }
    }
}

/// Refreshing changes no segment's size.
proof fn lemma_refreshed_totals(segments: Seq<Segment>)
    ensures
        total_used(refreshed(segments)) == total_used(segments),
        total_capacity(refreshed(segments)) == total_capacity(segments),
        total_dead(refreshed(segments)) == total_dead(segments),
    decreases segments.len(),
{
    if segments.len() > 0 {
        let shorter = segments.drop_last();
        lemma_refreshed_totals(shorter);
        assert(refreshed(segments).drop_last() =~= refreshed(shorter));
    }
}

/// With distinct ids, the segments that a job names are those it was issued for.
proof fn lemma_sources_are_selected(
    segments: Seq<Segment>,
    max_sources: int,
    job: CompactionJob,
)
    requires
        0 <= max_sources,
        distinct_ids(segments),
        job.source_ids@ == selection(segments, max_sources).map_values(|s: Segment| s.id),
    ensures
        sources(segments, job).to_multiset() == selection(segments, max_sources).to_multiset(),
        forall|s: Segment|
            segments.contains(s) ==> (job.source_ids@.contains(s.id) <==> #[trigger] selection(
                segments,
                max_sources,
            ).contains(s)),
{
    let chosen = selection(segments, max_sources);
    let order = compaction_order(segments);
    let p = |s: Segment| job.source_ids@.contains(s.id);
    let named = segments.filter(p);
    compaction_order_is_worst_first(segments);
    selection_is_worst_first(segments, max_sources);
    lemma_filter_distinct(segments, p);
    assert(chosen.no_duplicates()) by {
        assert forall|k: int, l: int| 0 <= k < l < chosen.len() implies chosen[k] != chosen[l] by {
            assert(order[k] != order[l]);
            assert(order.contains(order[k]) && order.contains(order[l]));
            assert(segments[order[k]].id != segments[order[l]].id);
        }
    }
    assert(named.no_duplicates()) by {
        assert forall|k: int, l: int| 0 <= k < l < named.len() implies named[k] != named[l] by {
            assert(named[k].id != named[l].id);
        }
    }
    assert forall|s: Segment| segments.contains(s) implies (job.source_ids@.contains(s.id)
        <==> #[trigger] chosen.contains(s)) by {
        if chosen.contains(s) {
            assert(job.source_ids@[chosen.index_of(s)] == s.id);
        }
        if job.source_ids@.contains(s.id) {
            let k = job.source_ids@.index_of(s.id);
            let (i, j) = (segments.index_of(s), segments.index_of(chosen[k]));
            assert(segments.contains(chosen[k]));
            assert(segments[i].id == segments[j].id);
            assert(i == j);
        }
    }
    assert forall|s: Segment| #[trigger] named.contains(s) <==> chosen.contains(s) by {
        if named.contains(s) {
            let j = lemma_filter_index(segments, p, named.index_of(s));
            assert(segments.contains(s));
        }
        if chosen.contains(s) {
            assert(segments.contains(chosen[chosen.index_of(s)]));
            segments.lemma_filter_contains(p, segments.index_of(s));
        }
    }
    lemma_same_items(named, chosen);
}

proof fn lemma_filter_lengths(
    s: Seq<Segment>,
    p: spec_fn(Segment) -> bool,
    q: spec_fn(Segment) -> bool,
)
    requires
        forall|x: Segment| #[trigger] q(x) == !p(x),
    ensures
        s.filter(p).len() + s.filter(q).len() == s.len(),
    decreases s.len(),
{
    reveal(Seq::filter);
    if s.len() > 0 {
        lemma_filter_lengths(s.drop_last(), p, q);
    }
}

/// Compaction keeps all live data and gives back exactly the dead space of the
/// segments it took: after a job was issued, completed and finalized, as many
/// bytes are live as before, capacity and dead space have shrunk by the dead
/// bytes of the sources, and that is what is accounted as reclaimed. In place
/// of the sources there is one segment.
pub proof fn compaction_keeps_live_data(
    state: SchedulerState,
    max_sources: int,
    issued: CompactionJob,
    done: CompactionJob,
)
    requires
        0 <= max_sources,
        distinct_ids(state.segments),
        state.issues(max_sources, issued),
        completes(issued, done),
    ensures
        ({
            let scheduled = state.after_schedule();
            let finalized = scheduled.after_finalize(done);
            let freed = total_dead(state.selected(max_sources));
            &&& total_used(finalized.segments) == total_used(state.segments)
            &&& total_capacity(finalized.segments) == total_capacity(state.segments) - freed
            &&& total_dead(finalized.segments) == total_dead(state.segments) - freed
            &&& scheduled.reclaimed(done) == freed
            &&& finalized.segments.len() == state.segments.len() - state.selected(
                max_sources,
            ).len() + 1
        }),
{
    let segs = refreshed(state.segments);
    let chosen = state.selected(max_sources);
    let p = |s: Segment| done.source_ids@.contains(s.id);
    let q = |s: Segment| !done.source_ids@.contains(s.id);
    lemma_refreshed_distinct(state.segments);
    lemma_refreshed_totals(state.segments);
    lemma_sources_are_selected(segs, max_sources, done);
    selection_is_worst_first(segs, max_sources);
    lemma_sum_permuted(segs.filter(p), chosen, used());
    lemma_sum_permuted(segs.filter(p), chosen, capacity());
    lemma_sum_permuted(segs.filter(p), chosen, dead());
    lemma_sum_split(segs, p, q, used());
    lemma_sum_split(segs, p, q, capacity());
    lemma_sum_split(segs, p, q, dead());
    lemma_sum_push(segs.filter(q), target(done), used());
    lemma_sum_push(segs.filter(q), target(done), capacity());
    lemma_sum_push(segs.filter(q), target(done), dead());
    assert forall|i: int| 0 <= i < chosen.len() implies (#[trigger] chosen[i]).dead()
        == chosen[i].capacity - chosen[i].used_bytes by {
        fragmented_segments_have_dead_space(chosen[i]);
    }
    lemma_sum_additive(chosen, capacity(), used(), dead());
    lemma_sum_non_negative(chosen, dead());
    lemma_filter_lengths(segs, p, q);
    to_multiset_len(segs.filter(p));
    to_multiset_len(chosen);
}

/// Segments that a job was not issued for survive it as they are.
pub proof fn compaction_spares_the_rest(
    state: SchedulerState,
    max_sources: int,
    issued: CompactionJob,
    done: CompactionJob,
    i: int,
)
    requires
        0 <= max_sources,
        distinct_ids(state.segments),
        state.issues(max_sources, issued),
        completes(issued, done),
        0 <= i < state.segments.len(),
        !state.selected(max_sources).contains(state.segments[i].refreshed()),
    ensures
        state.after_schedule().after_finalize(done).segments.contains(
            state.segments[i].refreshed(),
        ),
{
    let segs = refreshed(state.segments);
    let q = |s: Segment| !done.source_ids@.contains(s.id);
    lemma_refreshed_distinct(state.segments);
    lemma_sources_are_selected(segs, max_sources, done);
    assert(segs.contains(segs[i]));
    segs.lemma_filter_contains(q, i);
    let kept = segs.filter(q);
    let after = kept.push(target(done));
    assert(after[kept.index_of(segs[i])] == segs[i]);
}

/// What a job was issued for is gone once the job was finalized: the only
/// segment that may still bear the id of a source is the target.
pub proof fn sources_are_gone(state: SchedulerState, job: CompactionJob, i: int)
    requires
        job.done,
        0 <= i < state.after_finalize(job).segments.len(),
        job.source_ids@.contains(state.after_finalize(job).segments[i].id),
    ensures
        state.after_finalize(job).segments[i] == target(job),
{
    let q = |s: Segment| !job.source_ids@.contains(s.id);
    let kept = state.segments.filter(q);
    if i < kept.len() {
        lemma_filter_index(state.segments, q, i);
    }
}

/// A job with room for every segment that needs compaction leaves no work: once
/// it was finalized, scheduling finds nothing to do.
pub proof fn large_jobs_drain_the_work(
    state: SchedulerState,
    max_sources: int,
    issued: CompactionJob,
    done: CompactionJob,
)
    requires
        candidates(refreshed(state.segments)).len() <= max_sources,
        state.issues(max_sources, issued),
        completes(issued, done),
    ensures
        !state.after_schedule().after_finalize(done).has_work(),
{
    let segs = refreshed(state.segments);
    let order = compaction_order(segs);
    let chosen = state.selected(max_sources);
    let q = |s: Segment| !done.source_ids@.contains(s.id);
    let kept = segs.filter(q);
    let after = kept.push(target(done));
    compaction_order_is_worst_first(segs);
    targets_are_healthy(done);
    assert forall|i: int| 0 <= i < after.len() implies !(#[trigger] after[i]).fragmented() by {
        if i < kept.len() && after[i].fragmented() {
            let j = lemma_filter_index(segs, q, i);
            assert(order.contains(j));
            let k = order.index_of(j);
            assert(chosen[k] == segs[j]);
            assert(done.source_ids@[k] == segs[j].id);
        }
    }
}

/// The first `n` segments that need compaction, by position and by value.
proof fn lemma_candidates_are_fragmented(segments: Seq<Segment>, n: nat)
    requires
        n <= segments.len(),
    ensures
        candidates_among(segments, n).map_values(|i: int| segments[i]) == segments.take(
            n as int,
        ).filter(|s: Segment| s.fragmented()),
    decreases n,
{
    let f = |i: int| segments[i];
    let p = |s: Segment| s.fragmented();
    if n == 0 {
        lemma_candidates(segments, 0);
        let none = candidates_among(segments, 0);
        if none.len() > 0 {
            assert(none.contains(none[0]));
        }
        reveal(Seq::filter);
        assert(none.map_values(f) =~= segments.take(0).filter(p));
    } else {
        let m = (n - 1) as nat;
        let before = segments.take(m as int);
        lemma_candidates_are_fragmented(segments, m);
        lemma_candidates_step(segments, m);
        assert(segments.take(n as int) =~= before.push(segments[m as int]));
        before.lemma_filter_push(segments[m as int], p);
        assert(candidates_among(segments, n).map_values(f) =~= segments.take(n as int).filter(p));
    }
}

/// A job has no more bytes to compact than all segments hold.
pub proof fn selected_bytes_are_bounded(segments: Seq<Segment>, max_sources: int)
    requires
        0 <= max_sources,
    ensures
        0 <= total_used(selection(segments, max_sources)) <= total_used(segments),
{
    let f = |i: int| segments[i];
    let p = |s: Segment| s.fragmented();
    let q = |s: Segment| !s.fragmented();
    let order = compaction_order(segments);
    let all = order.map_values(f);
    let chosen = selection(segments, max_sources);
    assert(chosen =~= all.take(chosen.len() as int));
    lemma_sum_non_negative(chosen, used());
    lemma_sum_prefix(all, chosen.len() as int, used());
    compaction_order_is_worst_first(segments);
    lemma_candidates(segments, segments.len());
    lemma_same_items(order, candidates(segments));
    lemma_map_permuted(order, candidates(segments), f);
    lemma_sum_permuted(all, candidates(segments).map_values(f), used());
    lemma_candidates_are_fragmented(segments, segments.len());
    assert(segments.take(segments.len() as int) =~= segments);
    lemma_sum_split(segments, p, q, used());
    lemma_sum_non_negative(segments.filter(q), used());
}

/// As long as the bytes of all segments can be counted and ids are left,
/// scheduling is possible, whatever the limit.
pub proof fn countable_segments_can_be_scheduled(state: SchedulerState, max_sources: int)
    requires
        0 <= max_sources,
        total_used(state.segments) <= u64::MAX,
        state.next_job_id < u64::MAX,
        state.next_segment_id < u64::MAX,
    ensures
        state.can_schedule(max_sources),
{
    lemma_refreshed_totals(state.segments);
    selected_bytes_are_bounded(refreshed(state.segments), max_sources);
}

/// A job's sources have no more capacity than all segments have, and what it
/// gives back is no more than that.
pub proof fn reclaimed_space_is_bounded(state: SchedulerState, job: CompactionJob)
    ensures
        0 <= total_capacity(sources(state.segments, job)) <= total_capacity(state.segments),
        0 <= state.reclaimed(job) <= total_capacity(state.segments),
{
    let p = |s: Segment| job.source_ids@.contains(s.id);
    let q = |s: Segment| !job.source_ids@.contains(s.id);
    lemma_sum_split(state.segments, p, q, capacity());
    lemma_sum_non_negative(state.segments.filter(p), capacity());
    lemma_sum_non_negative(state.segments.filter(q), capacity());
}

} // verus!
