//! The compaction scheduler.

use std::collections::HashSet;
use vstd::prelude::*;

use crate::job::CompactionJob;
use crate::segment::{capacity, total_capacity, total_used, used, Segment};
use crate::selection::{
    compaction_order, compaction_order_is_worst_first, positions, selection, worst_first,
};
use crate::state::CompactionState;
use crate::stats::CompactionStats;
use crate::sums::{
    lemma_sum_concat, lemma_sum_non_negative, lemma_sum_prefix, lemma_sum_push,
};

verus! {

/// Picks segments to compact based on fragmentation ratio and ternary state.
#[derive(Debug)]
pub struct CompactionScheduler {
    /// Segments under management.
    segments: Vec<Segment>,
    /// Monotonically increasing job counter.
    next_job_id: u64,
    /// Monotonically increasing segment counter (for targets).
    next_segment_id: u64,
    /// Cumulative statistics.
    stats: CompactionStats,
}

/// What a scheduler knows.
pub struct SchedulerState {
    /// Segments under management, as listed.
    pub segments: Seq<Segment>,
    /// The id of the next job.
    pub next_job_id: u64,
    /// The id of the next target segment.
    pub next_segment_id: u64,
    /// Cumulative statistics.
    pub stats: CompactionStats,
}

impl View for CompactionScheduler {
    type V = SchedulerState;

    closed spec fn view(&self) -> SchedulerState {
        SchedulerState {
            segments: self.segments@,
            next_job_id: self.next_job_id,
            next_segment_id: self.next_segment_id,
            stats: self.stats,
        }
    }
}

/// The greatest id in use; zero if there is none.
pub open spec fn max_id(segments: Seq<Segment>) -> u64
    decreases segments.len(),
{
    if segments.len() == 0 {
        0
    } else {
        let before = max_id(segments.drop_last());
        if segments.last().id > before {
            segments.last().id
        } else {
            before
        }
    }
}

/// The segments with their states brought up to date.
pub open spec fn refreshed(segments: Seq<Segment>) -> Seq<Segment> {
    segments.map_values(|s: Segment| s.refreshed())
}

/// The segments in a given state, as listed.
pub open spec fn in_state(segments: Seq<Segment>, state: CompactionState) -> Seq<Segment> {
    segments.filter(|s: Segment| s.state == state)
}

/// The segments that a job merges.
pub open spec fn sources(segments: Seq<Segment>, job: CompactionJob) -> Seq<Segment> {
    segments.filter(|s: Segment| job.source_ids@.contains(s.id))
}

/// The segments that a job leaves alone.
pub open spec fn bystanders(segments: Seq<Segment>, job: CompactionJob) -> Seq<Segment> {
    segments.filter(|s: Segment| !job.source_ids@.contains(s.id))
}

/// The segment that a job leaves behind: exactly full.
pub open spec fn target(job: CompactionJob) -> Segment {
    Segment {
        id: job.target_id,
        capacity: job.total_bytes,
        used_bytes: job.total_bytes,
        state: CompactionState::Compacted,
    }
}

impl SchedulerState {
    /// A scheduler that has done nothing yet.
    pub open spec fn initial(segments: Seq<Segment>) -> SchedulerState {
        SchedulerState {
            segments,
            next_job_id: 0,
            next_segment_id: (max_id(segments) + 1) as u64,
            stats: CompactionStats::zero(),
        }
    }

    /// After every segment's state was brought up to date.
    pub open spec fn after_refresh(self) -> SchedulerState {
        SchedulerState { segments: refreshed(self.segments), ..self }
    }

    /// The segments that the next job of at most `max_sources` sources takes.
    pub open spec fn selected(self, max_sources: int) -> Seq<Segment> {
        selection(refreshed(self.segments), max_sources)
    }

    /// Some segment needs compaction.
    pub open spec fn has_work(self) -> bool {
        exists|i: int| 0 <= i < self.segments.len() && (#[trigger] self.segments[i]).fragmented()
    }

    /// If there is work, the next job's bytes can be counted and there are ids
    /// left for it and its target.
    pub open spec fn can_schedule(self, max_sources: int) -> bool {
        self.has_work() ==> {
            &&& total_used(self.selected(max_sources)) <= u64::MAX
            &&& self.next_job_id < u64::MAX
            &&& self.next_segment_id < u64::MAX
        }
    }

    /// The job is what scheduling issues in this state.
    pub open spec fn issues(self, max_sources: int, job: CompactionJob) -> bool {
        &&& job.id == self.next_job_id
        &&& job.source_ids@ == self.selected(max_sources).map_values(|s: Segment| s.id)
        &&& job.target_id == self.next_segment_id
        &&& job.bytes_compacted == 0
        &&& job.total_bytes == total_used(self.selected(max_sources))
        &&& !job.done
    }

    /// After a job was scheduled, or found not to be needed.
    pub open spec fn after_schedule(self) -> SchedulerState {
        if self.has_work() {
            SchedulerState {
                next_job_id: (self.next_job_id + 1) as u64,
                next_segment_id: (self.next_segment_id + 1) as u64,
                ..self.after_refresh()
            }
        } else {
            self.after_refresh()
        }
    }

    /// The dead space that completing the job gives back.
    pub open spec fn reclaimed(self, job: CompactionJob) -> int {
        let freed = total_capacity(sources(self.segments, job)) - job.total_bytes;
        if freed >= 0 {
            freed
        } else {
            0
        }
    }

    /// What completing the job adds to the statistics.
    pub open spec fn contribution(self, job: CompactionJob) -> CompactionStats {
        CompactionStats {
            total_bytes_compacted: job.total_bytes,
            space_reclaimed: self.reclaimed(job) as u64,
            jobs_completed: 1,
            segments_merged: job.source_ids@.len() as u64,
        }
    }

    /// If the job is done, its sources' capacity can be counted and the
    /// statistics have room for it.
    pub open spec fn can_finalize(self, job: CompactionJob) -> bool {
        job.done ==> {
            &&& total_capacity(sources(self.segments, job)) <= u64::MAX
            &&& self.stats.fits(self.contribution(job))
        }
    }

    /// After a job was finalized: its sources are gone, its target is listed
    /// last, and it is accounted for. A job that is not done changes nothing.
    pub open spec fn after_finalize(self, job: CompactionJob) -> SchedulerState {
        if job.done {
            SchedulerState {
                segments: bystanders(self.segments, job).push(target(job)),
                stats: self.stats.plus(self.contribution(job)),
                ..self
            }
        } else {
            self
        }
    }

    /// After a segment was added. The next target id stays above its id.
    pub open spec fn after_add(self, seg: Segment) -> SchedulerState {
        SchedulerState {
            segments: self.segments.push(seg),
            next_segment_id: if seg.id >= self.next_segment_id {
                (seg.id + 1) as u64
            } else {
                self.next_segment_id
            },
            ..self
        }
    }
}

/// There is work exactly when the compaction order is not empty.
proof fn lemma_has_work(state: SchedulerState)
    ensures
        state.has_work() <==> compaction_order(refreshed(state.segments)).len() > 0,
{
    let segs = refreshed(state.segments);
    let order = compaction_order(segs);
    compaction_order_is_worst_first(segs);
    if state.has_work() {
        let i = choose|i: int|
            0 <= i < state.segments.len() && (#[trigger] state.segments[i]).fragmented();
        assert(segs[i].fragmented());
        assert(order.contains(i));
    }
    if order.len() > 0 {
        assert(order.contains(order[0]));
        assert(state.segments[order[0]].fragmented());
    }
}

/// The sources among the first segments have no more capacity than all sources.
proof fn lemma_capacity_of_prefix(segments: Seq<Segment>, n: int, p: spec_fn(Segment) -> bool)
    requires
        0 <= n <= segments.len(),
    ensures
        total_capacity(segments.take(n).filter(p)) <= total_capacity(segments.filter(p)),
{
    let (front, back) = (segments.take(n), segments.skip(n));
    assert(segments =~= front + back);
    Seq::filter_distributes_over_add(front, back, p);
    lemma_sum_concat(front.filter(p), back.filter(p), capacity());
    lemma_sum_non_negative(back.filter(p), capacity());
}

impl CompactionScheduler {
    /// Create a new scheduler with the given segments.
    pub fn new(segments: Vec<Segment>) -> (scheduler: CompactionScheduler)
        requires
            forall|i: int| 0 <= i < segments@.len() ==> (#[trigger] segments@[i]).id < u64::MAX,
        ensures
            scheduler@ == SchedulerState::initial(segments@),
    {
        let mut max: u64 = 0;
        let mut i: usize = 0;
        while i < segments.len()
            invariant
                i <= segments@.len(),
                forall|i: int| 0 <= i < segments@.len() ==> (#[trigger] segments@[i]).id < u64::MAX,
                max == max_id(segments@.take(i as int)),
                max < u64::MAX,
            decreases segments.len() - i,
        {
            assert(segments@.take(i + 1).drop_last() =~= segments@.take(i as int));
            if segments[i].id > max {
                max = segments[i].id;
            }
            i += 1;
        }
        assert(segments@.take(i as int) =~= segments@);
        CompactionScheduler {
            segments,
            next_job_id: 0,
            next_segment_id: max + 1,
            stats: CompactionStats::default(),
        }
    }

    /// Refresh the ternary state of every managed segment.
    pub fn refresh_all(&mut self)
        ensures
            final(self)@ == old(self)@.after_refresh(),
    {
        let mut i: usize = 0;
        while i < self.segments.len()
            invariant
                i <= self.segments@.len(),
                self.segments@.len() == old(self).segments@.len(),
                forall|k: int|
                    0 <= k < i ==> self.segments@[k] == (#[trigger] old(
                        self,
                    ).segments@[k]).refreshed(),
                forall|k: int|
                    i <= k < self.segments@.len() ==> self.segments@[k] == #[trigger] old(
                        self,
                    ).segments@[k],
                self.next_job_id == old(self).next_job_id,
                self.next_segment_id == old(self).next_segment_id,
                self.stats == old(self).stats,
            decreases self.segments.len() - i,
        {
            self.segments[i].refresh_state();
            i += 1;
        }
        assert(self.segments@ =~= refreshed(old(self).segments@));
    }

    /// The managed segments in a given state.
    fn listed_in(&self, state: CompactionState) -> (listed: Vec<&Segment>)
        ensures
            listed@.unref() == in_state(self@.segments, state),
    {
        let mut listed: Vec<&Segment> = Vec::new();
        let mut i: usize = 0;
        assert(listed@.unref() =~= in_state(self.segments@.take(0), state)) by {
            reveal(Seq::filter);
        }
        while i < self.segments.len()
            invariant
                i <= self.segments@.len(),
                listed@.unref() == in_state(self.segments@.take(i as int), state),
            decreases self.segments.len() - i,
        {
            proof {
                let before = self.segments@.take(i as int);
                assert(self.segments@.take(i + 1) =~= before.push(self.segments@[i as int]));
                before.lemma_filter_push(
                    self.segments@[i as int],
                    |s: Segment| s.state == state,
                );
            }
            let ghost before = listed@;
            if self.segments[i].state == state {
                listed.push(&self.segments[i]);
                assert(listed@.unref() =~= before.unref().push(self.segments@[i as int]));
            }
            i += 1;
        }
        assert(self.segments@.take(i as int) =~= self.segments@);
        listed
    }

    /// Return segments that need compaction (state = NeedsCompaction).
    pub fn segments_needing_compaction(&self) -> (listed: Vec<&Segment>)
        ensures
            listed@.unref() == in_state(self@.segments, CompactionState::NeedsCompaction),
    {
        self.listed_in(CompactionState::NeedsCompaction)
    }

    /// Return segments that are in progress (state = InProgress).
    pub fn segments_in_progress(&self) -> (listed: Vec<&Segment>)
        ensures
            listed@.unref() == in_state(self@.segments, CompactionState::InProgress),
    {
        self.listed_in(CompactionState::InProgress)
    }

    /// Return segments that are healthy (state = Compacted).
    pub fn healthy_segments(&self) -> (listed: Vec<&Segment>)
        ensures
            listed@.unref() == in_state(self@.segments, CompactionState::Compacted),
    {
        self.listed_in(CompactionState::Compacted)
    }

    /// Pick the most fragmented segments and create a compaction job.
    ///
    /// Returns `None` if no segments need compaction. Picks up to `max_sources`
    /// segments, sorted by fragmentation ratio descending.
    pub fn schedule_compaction(&mut self, max_sources: usize) -> (job: Option<CompactionJob>)
        requires
            old(self)@.can_schedule(max_sources as int),
        ensures
            final(self)@ == old(self)@.after_schedule(),
            match job {
                Some(job) => old(self)@.has_work() && old(self)@.issues(max_sources as int, job),
                None => !old(self)@.has_work(),
            },
    {
        self.refresh_all();
        let ghost segs = self.segments@;
        let mut candidates = worst_first(&self.segments);
        let ghost order = compaction_order(segs);
        proof {
            lemma_has_work(old(self)@);
            assert(positions(candidates@).len() == candidates@.len());
        }
        if candidates.len() == 0 {
            return None;
        }
        candidates.truncate(max_sources);
        let ghost chosen = selection(segs, max_sources as int);
        proof {
            compaction_order_is_worst_first(segs);
            assert forall|k: int| 0 <= k < candidates@.len() implies {
                &&& (#[trigger] candidates@[k]) < segs.len()
                &&& segs[candidates@[k] as int] == chosen[k]
            } by {
                assert(positions(candidates@)[k] == order[k]);
                assert(order.contains(order[k]));
            }
            assert(chosen.len() == candidates@.len());
        }
        let mut total_bytes: u64 = 0;
        let mut source_ids: Vec<u64> = Vec::new();
        let mut i: usize = 0;
        while i < candidates.len()
            invariant
                i <= candidates@.len(),
                segs == self.segments@,
                chosen.len() == candidates@.len(),
                forall|k: int|
                    0 <= k < candidates@.len() ==> {
                        &&& (#[trigger] candidates@[k]) < segs.len()
                        &&& segs[candidates@[k] as int] == chosen[k]
                    },
                total_used(chosen) <= u64::MAX,
                total_bytes == total_used(chosen.take(i as int)),
                source_ids@ == chosen.take(i as int).map_values(|s: Segment| s.id),
            decreases candidates.len() - i,
        {
            let segment = &self.segments[candidates[i]];
            proof {
                assert(segment == chosen[i as int]);
                assert(chosen.take(i + 1) =~= chosen.take(i as int).push(chosen[i as int]));
                lemma_sum_push(chosen.take(i as int), chosen[i as int], used());
                lemma_sum_prefix(chosen, i + 1, used());
            }
            total_bytes += segment.used_bytes;
            source_ids.push(segment.id);
            i += 1;
            assert(source_ids@ =~= chosen.take(i as int).map_values(|s: Segment| s.id));
        }
        assert(chosen.take(i as int) =~= chosen);
        let job_id: u64 = self.next_job_id;
        self.next_job_id += 1;
        let target_id: u64 = self.next_segment_id;
        self.next_segment_id += 1;
        Some(CompactionJob::new(job_id, source_ids, target_id, total_bytes))
    }

    /// Finalize a completed job: remove source segments, add target, update stats.
    pub fn finalize_job(&mut self, job: &CompactionJob)
        requires
            old(self)@.can_finalize(*job),
        ensures
            final(self)@ == old(self)@.after_finalize(*job),
    {
        if !job.done {
            return;
        }
        let mut source_set: HashSet<u64> = HashSet::new();
        let mut i: usize = 0;
        while i < job.source_ids.len()
            invariant
                i <= job.source_ids@.len(),
                source_set@ == job.source_ids@.take(i as int).to_set(),
            decreases job.source_ids.len() - i,
        {
            source_set.insert(job.source_ids[i]);
            proof {
                let before = job.source_ids@.take(i as int);
                assert(job.source_ids@.take(i + 1) =~= before.push(job.source_ids@[i as int]));
                before.lemma_push_to_set_commute(job.source_ids@[i as int]);
            }
            i += 1;
        }
        assert(job.source_ids@.take(i as int) =~= job.source_ids@);
        let ghost segs = self.segments@;
        let ghost merged = |s: Segment| job.source_ids@.contains(s.id);
        let ghost spared = |s: Segment| !job.source_ids@.contains(s.id);
        let mut source_capacity: u64 = 0;
        let mut kept: Vec<Segment> = Vec::new();
        let mut k: usize = 0;
        assert(segs.take(0).filter(merged) =~= Seq::empty()) by {
            reveal(Seq::filter);
        }
        assert(segs.take(0).filter(spared) =~= Seq::empty()) by {
            reveal(Seq::filter);
        }
        while k < self.segments.len()
            invariant
                k <= self.segments@.len(),
                segs == self.segments@,
                source_set@ == job.source_ids@.to_set(),
                merged == (|s: Segment| job.source_ids@.contains(s.id)),
                spared == (|s: Segment| !job.source_ids@.contains(s.id)),
                total_capacity(segs.filter(merged)) <= u64::MAX,
                source_capacity == total_capacity(segs.take(k as int).filter(merged)),
                kept@ == segs.take(k as int).filter(spared),
            decreases self.segments.len() - k,
        {
            let ghost before = segs.take(k as int);
            let ghost seg = segs[k as int];
            proof {
                assert(segs.take(k + 1) =~= before.push(seg));
                before.lemma_filter_push(seg, merged);
                before.lemma_filter_push(seg, spared);
                lemma_sum_push(before.filter(merged), seg, capacity());
                lemma_capacity_of_prefix(segs, k + 1, merged);
            }
            if source_set.contains(&self.segments[k].id) {
                source_capacity += self.segments[k].capacity;
            } else {
                kept.push(self.segments[k].clone());
            }
            k += 1;
        }
        assert(segs.take(k as int) =~= segs);
        let reclaimed: u64 = source_capacity.saturating_sub(job.total_bytes);
        let mut target = Segment::new(job.target_id, job.total_bytes, job.total_bytes);
        target.state = CompactionState::Compacted;
        kept.push(target);
        self.segments = kept;
        self.stats.total_bytes_compacted += job.total_bytes;
        self.stats.space_reclaimed += reclaimed;
        self.stats.jobs_completed += 1;
        self.stats.segments_merged += job.source_ids.len() as u64;
    }

    /// Access cumulative statistics.
    pub fn stats(&self) -> (stats: &CompactionStats)
        ensures
            *stats == self@.stats,
    {
        &self.stats
    }

    /// Access managed segments.
    pub fn segments(&self) -> (segments: &[Segment])
        ensures
            segments@ == self@.segments,
    {
        self.segments.as_slice()
    }

    /// Add a segment to the scheduler.
    pub fn add_segment(&mut self, seg: Segment)
        requires
            seg.id >= old(self)@.next_segment_id ==> seg.id < u64::MAX,
        ensures
            final(self)@ == old(self)@.after_add(seg),
    {
        if seg.id >= self.next_segment_id {
            self.next_segment_id = seg.id + 1;
        }
        self.segments.push(seg);
    }
}

impl Clone for CompactionScheduler {
    fn clone(&self) -> (copy: CompactionScheduler)
        ensures
            copy@ == self@,
    {
        let segments = self.segments.clone();
        assert(segments@ =~= self.segments@);
        CompactionScheduler {
            segments,
            next_job_id: self.next_job_id,
            next_segment_id: self.next_segment_id,
            stats: self.stats.clone(),
        }
    }
}

} // verus!
