use oxide_compactor::{
    CompactionJob, CompactionScheduler, CompactionState, CompactionStats, Double, MergeCompactor,
    Segment,
};

fn to_f64(number: Double) -> f64 {
    f64::from_bits(number.bits)
}

fn double(number: f64) -> Double {
    Double { bits: number.to_bits() }
}

fn ids(segments: &[Segment]) -> Vec<u64> {
    segments.iter().map(|s| s.id).collect()
}

// Ternary state classification from fragmentation ratios.
#[test]
fn test_ternary_state_classification() {
    assert_eq!(
        CompactionState::from_fragmentation(double(0.1)),
        CompactionState::Compacted
    );
    assert_eq!(
        CompactionState::from_fragmentation(double(0.29)),
        CompactionState::Compacted
    );
    assert_eq!(
        CompactionState::from_fragmentation(double(0.3)),
        CompactionState::InProgress
    );
    assert_eq!(
        CompactionState::from_fragmentation(double(0.5)),
        CompactionState::InProgress
    );
    assert_eq!(
        CompactionState::from_fragmentation(double(0.6)),
        CompactionState::NeedsCompaction
    );
    assert_eq!(
        CompactionState::from_fragmentation(double(0.9)),
        CompactionState::NeedsCompaction
    );
}

// Ternary numeric values.
#[test]
fn test_ternary_values() {
    assert_eq!(CompactionState::Compacted.value(), 1);
    assert_eq!(CompactionState::InProgress.value(), 0);
    assert_eq!(CompactionState::NeedsCompaction.value(), -1);
}

// Segment fragmentation ratio and dead bytes.
#[test]
fn test_segment_fragmentation() {
    let seg = Segment::new(1, 1000, 400);
    // fragmentation = 1 - 400/1000 = 0.6 → NeedsCompaction
    assert!((to_f64(seg.fragmentation_ratio()) - 0.6).abs() < 1e-9);
    assert_eq!(seg.dead_bytes(), 600);
    assert_eq!(seg.state, CompactionState::NeedsCompaction);

    let healthy = Segment::new(2, 1000, 900);
    assert!((to_f64(healthy.fragmentation_ratio()) - 0.1).abs() < 1e-9);
    assert_eq!(healthy.state, CompactionState::Compacted);
}

// CompactionJob progress tracking.
#[test]
fn test_job_progress() {
    let mut job = CompactionJob::new(0, vec![1, 2], 99, 1000);
    assert!((to_f64(job.progress()) - 0.0).abs() < 1e-9);
    assert!(!job.done);

    job.advance(500);
    assert!((to_f64(job.progress()) - 0.5).abs() < 1e-9);
    assert!(!job.done);

    job.advance(500);
    assert!((to_f64(job.progress()) - 1.0).abs() < 1e-9);
    assert!(job.done);
}

// CompactionJob advance saturates at total_bytes.
#[test]
fn test_job_advance_saturates() {
    let mut job = CompactionJob::new(0, vec![1], 50, 100);
    job.advance(999);
    assert!(job.done);
    assert_eq!(job.bytes_compacted, 100);
}

// Scheduler picks most fragmented segments.
#[test]
fn test_scheduler_picks_fragmented() {
    let segs = vec![
        Segment::new(0, 1000, 900), // 10% frag → Compacted
        Segment::new(1, 1000, 200), // 80% frag → NeedsCompaction
        Segment::new(2, 1000, 500), // 50% frag → InProgress
    ];
    let mut sched = CompactionScheduler::new(segs);
    let job = sched.schedule_compaction(2).unwrap();

    assert_eq!(job.source_ids, vec![1]); // only NeedsCompaction
    assert_eq!(job.total_bytes, 200);
}

// Scheduler returns None when nothing needs compaction.
#[test]
fn test_scheduler_nothing_to_compact() {
    let segs = vec![
        Segment::new(0, 1000, 950),
        Segment::new(1, 1000, 900),
    ];
    let mut sched = CompactionScheduler::new(segs);
    assert!(sched.schedule_compaction(2).is_none());
}

// Full scheduler lifecycle: schedule → finalize → stats.
#[test]
fn test_scheduler_lifecycle() {
    let segs = vec![
        Segment::new(0, 1000, 200), // 80% frag → NeedsCompaction
        Segment::new(1, 1000, 300), // 70% frag → NeedsCompaction
        Segment::new(2, 1000, 900), // 10% frag → Compacted
    ];
    let mut sched = CompactionScheduler::new(segs);

    let mut job = sched.schedule_compaction(4).unwrap();
    assert_eq!(job.source_ids.len(), 2);
    job.advance(job.total_bytes);
    assert!(job.done);

    sched.finalize_job(&job);

    let stats = sched.stats();
    assert_eq!(stats.total_bytes_compacted, 500);
    assert_eq!(stats.space_reclaimed, 1500); // 800 + 700 dead = 1500
    assert_eq!(stats.jobs_completed, 1);
    assert_eq!(stats.segments_merged, 2);

    // Segments should now be: the healthy one + new target.
    assert_eq!(sched.segments().len(), 2);
    assert!(sched
        .segments()
        .iter()
        .any(|s| s.id == 2 && s.state == CompactionState::Compacted));
}

// Merge compactor: k-way merge of sorted runs.
#[test]
fn test_merge_compactor_sorted() {
    let runs: Vec<Vec<i32>> = vec![
        vec![1, 4, 7],
        vec![2, 5, 8],
        vec![3, 6, 9],
    ];
    let merged = MergeCompactor::compact(&runs);
    assert_eq!(merged, vec![1, 2, 3, 4, 5, 6, 7, 8, 9]);
}

// Merge compactor with empty runs.
#[test]
fn test_merge_compactor_edge_cases() {
    // No runs.
    let merged: Vec<i32> = MergeCompactor::compact(&[]);
    assert!(merged.is_empty());

    // Single run.
    let merged = MergeCompactor::compact(&[vec![1, 2, 3]]);
    assert_eq!(merged, vec![1, 2, 3]);

    // Runs with empties.
    let merged = MergeCompactor::compact(&[vec![], vec![1, 3], vec![2]]);
    assert_eq!(merged, vec![1, 2, 3]);
}

// CompactionStats arithmetic.
#[test]
fn test_stats_addition() {
    let a = CompactionStats {
        total_bytes_compacted: 100,
        space_reclaimed: 40,
        jobs_completed: 1,
        segments_merged: 2,
    };
    let b = CompactionStats {
        total_bytes_compacted: 200,
        space_reclaimed: 60,
        jobs_completed: 2,
        segments_merged: 3,
    };
    let sum = a + b;
    assert_eq!(sum.total_bytes_compacted, 300);
    assert_eq!(sum.space_reclaimed, 100);
    assert_eq!(sum.jobs_completed, 3);
    assert_eq!(sum.segments_merged, 5);
    assert!((to_f64(sum.compaction_ratio()) - (100.0 / 300.0)).abs() < 1e-9);
}

// Segment refresh state.
#[test]
fn test_segment_refresh_state() {
    let mut seg = Segment::new(0, 1000, 900);
    assert_eq!(seg.state, CompactionState::Compacted);

    // Simulate data deletion.
    seg.used_bytes = 200;
    seg.refresh_state();
    assert_eq!(seg.state, CompactionState::NeedsCompaction);
}

// Scheduler compaction ratio stat.
#[test]
fn test_scheduler_compaction_ratio() {
    let segs = vec![Segment::new(0, 100, 10)];
    let mut sched = CompactionScheduler::new(segs);
    let mut job = sched.schedule_compaction(4).unwrap();
    job.advance(job.total_bytes);
    sched.finalize_job(&job);

    let stats = sched.stats();
    // Reclaimed = 90 dead bytes, compacted = 10 used bytes.
    assert!((to_f64(stats.compaction_ratio()) - 9.0).abs() < 1e-9);
}

// ---------------------------------------------------------------------------
// States and segments
// ---------------------------------------------------------------------------

#[test]
fn states_have_names() {
    assert_eq!(CompactionState::Compacted.to_string(), "Compacted(+1)");
    assert_eq!(CompactionState::InProgress.to_string(), "InProgress(0)");
    assert_eq!(CompactionState::NeedsCompaction.to_string(), "NeedsCompaction(-1)");
}

#[test]
fn states_are_ordered_as_their_values() {
    assert!(CompactionState::NeedsCompaction < CompactionState::InProgress);
    assert!(CompactionState::InProgress < CompactionState::Compacted);
    assert!(CompactionState::NeedsCompaction.value() < CompactionState::InProgress.value());
    assert!(CompactionState::InProgress.value() < CompactionState::Compacted.value());
}

#[test]
fn extreme_ratios_are_classified() {
    for (ratio, state) in [
        (-5.0, CompactionState::Compacted),
        (f64::MIN, CompactionState::Compacted),
        (f64::NEG_INFINITY, CompactionState::Compacted),
        (f64::NAN, CompactionState::Compacted),
        (-f64::NAN, CompactionState::Compacted),
        (0.0, CompactionState::Compacted),
        (-0.0, CompactionState::Compacted),
        (f64::MIN_POSITIVE, CompactionState::Compacted),
        (1.0, CompactionState::NeedsCompaction),
        (f64::MAX, CompactionState::NeedsCompaction),
        (f64::INFINITY, CompactionState::NeedsCompaction),
    ] {
        assert_eq!(CompactionState::from_fragmentation(double(ratio)), state);
    }
}

#[test]
fn neighbours_of_the_thresholds_are_classified() {
    for (threshold, below, from) in [
        (0.6f64, CompactionState::InProgress, CompactionState::NeedsCompaction),
        (0.3f64, CompactionState::Compacted, CompactionState::InProgress),
    ] {
        let bits = threshold.to_bits();
        assert_eq!(CompactionState::from_fragmentation(Double { bits: bits - 1 }), below);
        assert_eq!(CompactionState::from_fragmentation(Double { bits }), from);
        assert_eq!(CompactionState::from_fragmentation(Double { bits: bits + 1 }), from);
    }
}

#[test]
fn thresholds_are_exact() {
    assert_eq!(Segment::new(0, 1000, 401).state, CompactionState::InProgress);
    assert_eq!(Segment::new(0, 1000, 400).state, CompactionState::NeedsCompaction);
    assert_eq!(Segment::new(0, 1000, 701).state, CompactionState::Compacted);
    assert_eq!(Segment::new(0, 1000, 700).state, CompactionState::InProgress);
}

#[test]
fn full_and_empty_segments() {
    let full = Segment::new(0, 512, 512);
    assert_eq!(to_f64(full.fragmentation_ratio()), 0.0);
    assert_eq!(full.dead_bytes(), 0);
    assert_eq!(full.state, CompactionState::Compacted);

    let empty = Segment::new(1, 512, 0);
    assert_eq!(to_f64(empty.fragmentation_ratio()), 1.0);
    assert_eq!(empty.dead_bytes(), 512);
    assert_eq!(empty.state, CompactionState::NeedsCompaction);
}

#[test]
fn segment_without_capacity_is_healthy() {
    let seg = Segment::new(0, 0, 0);
    assert_eq!(to_f64(seg.fragmentation_ratio()), 0.0);
    assert_eq!(seg.dead_bytes(), 0);
    assert_eq!(seg.state, CompactionState::Compacted);
}

#[test]
fn overfull_segment_is_healthy() {
    let seg = Segment::new(0, 100, 150);
    assert_eq!(to_f64(seg.fragmentation_ratio()), 0.0);
    assert_eq!(seg.dead_bytes(), 0);
    assert_eq!(seg.state, CompactionState::Compacted);

    let seg = Segment::new(0, 100, 200);
    assert_eq!(to_f64(seg.fragmentation_ratio()), 0.0);
    assert_eq!(seg.dead_bytes(), 0);
    assert_eq!(seg.state, CompactionState::Compacted);

    let seg = Segment::new(0, 1, u64::MAX);
    assert_eq!(to_f64(seg.fragmentation_ratio()), 0.0);
}

#[test]
fn ratios_lie_between_zero_and_one() {
    let sizes = [0, 1, 2, 99, 100, 101, u64::MAX - 1, u64::MAX];
    for capacity in sizes {
        for used in sizes {
            let ratio = to_f64(Segment::frag_ratio(capacity, used));
            assert!((0.0..=1.0).contains(&ratio));
            if used >= capacity {
                assert_eq!(ratio, 0.0);
            }
        }
    }
}

#[test]
fn more_live_bytes_lower_the_ratio() {
    for capacity in [0, 1, 100, 1 << 60, u64::MAX] {
        let mut last = Segment::frag_ratio(capacity, 0);
        for used in [1, 50, 99, 100, 101, 1 << 52, 1 << 59, u64::MAX] {
            let ratio = Segment::frag_ratio(capacity, used);
            assert!(ratio.is_at_most(&last));
            last = ratio;
        }
        assert_eq!(to_f64(last), 0.0);
    }
}

/// Numbers of all sizes, always the same.
fn samples() -> Vec<u64> {
    let mut all = vec![1, 2, 3, 9, 10, 1000, u64::MAX, u64::MAX - 1];
    for shift in [10, 26, 50, 51, 52, 53, 54, 55, 62, 63] {
        let power = 1u64 << shift;
        all.extend([power - 1, power, power + 1, power + power / 2 + 1]);
    }
    let mut state: u64 = 88172645463325252;
    for i in 0..60 {
        state ^= state << 13;
        state ^= state >> 7;
        state ^= state << 17;
        all.push((state >> (i % 60)) | 1);
    }
    all
}

#[test]
fn ratios_are_those_of_floating_point_arithmetic() {
    for &capacity in &samples() {
        for &used in &samples() {
            let part = used as f64 / capacity as f64;
            let job = CompactionJob {
                bytes_compacted: used,
                ..CompactionJob::new(0, vec![], 1, capacity)
            };
            assert_eq!(job.progress().bits, part.to_bits());
            assert_eq!(stats(capacity, used, 1, 1).compaction_ratio().bits, part.to_bits());
            if used <= capacity {
                let ratio = 1.0 - part;
                let seg = Segment::new(0, capacity, used);
                assert_eq!(seg.fragmentation_ratio().bits, ratio.to_bits());
                let state = if ratio >= 0.6 {
                    CompactionState::NeedsCompaction
                } else if ratio >= 0.3 {
                    CompactionState::InProgress
                } else {
                    CompactionState::Compacted
                };
                assert_eq!(seg.state, state);
            }
        }
    }
}

#[test]
fn complements_are_those_of_floating_point_arithmetic() {
    for number in [
        0.0,
        f64::from_bits(1),
        f64::MIN_POSITIVE,
        1e-30,
        1e-17,
        5.5e-17,
        5.6e-17,
        1.2e-16,
        0.1,
        0.25,
        0.3,
        0.49999999999999994,
        0.5,
        0.7,
        0.9999999999999999,
        1.0,
    ] {
        assert_eq!(double(number).complement().bits, (1.0 - number).to_bits());
    }
}

#[test]
fn comparisons_are_those_of_floating_point_arithmetic() {
    let numbers = [
        f64::NEG_INFINITY,
        -2.0,
        -1.5,
        -f64::MIN_POSITIVE,
        -0.0,
        0.0,
        f64::from_bits(1),
        f64::MIN_POSITIVE,
        0.3,
        1.5,
        2.0,
        f64::INFINITY,
        f64::NAN,
        -f64::NAN,
    ];
    for x in numbers {
        for y in numbers {
            let (a, b) = (double(x), double(y));
            assert_eq!(a.is_at_most(&b), x <= y);
            assert_eq!(a == b, x == y);
            assert_eq!(a < b, x < y);
            assert_eq!(a >= b, x >= y);
            assert_eq!(a.partial_cmp(&b), x.partial_cmp(&y));
        }
    }
}

#[test]
fn states_of_very_large_segments_go_by_the_rounded_ratio() {
    let capacity = 10_000_000_000_000_000_000;
    let seg = Segment::new(0, capacity, 4_000_000_000_000_000_001);
    assert_eq!(seg.state, CompactionState::NeedsCompaction);
    // Up to 2^50 bytes the exact share decides.
    let capacity = 1_000_000_000_000_000;
    let seg = Segment::new(0, capacity, 400_000_000_000_001);
    assert_eq!(seg.state, CompactionState::InProgress);
    let seg = Segment::new(0, capacity, 400_000_000_000_000);
    assert_eq!(seg.state, CompactionState::NeedsCompaction);
    let seg = Segment::new(0, capacity, 700_000_000_000_001);
    assert_eq!(seg.state, CompactionState::Compacted);
    let seg = Segment::new(0, capacity, 700_000_000_000_000);
    assert_eq!(seg.state, CompactionState::InProgress);
}

#[test]
fn refreshing_twice_changes_nothing_more() {
    let mut seg = Segment::new(3, 1000, 500);
    seg.used_bytes = 900;
    seg.refresh_state();
    assert_eq!(seg.state, CompactionState::Compacted);
    seg.refresh_state();
    assert_eq!(seg.state, CompactionState::Compacted);
    assert_eq!((seg.id, seg.capacity, seg.used_bytes), (3, 1000, 900));
}

#[test]
fn deleting_data_never_heals() {
    let mut last = 1;
    for used in (0..=1000).rev().step_by(50) {
        let value = Segment::new(0, 1000, used).state.value();
        assert!(value <= last);
        last = value;
    }
    assert_eq!(last, -1);
}

#[test]
fn cloned_segment_is_the_same() {
    let copy = Segment::new(7, 100, 10).clone();
    assert_eq!((copy.id, copy.capacity, copy.used_bytes), (7, 100, 10));
    assert_eq!(copy.state, CompactionState::NeedsCompaction);
}

// ---------------------------------------------------------------------------
// Jobs
// ---------------------------------------------------------------------------

#[test]
fn job_without_work_is_complete() {
    let mut job = CompactionJob::new(0, vec![], 1, 0);
    assert_eq!(to_f64(job.progress()), 1.0);
    assert!(!job.done);
    job.advance(0);
    assert!(job.done);
    assert_eq!(job.bytes_compacted, 0);
}

#[test]
fn advancing_accumulates() {
    let mut once = CompactionJob::new(0, vec![1], 2, 100);
    let mut twice = once.clone();
    once.advance(70);
    twice.advance(30);
    twice.advance(40);
    assert_eq!(once.bytes_compacted, 70);
    assert_eq!(twice.bytes_compacted, 70);
    assert!(!once.done && !twice.done);
}

#[test]
fn finished_job_stays_finished() {
    let mut job = CompactionJob::new(0, vec![1], 2, 10);
    job.advance(10);
    assert!(job.done);
    job.advance(5);
    assert!(job.done);
    assert_eq!(job.bytes_compacted, 10);
    assert_eq!(to_f64(job.progress()), 1.0);
}

#[test]
fn advancing_stops_at_the_total_however_far() {
    let mut job = CompactionJob::new(0, vec![1], 2, 100);
    job.advance(1);
    assert_eq!(job.bytes_compacted, 1);
    job.advance(u64::MAX);
    assert_eq!(job.bytes_compacted, 100);
    assert!(job.done);

    let mut job = CompactionJob::new(0, vec![1], 2, u64::MAX);
    job.advance(u64::MAX - 1);
    assert!(!job.done);
    job.advance(u64::MAX);
    assert_eq!(job.bytes_compacted, u64::MAX);
    assert!(job.done);
}

#[test]
fn cloned_job_is_the_same() {
    let job = CompactionJob::new(4, vec![9, 8], 11, 77);
    let copy = job.clone();
    assert_eq!(copy.id, 4);
    assert_eq!(copy.source_ids, vec![9, 8]);
    assert_eq!(copy.target_id, 11);
    assert_eq!(copy.bytes_compacted, 0);
    assert_eq!(copy.total_bytes, 77);
    assert!(!copy.done);
}

// ---------------------------------------------------------------------------
// Statistics
// ---------------------------------------------------------------------------

fn stats(a: u64, b: u64, c: u64, d: u64) -> CompactionStats {
    CompactionStats {
        total_bytes_compacted: a,
        space_reclaimed: b,
        jobs_completed: c,
        segments_merged: d,
    }
}

#[test]
fn fresh_statistics_are_zero() {
    let zero = CompactionStats::default();
    assert_eq!(zero, stats(0, 0, 0, 0));
    assert_eq!(to_f64(zero.compaction_ratio()), 0.0);
}

#[test]
fn statistics_add_in_any_order() {
    let (a, b, c) = (stats(1, 2, 3, 4), stats(10, 20, 30, 40), stats(5, 6, 7, 8));
    assert_eq!(a.clone() + b.clone(), b.clone() + a.clone());
    assert_eq!(
        (a.clone() + b.clone()) + c.clone(),
        a.clone() + (b.clone() + c.clone())
    );
    assert_eq!(a.clone() + CompactionStats::default(), a);
}

#[test]
fn more_reclaimed_raises_the_ratio() {
    let mut last = stats(300, 0, 1, 1).compaction_ratio();
    for reclaimed in [1, 100, 299, 300, 301, u64::MAX] {
        let ratio = stats(300, reclaimed, 1, 1).compaction_ratio();
        assert!(last < ratio);
        last = ratio;
    }
    assert_eq!(to_f64(stats(200, 100, 1, 1).compaction_ratio()), 0.5);
}

#[test]
fn statistics_add_in_place() {
    let mut sum = stats(1, 2, 3, 4);
    sum += stats(10, 20, 30, 40);
    assert_eq!(sum, stats(11, 22, 33, 44));
    assert_ne!(sum, stats(11, 22, 33, 45));
}

// ---------------------------------------------------------------------------
// Scheduler
// ---------------------------------------------------------------------------

#[test]
fn worst_segments_are_taken_first() {
    let segs = vec![
        Segment::new(0, 1_048_576, 900_000), // ~14%
        Segment::new(1, 1_048_576, 400_000), // ~62%
        Segment::new(2, 1_048_576, 200_000), // ~81%
        Segment::new(3, 1_048_576, 600_000), // ~43%
        Segment::new(4, 1_048_576, 300_000), // ~71%
    ];
    let mut sched = CompactionScheduler::new(segs);
    let job = sched.schedule_compaction(4).unwrap();
    assert_eq!(job.source_ids, vec![2, 4, 1]);
    assert_eq!(job.total_bytes, 900_000);
    let job = sched.schedule_compaction(2).unwrap();
    assert_eq!(job.source_ids, vec![2, 4]);
    assert_eq!(job.total_bytes, 500_000);
}

#[test]
fn equally_fragmented_segments_keep_their_order() {
    let segs = vec![
        Segment::new(5, 1000, 200),
        Segment::new(3, 100, 20),
        Segment::new(9, 10, 1),
        Segment::new(4, 500, 100),
    ];
    let mut sched = CompactionScheduler::new(segs);
    let job = sched.schedule_compaction(10).unwrap();
    assert_eq!(job.source_ids, vec![9, 5, 3, 4]);
}

#[test]
fn very_large_segments_are_ranked_by_the_rounded_ratio() {
    let cap = u64::MAX;
    let segs = vec![
        Segment::new(0, cap, 2),
        Segment::new(1, cap, 1),
        Segment::new(2, cap - 1, 1),
    ];
    let mut sched = CompactionScheduler::new(segs);
    let job = sched.schedule_compaction(3).unwrap();
    // All three ratios are 1.0, so the segments are taken as listed.
    assert_eq!(job.source_ids, vec![0, 1, 2]);
}

#[test]
fn many_segments_are_sorted() {
    let segs: Vec<Segment> = (0..100)
        .map(|i| Segment::new(i, 1000, (i * 37) % 400))
        .collect();
    let mut expected: Vec<(u64, u64)> = segs.iter().map(|s| (s.used_bytes, s.id)).collect();
    expected.sort();
    let mut sched = CompactionScheduler::new(segs);
    let job = sched.schedule_compaction(1000).unwrap();
    assert_eq!(
        job.source_ids,
        expected.iter().map(|p| p.1).collect::<Vec<u64>>()
    );
}

#[test]
fn zero_sources_give_an_empty_job() {
    let mut sched = CompactionScheduler::new(vec![Segment::new(0, 100, 10)]);
    let job = sched.schedule_compaction(0).unwrap();
    assert!(job.source_ids.is_empty());
    assert_eq!(job.total_bytes, 0);
    assert_eq!((job.id, job.target_id), (0, 1));
}

#[test]
fn scheduling_refreshes_states() {
    let mut seg = Segment::new(0, 1000, 900);
    seg.used_bytes = 100;
    assert_eq!(seg.state, CompactionState::Compacted);
    let mut sched = CompactionScheduler::new(vec![seg]);
    let job = sched.schedule_compaction(1).unwrap();
    assert_eq!(job.source_ids, vec![0]);
    assert_eq!(sched.segments()[0].state, CompactionState::NeedsCompaction);

    let mut seg = Segment::new(0, 1000, 100);
    seg.used_bytes = 900;
    let mut sched = CompactionScheduler::new(vec![seg]);
    assert!(sched.schedule_compaction(1).is_none());
    assert_eq!(sched.segments()[0].state, CompactionState::Compacted);
}

#[test]
fn ids_are_handed_out_in_order() {
    let mut sched = CompactionScheduler::new(vec![
        Segment::new(7, 100, 10),
        Segment::new(3, 100, 95),
    ]);
    let first = sched.schedule_compaction(1).unwrap();
    let second = sched.schedule_compaction(1).unwrap();
    assert_eq!((first.id, first.target_id), (0, 8));
    assert_eq!((second.id, second.target_id), (1, 9));
    // Nothing is reserved by scheduling.
    assert_eq!(first.source_ids, second.source_ids);

    sched.add_segment(Segment::new(20, 100, 5));
    let third = sched.schedule_compaction(1).unwrap();
    assert_eq!((third.id, third.target_id), (2, 21));

    sched.add_segment(Segment::new(1, 100, 5));
    let fourth = sched.schedule_compaction(1).unwrap();
    assert_eq!((fourth.id, fourth.target_id), (3, 22));
}

#[test]
fn empty_scheduler_starts_at_one() {
    let mut sched = CompactionScheduler::new(vec![]);
    assert!(sched.schedule_compaction(3).is_none());
    sched.add_segment(Segment::new(0, 100, 10));
    let job = sched.schedule_compaction(3).unwrap();
    assert_eq!((job.id, job.target_id), (0, 1));
}

#[test]
fn unfinished_job_changes_nothing() {
    let mut sched = CompactionScheduler::new(vec![Segment::new(0, 100, 10)]);
    let mut job = sched.schedule_compaction(4).unwrap();
    job.advance(9);
    assert!(!job.done);
    sched.finalize_job(&job);
    assert_eq!(ids(sched.segments()), vec![0]);
    assert_eq!(*sched.stats(), CompactionStats::default());
}

#[test]
fn finalizing_replaces_sources_by_a_full_target() {
    let mut sched = CompactionScheduler::new(vec![
        Segment::new(0, 1000, 900),
        Segment::new(1, 1000, 200),
        Segment::new(2, 1000, 500),
        Segment::new(3, 1000, 100),
    ]);
    let mut job = sched.schedule_compaction(4).unwrap();
    assert_eq!(job.source_ids, vec![3, 1]);
    job.advance(job.total_bytes);
    sched.finalize_job(&job);
    assert_eq!(ids(sched.segments()), vec![0, 2, 4]);
    let target = &sched.segments()[2];
    assert_eq!((target.capacity, target.used_bytes), (300, 300));
    assert_eq!(target.state, CompactionState::Compacted);
    assert_eq!(target.dead_bytes(), 0);
    // Live data is kept, and the dead space of the sources is given back.
    assert_eq!(sched.segments().iter().map(|s| s.used_bytes).sum::<u64>(), 1700);
    assert_eq!(sched.segments().iter().map(|s| s.capacity).sum::<u64>(), 2300);
    assert_eq!(*sched.stats(), stats(300, 1700, 1, 2));
    // The work is drained.
    assert!(sched.schedule_compaction(4).is_none());
}

#[test]
fn sources_that_are_gone_reclaim_nothing() {
    let mut sched = CompactionScheduler::new(vec![Segment::new(0, 100, 90)]);
    let mut job = CompactionJob::new(0, vec![5, 6, 6], 9, 40);
    job.advance(40);
    sched.finalize_job(&job);
    assert_eq!(ids(sched.segments()), vec![0, 9]);
    assert_eq!(*sched.stats(), stats(40, 0, 1, 3));
}

#[test]
fn target_may_take_over_the_id_of_a_source() {
    let mut sched = CompactionScheduler::new(vec![
        Segment::new(0, 100, 90),
        Segment::new(5, 100, 10),
    ]);
    let mut job = CompactionJob::new(0, vec![5], 5, 10);
    job.advance(10);
    sched.finalize_job(&job);
    assert_eq!(ids(sched.segments()), vec![0, 5]);
    assert_eq!(sched.segments()[1].capacity, 10);
}

#[test]
fn statistics_accumulate_over_jobs() {
    let mut sched = CompactionScheduler::new(vec![
        Segment::new(0, 1000, 100),
        Segment::new(1, 1000, 200),
    ]);
    let mut job = sched.schedule_compaction(1).unwrap();
    job.advance(job.total_bytes);
    sched.finalize_job(&job);
    assert_eq!(*sched.stats(), stats(100, 900, 1, 1));
    let mut job = sched.schedule_compaction(1).unwrap();
    assert_eq!(job.source_ids, vec![1]);
    job.advance(job.total_bytes);
    sched.finalize_job(&job);
    assert_eq!(*sched.stats(), stats(300, 1700, 2, 2));
}

#[test]
fn states_partition_the_segments() {
    let mut sched = CompactionScheduler::new(vec![
        Segment::new(0, 1000, 900),
        Segment::new(1, 1000, 200),
        Segment::new(2, 1000, 500),
        Segment::new(3, 1000, 800),
    ]);
    sched.refresh_all();
    let fragmented: Vec<u64> = sched.segments_needing_compaction().iter().map(|s| s.id).collect();
    let borderline: Vec<u64> = sched.segments_in_progress().iter().map(|s| s.id).collect();
    let healthy: Vec<u64> = sched.healthy_segments().iter().map(|s| s.id).collect();
    assert_eq!(fragmented, vec![1]);
    assert_eq!(borderline, vec![2]);
    assert_eq!(healthy, vec![0, 3]);
}

#[test]
fn listings_go_by_the_recorded_state() {
    let mut seg = Segment::new(0, 1000, 900);
    seg.used_bytes = 0;
    let mut sched = CompactionScheduler::new(vec![seg]);
    assert_eq!(sched.healthy_segments().len(), 1);
    sched.refresh_all();
    assert_eq!(sched.healthy_segments().len(), 0);
    assert_eq!(sched.segments_needing_compaction().len(), 1);
}

#[test]
fn cloned_scheduler_goes_its_own_way() {
    let mut sched = CompactionScheduler::new(vec![Segment::new(0, 100, 10)]);
    let copy = sched.clone();
    let mut job = sched.schedule_compaction(1).unwrap();
    job.advance(10);
    sched.finalize_job(&job);
    assert_eq!(ids(sched.segments()), vec![1]);
    assert_eq!(ids(copy.segments()), vec![0]);
    assert_eq!(*copy.stats(), CompactionStats::default());
}

// ---------------------------------------------------------------------------
// Merging
// ---------------------------------------------------------------------------

#[test]
fn merge_of_uneven_runs() {
    let runs: Vec<Vec<i32>> = vec![
        vec![1, 4, 7, 10],
        vec![2, 5, 8],
        vec![3, 6, 9, 11, 12],
    ];
    let merged = MergeCompactor::compact(&runs);
    assert_eq!(merged, vec![1, 2, 3, 4, 5, 6, 7, 8, 9, 10, 11, 12]);
}

#[test]
fn merge_of_many_runs_is_sorted_and_complete() {
    let runs: Vec<Vec<u32>> = (0..17u32)
        .map(|r| {
            let mut run: Vec<u32> = (0..(r * 3) % 11).map(|k| (k * 29 + r * 13) % 50).collect();
            run.sort();
            run
        })
        .collect();
    let mut expected: Vec<u32> = runs.iter().flatten().copied().collect();
    expected.sort();
    assert_eq!(MergeCompactor::compact(&runs), expected);
}

#[test]
fn merge_of_strings() {
    let runs = vec![
        vec!["apple".to_string(), "pear".to_string()],
        vec!["banana".to_string()],
    ];
    assert_eq!(
        MergeCompactor::compact(&runs),
        vec!["apple".to_string(), "banana".to_string(), "pear".to_string()]
    );
}

/// Ordered by its key alone.
#[derive(Clone, Debug)]
struct Tagged {
    key: u8,
    tag: char,
}

impl PartialEq for Tagged {
    fn eq(&self, other: &Tagged) -> bool {
        self.key == other.key
    }
}

impl Eq for Tagged {}

impl PartialOrd for Tagged {
    fn partial_cmp(&self, other: &Tagged) -> Option<std::cmp::Ordering> {
        Some(self.cmp(other))
    }
}

impl Ord for Tagged {
    fn cmp(&self, other: &Tagged) -> std::cmp::Ordering {
        self.key.cmp(&other.key)
    }
}

fn tagged(items: &[(u8, char)]) -> Vec<Tagged> {
    items.iter().map(|p| Tagged { key: p.0, tag: p.1 }).collect()
}

#[test]
fn equal_items_keep_the_order_of_their_runs() {
    let runs = vec![
        tagged(&[(1, 'a'), (2, 'b'), (2, 'c')]),
        tagged(&[(1, 'd'), (2, 'e')]),
        tagged(&[(0, 'f'), (2, 'g')]),
    ];
    let tags: String = MergeCompactor::compact(&runs).iter().map(|t| t.tag).collect();
    assert_eq!(tags, "fadbceg");
}

#[test]
fn unsorted_runs_are_interleaved_by_their_fronts() {
    let merged = MergeCompactor::compact(&[vec![5, 1], vec![3, 9, 2]]);
    assert_eq!(merged, vec![3, 5, 1, 9, 2]);
    let merged = MergeCompactor::compact(&[vec![5, 1, 3]]);
    assert_eq!(merged, vec![5, 1, 3]);
}

#[test]
fn only_empty_runs() {
    let runs: Vec<Vec<i64>> = vec![vec![], vec![], vec![]];
    assert!(MergeCompactor::compact(&runs).is_empty());
}

#[test]
fn order_of_runs_and_empty_runs_do_not_matter() {
    let expected = vec![1, 2, 2, 3, 5, 8];
    let (a, b, c) = (vec![1, 5], vec![2, 2, 8], vec![3]);
    let none: Vec<i32> = vec![];
    for runs in [
        vec![a.clone(), b.clone(), c.clone()],
        vec![c.clone(), a.clone(), b.clone()],
        vec![b.clone(), none.clone(), c.clone(), a.clone()],
        vec![none.clone(), c.clone(), b.clone(), none.clone(), a.clone(), none.clone()],
    ] {
        assert_eq!(MergeCompactor::compact(&runs), expected);
    }
}

/// Its clone has the opposite key.
#[derive(Debug, PartialEq, Eq, PartialOrd, Ord)]
struct Opposite(i32);

impl Clone for Opposite {
    fn clone(&self) -> Opposite {
        Opposite(-self.0)
    }
}

fn opposites(keys: &[i32]) -> Vec<Opposite> {
    keys.iter().map(|k| Opposite(*k)).collect()
}

#[test]
fn clones_are_what_is_merged() {
    let merged = MergeCompactor::compact(&[opposites(&[1, 2]), opposites(&[3])]);
    assert_eq!(merged, opposites(&[-3, -1, -2]));
    let merged = MergeCompactor::compact(&[opposites(&[1, 2])]);
    assert_eq!(merged, opposites(&[-1, -2]));
}

/// Ranks before everything, itself included.
#[derive(Clone, Debug, PartialEq, Eq)]
struct Restless(u8);

impl PartialOrd for Restless {
    fn partial_cmp(&self, other: &Restless) -> Option<std::cmp::Ordering> {
        Some(self.cmp(other))
    }
}

impl Ord for Restless {
    fn cmp(&self, _other: &Restless) -> std::cmp::Ordering {
        std::cmp::Ordering::Less
    }
}

#[test]
fn all_items_come_out_whatever_the_order_on_them() {
    let runs: Vec<Vec<Restless>> = vec![
        vec![Restless(3), Restless(1)],
        vec![Restless(4), Restless(1), Restless(5)],
        vec![],
        vec![Restless(9)],
    ];
    let merged = MergeCompactor::compact(&runs);
    let mut keys: Vec<u8> = merged.iter().map(|r| r.0).collect();
    keys.sort();
    assert_eq!(keys, vec![1, 1, 3, 4, 5, 9]);
    // Each run keeps its order.
    let place = |key: u8| merged.iter().position(|r| r.0 == key).unwrap();
    assert!(place(4) < place(5));
}
