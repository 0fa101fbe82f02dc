# oxide-compactor

Background compaction for GPU data structures with ternary compaction state,
verified with Verus.

Sorted data structures in GPU memory accumulate dead space as records come and
go. Compaction merges partially full sorted runs into dense segments. A ternary
trigger decides which segments need attention:

| State                | Value | Fragmentation ratio | Meaning                    |
|----------------------|-------|---------------------|----------------------------|
| **Compacted**        | +1    | below 0.3           | healthy, skip              |
| **In Progress**      | 0     | 0.3 up to 0.6       | borderline, watch          |
| **Needs Compaction** | −1    | 0.6 and more        | fragmented, compact now    |

The fragmentation ratio is dead space over capacity, from 0 for a segment
without dead space to 1 for an empty one. Ratios are double-precision numbers.
The library computes them with integers (`Double`), bit for bit as IEEE 754 asks,
and its contracts say how they are rounded. Up to a capacity of 2^50 bytes
rounding decides no state.

## Layout

- `src/`: the verified library.
  - `state`, `segment`, `job`, `stats`: the data types, each with its contracts
    and with what always holds of it.
  - `rounding`, `double`: rounding to double precision, and the numbers that are
    so rounded.
  - `selection`: which segments a job takes, worst first.
  - `scheduler`: the scheduler and its model, `SchedulerState`.
  - `merge`, `heap`, `compactor`: what a merge is, the min-heap that finds the
    next item, and the k-way merge. That merging n items out of k runs takes
    O(n log k) steps rests on reading the heap's loops: what is proved is what
    comes out, not how many steps it takes.
  - `laws`: what holds of the scheduler over several operations, among them that
    compaction keeps all live data and reclaims exactly the dead space of the
    segments it took.
  - `rank`, `sums`: orders and sums, on which the rest relies.
- `app/`: the ratios as `f64`, and `Display`.
- `tests/`: scenarios and edge cases.

## Usage

```rust
use oxide_compactor::{CompactionScheduler, MergeCompactor, Segment};

let segments = vec![
    Segment::new(0, 1024 * 1024, 900_000), // ~14% dead → Compacted
    Segment::new(1, 1024 * 1024, 200_000), // ~81% dead → NeedsCompaction
    Segment::new(2, 1024 * 1024, 400_000), // ~62% dead → NeedsCompaction
    Segment::new(3, 1024 * 1024, 600_000), // ~43% dead → InProgress
];
let mut scheduler = CompactionScheduler::new(segments);

if let Some(mut job) = scheduler.schedule_compaction(4) {
    job.advance(job.total_bytes);
    scheduler.finalize_job(&job);
}

let merged = MergeCompactor::compact(&[vec![1, 4, 7], vec![2, 5, 8], vec![3, 6, 9]]);
assert_eq!(merged, vec![1, 2, 3, 4, 5, 6, 7, 8, 9]);
```
