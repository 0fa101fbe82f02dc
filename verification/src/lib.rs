//! Background compaction for GPU data structures with ternary compaction state.
//!
//! Compaction state is represented as a ternary value:
//! - `+1` → **Compacted** (healthy segment, skip)
//! - `0`  → **In Progress** (consider for compaction)
//! - `-1` → **Needs Compaction** (fragmented, compact now)
//!
//! The types that callers use:
//!
//! - [`CompactionState`]: ternary trigger for segment health
//! - [`Segment`]: a sorted run of data in GPU memory
//! - [`CompactionJob`]: tracks a single compaction operation
//! - [`CompactionScheduler`]: picks segments based on fragmentation ratio
//! - [`CompactionStats`]: cumulative statistics
//! - [`MergeCompactor`]: merge-sort compaction of sorted runs
//! - [`Double`]: the double-precision number in which every ratio is given
//!
//! Each function's contract is stated over a mathematical model: a scheduler is
//! a [`scheduler::SchedulerState`], the choice of segments a
//! [`selection::selection`], a merge a [`merge::merge_order`]. What each operation
//! of the scheduler does is stated by the proof functions of [`effects`], what
//! holds over several operations by those of [`laws`], and the rest by those that
//! stand beside the types they speak of.

#![allow(unused_imports)]

pub mod compactor;
pub mod double;
pub mod effects;
mod heap;
pub mod job;
pub mod laws;
pub mod merge;
pub mod rank;
pub mod rounding;
pub mod scheduler;
pub mod segment;
pub mod selection;
pub mod state;
pub mod stats;
pub mod sums;

pub use compactor::MergeCompactor;
pub use double::Double;
pub use job::CompactionJob;
pub use scheduler::CompactionScheduler;
pub use segment::Segment;
pub use state::CompactionState;
pub use stats::CompactionStats;
