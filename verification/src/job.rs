//! Compaction jobs.

use vstd::arithmetic::power2::pow2;
use vstd::prelude::*;

use crate::double::Double;
use crate::rounding::{
    counted, distance, has_53_bits, one, quotient, quotients_are_nearest,
    quotients_grow_up_to_one,
};

verus! {

/// Tracks a single compaction operation from source segments into a target.
#[derive(Debug)]
pub struct CompactionJob {
    /// Unique job identifier.
    pub id: u64,
    /// Source segment ids that will be merged.
    pub source_ids: Vec<u64>,
    /// Target segment id for the compacted output.
    pub target_id: u64,
    /// Bytes already compacted.
    pub bytes_compacted: u64,
    /// Total bytes to compact.
    pub total_bytes: u64,
    /// Whether the job is finished.
    pub done: bool,
}

impl CompactionJob {
    /// The job after `n` more bytes: the count stops at the total, and the job
    /// is done once it gets there.
    pub open spec fn advanced(self, n: int) -> CompactionJob {
        let reached = self.bytes_compacted + n;
        let compacted = if reached <= self.total_bytes { reached } else { self.total_bytes as int };
        CompactionJob {
            bytes_compacted: compacted as u64,
            done: self.done || compacted == self.total_bytes,
            ..self
        }
    }

    /// Bytes compacted over bytes to compact. A job without work is complete.
    pub open spec fn completed_fraction(self) -> nat {
        if self.total_bytes == 0 {
            one()
        } else {
            quotient(self.bytes_compacted as nat, self.total_bytes as nat)
        }
    }

    /// Create a new job.
    pub fn new(id: u64, source_ids: Vec<u64>, target_id: u64, total_bytes: u64) -> (job:
        CompactionJob)
        ensures
            job == (CompactionJob {
                id,
                source_ids,
                target_id,
                bytes_compacted: 0,
                total_bytes,
                done: false,
            }),
    {
        CompactionJob { id, source_ids, target_id, bytes_compacted: 0, total_bytes, done: false }
    }

    /// Advance compaction by `n` bytes, up to the total.
    pub fn advance(&mut self, n: u64)
        ensures
            *final(self) == old(self).advanced(n as int),
    {
        let reached: u64 = self.bytes_compacted.saturating_add(n);
        self.bytes_compacted = if reached <= self.total_bytes { reached } else { self.total_bytes };
        if self.bytes_compacted >= self.total_bytes {
            self.done = true;
        }
    }

    /// Progress as a fraction from 0 to 1.
    pub fn progress(&self) -> (ratio: Double)
        ensures
            ratio.is_plain(),
            ratio@ == self.completed_fraction(),
    {
        if self.total_bytes == 0 {
            proof {
                quotients_grow_up_to_one(1, 1, 1);
            }
            Double::new(1, 1)
        } else {
            Double::new(self.bytes_compacted, self.total_bytes)
        }
    }
}

impl Clone for CompactionJob {
    fn clone(&self) -> (copy: CompactionJob)
        ensures
            copy.id == self.id,
            copy.source_ids@ == self.source_ids@,
            copy.target_id == self.target_id,
            copy.bytes_compacted == self.bytes_compacted,
            copy.total_bytes == self.total_bytes,
            copy.done == self.done,
    {
        CompactionJob {
            id: self.id,
            source_ids: self.source_ids.clone(),
            target_id: self.target_id,
            bytes_compacted: self.bytes_compacted,
            total_bytes: self.total_bytes,
            done: self.done,
        }
    }
}

/// Advancing by `n` bytes counts exactly `n` more, up to the total, and finishes
/// the job exactly when the total is reached. Nothing else about the job matters
/// to that, and nothing else about it changes.
pub proof fn advancing_counts_bytes(job: CompactionJob, n: int)
    requires
        0 <= n,
    ensures
        job.bytes_compacted + n <= job.total_bytes ==> job.advanced(n).bytes_compacted
            == job.bytes_compacted + n,
        job.bytes_compacted + n >= job.total_bytes ==> job.advanced(n).bytes_compacted
            == job.total_bytes,
        job.advanced(n).done <==> job.done || job.bytes_compacted + n >= job.total_bytes,
        job.advanced(n).id == job.id,
        job.advanced(n).source_ids == job.source_ids,
        job.advanced(n).target_id == job.target_id,
        job.advanced(n).total_bytes == job.total_bytes,
{
}

/// Two jobs that stand at the same count of the same total stand there still
/// after they were advanced alike.
pub proof fn advancing_goes_by_counts_alone(a: CompactionJob, b: CompactionJob, n: int)
    requires
        0 <= n,
        a.bytes_compacted == b.bytes_compacted,
        a.total_bytes == b.total_bytes,
    ensures
        a.advanced(n).bytes_compacted == b.advanced(n).bytes_compacted,
        a.done == b.done ==> a.advanced(n).done == b.advanced(n).done,
        a.completed_fraction() == b.completed_fraction(),
{
}

/// Progress is the count over the total: no double is nearer to their quotient.
/// A job without work has progressed by one.
pub proof fn progress_is_count_over_total(job: CompactionJob, x: nat)
    requires
        has_53_bits(x),
    ensures
        job.total_bytes == 0 ==> job.completed_fraction() == pow2(1074),
        job.total_bytes > 0 ==> job.completed_fraction() == quotient(
            job.bytes_compacted as nat,
            job.total_bytes as nat,
        ),
        0 < job.total_bytes && job.bytes_compacted <= 0x20_0000_0000_0000 && job.total_bytes
            <= 0x20_0000_0000_0000 ==> distance(
            (job.completed_fraction() * job.total_bytes) as int,
            (job.bytes_compacted * pow2(1074)) as int,
        ) <= distance(
            (x * job.total_bytes) as int,
            (job.bytes_compacted * pow2(1074)) as int,
        ),
        0 < job.total_bytes ==> distance(
            (job.completed_fraction() * counted(job.total_bytes as nat)) as int,
            (counted(job.bytes_compacted as nat) * pow2(1074)) as int,
        ) <= distance(
            (x * counted(job.total_bytes as nat)) as int,
            (counted(job.bytes_compacted as nat) * pow2(1074)) as int,
        ),
{
    if job.total_bytes > 0 {
        quotients_are_nearest(job.bytes_compacted as nat, job.total_bytes as nat, x);
    }
}

/// Advancing in two steps is advancing by their sum.
pub proof fn advancing_accumulates(job: CompactionJob, m: int, n: int)
    requires
        0 <= m,
        0 <= n,
    ensures
        job.advanced(m).advanced(n) == job.advanced(m + n),
{
}

/// Advancing by all bytes of the job completes it, wherever it stood.
pub proof fn advancing_by_total_completes(job: CompactionJob)
    ensures
        job.advanced(job.total_bytes as int).done,
        job.advanced(job.total_bytes as int).bytes_compacted == job.total_bytes,
        job.advanced(job.total_bytes as int).completed_fraction() == one(),
{
    if job.total_bytes > 0 {
        let total = job.total_bytes as nat;
        quotients_grow_up_to_one(total, total, total);
    }
}

/// However far a job is advanced, its progress does not pass one, and it does
/// not fall back.
pub proof fn progress_grows_up_to_one(job: CompactionJob, n: int)
    requires
        0 <= n,
    ensures
        job.advanced(n).completed_fraction() <= one(),
        job.bytes_compacted <= job.total_bytes ==> job.completed_fraction() <= job.advanced(
            n,
        ).completed_fraction(),
        job.done ==> job.advanced(n).done,
{
    let (a, b, total) = (
        job.bytes_compacted as nat,
        job.advanced(n).bytes_compacted as nat,
        job.total_bytes as nat,
    );
    if total > 0 {
        quotients_grow_up_to_one(b, b, total);
        if a <= b {
            quotients_grow_up_to_one(a, b, total);
        }
    }
}

/// A job counts as done only when all its bytes are compacted, and advancing
/// keeps it so.
pub proof fn done_means_all_bytes(job: CompactionJob, n: int)
    requires
        0 <= n,
        job.done ==> job.bytes_compacted == job.total_bytes,
    ensures
        job.advanced(n).done ==> job.advanced(n).bytes_compacted == job.total_bytes,
        job.advanced(n).bytes_compacted == job.total_bytes ==> job.advanced(n).done,
{
}

} // verus!
