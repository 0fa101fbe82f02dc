//! Cumulative statistics.

use std::ops::{Add, AddAssign};
use vstd::arithmetic::power2::pow2;
use vstd::prelude::*;
use vstd::std_specs::ops::{AddSpec, AddSpecImpl};

use crate::double::Double;
use crate::rounding::{
    counted, distance, has_53_bits, quotient, quotients_are_nearest, quotients_keep_order,
};

verus! {

/// Cumulative statistics for compaction operations.
#[derive(Debug, PartialEq, Eq, Structural)]
pub struct CompactionStats {
    /// Total bytes that have been compacted.
    pub total_bytes_compacted: u64,
    /// Bytes of dead space reclaimed.
    pub space_reclaimed: u64,
    /// Number of compaction jobs completed.
    pub jobs_completed: u64,
    /// Number of source segments merged.
    pub segments_merged: u64,
}

impl CompactionStats {
    /// Nothing has been compacted yet.
    pub open spec fn zero() -> CompactionStats {
        CompactionStats {
            total_bytes_compacted: 0,
            space_reclaimed: 0,
            jobs_completed: 0,
            segments_merged: 0,
        }
    }

    /// Every counter of the sum fits in its field.
    pub open spec fn fits(self, other: CompactionStats) -> bool {
        &&& self.total_bytes_compacted + other.total_bytes_compacted <= u64::MAX
        &&& self.space_reclaimed + other.space_reclaimed <= u64::MAX
        &&& self.jobs_completed + other.jobs_completed <= u64::MAX
        &&& self.segments_merged + other.segments_merged <= u64::MAX
    }

    /// The sum, counter by counter.
    pub open spec fn plus(self, other: CompactionStats) -> CompactionStats {
        CompactionStats {
            total_bytes_compacted: (self.total_bytes_compacted
                + other.total_bytes_compacted) as u64,
            space_reclaimed: (self.space_reclaimed + other.space_reclaimed) as u64,
            jobs_completed: (self.jobs_completed + other.jobs_completed) as u64,
            segments_merged: (self.segments_merged + other.segments_merged) as u64,
        }
    }

    /// Reclaimed over compacted bytes; zero before anything was compacted.
    pub open spec fn reclaimed_fraction(self) -> nat {
        if self.total_bytes_compacted == 0 {
            0
        } else {
            quotient(self.space_reclaimed as nat, self.total_bytes_compacted as nat)
        }
    }

    /// Overall compaction ratio: reclaimed / compacted.
    ///
    /// Higher is better: it means more waste was removed per byte processed.
    pub fn compaction_ratio(&self) -> (ratio: Double)
        ensures
            ratio.is_plain(),
            ratio@ == self.reclaimed_fraction(),
    {
        if self.total_bytes_compacted == 0 {
            Double { bits: 0 }
        } else {
            Double::new(self.space_reclaimed, self.total_bytes_compacted)
        }
    }
}

impl Default for CompactionStats {
    fn default() -> (stats: CompactionStats)
        ensures
            stats == CompactionStats::zero(),
    {
        CompactionStats {
            total_bytes_compacted: 0,
            space_reclaimed: 0,
            jobs_completed: 0,
            segments_merged: 0,
        }
    }
}

impl Clone for CompactionStats {
    fn clone(&self) -> (copy: CompactionStats)
        ensures
            copy == *self,
    {
        CompactionStats {
            total_bytes_compacted: self.total_bytes_compacted,
            space_reclaimed: self.space_reclaimed,
            jobs_completed: self.jobs_completed,
            segments_merged: self.segments_merged,
        }
    }
}

impl AddAssign for CompactionStats {
    fn add_assign(&mut self, other: CompactionStats)
        requires
            old(self).fits(other),
        ensures
            *final(self) == old(self).plus(other),
    {
        self.total_bytes_compacted += other.total_bytes_compacted;
        self.space_reclaimed += other.space_reclaimed;
        self.jobs_completed += other.jobs_completed;
        self.segments_merged += other.segments_merged;
    }
}

impl Add for CompactionStats {
    type Output = CompactionStats;

    fn add(self, other: CompactionStats) -> (sum: CompactionStats) {
        let mut sum = self;
        sum.add_assign(other);
        sum
    }
}

impl AddSpecImpl for CompactionStats {
    open spec fn obeys_add_spec() -> bool {
        true
    }

    open spec fn add_req(self, other: CompactionStats) -> bool {
        self.fits(other)
    }

    open spec fn add_spec(self, other: CompactionStats) -> CompactionStats {
        self.plus(other)
    }
}

/// Each counter of a sum is the sum of the two counters, and sums are defined as
/// long as each of them can be counted.
pub proof fn sums_add_every_counter(a: CompactionStats, b: CompactionStats)
    ensures
        a.fits(b) <==> {
            &&& a.total_bytes_compacted + b.total_bytes_compacted <= u64::MAX
            &&& a.space_reclaimed + b.space_reclaimed <= u64::MAX
            &&& a.jobs_completed + b.jobs_completed <= u64::MAX
            &&& a.segments_merged + b.segments_merged <= u64::MAX
        },
        <CompactionStats as AddSpec>::obeys_add_spec(),
        AddSpec::add_req(a, b) <==> a.fits(b),
        a.fits(b) ==> {
            &&& a.plus(b).total_bytes_compacted == a.total_bytes_compacted
                + b.total_bytes_compacted
            &&& a.plus(b).space_reclaimed == a.space_reclaimed + b.space_reclaimed
            &&& a.plus(b).jobs_completed == a.jobs_completed + b.jobs_completed
            &&& a.plus(b).segments_merged == a.segments_merged + b.segments_merged
        },
        a.fits(b) ==> {
            &&& AddSpec::add_spec(a, b).total_bytes_compacted == a.total_bytes_compacted
                + b.total_bytes_compacted
            &&& AddSpec::add_spec(a, b).space_reclaimed == a.space_reclaimed + b.space_reclaimed
            &&& AddSpec::add_spec(a, b).jobs_completed == a.jobs_completed + b.jobs_completed
            &&& AddSpec::add_spec(a, b).segments_merged == a.segments_merged + b.segments_merged
        },
{
}

/// One more byte, job or segment in what is added is one more in the sum.
pub proof fn sums_grow_with_what_is_added(
    a: CompactionStats,
    b: CompactionStats,
    c: CompactionStats,
)
    requires
        a.fits(b),
        a.fits(c),
    ensures
        a.plus(b).total_bytes_compacted - a.plus(c).total_bytes_compacted
            == b.total_bytes_compacted - c.total_bytes_compacted,
        a.plus(b).space_reclaimed - a.plus(c).space_reclaimed == b.space_reclaimed
            - c.space_reclaimed,
        a.plus(b).jobs_completed - a.plus(c).jobs_completed == b.jobs_completed
            - c.jobs_completed,
        a.plus(b).segments_merged - a.plus(c).segments_merged == b.segments_merged
            - c.segments_merged,
{
}

/// Fresh statistics count nothing.
pub proof fn fresh_statistics_count_nothing()
    ensures
        CompactionStats::zero().total_bytes_compacted == 0,
        CompactionStats::zero().space_reclaimed == 0,
        CompactionStats::zero().jobs_completed == 0,
        CompactionStats::zero().segments_merged == 0,
{
}

/// The ratio is reclaimed over compacted bytes: no double is nearer to their
/// quotient. It is zero before anything was compacted.
pub proof fn ratio_is_reclaimed_over_compacted(s: CompactionStats, x: nat)
    requires
        has_53_bits(x),
    ensures
        s.total_bytes_compacted == 0 ==> s.reclaimed_fraction() == 0,
        s.total_bytes_compacted > 0 ==> s.reclaimed_fraction() == quotient(
            s.space_reclaimed as nat,
            s.total_bytes_compacted as nat,
        ),
        0 < s.total_bytes_compacted <= 0x20_0000_0000_0000 && s.space_reclaimed
            <= 0x20_0000_0000_0000 ==> distance(
            (s.reclaimed_fraction() * s.total_bytes_compacted) as int,
            (s.space_reclaimed * pow2(1074)) as int,
        ) <= distance(
            (x * s.total_bytes_compacted) as int,
            (s.space_reclaimed * pow2(1074)) as int,
        ),
        0 < s.total_bytes_compacted ==> distance(
            (s.reclaimed_fraction() * counted(s.total_bytes_compacted as nat)) as int,
            (counted(s.space_reclaimed as nat) * pow2(1074)) as int,
        ) <= distance(
            (x * counted(s.total_bytes_compacted as nat)) as int,
            (counted(s.space_reclaimed as nat) * pow2(1074)) as int,
        ),
{
    if s.total_bytes_compacted > 0 {
        quotients_are_nearest(s.space_reclaimed as nat, s.total_bytes_compacted as nat, x);
    }
}

/// The order in which two batches of statistics are added does not matter.
pub proof fn stats_addition_commutes(a: CompactionStats, b: CompactionStats)
    ensures
        a.fits(b) == b.fits(a),
        a.plus(b) == b.plus(a),
{
}

/// Statistics may be gathered in any grouping: as long as the grand total
/// fits, both groupings are defined and agree.
pub proof fn stats_addition_associates(
    a: CompactionStats,
    b: CompactionStats,
    c: CompactionStats,
)
    requires
        a.fits(b),
        a.plus(b).fits(c),
    ensures
        b.fits(c),
        a.fits(b.plus(c)),
        a.plus(b).plus(c) == a.plus(b.plus(c)),
{
}

/// Over the same bytes compacted, more space reclaimed never gives a lower ratio.
pub proof fn more_reclaimed_raises_the_ratio(a: CompactionStats, b: CompactionStats)
    requires
        a.total_bytes_compacted == b.total_bytes_compacted,
        a.space_reclaimed <= b.space_reclaimed,
    ensures
        a.reclaimed_fraction() <= b.reclaimed_fraction(),
{
    if a.total_bytes_compacted > 0 {
        quotients_keep_order(
            a.space_reclaimed as nat,
            b.space_reclaimed as nat,
            a.total_bytes_compacted as nat,
        );
    }
}

/// Fresh statistics change nothing they are added to.
pub proof fn stats_addition_has_identity(a: CompactionStats)
    ensures
        a.fits(CompactionStats::zero()),
        a.plus(CompactionStats::zero()) == a,
{
}

} // verus!
