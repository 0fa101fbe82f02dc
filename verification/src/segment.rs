//! Segments: sorted runs of data with a capacity and a live part.

use vstd::arithmetic::power2::{lemma2_to64, pow2};
use vstd::prelude::*;

use crate::double::Double;
use crate::rounding::{
    complement, complements_are_accurate, complements_are_nearest, complements_fall, distance,
    has_53_bits, lemma_rounded_monotone, lemma_tenths, one, quotient, quotients_are_accurate,
    quotients_are_nearest, quotients_grow_up_to_one, quotients_of_exact_counts,
    tenths_are_told_apart,
};
use crate::state::{classify, CompactionState};
use crate::sums::{lemma_sum_push, sum_by};

verus! {

/// A segment of sorted data residing in GPU memory.
#[derive(Debug)]
pub struct Segment {
    /// Unique segment identifier.
    pub id: u64,
    /// Total capacity in bytes.
    pub capacity: u64,
    /// Bytes actually in use (live data).
    pub used_bytes: u64,
    /// Current compaction state.
    pub state: CompactionState,
}

/// Dead space over capacity, in double precision: one minus the live part. A
/// segment without capacity counts as unfragmented, and so does one that claims
/// more live bytes than it can hold.
pub open spec fn dead_fraction(capacity: u64, used_bytes: u64) -> nat {
    if capacity == 0 || used_bytes > capacity {
        0
    } else {
        complement(quotient(used_bytes as nat, capacity as nat))
    }
}

/// The live bytes of a segment.
pub open spec fn used() -> spec_fn(Segment) -> int {
    |s: Segment| s.used_bytes as int
}

/// The capacity of a segment.
pub open spec fn capacity() -> spec_fn(Segment) -> int {
    |s: Segment| s.capacity as int
}

/// The dead bytes of a segment.
pub open spec fn dead() -> spec_fn(Segment) -> int {
    |s: Segment| s.dead()
}

/// The live bytes of all segments.
pub open spec fn total_used(segments: Seq<Segment>) -> int {
    sum_by(segments, used())
}

/// The capacity of all segments.
pub open spec fn total_capacity(segments: Seq<Segment>) -> int {
    sum_by(segments, capacity())
}

/// The dead bytes of all segments.
pub open spec fn total_dead(segments: Seq<Segment>) -> int {
    sum_by(segments, dead())
}

impl Segment {
    /// The segment's fragmentation ratio.
    pub open spec fn fragmentation(self) -> nat {
        dead_fraction(self.capacity, self.used_bytes)
    }

    /// The segment is so fragmented that it needs compaction.
    pub open spec fn fragmented(self) -> bool {
        classify(self.fragmentation() as int) == CompactionState::NeedsCompaction
    }

    /// The segment with its state brought up to date.
    pub open spec fn refreshed(self) -> Segment {
        Segment { state: classify(self.fragmentation() as int), ..self }
    }

    /// The state that the exact share of dead bytes stands for.
    pub open spec fn state_by_share(self) -> CompactionState {
        if 10 * self.dead() >= 6 * self.capacity {
            CompactionState::NeedsCompaction
        } else if 10 * self.dead() >= 3 * self.capacity {
            CompactionState::InProgress
        } else {
            CompactionState::Compacted
        }
    }

    /// The bytes of capacity that hold no live data.
    pub open spec fn dead(self) -> int {
        if self.used_bytes <= self.capacity {
            self.capacity - self.used_bytes
        } else {
            0
        }
    }

    /// Create a new segment.
    pub fn new(id: u64, capacity: u64, used_bytes: u64) -> (segment: Segment)
        ensures
            segment == (Segment {
                id,
                capacity,
                used_bytes,
                state: classify(dead_fraction(capacity, used_bytes) as int),
            }),
            0 < capacity <= 0x4_0000_0000_0000 ==> segment.state == segment.state_by_share(),
    {
        let ratio = Self::frag_ratio(capacity, used_bytes);
        let state = CompactionState::from_fragmentation(ratio);
        let segment = Segment { id, capacity, used_bytes, state };
        proof {
            if 0 < capacity <= 0x4_0000_0000_0000 {
                states_go_by_exact_shares(segment);
            }
        }
        segment
    }

    /// Fragmentation ratio: dead space / capacity.
    ///
    /// It is 0 when the segment is full (no fragmentation) and 1 when it is
    /// empty (fully fragmented in the sense of wasted capacity).
    pub fn fragmentation_ratio(&self) -> (ratio: Double)
        ensures
            ratio.is_plain(),
            ratio@ == self.fragmentation(),
    {
        Self::frag_ratio(self.capacity, self.used_bytes)
    }

    /// The fragmentation ratio of a segment of the given size.
    pub fn frag_ratio(capacity: u64, used_bytes: u64) -> (ratio: Double)
        ensures
            ratio.is_plain(),
            ratio@ == dead_fraction(capacity, used_bytes),
            0 <= ratio@ <= one(),
            capacity == 0 ==> ratio@ == 0,
    {
        if capacity == 0 || used_bytes > capacity {
            return Double { bits: 0 };
        }
        proof {
            let (live, all) = (used_bytes as nat, capacity as nat);
            quotients_grow_up_to_one(live, live, all);
            complements_fall(quotient(live, all), one());
        }
        Double::new(used_bytes, capacity).complement()
    }

    /// Dead (reclaimable) bytes.
    pub fn dead_bytes(&self) -> (dead: u64)
        ensures
            dead == self.dead(),
    {
        self.capacity.saturating_sub(self.used_bytes)
    }

    /// Refresh the ternary state from the current fragmentation ratio.
    pub fn refresh_state(&mut self)
        ensures
            *final(self) == old(self).refreshed(),
            0 < old(self).capacity <= 0x4_0000_0000_0000 ==> final(self).state == old(
                self,
            ).state_by_share(),
    {
        proof {
            if 0 < self.capacity <= 0x4_0000_0000_0000 {
                states_go_by_exact_shares(*self);
            }
        }
        self.state = CompactionState::from_fragmentation(self.fragmentation_ratio());
    }
}

impl Clone for Segment {
    fn clone(&self) -> (copy: Segment)
        ensures
            copy == *self,
    {
        Segment {
            id: self.id,
            capacity: self.capacity,
            used_bytes: self.used_bytes,
            state: self.state,
        }
    }
}

/// A full segment is not fragmented: its ratio is zero, it holds no dead bytes
/// and it is healthy.
pub proof fn full_segments_are_healthy(s: Segment)
    requires
        s.used_bytes == s.capacity,
    ensures
        s.fragmentation() == 0,
        s.dead() == 0,
        s.refreshed().state == CompactionState::Compacted,
{
    lemma_tenths();
    if s.capacity > 0 {
        let all = s.capacity as nat;
        quotients_grow_up_to_one(all, all, all);
        complements_fall(one(), one());
    }
}

/// An empty segment is wholly fragmented: its ratio is one, all of it is dead
/// and it needs compaction.
pub proof fn empty_segments_need_compaction(s: Segment)
    requires
        s.used_bytes == 0,
        s.capacity > 0,
    ensures
        s.fragmentation() == one(),
        s.dead() == s.capacity,
        s.fragmented(),
{
    lemma_tenths();
    quotients_grow_up_to_one(0, 0, s.capacity as nat);
    complements_fall(0, 0);
}

/// Live and dead bytes make up the capacity; an overfull segment has no dead
/// bytes.
pub proof fn dead_bytes_are_the_rest(s: Segment)
    ensures
        s.used_bytes <= s.capacity ==> s.used_bytes + s.dead() == s.capacity,
        s.used_bytes >= s.capacity ==> s.dead() == 0,
{
}

/// Totals over segments start from nothing, and one more segment adds what it
/// has.
pub proof fn totals_add_up(segments: Seq<Segment>, s: Segment)
    ensures
        total_used(Seq::empty()) == 0,
        total_capacity(Seq::empty()) == 0,
        total_dead(Seq::empty()) == 0,
        total_used(segments.push(s)) == total_used(segments) + s.used_bytes,
        total_capacity(segments.push(s)) == total_capacity(segments) + s.capacity,
        total_dead(segments.push(s)) == total_dead(segments) + if s.used_bytes <= s.capacity {
            s.capacity - s.used_bytes
        } else {
            0
        },
{
    lemma_sum_push(segments, s, used());
    lemma_sum_push(segments, s, capacity());
    lemma_sum_push(segments, s, dead());
}

/// Whether a segment needs compaction is a matter of its size alone: it does if
/// and only if its refreshed state says so, and up to a capacity of 2^50 bytes if
/// and only if six tenths of it, or more, are dead.
pub proof fn six_tenths_dead_need_compaction(s: Segment)
    ensures
        s.fragmented() <==> s.refreshed().state == CompactionState::NeedsCompaction,
        s.fragmented() <==> dead_fraction(s.capacity, s.used_bytes) >= 5404319552844595 * pow2(
            1021,
        ),
        s.capacity <= 0x4_0000_0000_0000 ==> (s.fragmented() <==> s.used_bytes < s.capacity && 10
            * (s.capacity - s.used_bytes) >= 6 * s.capacity),
        s.capacity <= 0x4_0000_0000_0000 ==> (s.refreshed().state == CompactionState::Compacted
            <==> s.used_bytes >= s.capacity || 10 * (s.capacity - s.used_bytes) < 3 * s.capacity),
{
    lemma_tenths();
    ratios_lie_between_zero_and_one(s.capacity, s.used_bytes);
    if 0 < s.capacity <= 0x4_0000_0000_0000 {
        states_go_by_exact_shares(s);
    }
}

/// Refreshing changes nothing but the state, and neither the id nor the recorded
/// state has a say in the new one.
pub proof fn refreshing_goes_by_size_alone(s: Segment, t: Segment)
    ensures
        s.refreshed().id == s.id,
        s.refreshed().capacity == s.capacity,
        s.refreshed().used_bytes == s.used_bytes,
        s.capacity == t.capacity && s.used_bytes == t.used_bytes ==> {
            &&& s.refreshed().state == t.refreshed().state
            &&& s.fragmented() == t.fragmented()
            &&& s.fragmentation() == t.fragmentation()
        },
{
}

/// No double is nearer to what one leaves of the live part than the ratio, and up
/// to a capacity of 2^53 bytes the live part is the double nearest to the live
/// share.
pub proof fn ratios_are_nearest(s: Segment, x: nat)
    requires
        0 < s.capacity,
        s.used_bytes <= s.capacity,
        has_53_bits(x),
    ensures
        ({
            let live = quotient(s.used_bytes as nat, s.capacity as nat);
            &&& s.fragmentation() == complement(live)
            &&& has_53_bits(s.fragmentation())
            &&& distance(s.fragmentation() as int, pow2(1074) - live) <= distance(
                x as int,
                pow2(1074) - live,
            )
            &&& s.capacity <= 0x20_0000_0000_0000 ==> distance(
                (live * s.capacity) as int,
                (s.used_bytes * pow2(1074)) as int,
            ) <= distance((x * s.capacity) as int, (s.used_bytes * pow2(1074)) as int)
        }),
{
    let (a, b) = (s.used_bytes as nat, s.capacity as nat);
    quotients_grow_up_to_one(a, a, b);
    complements_are_nearest(quotient(a, b), x);
    quotients_are_nearest(a, b, x);
}

/// A state that is up to date stays as it is.
pub proof fn refreshing_twice_is_refreshing_once(s: Segment)
    ensures
        s.refreshed().refreshed() == s.refreshed(),
{
}

/// Whatever its capacity and its live bytes, a segment's ratio lies from zero to
/// one, and it is zero where the segment has no dead bytes.
pub proof fn ratios_lie_between_zero_and_one(capacity: u64, used_bytes: u64)
    ensures
        0 <= dead_fraction(capacity, used_bytes) <= one(),
        capacity == 0 ==> dead_fraction(capacity, used_bytes) == 0,
        used_bytes >= capacity ==> dead_fraction(capacity, used_bytes) == 0,
{
    if 0 < capacity && used_bytes <= capacity {
        let (live, all) = (used_bytes as nat, capacity as nat);
        quotients_grow_up_to_one(live, live, all);
        complements_fall(quotient(live, all), one());
    }
}

/// At one capacity, more live bytes never give a larger ratio.
pub proof fn more_live_bytes_lower_the_ratio(capacity: u64, less: u64, more: u64)
    requires
        less <= more,
    ensures
        dead_fraction(capacity, more) <= dead_fraction(capacity, less),
{
    if 0 < capacity && more <= capacity {
        let all = capacity as nat;
        quotients_grow_up_to_one(less as nat, more as nat, all);
        complements_fall(quotient(less as nat, all), quotient(more as nat, all));
    }
}

/// Deleting data from a segment never makes its state better.
pub proof fn deletion_never_heals(s: Segment, less: Segment)
    requires
        less.capacity == s.capacity,
        less.used_bytes <= s.used_bytes,
    ensures
        s.fragmentation() <= less.fragmentation(),
        less.refreshed().state.spec_value() <= s.refreshed().state.spec_value(),
{
    more_live_bytes_lower_the_ratio(s.capacity, less.used_bytes, s.used_bytes);
    crate::state::classification_is_monotone(
        s.fragmentation() as int,
        less.fragmentation() as int,
    );
}

/// Up to a capacity of 2^53 bytes, a segment's ratio differs by at most 2^-53
/// from the exact share of its dead bytes.
pub proof fn ratios_are_accurate(s: Segment)
    requires
        0 < s.capacity <= 0x20_0000_0000_0000,
    ensures
        distance(
            (s.fragmentation() * s.capacity) as int,
            (s.dead() * one()) as int,
        ) <= s.capacity * pow2(1021),
{
    let (a, b) = (s.used_bytes as nat, s.capacity as nat);
    let f = s.fragmentation() as int;
    if a <= b {
        let q = quotient(a, b) as int;
        let u = one() as int;
        quotients_grow_up_to_one(a, a, b);
        lemma2_to64();
        assert(a <= b * pow2(0));
        quotients_are_accurate(a, b, 0);
        complements_are_accurate(q as nat);
        let e = f - (u - q);
        assert(f * b - (b - a) * u == e * b - (q * b - a * u)) by (nonlinear_arith)
            requires
                e == f - (u - q),
        ;
        assert(-(b * pow2(1021)) <= 2 * (e * b) <= b * pow2(1021)) by (nonlinear_arith)
            requires
                -(pow2(1021) as int) <= 2 * e <= pow2(1021),
        ;
    } else {
        assert(0 * s.capacity == 0 && 0 * one() == 0);
    }
}

/// Up to a capacity of 2^50 bytes, rounding decides no state: a segment needs
/// compaction if and only if six tenths of it are dead, and it is healthy if and
/// only if less than three tenths are.
pub proof fn states_go_by_exact_shares(s: Segment)
    requires
        0 < s.capacity <= 0x4_0000_0000_0000,
    ensures
        s.refreshed().state == s.state_by_share(),
{
    lemma_tenths();
    if s.used_bytes <= s.capacity {
        tenths_are_told_apart(s.used_bytes as nat, s.capacity as nat);
    }
}

/// Up to a capacity of 2^53 bytes, a segment with the smaller share of dead bytes
/// never has the larger ratio.
pub proof fn ratios_follow_exact_shares(s: Segment, t: Segment)
    requires
        0 < s.capacity <= 0x20_0000_0000_0000,
        0 < t.capacity <= 0x20_0000_0000_0000,
        s.dead() * t.capacity <= t.dead() * s.capacity,
    ensures
        s.fragmentation() <= t.fragmentation(),
{
    let (a, b) = (s.used_bytes as nat, s.capacity as nat);
    let (c, d) = (t.used_bytes as nat, t.capacity as nat);
    ratios_lie_between_zero_and_one(s.capacity, s.used_bytes);
    if a < b {
        assert(c < d && c * b <= a * d) by (nonlinear_arith)
            requires
                a < b,
                d > 0,
                (b - a) * d <= t.dead() * b,
                t.dead() == if c <= d {
                    d - c
                } else {
                    0
                },
        {
            assert((b - a) * d > 0);
        }
        quotients_of_exact_counts(a, b);
        quotients_of_exact_counts(c, d);
        quotients_grow_up_to_one(a, a, b);
        assert((c * one()) * b <= (a * one()) * d) by (nonlinear_arith)
            requires
                c * b <= a * d,
        ;
        lemma_rounded_monotone(c * one(), d, a * one(), b);
        complements_fall(quotient(c, d), quotient(a, b));
    }
}

/// What needs compaction has room for its live data and some to give back.
pub proof fn fragmented_segments_have_dead_space(s: Segment)
    requires
        s.fragmented(),
    ensures
        s.used_bytes < s.capacity,
        s.dead() == s.capacity - s.used_bytes,
{
    lemma_tenths();
    ratios_lie_between_zero_and_one(s.capacity, s.used_bytes);
}

} // verus!
