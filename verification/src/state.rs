//! The ternary compaction trigger.

use vstd::arithmetic::power2::pow2;
use vstd::prelude::*;

use crate::double::Double;
use crate::rounding::{lemma_tenths, tenths};

verus! {

/// Ternary compaction trigger for a segment.
///
/// | Value | Variant          | Meaning                        |
/// |-------|------------------|--------------------------------|
/// | +1    | Compacted        | Healthy, skip compaction       |
/// |  0    | InProgress       | Borderline, consider           |
/// | -1    | NeedsCompaction  | Fragmented, compact now        |
///
/// The variants are ordered as their values are.
#[derive(Debug, Clone, Copy, PartialEq, Eq, PartialOrd, Ord, Hash, Structural)]
pub enum CompactionState {
    NeedsCompaction,
    InProgress,
    Compacted,
}

/// The state that a fragmentation ratio stands for: six tenths and more need
/// compaction, three tenths and more are borderline, less is healthy.
pub open spec fn classify(ratio: int) -> CompactionState {
    if ratio >= tenths(6) {
        CompactionState::NeedsCompaction
    } else if ratio >= tenths(3) {
        CompactionState::InProgress
    } else {
        CompactionState::Compacted
    }
}

impl CompactionState {
    /// The numeric value of a state.
    pub open spec fn spec_value(self) -> int {
        match self {
            CompactionState::Compacted => 1,
            CompactionState::InProgress => 0,
            CompactionState::NeedsCompaction => -1,
        }
    }

    /// Classify a segment from its fragmentation ratio.
    ///
    /// - ratio < 0.3 → Compacted (plenty of live data)
    /// - ratio < 0.6 → InProgress (worth watching)
    /// - ratio ≥ 0.6 → NeedsCompaction (reclaim now)
    ///
    /// What is no number reaches no threshold.
    pub fn from_fragmentation(ratio: Double) -> (state: CompactionState)
        ensures
            state == if ratio.is_nan() {
                CompactionState::Compacted
            } else {
                classify(ratio@)
            },
    {
        let urgent = Double { bits: 0x3fe3_3333_3333_3333 };
        let borderline = Double { bits: 0x3fd3_3333_3333_3333 };
        proof {
            lemma_tenths();
        }
        if urgent.is_at_most(&ratio) {
            CompactionState::NeedsCompaction
        } else if borderline.is_at_most(&ratio) {
            CompactionState::InProgress
        } else {
            CompactionState::Compacted
        }
    }

    /// Numeric value (+1, 0, -1).
    pub fn value(&self) -> (value: i8)
        ensures
            value == self.spec_value(),
    {
        match self {
            CompactionState::Compacted => 1,
            CompactionState::InProgress => 0,
            CompactionState::NeedsCompaction => -1,
        }
    }

    /// The name of the state, with its numeric value in parentheses.
    pub fn to_string(&self) -> (text: String)
        ensures
            text@ == match self {
                CompactionState::Compacted => "Compacted(+1)"@,
                CompactionState::InProgress => "InProgress(0)"@,
                CompactionState::NeedsCompaction => "NeedsCompaction(-1)"@,
            },
    {
        match self {
            CompactionState::Compacted => String::from_str("Compacted(+1)"),
            CompactionState::InProgress => String::from_str("InProgress(0)"),
            CompactionState::NeedsCompaction => String::from_str("NeedsCompaction(-1)"),
        }
    }
}

/// The values of the three states are -1, 0 and 1, one each.
pub proof fn values_tell_states_apart(a: CompactionState, b: CompactionState)
    ensures
        -1 <= a.spec_value() <= 1,
        a.spec_value() == b.spec_value() ==> a == b,
{
}

/// A worse state has the smaller value.
pub proof fn values_rank_states()
    ensures
        CompactionState::NeedsCompaction.spec_value() == -1,
        CompactionState::InProgress.spec_value() == 0,
        CompactionState::Compacted.spec_value() == 1,
{
}

/// The thresholds are the doubles 5404319552844595 / 2^53, which is next to six
/// tenths, and half of it, which is next to three tenths. Every ratio from the
/// upper one on needs compaction, and every ratio below the lower one is healthy.
pub proof fn thresholds_are_six_and_three_tenths(ratio: int)
    ensures
        classify(ratio) == CompactionState::NeedsCompaction <==> ratio >= 5404319552844595 * pow2(
            1021,
        ),
        classify(ratio) == CompactionState::Compacted <==> ratio < 5404319552844595 * pow2(1020),
        classify(ratio) == CompactionState::InProgress <==> 5404319552844595 * pow2(1020) <= ratio
            < 5404319552844595 * pow2(1021),
{
    lemma_tenths();
}

/// More fragmentation never makes a state better.
pub proof fn classification_is_monotone(x: int, y: int)
    requires
        x <= y,
    ensures
        classify(y).spec_value() <= classify(x).spec_value(),
{
    lemma_tenths();
}

} // verus!
