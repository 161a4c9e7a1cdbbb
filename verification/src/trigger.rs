//! Heuristic that decides when a collection pass is worth running.
//!
//! The trigger compares the current number of live allocations against the
//! number that were live right after the previous collection.  A collection
//! is indicated once the count has grown by more than a configurable
//! percentage.  A small floor on the baseline avoids thrashing when the
//! counts are near zero.

use vstd::prelude::*;

verus! {

/// Default growth allowance: 75/100, i.e. collect once the heap has grown by
/// more than 75% since the last collection.
pub const DEFAULT_TRIGGER_PERCENT_HUNDREDTHS: u64 = 75;

/// Upper bound accepted for the growth allowance.  The bound exists only so
/// the hundredths comparison in [`Trigger::should_collect`] cannot overflow
/// its 128-bit arithmetic; it still admits growth factors beyond 4.6e16,
/// far past any meaningful setting.
pub const MAX_TRIGGER_PERCENT_HUNDREDTHS: u64 = 0x4000_0000_0000_0000;

/// Baselines below this floor are treated as the floor itself, so that a
/// nearly empty heap does not trigger a collection on every allocation.
pub const MIN_TRIGGER_BASELINE: u64 = 10;

/// Decides when the collector should run, from allocation counts alone.
///
/// The growth allowance is kept in hundredths, so `75` stands for a growth
/// factor of 1.75 over the post-collection baseline.
pub struct Trigger {
    pub trigger_percent_hundredths: u64,
    pub data_count_at_last_collection: usize,
}

impl Trigger {
    /// The trigger is well formed when its growth allowance is within bounds.
    pub open spec fn wf(self) -> bool {
        self.trigger_percent_hundredths <= MAX_TRIGGER_PERCENT_HUNDREDTHS
    }

    pub open spec fn percent_hundredths(self) -> u64 {
        self.trigger_percent_hundredths
    }

    pub open spec fn last_count(self) -> usize {
        self.data_count_at_last_collection
    }

    /// The baseline the growth test is made against: the post-collection
    /// count, floored to avoid thrash near zero.
    pub open spec fn baseline(self) -> int {
        if self.data_count_at_last_collection as int >= MIN_TRIGGER_BASELINE as int {
            self.data_count_at_last_collection as int
        } else {
            MIN_TRIGGER_BASELINE as int
        }
    }

    /// A collection is indicated exactly when the current count exceeds
    /// `baseline * (1 + percent/100)`, computed in hundredths.
    pub open spec fn should_collect_spec(self, current_count: int) -> bool {
        current_count * 100 > self.baseline() * (100 + self.trigger_percent_hundredths)
    }

    pub fn new() -> (t: Trigger)
        ensures
            t.wf(),
            t.percent_hundredths() == DEFAULT_TRIGGER_PERCENT_HUNDREDTHS,
            t.last_count() == 0,
    {
        Trigger {
            trigger_percent_hundredths: DEFAULT_TRIGGER_PERCENT_HUNDREDTHS,
            data_count_at_last_collection: 0,
        }
    }

    pub fn set_trigger_percent(&mut self, hundredths: u64)
        requires
            hundredths <= MAX_TRIGGER_PERCENT_HUNDREDTHS,
        ensures
            final(self).wf(),
            final(self).percent_hundredths() == hundredths,
            final(self).last_count() == old(self).last_count(),
    {
        self.trigger_percent_hundredths = hundredths;
    }

    pub fn set_data_count_after_collection(&mut self, count: usize)
        ensures
            final(self).wf() == old(self).wf(),
            final(self).percent_hundredths() == old(self).percent_hundredths(),
            final(self).last_count() == count,
    {
        self.data_count_at_last_collection = count;
    }

    pub fn should_collect(&self, current_count: usize) -> (r: bool)
        requires
            self.wf(),
        ensures
            r == self.should_collect_spec(current_count as int),
    {
        let current: u128 = (current_count as u128) * 100;
        let base: u128 = if self.data_count_at_last_collection as u128 >= MIN_TRIGGER_BASELINE as u128 {
            self.data_count_at_last_collection as u128
        } else {
            MIN_TRIGGER_BASELINE as u128
        };
        let mult: u128 = 100 + self.trigger_percent_hundredths as u128;
        proof {
            assert(base * mult <= 0xFFFF_FFFF_FFFF_FFFFu128 * 0x4000_0000_0000_0064u128)
                by (nonlinear_arith)
                requires
                    base <= 0xFFFF_FFFF_FFFF_FFFFu128,
                    mult <= 0x4000_0000_0000_0064u128,
            ;
        }
        let threshold: u128 = base * mult;
        current > threshold
    }
}

} // verus!
