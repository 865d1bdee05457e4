//! Balance table: the integer economy numbers of the colony.
use vstd::prelude::*;

verus! {

/// Green food the queen needs for a worker egg.
pub const EGG_COST: u32 = 5;
/// Green food in the colony store at the start.
pub const START_FOOD: u32 = 5;
/// Units in a freshly placed green food pile.
pub const PILE_AMOUNT: u32 = 45;
/// Super food dropped by a killed spider.
pub const SUPER_PER_SPIDER: u32 = 8;
/// Green food a soldier egg costs.
pub const SOLDIER_COST_GREEN: u32 = 3;
/// Super food a soldier egg costs.
pub const SOLDIER_COST_SUPER: u32 = 2;
/// Longest queue of nest-expansion digs the queen keeps.
pub const DIG_QUEUE_MAX: usize = 3;
/// Ticks a worker waits after a failed route.
pub const RETRY_AFTER_FAIL: u32 = 60;
/// Ticks an idle worker waits when there is nothing to do.
pub const RETRY_WHEN_IDLE: u32 = 50;

} // verus!
