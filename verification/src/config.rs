//! Configuration surface of the scheduler: target retention, the decay
//! constant of the forgetting curve, the per-grade initialization tables,
//! the difficulty-update weights, the success and lapse weights, and the
//! maturity threshold. All of these are replaceable parameters; the
//! algorithm's shape, not any particular constant, is the contract.

use vstd::prelude::*;

verus! {

/// Fixed-point scale: a stored value `v` stands for the real number `v / SCALE`.
pub const SCALE: u64 = 1000;

/// Smallest stability the model ever holds (in milli-days).
pub const STABILITY_MIN: u64 = 1;

/// Largest stability the model ever holds (in milli-days): one hundred years.
pub const STABILITY_MAX: u64 = 36_500_000;

/// Smallest difficulty on the bounded difficulty scale (fixed-point 1.0).
pub const DIFFICULTY_MIN: u64 = 1_000;

/// Largest difficulty on the bounded difficulty scale (fixed-point 10.0).
pub const DIFFICULTY_MAX: u64 = 10_000;

/// One more unit than the largest difficulty, so that the success bonus
/// `DIFFICULTY_CEIL - difficulty` stays strictly positive.
pub const DIFFICULTY_CEIL: u64 = 11_000;

/// Latest timestamp (in seconds since an epoch) the scheduler accepts.
pub const TIMESTAMP_MAX: u64 = 100_000_000_000;

/// Seconds in a day.
pub const SECONDS_PER_DAY: u64 = 86_400;

/// Damping constant of the success formula (in milli-days): the stability
/// gain of a successful review shrinks as stability approaches and passes it.
pub const SUCCESS_DAMPING: u64 = 10_000_000;

/// The scheduler's replaceable parameters. Every numeric constant of the
/// memory model lives here; `wf` pins the ranges and orderings under which
/// the update algorithm is total and respects the grade order.
#[derive(Clone, Copy, Debug)]
pub struct SchedulerConfig {
    /// Decay constant of the forgetting curve (fixed-point, unitless).
    pub decay_factor: u64,
    /// Retention probability the next interval aims at (fixed-point, in (0, 1)).
    pub target_retention: u64,
    /// Initial stability after a first review graded Again (milli-days).
    pub first_stability_again: u64,
    /// Initial stability after a first review graded Hard (milli-days).
    pub first_stability_hard: u64,
    /// Initial stability after a first review graded Good (milli-days).
    pub first_stability_good: u64,
    /// Initial stability after a first review graded Easy (milli-days).
    pub first_stability_easy: u64,
    /// Initial difficulty after a first review graded Again.
    pub first_difficulty_again: u64,
    /// Initial difficulty after a first review graded Hard.
    pub first_difficulty_hard: u64,
    /// Initial difficulty after a first review graded Good.
    pub first_difficulty_good: u64,
    /// Initial difficulty after a first review graded Easy.
    pub first_difficulty_easy: u64,
    /// Difficulty shift applied by a review graded Again (fixed-point units).
    pub difficulty_shift_again: i64,
    /// Difficulty shift applied by a review graded Hard.
    pub difficulty_shift_hard: i64,
    /// Difficulty shift applied by a review graded Good.
    pub difficulty_shift_good: i64,
    /// Difficulty shift applied by a review graded Easy.
    pub difficulty_shift_easy: i64,
    /// Neutral difficulty toward which every update mean-reverts.
    pub difficulty_baseline: u64,
    /// Divisor of the mean reversion: each update moves difficulty toward
    /// the baseline by the distance divided by this.
    pub difficulty_reversion: u64,
    /// Stability-growth multiplier of a successful review graded Hard.
    pub success_weight_hard: u64,
    /// Stability-growth multiplier of a successful review graded Good.
    pub success_weight_good: u64,
    /// Stability-growth multiplier of a successful review graded Easy.
    pub success_weight_easy: u64,
    /// Weight of the stability loss on a lapse (fixed-point, below 1).
    pub lapse_weight: u64,
    /// Unrounded interval (milli-days) above which a card counts as mature.
    pub mature_threshold: u64,
}

impl SchedulerConfig {
    /// Ranges and orderings every configuration must satisfy: positive decay,
    /// a target retention strictly inside (0, 1) that keeps intervals bounded,
    /// initialization tables monotone in the grade order, difficulty shifts
    /// antitone in the grade order, and success weights monotone in it.
    pub open spec fn wf(self) -> bool {
        &&& 1 <= self.decay_factor <= 100_000
        &&& 0 < self.target_retention < SCALE
        &&& self.target_retention * self.decay_factor >= SCALE
        &&& STABILITY_MIN <= self.first_stability_again
        &&& self.first_stability_again <= self.first_stability_hard
        &&& self.first_stability_hard <= self.first_stability_good
        &&& self.first_stability_good <= self.first_stability_easy
        &&& self.first_stability_easy <= STABILITY_MAX
        &&& DIFFICULTY_MIN <= self.first_difficulty_easy
        &&& self.first_difficulty_easy <= self.first_difficulty_good
        &&& self.first_difficulty_good <= self.first_difficulty_hard
        &&& self.first_difficulty_hard <= self.first_difficulty_again
        &&& self.first_difficulty_again <= DIFFICULTY_MAX
        &&& self.difficulty_shift_easy <= self.difficulty_shift_good
        &&& self.difficulty_shift_good <= self.difficulty_shift_hard
        &&& self.difficulty_shift_hard <= self.difficulty_shift_again
        &&& -(DIFFICULTY_MAX as int) <= self.difficulty_shift_easy
        &&& self.difficulty_shift_again <= DIFFICULTY_MAX
        &&& DIFFICULTY_MIN <= self.difficulty_baseline <= DIFFICULTY_MAX
        &&& 1 <= self.difficulty_reversion
        &&& 1 <= self.success_weight_hard
        &&& self.success_weight_hard <= self.success_weight_good
        &&& self.success_weight_good <= self.success_weight_easy
        &&& self.success_weight_easy <= 10_000
        &&& self.lapse_weight < SCALE
        &&& self.mature_threshold <= STABILITY_MAX
    }

    /// The recommended calibration, as a value the contracts can speak of.
    pub open spec fn spec_recommended() -> SchedulerConfig {
        SchedulerConfig {
            decay_factor: 111,
            target_retention: 900,
            first_stability_again: 400,
            first_stability_hard: 600,
            first_stability_good: 2_400,
            first_stability_easy: 5_800,
            first_difficulty_again: 8_000,
            first_difficulty_hard: 7_000,
            first_difficulty_good: 5_000,
            first_difficulty_easy: 3_000,
            difficulty_shift_again: 1_200i64,
            difficulty_shift_hard: 400i64,
            difficulty_shift_good: -200i64,
            difficulty_shift_easy: -800i64,
            difficulty_baseline: 5_000,
            difficulty_reversion: 20,
            success_weight_hard: 600,
            success_weight_good: 1_000,
            success_weight_easy: 1_600,
            lapse_weight: 800,
            mature_threshold: 21_000,
        }
    }

    /// A calibration of the model: the forgetting curve loses about a tenth
    /// of its recall probability over one stability span, the next interval
    /// aims at nine-in-ten retention, and first reviews seed stability from
    /// under half a day (Again) up to almost six days (Easy).
    pub fn recommended() -> (cfg: SchedulerConfig)
        ensures
            cfg == SchedulerConfig::spec_recommended(),
            cfg.wf(),
    {
        SchedulerConfig {
            decay_factor: 111,
            target_retention: 900,
            first_stability_again: 400,
            first_stability_hard: 600,
            first_stability_good: 2_400,
            first_stability_easy: 5_800,
            first_difficulty_again: 8_000,
            first_difficulty_hard: 7_000,
            first_difficulty_good: 5_000,
            first_difficulty_easy: 3_000,
            difficulty_shift_again: 1_200,
            difficulty_shift_hard: 400,
            difficulty_shift_good: -200,
            difficulty_shift_easy: -800,
            difficulty_baseline: 5_000,
            difficulty_reversion: 20,
            success_weight_hard: 600,
            success_weight_good: 1_000,
            success_weight_easy: 1_600,
            lapse_weight: 800,
            mature_threshold: 21_000,
        }
    }
}

} // verus!
