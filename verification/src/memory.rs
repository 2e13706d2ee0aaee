//! The memory model: the four-point review grade, a card's learning state
//! (never reviewed, or reviewed with parameters), and the forgetting curve
//! `recall`, the probability of successful recall after a given elapsed time.

use vstd::prelude::*;
use vstd::arithmetic::div_mod::{
    lemma_fundamental_div_mod, lemma_div_is_ordered, lemma_div_is_ordered_by_denominator,
    lemma_div_pos_is_pos, lemma_div_multiples_vanish, lemma_multiply_divide_le,
};
use crate::config::{
    SchedulerConfig, SCALE, STABILITY_MIN, STABILITY_MAX, DIFFICULTY_MIN, DIFFICULTY_MAX,
    TIMESTAMP_MAX, SECONDS_PER_DAY,
};

verus! {

/// Largest elapsed time (milli-days) the forgetting curve accepts; any pair
/// of timestamps below `TIMESTAMP_MAX` yields an elapsed time below this.
pub const ELAPSED_MAX: u64 = 1_200_000_000_000;

/// Largest unrounded interval (milli-days) the scheduler ever derives.
pub const INTERVAL_RAW_MAX: u64 = 36_500_000_000;

/// The outcome a user assigns after seeing a card's answer, ordered from
/// failed recall to effortless recall.
#[derive(Clone, Copy, Debug, PartialEq, Eq, Structural)]
pub enum ReviewGrade {
    Again,
    Hard,
    Good,
    Easy,
}

impl ReviewGrade {
    /// Position in the grade order `Again < Hard < Good < Easy`.
    pub open spec fn rank(self) -> int {
        match self {
            ReviewGrade::Again => 0,
            ReviewGrade::Hard => 1,
            ReviewGrade::Good => 2,
            ReviewGrade::Easy => 3,
        }
    }
}

/// The numeric parameters of a card that has been reviewed at least once.
/// Stability and the intervals are in milli-days, difficulty is on the
/// fixed-point `[1, 10]` scale, timestamps are in seconds.
#[derive(Clone, Copy, Debug, PartialEq, Eq, Structural)]
pub struct ReviewedMemory {
    pub stability: u64,
    pub difficulty: u64,
    pub interval_raw: u64,
    pub interval_days: u32,
    pub due_date: u64,
    pub review_count: u32,
    pub last_reviewed_at: u64,
}

/// A card's learning state: never reviewed, or reviewed with parameters.
#[derive(Clone, Copy, Debug, PartialEq, Eq, Structural)]
pub enum MemoryState {
    New,
    Reviewed(ReviewedMemory),
}

/// The rounded interval derived from an unrounded one: round half up to
/// whole days, never below one day.
pub open spec fn spec_round_days(interval_raw: int) -> int {
    let rounded = (interval_raw + SCALE as int / 2) / (SCALE as int);
    if rounded < 1 {
        1
    } else {
        rounded
    }
}

impl ReviewedMemory {
    /// The invariant of a reviewed state: parameters in range, the rounded
    /// interval derived from the unrounded one and at least one day, and the
    /// due date exactly the last review time plus the rounded interval.
    pub open spec fn wf(self) -> bool {
        &&& STABILITY_MIN <= self.stability <= STABILITY_MAX
        &&& DIFFICULTY_MIN <= self.difficulty <= DIFFICULTY_MAX
        &&& self.interval_raw <= INTERVAL_RAW_MAX
        &&& self.interval_days == spec_round_days(self.interval_raw as int)
        &&& 1 <= self.interval_days
        &&& self.review_count >= 1
        &&& self.last_reviewed_at <= TIMESTAMP_MAX
        &&& self.due_date == self.last_reviewed_at + self.interval_days * SECONDS_PER_DAY
    }
}

impl MemoryState {
    /// The invariant of a memory state: a reviewed state satisfies the
    /// reviewed invariant; a new state carries nothing to constrain.
    pub open spec fn wf(self) -> bool {
        match self {
            MemoryState::New => true,
            MemoryState::Reviewed(m) => m.wf(),
        }
    }

    /// Whether the state has been reviewed at least once.
    pub open spec fn is_reviewed(self) -> bool {
        self is Reviewed
    }

    /// The review count the state stands for: zero exactly for a new state.
    pub open spec fn spec_review_count(self) -> int {
        match self {
            MemoryState::New => 0,
            MemoryState::Reviewed(m) => m.review_count as int,
        }
    }
}

/// The forgetting curve: the recall probability (fixed-point, in `[0, SCALE]`)
/// after `elapsed` milli-days for a card of the given stability, under the
/// given decay constant. The curve is `stability / (stability + decay * elapsed)`
/// in real terms: one at zero elapsed time, decaying toward zero.
pub open spec fn spec_recall(elapsed: int, stability: int, decay: int) -> int {
    (stability * (SCALE as int)) / (stability + (decay * elapsed) / (SCALE as int))
}

/// If `a/b <= c/d` holds of the rational values, it holds of the floors.
proof fn lemma_div_cross_le(a: int, b: int, c: int, d: int)
    requires
        0 <= a,
        0 < b,
        0 <= c,
        0 < d,
        a * d <= c * b,
    ensures
        a / b <= c / d,
{
    let q = a / b;
    lemma_fundamental_div_mod(a, b);
    lemma_div_pos_is_pos(a, b);
    assert(b * q <= a);
    assert(q * d <= c) by (nonlinear_arith)
        requires
            b * q <= a,
            a * d <= c * b,
            0 < b,
            0 < d,
            0 <= q,
    ;
    lemma_div_multiples_vanish(q, d);
    lemma_div_is_ordered(d * q, c, d);
}

/// At zero elapsed time, recall probability is exactly one.
pub proof fn lemma_recall_at_zero(stability: int, decay: int)
    requires
        1 <= stability,
        0 <= decay,
    ensures
        spec_recall(0, stability, decay) == SCALE,
{
    assert((decay * 0) / (SCALE as int) == 0);
    lemma_div_multiples_vanish(SCALE as int, stability);
    assert(stability * (SCALE as int) == (SCALE as int) * stability) by (nonlinear_arith);
}

/// Recall probability always lies in `[0, SCALE]`.
pub proof fn lemma_recall_in_range(elapsed: int, stability: int, decay: int)
    requires
        0 <= elapsed,
        1 <= stability,
        0 <= decay,
    ensures
        0 <= spec_recall(elapsed, stability, decay) <= SCALE,
{
    let k = (decay * elapsed) / (SCALE as int);
    assert(0 <= k) by {
        assert(0 <= decay * elapsed) by (nonlinear_arith)
            requires
                0 <= decay,
                0 <= elapsed,
        ;
        if decay * elapsed > 0 {
            lemma_div_pos_is_pos(decay * elapsed, SCALE as int);
        }
    }
    lemma_div_pos_is_pos(stability * (SCALE as int), stability + k);
    assert(stability * (SCALE as int) <= (stability + k) * (SCALE as int)) by (nonlinear_arith)
        requires
            0 <= k,
    ;
    lemma_multiply_divide_le(stability * (SCALE as int), stability + k, SCALE as int);
}

/// Recall probability is non-increasing in elapsed time.
pub proof fn lemma_recall_antitone_in_elapsed(e1: int, e2: int, stability: int, decay: int)
    requires
        0 <= e1 <= e2,
        1 <= stability,
        0 <= decay,
    ensures
        spec_recall(e2, stability, decay) <= spec_recall(e1, stability, decay),
{
    let k1 = (decay * e1) / (SCALE as int);
    let k2 = (decay * e2) / (SCALE as int);
    assert(decay * e1 <= decay * e2) by (nonlinear_arith)
        requires
            0 <= decay,
            e1 <= e2,
    ;
    lemma_div_is_ordered(decay * e1, decay * e2, SCALE as int);
    assert(0 <= decay * e1) by (nonlinear_arith)
        requires
            0 <= decay,
            0 <= e1,
    ;
    if decay * e1 > 0 {
        lemma_div_pos_is_pos(decay * e1, SCALE as int);
    }
    lemma_div_is_ordered_by_denominator(
        stability * (SCALE as int),
        stability + k1,
        stability + k2,
    );
    assert(0 <= stability * (SCALE as int)) by (nonlinear_arith)
        requires
            1 <= stability,
    ;
}

/// Recall probability is non-decreasing in stability.
pub proof fn lemma_recall_monotone_in_stability(elapsed: int, s1: int, s2: int, decay: int)
    requires
        0 <= elapsed,
        1 <= s1 <= s2,
        0 <= decay,
    ensures
        spec_recall(elapsed, s1, decay) <= spec_recall(elapsed, s2, decay),
{
    let k = (decay * elapsed) / (SCALE as int);
    assert(0 <= k) by {
        assert(0 <= decay * elapsed) by (nonlinear_arith)
            requires
                0 <= decay,
                0 <= elapsed,
        ;
        if decay * elapsed > 0 {
            lemma_div_pos_is_pos(decay * elapsed, SCALE as int);
        }
    }
    assert((s1 * (SCALE as int)) * (s2 + k) <= (s2 * (SCALE as int)) * (s1 + k))
        by (nonlinear_arith)
        requires
            1 <= s1 <= s2,
            0 <= k,
    ;
    assert(0 <= s1 * (SCALE as int)) by (nonlinear_arith)
        requires
            1 <= s1,
    ;
    lemma_div_cross_le(s1 * (SCALE as int), s1 + k, s2 * (SCALE as int), s2 + k);
}

/// The recall probability (fixed-point, in `[0, SCALE]`) of a card with the
/// given stability after `elapsed` milli-days.
pub fn recall(elapsed: u64, stability: u64, cfg: &SchedulerConfig) -> (r: u64)
    requires
        cfg.wf(),
        STABILITY_MIN <= stability <= STABILITY_MAX,
        elapsed <= ELAPSED_MAX,
    ensures
        r == spec_recall(elapsed as int, stability as int, cfg.decay_factor as int),
        r <= SCALE,
        elapsed == 0 ==> r == SCALE,
{
    proof {
        lemma_recall_in_range(elapsed as int, stability as int, cfg.decay_factor as int);
        if elapsed == 0 {
            lemma_recall_at_zero(stability as int, cfg.decay_factor as int);
        }
        assert(cfg.decay_factor * elapsed <= 100_000 * (ELAPSED_MAX as int)) by (nonlinear_arith)
            requires
                cfg.decay_factor <= 100_000,
                elapsed <= ELAPSED_MAX,
        ;
        assert(stability * SCALE <= (STABILITY_MAX as int) * (SCALE as int)) by (nonlinear_arith)
            requires
                stability <= STABILITY_MAX,
        ;
    }
    let decayed: u64 = cfg.decay_factor * elapsed / SCALE;
    let denominator: u64 = stability + decayed;
    stability * SCALE / denominator
}

} // verus!
