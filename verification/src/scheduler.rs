//! The update algorithm: a pure function from the current memory state, the
//! review grade and the current time to the next memory state. It owns all
//! scheduling arithmetic: difficulty mean-reversion and clamping, stability
//! growth on success and shrinkage on a lapse, and the derivation of the
//! next interval and due date from the target retention.

use vstd::prelude::*;
use vstd::arithmetic::div_mod::{
    lemma_div_is_ordered, lemma_div_is_ordered_by_denominator, lemma_div_pos_is_pos,
    lemma_div_multiples_vanish, lemma_div_nonincreasing, lemma_multiply_divide_le,
};
use crate::config::{
    SchedulerConfig, SCALE, STABILITY_MIN, STABILITY_MAX, DIFFICULTY_MIN, DIFFICULTY_MAX,
    DIFFICULTY_CEIL, TIMESTAMP_MAX, SECONDS_PER_DAY, SUCCESS_DAMPING,
};
use crate::memory::{
    MemoryState, ReviewedMemory, ReviewGrade, spec_recall, spec_round_days, recall,
    lemma_recall_in_range, ELAPSED_MAX, INTERVAL_RAW_MAX,
};
use crate::errors::ScheduleError;

verus! {

/// Elapsed time between two timestamps (seconds), in milli-days; a review
/// recorded in the future counts as zero elapsed time.
pub open spec fn spec_elapsed(now: int, last: int) -> int {
    if now >= last {
        ((now - last) * (SCALE as int)) / (SECONDS_PER_DAY as int)
    } else {
        0
    }
}

/// The initial stability of a first review, by grade.
pub open spec fn spec_first_stability(cfg: SchedulerConfig, grade: ReviewGrade) -> int {
    match grade {
        ReviewGrade::Again => cfg.first_stability_again as int,
        ReviewGrade::Hard => cfg.first_stability_hard as int,
        ReviewGrade::Good => cfg.first_stability_good as int,
        ReviewGrade::Easy => cfg.first_stability_easy as int,
    }
}

/// The initial difficulty of a first review, by grade.
pub open spec fn spec_first_difficulty(cfg: SchedulerConfig, grade: ReviewGrade) -> int {
    match grade {
        ReviewGrade::Again => cfg.first_difficulty_again as int,
        ReviewGrade::Hard => cfg.first_difficulty_hard as int,
        ReviewGrade::Good => cfg.first_difficulty_good as int,
        ReviewGrade::Easy => cfg.first_difficulty_easy as int,
    }
}

/// The difficulty shift of a repeat review, by grade.
pub open spec fn spec_difficulty_shift(cfg: SchedulerConfig, grade: ReviewGrade) -> int {
    match grade {
        ReviewGrade::Again => cfg.difficulty_shift_again as int,
        ReviewGrade::Hard => cfg.difficulty_shift_hard as int,
        ReviewGrade::Good => cfg.difficulty_shift_good as int,
        ReviewGrade::Easy => cfg.difficulty_shift_easy as int,
    }
}

/// The stability-growth multiplier of a successful review, by grade.
/// A lapse never reaches the success formula, so `Again` carries no weight.
pub open spec fn spec_success_weight(cfg: SchedulerConfig, grade: ReviewGrade) -> int {
    match grade {
        ReviewGrade::Again => 0,
        ReviewGrade::Hard => cfg.success_weight_hard as int,
        ReviewGrade::Good => cfg.success_weight_good as int,
        ReviewGrade::Easy => cfg.success_weight_easy as int,
    }
}

/// Difficulty clamped to the bounded difficulty scale.
pub open spec fn spec_clamp_difficulty(d: int) -> int {
    if d < DIFFICULTY_MIN {
        DIFFICULTY_MIN as int
    } else if d > DIFFICULTY_MAX {
        DIFFICULTY_MAX as int
    } else {
        d
    }
}

/// Difficulty pulled toward the neutral baseline by the configured fraction
/// of its distance; this mean reversion keeps repeated identical grades from
/// drifting difficulty monotonically to a bound.
pub open spec fn spec_revert_difficulty(d: int, cfg: SchedulerConfig) -> int {
    if d >= cfg.difficulty_baseline {
        d - (d - cfg.difficulty_baseline) / (cfg.difficulty_reversion as int)
    } else {
        d + (cfg.difficulty_baseline - d) / (cfg.difficulty_reversion as int)
    }
}

/// The difficulty after a repeat review: mean-revert toward the baseline,
/// apply the grade's shift, clamp to the scale.
pub open spec fn spec_next_difficulty(d: int, grade: ReviewGrade, cfg: SchedulerConfig) -> int {
    spec_clamp_difficulty(spec_revert_difficulty(d, cfg) + spec_difficulty_shift(cfg, grade))
}

/// The stability after a lapse: shrink by a factor that grows both with the
/// recall probability the card had (an unexpected forgetting is penalized
/// more) and with the new difficulty; never below the stability floor.
pub open spec fn spec_stability_after_lapse(
    s: int,
    d_next: int,
    r: int,
    cfg: SchedulerConfig,
) -> int {
    let shrink = (cfg.lapse_weight * r * d_next) / ((SCALE as int) * (DIFFICULTY_MAX as int));
    let reduced = (s * ((SCALE as int) - shrink)) / (SCALE as int);
    if reduced < STABILITY_MIN {
        STABILITY_MIN as int
    } else {
        reduced
    }
}

/// The stability gain of a successful review: grows with the grade's weight,
/// with the ease headroom left on the card, and with how far recall had
/// decayed, damped as stability itself grows (diminishing returns); always
/// at least one unit.
pub open spec fn spec_success_gain(
    s: int,
    d_next: int,
    r: int,
    grade: ReviewGrade,
    cfg: SchedulerConfig,
) -> int {
    let base = (spec_success_weight(cfg, grade) * ((DIFFICULTY_CEIL as int) - d_next) * (2 * (
    SCALE as int) - r)) / ((SCALE as int) * (SCALE as int));
    let damped = (base * (SUCCESS_DAMPING as int)) / ((SUCCESS_DAMPING as int) + s);
    if damped < 1 {
        1
    } else {
        damped
    }
}

/// The stability after a successful review: grown by the gain, never past
/// the ceiling.
pub open spec fn spec_stability_after_success(
    s: int,
    d_next: int,
    r: int,
    grade: ReviewGrade,
    cfg: SchedulerConfig,
) -> int {
    let gain = spec_success_gain(s, d_next, r, grade, cfg);
    if s + gain > STABILITY_MAX {
        STABILITY_MAX as int
    } else {
        s + gain
    }
}

/// The unrounded next interval (milli-days): the elapsed time at which the
/// forgetting curve of the new stability decays to the target retention.
pub open spec fn spec_interval_raw(s: int, cfg: SchedulerConfig) -> int {
    (s * ((SCALE as int) - cfg.target_retention) * (SCALE as int)) / (cfg.target_retention
        * cfg.decay_factor)
}

/// The reviewed state assembled from a new stability and difficulty: the
/// interval and due date are derived here, the count and review time are
/// taken as given.
pub open spec fn spec_reviewed_from(
    s: int,
    d: int,
    count: int,
    now: int,
    cfg: SchedulerConfig,
) -> ReviewedMemory {
    let raw = spec_interval_raw(s, cfg);
    let days = spec_round_days(raw);
    ReviewedMemory {
        stability: s as u64,
        difficulty: d as u64,
        interval_raw: raw as u64,
        interval_days: days as u32,
        due_date: (now + days * (SECONDS_PER_DAY as int)) as u64,
        review_count: count as u32,
        last_reviewed_at: now as u64,
    }
}

/// The state after a first review: stability and difficulty come from the
/// per-grade initialization tables.
pub open spec fn spec_init(grade: ReviewGrade, now: int, cfg: SchedulerConfig) -> ReviewedMemory {
    spec_reviewed_from(
        spec_first_stability(cfg, grade),
        spec_first_difficulty(cfg, grade),
        1,
        now,
        cfg,
    )
}

/// The state after a repeat review: recall probability at the elapsed time,
/// the difficulty update, then the lapse or success stability formula.
pub open spec fn spec_next_reviewed(
    m: ReviewedMemory,
    grade: ReviewGrade,
    now: int,
    cfg: SchedulerConfig,
) -> ReviewedMemory {
    let e = spec_elapsed(now, m.last_reviewed_at as int);
    let r = spec_recall(e, m.stability as int, cfg.decay_factor as int);
    let d_next = spec_next_difficulty(m.difficulty as int, grade, cfg);
    let s_next = if grade is Again {
        spec_stability_after_lapse(m.stability as int, d_next, r, cfg)
    } else {
        spec_stability_after_success(m.stability as int, d_next, r, grade, cfg)
    };
    spec_reviewed_from(s_next, d_next, m.review_count + 1, now, cfg)
}

/// The full update: a first review initializes from the tables, a repeat
/// review evolves the parameters; the result is always a reviewed state.
pub open spec fn spec_update(
    state: MemoryState,
    grade: ReviewGrade,
    now: int,
    cfg: SchedulerConfig,
) -> MemoryState {
    match state {
        MemoryState::New => MemoryState::Reviewed(spec_init(grade, now, cfg)),
        MemoryState::Reviewed(m) => MemoryState::Reviewed(spec_next_reviewed(m, grade, now, cfg)),
    }
}

/// Elapsed time is non-negative and bounded whenever both timestamps are.
pub proof fn lemma_elapsed_bounds(now: int, last: int)
    requires
        0 <= now <= TIMESTAMP_MAX,
        0 <= last <= TIMESTAMP_MAX,
    ensures
        0 <= spec_elapsed(now, last) <= ELAPSED_MAX,
{
    if now >= last {
        let diff = (now - last) * (SCALE as int);
        assert(diff <= (TIMESTAMP_MAX as int) * (SCALE as int));
        lemma_div_pos_is_pos(diff, SECONDS_PER_DAY as int);
        lemma_div_is_ordered(diff, (TIMESTAMP_MAX as int) * (SCALE as int), SECONDS_PER_DAY as int);
    }
}

/// The mean reversion keeps difficulty within the scale, and moves it only
/// toward the baseline.
proof fn lemma_revert_difficulty_bounds(d: int, cfg: SchedulerConfig)
    requires
        cfg.wf(),
        DIFFICULTY_MIN <= d <= DIFFICULTY_MAX,
    ensures
        DIFFICULTY_MIN <= spec_revert_difficulty(d, cfg) <= DIFFICULTY_MAX,
{
    let rev = cfg.difficulty_reversion as int;
    if d >= cfg.difficulty_baseline {
        let gap = d - cfg.difficulty_baseline;
        lemma_div_pos_is_pos(gap, rev);
        lemma_div_nonincreasing(gap, rev);
    } else {
        let gap = cfg.difficulty_baseline - d;
        lemma_div_pos_is_pos(gap, rev);
        lemma_div_nonincreasing(gap, rev);
    }
}

/// The updated difficulty always lies on the scale.
pub proof fn lemma_next_difficulty_range(d: int, grade: ReviewGrade, cfg: SchedulerConfig)
    requires
        cfg.wf(),
        DIFFICULTY_MIN <= d <= DIFFICULTY_MAX,
    ensures
        DIFFICULTY_MIN <= spec_next_difficulty(d, grade, cfg) <= DIFFICULTY_MAX,
{
}

/// A higher grade never yields a higher updated difficulty.
proof fn lemma_next_difficulty_antitone(
    d: int,
    g1: ReviewGrade,
    g2: ReviewGrade,
    cfg: SchedulerConfig,
)
    requires
        cfg.wf(),
        g1.rank() <= g2.rank(),
    ensures
        spec_next_difficulty(d, g2, cfg) <= spec_next_difficulty(d, g1, cfg),
{
}

/// Bounds of the lapse formula: the result stays within the stability range
/// and never exceeds the stability it shrinks; the shrink factor itself
/// never exceeds the lapse weight.
pub proof fn lemma_lapse_bounds(s: int, d_next: int, r: int, cfg: SchedulerConfig)
    requires
        cfg.wf(),
        STABILITY_MIN <= s <= STABILITY_MAX,
        DIFFICULTY_MIN <= d_next <= DIFFICULTY_MAX,
        0 <= r <= SCALE,
    ensures
        STABILITY_MIN <= spec_stability_after_lapse(s, d_next, r, cfg) <= s,
        0 <= (cfg.lapse_weight * r * d_next) / ((SCALE as int) * (DIFFICULTY_MAX as int))
            <= cfg.lapse_weight,
{
    let w = cfg.lapse_weight as int;
    let denom = (SCALE as int) * (DIFFICULTY_MAX as int);
    let shrink = (w * r * d_next) / denom;
    assert(0 <= w * r * d_next <= w * denom) by (nonlinear_arith)
        requires
            0 <= w,
            0 <= r <= SCALE,
            0 <= d_next <= DIFFICULTY_MAX,
            denom == (SCALE as int) * (DIFFICULTY_MAX as int),
    ;
    lemma_div_pos_is_pos(w * r * d_next, denom);
    lemma_div_is_ordered(w * r * d_next, w * denom, denom);
    lemma_div_multiples_vanish(w, denom);
    assert(w * denom == denom * w) by (nonlinear_arith);
    assert(shrink <= w);
    let keep = (SCALE as int) - shrink;
    assert(1 <= keep <= SCALE);
    let reduced = (s * keep) / (SCALE as int);
    assert(0 <= s * keep <= s * (SCALE as int)) by (nonlinear_arith)
        requires
            0 <= s,
            0 <= keep <= SCALE,
    ;
    lemma_div_pos_is_pos(s * keep, SCALE as int);
    lemma_div_is_ordered(s * keep, s * (SCALE as int), SCALE as int);
    lemma_div_multiples_vanish(s, SCALE as int);
    assert(s * (SCALE as int) == (SCALE as int) * s) by (nonlinear_arith);
    assert(reduced <= s);
}

/// Bounds of the success formula: the gain is at least one unit and small
/// enough for machine arithmetic, and the result stays within the stability
/// range, strictly growing unless already at the ceiling.
pub proof fn lemma_success_bounds(
    s: int,
    d_next: int,
    r: int,
    grade: ReviewGrade,
    cfg: SchedulerConfig,
)
    requires
        cfg.wf(),
        grade.rank() >= 1,
        STABILITY_MIN <= s <= STABILITY_MAX,
        DIFFICULTY_MIN <= d_next <= DIFFICULTY_MAX,
        0 <= r <= SCALE,
    ensures
        1 <= spec_success_gain(s, d_next, r, grade, cfg) <= 220_000,
        s <= spec_stability_after_success(s, d_next, r, grade, cfg) <= STABILITY_MAX,
        s < STABILITY_MAX ==> s < spec_stability_after_success(s, d_next, r, grade, cfg),
{
    let w = spec_success_weight(cfg, grade);
    let headroom = (DIFFICULTY_CEIL as int) - d_next;
    let decayed = 2 * (SCALE as int) - r;
    let numerator = w * headroom * decayed;
    assert(0 <= numerator <= 220_000 * ((SCALE as int) * (SCALE as int))) by (nonlinear_arith)
        requires
            numerator == w * headroom * decayed,
            0 <= w <= 10_000,
            0 <= headroom <= DIFFICULTY_CEIL,
            0 <= decayed <= 2 * (SCALE as int),
    ;
    let base = numerator / ((SCALE as int) * (SCALE as int));
    lemma_div_pos_is_pos(numerator, (SCALE as int) * (SCALE as int));
    lemma_div_is_ordered(
        numerator,
        220_000 * ((SCALE as int) * (SCALE as int)),
        (SCALE as int) * (SCALE as int),
    );
    lemma_div_multiples_vanish(220_000, (SCALE as int) * (SCALE as int));
    assert(220_000 * ((SCALE as int) * (SCALE as int)) == ((SCALE as int) * (SCALE as int))
        * 220_000) by (nonlinear_arith);
    let damped = (base * (SUCCESS_DAMPING as int)) / ((SUCCESS_DAMPING as int) + s);
    assert(0 <= base * (SUCCESS_DAMPING as int)) by (nonlinear_arith)
        requires
            0 <= base,
    ;
    lemma_div_pos_is_pos(base * (SUCCESS_DAMPING as int), (SUCCESS_DAMPING as int) + s);
    lemma_div_is_ordered_by_denominator(
        base * (SUCCESS_DAMPING as int),
        SUCCESS_DAMPING as int,
        (SUCCESS_DAMPING as int) + s,
    );
    lemma_div_multiples_vanish(base, SUCCESS_DAMPING as int);
    assert(base * (SUCCESS_DAMPING as int) == (SUCCESS_DAMPING as int) * base)
        by (nonlinear_arith);
    assert(damped <= base);
}

/// Bounds of the unrounded interval: non-negative, and within the range the
/// rounded interval and due date arithmetic rely on.
pub proof fn lemma_interval_raw_bounds(s: int, cfg: SchedulerConfig)
    requires
        cfg.wf(),
        0 <= s <= STABILITY_MAX,
    ensures
        0 <= spec_interval_raw(s, cfg) <= INTERVAL_RAW_MAX,
{
    let retained = (SCALE as int) - cfg.target_retention;
    let numerator = s * retained * (SCALE as int);
    let denom = cfg.target_retention * cfg.decay_factor;
    assert(0 <= numerator <= (STABILITY_MAX as int) * (SCALE as int) * (SCALE as int))
        by (nonlinear_arith)
        requires
            numerator == s * retained * (SCALE as int),
            0 <= s <= STABILITY_MAX,
            0 < retained <= SCALE,
    ;
    assert(denom >= SCALE);
    lemma_div_pos_is_pos(numerator, denom);
    lemma_div_is_ordered_by_denominator(numerator, SCALE as int, denom);
    lemma_div_is_ordered(
        numerator,
        (STABILITY_MAX as int) * (SCALE as int) * (SCALE as int),
        SCALE as int,
    );
    assert((STABILITY_MAX as int) * (SCALE as int) * (SCALE as int) / (SCALE as int)
        == (STABILITY_MAX as int) * (SCALE as int)) by {
        lemma_div_multiples_vanish((STABILITY_MAX as int) * (SCALE as int), SCALE as int);
        assert((STABILITY_MAX as int) * (SCALE as int) * (SCALE as int) == (SCALE as int) * ((
        STABILITY_MAX as int) * (SCALE as int))) by (nonlinear_arith);
    }
}

/// The assembled reviewed state satisfies the reviewed-state invariant and
/// carries exactly the given parameters.
pub proof fn lemma_reviewed_from_wf(s: int, d: int, count: int, now: int, cfg: SchedulerConfig)
    requires
        cfg.wf(),
        STABILITY_MIN <= s <= STABILITY_MAX,
        DIFFICULTY_MIN <= d <= DIFFICULTY_MAX,
        1 <= count <= u32::MAX,
        0 <= now <= TIMESTAMP_MAX,
    ensures
        spec_reviewed_from(s, d, count, now, cfg).wf(),
        spec_reviewed_from(s, d, count, now, cfg).stability == s,
        spec_reviewed_from(s, d, count, now, cfg).difficulty == d,
        spec_reviewed_from(s, d, count, now, cfg).review_count == count,
        spec_reviewed_from(s, d, count, now, cfg).last_reviewed_at == now,
        spec_reviewed_from(s, d, count, now, cfg).interval_days >= 1,
        spec_reviewed_from(s, d, count, now, cfg).due_date == now + spec_reviewed_from(
            s,
            d,
            count,
            now,
            cfg,
        ).interval_days * (SECONDS_PER_DAY as int),
{
    lemma_interval_raw_bounds(s, cfg);
    let raw = spec_interval_raw(s, cfg);
    let days = spec_round_days(raw);
    lemma_div_pos_is_pos(raw + (SCALE as int) / 2, SCALE as int);
    lemma_div_is_ordered(
        raw + (SCALE as int) / 2,
        (INTERVAL_RAW_MAX as int) + (SCALE as int) / 2,
        SCALE as int,
    );
    assert(1 <= days <= ((INTERVAL_RAW_MAX as int) + (SCALE as int) / 2) / (SCALE as int));
}

/// With the grade order respected by the weights and shifts, a higher grade
/// never yields a smaller success result.
proof fn lemma_success_monotone(
    s: int,
    d1: int,
    d2: int,
    r: int,
    g1: ReviewGrade,
    g2: ReviewGrade,
    cfg: SchedulerConfig,
)
    requires
        cfg.wf(),
        1 <= g1.rank() <= g2.rank(),
        STABILITY_MIN <= s <= STABILITY_MAX,
        DIFFICULTY_MIN <= d2 <= d1 <= DIFFICULTY_MAX,
        0 <= r <= SCALE,
    ensures
        spec_stability_after_success(s, d1, r, g1, cfg) <= spec_stability_after_success(
            s,
            d2,
            r,
            g2,
            cfg,
        ),
{
    let w1 = spec_success_weight(cfg, g1);
    let w2 = spec_success_weight(cfg, g2);
    assert(1 <= w1 <= w2);
    let h1 = (DIFFICULTY_CEIL as int) - d1;
    let h2 = (DIFFICULTY_CEIL as int) - d2;
    let decayed = 2 * (SCALE as int) - r;
    let n1 = w1 * h1 * decayed;
    let n2 = w2 * h2 * decayed;
    assert(0 <= n1 <= n2) by (nonlinear_arith)
        requires
            n1 == w1 * h1 * decayed,
            n2 == w2 * h2 * decayed,
            0 <= w1 <= w2,
            0 <= h1 <= h2,
            0 <= decayed,
    ;
    lemma_div_is_ordered(n1, n2, (SCALE as int) * (SCALE as int));
    lemma_div_pos_is_pos(n1, (SCALE as int) * (SCALE as int));
    let b1 = n1 / ((SCALE as int) * (SCALE as int));
    let b2 = n2 / ((SCALE as int) * (SCALE as int));
    assert(0 <= b1 * (SUCCESS_DAMPING as int) <= b2 * (SUCCESS_DAMPING as int))
        by (nonlinear_arith)
        requires
            0 <= b1 <= b2,
    ;
    lemma_div_is_ordered(
        b1 * (SUCCESS_DAMPING as int),
        b2 * (SUCCESS_DAMPING as int),
        (SUCCESS_DAMPING as int) + s,
    );
}

/// Elapsed time between the last review and now, in milli-days.
pub fn elapsed_millidays(now: u64, last: u64) -> (e: u64)
    requires
        now <= TIMESTAMP_MAX,
        last <= TIMESTAMP_MAX,
    ensures
        e == spec_elapsed(now as int, last as int),
        e <= ELAPSED_MAX,
{
    proof {
        lemma_elapsed_bounds(now as int, last as int);
    }
    if now >= last {
        (now - last) * SCALE / SECONDS_PER_DAY
    } else {
        0
    }
}

/// The difficulty after a repeat review: mean-revert, shift by grade, clamp.
fn next_difficulty(d: u64, grade: ReviewGrade, cfg: &SchedulerConfig) -> (d_next: u64)
    requires
        cfg.wf(),
        DIFFICULTY_MIN <= d <= DIFFICULTY_MAX,
    ensures
        d_next == spec_next_difficulty(d as int, grade, *cfg),
        DIFFICULTY_MIN <= d_next <= DIFFICULTY_MAX,
{
    proof {
        lemma_revert_difficulty_bounds(d as int, *cfg);
        if d >= cfg.difficulty_baseline {
            lemma_div_pos_is_pos((d - cfg.difficulty_baseline) as int,
                cfg.difficulty_reversion as int);
            lemma_div_nonincreasing((d - cfg.difficulty_baseline) as int,
                cfg.difficulty_reversion as int);
        } else {
            lemma_div_pos_is_pos((cfg.difficulty_baseline - d) as int,
                cfg.difficulty_reversion as int);
            lemma_div_nonincreasing((cfg.difficulty_baseline - d) as int,
                cfg.difficulty_reversion as int);
        }
    }
    let reverted: u64 = if d >= cfg.difficulty_baseline {
        d - (d - cfg.difficulty_baseline) / cfg.difficulty_reversion
    } else {
        d + (cfg.difficulty_baseline - d) / cfg.difficulty_reversion
    };
    let shift: i64 = match grade {
        ReviewGrade::Again => cfg.difficulty_shift_again,
        ReviewGrade::Hard => cfg.difficulty_shift_hard,
        ReviewGrade::Good => cfg.difficulty_shift_good,
        ReviewGrade::Easy => cfg.difficulty_shift_easy,
    };
    let shifted: u64 = if shift >= 0 {
        reverted + (shift as u64)
    } else {
        let magnitude = (-shift) as u64;
        if magnitude >= reverted {
            0
        } else {
            reverted - magnitude
        }
    };
    if shifted < DIFFICULTY_MIN {
        DIFFICULTY_MIN
    } else if shifted > DIFFICULTY_MAX {
        DIFFICULTY_MAX
    } else {
        shifted
    }
}

/// The stability after a lapse.
fn stability_after_lapse(s: u64, d_next: u64, r: u64, cfg: &SchedulerConfig) -> (s_next: u64)
    requires
        cfg.wf(),
        STABILITY_MIN <= s <= STABILITY_MAX,
        DIFFICULTY_MIN <= d_next <= DIFFICULTY_MAX,
        r <= SCALE,
    ensures
        s_next == spec_stability_after_lapse(s as int, d_next as int, r as int, *cfg),
        STABILITY_MIN <= s_next <= s,
{
    proof {
        lemma_lapse_bounds(s as int, d_next as int, r as int, *cfg);
        assert(cfg.lapse_weight * r <= 1000 * (SCALE as int)) by (nonlinear_arith)
            requires
                cfg.lapse_weight <= 1000,
                r <= SCALE,
        ;
        assert(cfg.lapse_weight * r * d_next <= 1000 * (SCALE as int) * (DIFFICULTY_MAX as int))
            by (nonlinear_arith)
            requires
                0 <= cfg.lapse_weight * r <= 1000 * (SCALE as int),
                0 <= d_next <= DIFFICULTY_MAX,
        ;
    }
    let shrink: u64 = cfg.lapse_weight * r * d_next / (SCALE * DIFFICULTY_MAX);
    proof {
        assert(s * (SCALE - shrink) <= (STABILITY_MAX as int) * (SCALE as int))
            by (nonlinear_arith)
            requires
                s <= STABILITY_MAX,
                SCALE - shrink <= SCALE,
                0 <= shrink,
        ;
    }
    let reduced: u64 = s * (SCALE - shrink) / SCALE;
    if reduced < STABILITY_MIN {
        STABILITY_MIN
    } else {
        reduced
    }
}

/// The stability after a successful review.
fn stability_after_success(
    s: u64,
    d_next: u64,
    r: u64,
    grade: ReviewGrade,
    cfg: &SchedulerConfig,
) -> (s_next: u64)
    requires
        cfg.wf(),
        grade.rank() >= 1,
        STABILITY_MIN <= s <= STABILITY_MAX,
        DIFFICULTY_MIN <= d_next <= DIFFICULTY_MAX,
        r <= SCALE,
    ensures
        s_next == spec_stability_after_success(s as int, d_next as int, r as int, grade, *cfg),
        s <= s_next <= STABILITY_MAX,
{
    proof {
        lemma_success_bounds(s as int, d_next as int, r as int, grade, *cfg);
    }
    let weight: u64 = match grade {
        ReviewGrade::Again => 0,
        ReviewGrade::Hard => cfg.success_weight_hard,
        ReviewGrade::Good => cfg.success_weight_good,
        ReviewGrade::Easy => cfg.success_weight_easy,
    };
    proof {
        assert(weight * (DIFFICULTY_CEIL - d_next) * (2 * (SCALE as int) - r) <= 10_000 * (
        DIFFICULTY_CEIL as int) * (2 * (SCALE as int))) by (nonlinear_arith)
            requires
                0 <= weight <= 10_000,
                0 <= DIFFICULTY_CEIL - d_next <= DIFFICULTY_CEIL,
                0 <= 2 * (SCALE as int) - r <= 2 * (SCALE as int),
        ;
        assert(weight * (DIFFICULTY_CEIL - d_next) <= 10_000 * (DIFFICULTY_CEIL as int))
            by (nonlinear_arith)
            requires
                0 <= weight <= 10_000,
                0 <= DIFFICULTY_CEIL - d_next <= DIFFICULTY_CEIL,
        ;
    }
    let base: u64 = weight * (DIFFICULTY_CEIL - d_next) * (2 * SCALE - r) / (SCALE * SCALE);
    let damped: u64 = base * SUCCESS_DAMPING / (SUCCESS_DAMPING + s);
    let gain: u64 = if damped < 1 {
        1
    } else {
        damped
    };
    if s + gain > STABILITY_MAX {
        STABILITY_MAX
    } else {
        s + gain
    }
}

/// A reviewed state assembled from a new stability and difficulty: derives
/// the interval aimed at the target retention and the due date from it.
fn make_reviewed(s: u64, d: u64, count: u32, now: u64, cfg: &SchedulerConfig) -> (m:
    ReviewedMemory)
    requires
        cfg.wf(),
        STABILITY_MIN <= s <= STABILITY_MAX,
        DIFFICULTY_MIN <= d <= DIFFICULTY_MAX,
        1 <= count,
        now <= TIMESTAMP_MAX,
    ensures
        m == spec_reviewed_from(s as int, d as int, count as int, now as int, *cfg),
        m.wf(),
{
    proof {
        lemma_reviewed_from_wf(s as int, d as int, count as int, now as int, *cfg);
        lemma_interval_raw_bounds(s as int, *cfg);
        assert(s * (SCALE - cfg.target_retention) <= (STABILITY_MAX as int) * (SCALE as int))
            by (nonlinear_arith)
            requires
                s <= STABILITY_MAX,
                0 <= SCALE - cfg.target_retention <= SCALE,
        ;
        assert(s * (SCALE - cfg.target_retention) * SCALE <= (STABILITY_MAX as int) * (
        SCALE as int) * (SCALE as int)) by (nonlinear_arith)
            requires
                0 <= s * (SCALE - cfg.target_retention) <= (STABILITY_MAX as int) * (SCALE as int),
        ;
        assert(cfg.target_retention * cfg.decay_factor <= (SCALE as int) * 100_000)
            by (nonlinear_arith)
            requires
                cfg.target_retention <= SCALE,
                cfg.decay_factor <= 100_000,
        ;
    }
    let raw: u64 = s * (SCALE - cfg.target_retention) * SCALE / (cfg.target_retention
        * cfg.decay_factor);
    let rounded: u64 = (raw + SCALE / 2) / SCALE;
    let days_wide: u64 = if rounded < 1 {
        1
    } else {
        rounded
    };
    proof {
        lemma_div_is_ordered(
            raw + (SCALE as int) / 2,
            (INTERVAL_RAW_MAX as int) + (SCALE as int) / 2,
            SCALE as int,
        );
    }
    let days: u32 = days_wide as u32;
    ReviewedMemory {
        stability: s,
        difficulty: d,
        interval_raw: raw,
        interval_days: days,
        due_date: now + (days as u64) * SECONDS_PER_DAY,
        review_count: count,
        last_reviewed_at: now,
    }
}

/// The update algorithm: the next memory state after reviewing a card in
/// the given state with the given grade at the given time. Total and
/// deterministic over its documented domain; the result is always a
/// well-formed reviewed state.
pub fn update(state: &MemoryState, grade: ReviewGrade, now: u64, cfg: &SchedulerConfig) -> (next:
    MemoryState)
    requires
        cfg.wf(),
        state.wf(),
        now <= TIMESTAMP_MAX,
        state matches MemoryState::Reviewed(m) ==> m.review_count < u32::MAX,
    ensures
        next == spec_update(*state, grade, now as int, *cfg),
        next.wf(),
        next is Reviewed,
{
    match state {
        MemoryState::New => {
            let s0: u64 = match grade {
                ReviewGrade::Again => cfg.first_stability_again,
                ReviewGrade::Hard => cfg.first_stability_hard,
                ReviewGrade::Good => cfg.first_stability_good,
                ReviewGrade::Easy => cfg.first_stability_easy,
            };
            let d0: u64 = match grade {
                ReviewGrade::Again => cfg.first_difficulty_again,
                ReviewGrade::Hard => cfg.first_difficulty_hard,
                ReviewGrade::Good => cfg.first_difficulty_good,
                ReviewGrade::Easy => cfg.first_difficulty_easy,
            };
            MemoryState::Reviewed(make_reviewed(s0, d0, 1, now, cfg))
        },
        MemoryState::Reviewed(m) => {
            let elapsed = elapsed_millidays(now, m.last_reviewed_at);
            let r = recall(elapsed, m.stability, cfg);
            proof {
                lemma_recall_in_range(
                    elapsed as int,
                    m.stability as int,
                    cfg.decay_factor as int,
                );
            }
            let d_next = next_difficulty(m.difficulty, grade, cfg);
            let s_next: u64 = match grade {
                ReviewGrade::Again => stability_after_lapse(m.stability, d_next, r, cfg),
                _ => stability_after_success(m.stability, d_next, r, grade, cfg),
            };
            MemoryState::Reviewed(make_reviewed(s_next, d_next, m.review_count + 1, now, cfg))
        },
    }
}

/// Whether a memory state satisfies the memory-state invariant; decides at
/// run time exactly what `MemoryState::wf` states.
pub fn check_state(state: &MemoryState) -> (ok: bool)
    ensures
        ok == state.wf(),
{
    match state {
        MemoryState::New => true,
        MemoryState::Reviewed(m) => {
            if !(STABILITY_MIN <= m.stability && m.stability <= STABILITY_MAX) {
                return false;
            }
            if !(DIFFICULTY_MIN <= m.difficulty && m.difficulty <= DIFFICULTY_MAX) {
                return false;
            }
            if m.interval_raw > INTERVAL_RAW_MAX {
                return false;
            }
            if m.review_count < 1 {
                return false;
            }
            if m.last_reviewed_at > TIMESTAMP_MAX {
                return false;
            }
            let rounded: u64 = (m.interval_raw + SCALE / 2) / SCALE;
            let days: u64 = if rounded < 1 {
                1
            } else {
                rounded
            };
            if (m.interval_days as u64) != days {
                return false;
            }
            proof {
                lemma_div_pos_is_pos(m.interval_raw + (SCALE as int) / 2, SCALE as int);
                lemma_div_is_ordered(
                    m.interval_raw + (SCALE as int) / 2,
                    (INTERVAL_RAW_MAX as int) + (SCALE as int) / 2,
                    SCALE as int,
                );
            }
            m.due_date == m.last_reviewed_at + (m.interval_days as u64) * SECONDS_PER_DAY
        },
    }
}

/// The checked entry to the update algorithm: rejects, instead of assuming
/// away, a state or timestamp outside the documented domain. Out-of-domain
/// numeric state is a programming error and is reported, never silently
/// corrected.
pub fn try_update(
    state: &MemoryState,
    grade: ReviewGrade,
    now: u64,
    cfg: &SchedulerConfig,
) -> (res: Result<MemoryState, ScheduleError>)
    requires
        cfg.wf(),
    ensures
        res matches Ok(next) ==> {
            &&& state.wf()
            &&& now <= TIMESTAMP_MAX
            &&& (state matches MemoryState::Reviewed(m) ==> m.review_count < u32::MAX)
            &&& next == spec_update(*state, grade, now as int, *cfg)
            &&& next.wf()
        },
        res matches Err(e) ==> {
            &&& e == ScheduleError::InvalidState
            &&& !({
                &&& state.wf()
                &&& now <= TIMESTAMP_MAX
                &&& (state matches MemoryState::Reviewed(m) ==> m.review_count < u32::MAX)
            })
        },
{
    if now > TIMESTAMP_MAX {
        return Err(ScheduleError::InvalidState);
    }
    if !check_state(state) {
        return Err(ScheduleError::InvalidState);
    }
    if let MemoryState::Reviewed(m) = state {
        if m.review_count == u32::MAX {
            return Err(ScheduleError::InvalidState);
        }
    }
    Ok(update(state, grade, now, cfg))
}

/// Law: a first review, whatever the grade, yields a reviewed state with
/// review count one, an interval of at least one day, the review time
/// recorded, and a due date exactly the review time plus the rounded
/// interval.
pub proof fn lemma_update_of_new(grade: ReviewGrade, now: int, cfg: SchedulerConfig)
    requires
        cfg.wf(),
        0 <= now <= TIMESTAMP_MAX,
    ensures
        spec_update(MemoryState::New, grade, now, cfg) is Reviewed,
        ({
            let m = spec_update(MemoryState::New, grade, now, cfg)->Reviewed_0;
            &&& m.wf()
            &&& m.review_count == 1
            &&& m.last_reviewed_at == now
            &&& m.interval_days >= 1
            &&& m.due_date == now + m.interval_days * (SECONDS_PER_DAY as int)
        }),
{
    lemma_reviewed_from_wf(
        spec_first_stability(cfg, grade),
        spec_first_difficulty(cfg, grade),
        1,
        now,
        cfg,
    );
}

/// Law: a repeat review, whatever the grade, increases the review count by
/// exactly one and records the review time, and the result is well-formed.
pub proof fn lemma_update_of_reviewed(
    m: ReviewedMemory,
    grade: ReviewGrade,
    now: int,
    cfg: SchedulerConfig,
)
    requires
        cfg.wf(),
        m.wf(),
        m.review_count < u32::MAX,
        0 <= now <= TIMESTAMP_MAX,
    ensures
        spec_update(MemoryState::Reviewed(m), grade, now, cfg) is Reviewed,
        ({
            let m2 = spec_update(MemoryState::Reviewed(m), grade, now, cfg)->Reviewed_0;
            &&& m2.wf()
            &&& m2.review_count == m.review_count + 1
            &&& m2.last_reviewed_at == now
        }),
{
    lemma_elapsed_bounds(now, m.last_reviewed_at as int);
    let e = spec_elapsed(now, m.last_reviewed_at as int);
    lemma_recall_in_range(e, m.stability as int, cfg.decay_factor as int);
    let r = spec_recall(e, m.stability as int, cfg.decay_factor as int);
    lemma_next_difficulty_range(m.difficulty as int, grade, cfg);
    let d_next = spec_next_difficulty(m.difficulty as int, grade, cfg);
    let s_next = if grade is Again {
        lemma_lapse_bounds(m.stability as int, d_next, r, cfg);
        spec_stability_after_lapse(m.stability as int, d_next, r, cfg)
    } else {
        lemma_success_bounds(m.stability as int, d_next, r, grade, cfg);
        spec_stability_after_success(m.stability as int, d_next, r, grade, cfg)
    };
    lemma_reviewed_from_wf(s_next, d_next, m.review_count + 1, now, cfg);
}

/// Law: holding the prior state and the review time fixed, a higher grade
/// never yields a smaller new stability — the grade order
/// `Again < Hard < Good < Easy` is respected by the update.
pub proof fn lemma_update_monotone_in_grade(
    state: MemoryState,
    g1: ReviewGrade,
    g2: ReviewGrade,
    now: int,
    cfg: SchedulerConfig,
)
    requires
        cfg.wf(),
        state.wf(),
        g1.rank() <= g2.rank(),
        0 <= now <= TIMESTAMP_MAX,
        state matches MemoryState::Reviewed(m) ==> m.review_count < u32::MAX,
    ensures
        spec_update(state, g1, now, cfg)->Reviewed_0.stability <= spec_update(
            state,
            g2,
            now,
            cfg,
        )->Reviewed_0.stability,
{
    match state {
        MemoryState::New => {
            lemma_reviewed_from_wf(
                spec_first_stability(cfg, g1),
                spec_first_difficulty(cfg, g1),
                1,
                now,
                cfg,
            );
            lemma_reviewed_from_wf(
                spec_first_stability(cfg, g2),
                spec_first_difficulty(cfg, g2),
                1,
                now,
                cfg,
            );
        },
        MemoryState::Reviewed(m) => {
            lemma_elapsed_bounds(now, m.last_reviewed_at as int);
            let e = spec_elapsed(now, m.last_reviewed_at as int);
            lemma_recall_in_range(e, m.stability as int, cfg.decay_factor as int);
            let r = spec_recall(e, m.stability as int, cfg.decay_factor as int);
            lemma_next_difficulty_range(m.difficulty as int, g1, cfg);
            lemma_next_difficulty_range(m.difficulty as int, g2, cfg);
            lemma_next_difficulty_antitone(m.difficulty as int, g1, g2, cfg);
            let d1 = spec_next_difficulty(m.difficulty as int, g1, cfg);
            let d2 = spec_next_difficulty(m.difficulty as int, g2, cfg);
            let s = m.stability as int;
            if !(g1 is Again) {
                lemma_success_monotone(s, d1, d2, r, g1, g2, cfg);
            }
            let s1 = if g1 is Again {
                lemma_lapse_bounds(s, d1, r, cfg);
                spec_stability_after_lapse(s, d1, r, cfg)
            } else {
                lemma_success_bounds(s, d1, r, g1, cfg);
                spec_stability_after_success(s, d1, r, g1, cfg)
            };
            let s2 = if g2 is Again {
                lemma_lapse_bounds(s, d2, r, cfg);
                spec_stability_after_lapse(s, d2, r, cfg)
            } else {
                lemma_success_bounds(s, d2, r, g2, cfg);
                spec_stability_after_success(s, d2, r, g2, cfg)
            };
            lemma_reviewed_from_wf(s1, d1, m.review_count + 1, now, cfg);
            lemma_reviewed_from_wf(s2, d2, m.review_count + 1, now, cfg);
        },
    }
}

} // verus!
