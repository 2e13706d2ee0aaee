use repeat_core::config::{SchedulerConfig, SCALE, STABILITY_MAX, SECONDS_PER_DAY};
use repeat_core::memory::{recall, MemoryState, ReviewGrade, ReviewedMemory};
use repeat_core::scheduler::{update, try_update, check_state, elapsed_millidays};
use repeat_core::errors::ScheduleError;

fn reviewed(state: &MemoryState) -> ReviewedMemory {
    match state {
        MemoryState::Reviewed(m) => *m,
        MemoryState::New => panic!("expected a reviewed state"),
    }
}

#[test]
fn recall_at_zero_elapsed_is_one() {
    let cfg = SchedulerConfig::recommended();
    for stability in [1u64, 400, 1_000, 2_400, 36_500_000] {
        assert_eq!(recall(0, stability, &cfg), SCALE);
    }
}

#[test]
fn recall_exact_value_after_nine_days() {
    let cfg = SchedulerConfig::recommended();
    // stability 1.0 day, elapsed 9 days: 1000*1000 / (1000 + 111*9000/1000) = 1000000/1999
    assert_eq!(recall(9_000, 1_000, &cfg), 500);
}

#[test]
fn recall_is_antitone_in_elapsed_and_monotone_in_stability() {
    let cfg = SchedulerConfig::recommended();
    let mut previous = SCALE;
    for elapsed in [0u64, 500, 1_000, 5_000, 50_000, 500_000] {
        let r = recall(elapsed, 2_400, &cfg);
        assert!(r <= previous);
        assert!(r <= SCALE);
        previous = r;
    }
    let mut lower = 0;
    for stability in [1u64, 100, 1_000, 10_000, 100_000] {
        let r = recall(10_000, stability, &cfg);
        assert!(r >= lower);
        lower = r;
    }
}

#[test]
fn update_of_new_yields_first_review() {
    let cfg = SchedulerConfig::recommended();
    let t = 1_700_000_000u64;
    for grade in [ReviewGrade::Again, ReviewGrade::Hard, ReviewGrade::Good, ReviewGrade::Easy] {
        let next = update(&MemoryState::New, grade, t, &cfg);
        let m = reviewed(&next);
        assert_eq!(m.review_count, 1);
        assert_eq!(m.last_reviewed_at, t);
        assert!(m.interval_days >= 1);
        assert_eq!(m.due_date, t + (m.interval_days as u64) * SECONDS_PER_DAY);
    }
}

#[test]
fn update_of_new_good_exact_values() {
    let cfg = SchedulerConfig::recommended();
    let next = update(&MemoryState::New, ReviewGrade::Good, 0, &cfg);
    let m = reviewed(&next);
    assert_eq!(m.stability, 2_400);
    assert_eq!(m.difficulty, 5_000);
    // 2400 * (1000-900) * 1000 / (900 * 111) = 240000000 / 99900 = 2402
    assert_eq!(m.interval_raw, 2_402);
    assert_eq!(m.interval_days, 2);
    assert_eq!(m.due_date, 2 * SECONDS_PER_DAY);
}

#[test]
fn update_of_reviewed_good_exact_values() {
    let cfg = SchedulerConfig::recommended();
    let first = update(&MemoryState::New, ReviewGrade::Good, 0, &cfg);
    let now = 2 * SECONDS_PER_DAY;
    let second = update(&first, ReviewGrade::Good, now, &cfg);
    let m = reviewed(&second);
    // elapsed = 2 days = 2000 milli-days; recall = 2400000/2622 = 915
    // difficulty: baseline reversion is neutral at 5000, shift -200 -> 4800
    assert_eq!(m.difficulty, 4_800);
    // success: base = 1000*(11000-4800)*(2000-915)/1000000 = 6727
    // damped = 6727*10000000/10002400 = 6725; stability = 2400+6725
    assert_eq!(m.stability, 9_125);
    // interval_raw = 9125*100*1000/99900 = 9134; days = (9134+500)/1000 = 9
    assert_eq!(m.interval_raw, 9_134);
    assert_eq!(m.interval_days, 9);
    assert_eq!(m.due_date, now + 9 * SECONDS_PER_DAY);
    assert_eq!(m.review_count, 2);
    assert_eq!(m.last_reviewed_at, now);
}

#[test]
fn repeat_update_increments_count_and_sets_review_time() {
    let cfg = SchedulerConfig::recommended();
    let mut state = update(&MemoryState::New, ReviewGrade::Hard, 1_000, &cfg);
    for step in 2u32..6 {
        let now = 1_000 + (step as u64) * 10 * SECONDS_PER_DAY;
        state = update(&state, ReviewGrade::Good, now, &cfg);
        let m = reviewed(&state);
        assert_eq!(m.review_count, step);
        assert_eq!(m.last_reviewed_at, now);
    }
}

#[test]
fn higher_grade_never_yields_smaller_stability() {
    let cfg = SchedulerConfig::recommended();
    let grades = [ReviewGrade::Again, ReviewGrade::Hard, ReviewGrade::Good, ReviewGrade::Easy];
    // from a first review
    let firsts: Vec<u64> = grades
        .iter()
        .map(|g| reviewed(&update(&MemoryState::New, *g, 0, &cfg)).stability)
        .collect();
    assert!(firsts.windows(2).all(|w| w[0] <= w[1]));
    // from a repeat review, elapsed time and prior state held fixed
    let prior = update(&MemoryState::New, ReviewGrade::Good, 0, &cfg);
    let now = 3 * SECONDS_PER_DAY;
    let repeats: Vec<u64> = grades
        .iter()
        .map(|g| reviewed(&update(&prior, *g, now, &cfg)).stability)
        .collect();
    assert!(repeats.windows(2).all(|w| w[0] <= w[1]));
    // a lapse shrinks, a success grows
    let base = reviewed(&prior).stability;
    assert!(repeats[0] <= base);
    assert!(repeats[1] > base);
}

#[test]
fn lapse_shrinks_more_when_recall_was_high() {
    let cfg = SchedulerConfig::recommended();
    let prior = update(&MemoryState::New, ReviewGrade::Good, 0, &cfg);
    // lapse right away (recall high) vs. lapse after 30 days (recall low)
    let soon = reviewed(&update(&prior, ReviewGrade::Again, 1, &cfg)).stability;
    let late = reviewed(&update(&prior, ReviewGrade::Again, 30 * SECONDS_PER_DAY, &cfg)).stability;
    assert!(soon <= late);
}

#[test]
fn stability_is_capped() {
    let cfg = SchedulerConfig::recommended();
    let mut state = MemoryState::Reviewed(reviewed(&update(&MemoryState::New, ReviewGrade::Easy, 0, &cfg)));
    // reviewing Easy at huge spacing many times cannot push stability past the cap
    for step in 1u64..200 {
        let now = step * 300 * SECONDS_PER_DAY;
        state = update(&state, ReviewGrade::Easy, now, &cfg);
        assert!(reviewed(&state).stability <= STABILITY_MAX);
    }
}

#[test]
fn elapsed_is_zero_for_future_last_review() {
    assert_eq!(elapsed_millidays(100, 200), 0);
    assert_eq!(elapsed_millidays(SECONDS_PER_DAY, 0), 1_000);
}

#[test]
fn try_update_rejects_invalid_state() {
    let cfg = SchedulerConfig::recommended();
    let bad = MemoryState::Reviewed(ReviewedMemory {
        stability: 0, // below the stability floor
        difficulty: 5_000,
        interval_raw: 1_000,
        interval_days: 1,
        due_date: SECONDS_PER_DAY,
        review_count: 1,
        last_reviewed_at: 0,
    });
    assert!(!check_state(&bad));
    assert_eq!(try_update(&bad, ReviewGrade::Good, 10, &cfg), Err(ScheduleError::InvalidState));
}

#[test]
fn try_update_accepts_valid_state() {
    let cfg = SchedulerConfig::recommended();
    let state = update(&MemoryState::New, ReviewGrade::Good, 0, &cfg);
    assert!(check_state(&state));
    let again = try_update(&state, ReviewGrade::Good, SECONDS_PER_DAY, &cfg).unwrap();
    assert_eq!(again, update(&state, ReviewGrade::Good, SECONDS_PER_DAY, &cfg));
}
