use repeat_core::config::{SchedulerConfig, SECONDS_PER_DAY};
use repeat_core::memory::{MemoryState, ReviewGrade};
use repeat_core::scheduler::update;
use repeat_core::cards::{Card, CardType, KnownCards};
use repeat_core::store::CardStore;
use repeat_core::stats::{aggregate, classify, CardLifeCycle, Histogram};

fn card(identity: u64, origin: u64) -> Card {
    Card { identity, card_type: CardType::Cloze, origin }
}

#[test]
fn histogram_boundary_value_lands_in_last_bucket() {
    let mut h: Histogram<5> = Histogram::new();
    h.update(1_000);
    assert_eq!(h.bins, vec![0, 0, 0, 0, 1]);
    assert_eq!(h.count, 1);
    assert_eq!(h.sum, 1_000);
}

#[test]
fn histogram_buckets_values_and_clamps() {
    let mut h: Histogram<5> = Histogram::new();
    h.update(0); // bucket 0
    h.update(199); // bucket 0
    h.update(200); // bucket 1
    h.update(999); // bucket 4
    h.update(5_000); // clamped to 1000, bucket 4
    assert_eq!(h.bins, vec![2, 1, 0, 0, 2]);
    assert_eq!(h.count, 5);
    assert_eq!(h.sum, 0 + 199 + 200 + 999 + 1_000);
}

#[test]
fn histogram_mean_is_exact() {
    let mut h: Histogram<5> = Histogram::new();
    h.update(200);
    h.update(600);
    assert_eq!(h.mean(), 400);
}

#[test]
fn lifecycle_classification() {
    let cfg = SchedulerConfig::recommended();
    assert_eq!(classify(&MemoryState::New, cfg.mature_threshold), CardLifeCycle::New);
    let young = update(&MemoryState::New, ReviewGrade::Good, 0, &cfg);
    assert_eq!(classify(&young, cfg.mature_threshold), CardLifeCycle::Young);
    // grow stability with well-spaced Easy reviews until the interval passes 21 days
    let mut state = young;
    for step in 1u64..10 {
        state = update(&state, ReviewGrade::Easy, step * 40 * SECONDS_PER_DAY, &cfg);
    }
    assert_eq!(classify(&state, cfg.mature_threshold), CardLifeCycle::Mature);
}

#[test]
fn aggregate_counts_lifecycles_due_buckets_and_origins() {
    let cfg = SchedulerConfig::recommended();
    let t = 1_700_000_000u64;
    let mut store = CardStore::new();
    let mut known = KnownCards::new();
    assert!(known.add(card(1, 100)));
    assert!(known.add(card(2, 100)));
    assert!(known.add(card(3, 200)));
    store.ensure_batch(&vec![1, 2, 3], t);
    // a stale row: registered but no longer known
    store.ensure(99, t);
    // card 2 reviewed Good at t: due in 2 days, young, within both windows
    let next = update(&store.get(2).unwrap(), ReviewGrade::Good, t, &cfg);
    assert!(store.apply_update(2, next));
    let stats = aggregate(&known, store.scan_all(), t, &cfg);
    assert_eq!(stats.total_rows, 4);
    assert_eq!(stats.num_cards, 3);
    assert_eq!(stats.new_count, 2);
    assert_eq!(stats.young_count, 1);
    assert_eq!(stats.mature_count, 0);
    // the two new cards are due now; the reviewed one is due in 2 days
    assert_eq!(stats.due_now, 2);
    let mut expected_week = vec![0u64; 8];
    expected_week[2] = 1;
    assert_eq!(stats.upcoming_week, expected_week);
    assert_eq!(stats.upcoming_month, 1);
    let mut origins = stats.origin_counts.clone();
    origins.sort();
    assert_eq!(origins, vec![(100, 2), (200, 1)]);
    // difficulty: two new rows feed 0, the reviewed row feeds 5000/10 = 500
    assert_eq!(stats.difficulty_histogram.bins, vec![2, 0, 1, 0, 0]);
    assert_eq!(stats.difficulty_histogram.count, 3);
    // retrievability: only the reviewed row feeds, at zero elapsed recall is 1
    assert_eq!(stats.retrievability_histogram.bins, vec![0, 0, 0, 0, 1]);
    assert_eq!(stats.retrievability_histogram.count, 1);
    assert_eq!(stats.retrievability_histogram.mean(), 1_000);
}

#[test]
fn aggregate_week_offset_depends_on_calendar_day() {
    let cfg = SchedulerConfig::recommended();
    // as_of late in a day: a review due 2 days later can span 3 calendar days
    let t = 10 * SECONDS_PER_DAY - 1;
    let mut store = CardStore::new();
    let mut known = KnownCards::new();
    assert!(known.add(card(1, 7)));
    store.ensure(1, t);
    let next = update(&MemoryState::New, ReviewGrade::Good, t, &cfg);
    assert!(store.apply_update(1, next));
    let stats = aggregate(&known, store.scan_all(), t, &cfg);
    // due at t + 2 days = day 11 (and a fraction): offset from day 9 is 2...
    let due_day = (t + 2 * SECONDS_PER_DAY) / SECONDS_PER_DAY;
    let as_of_day = t / SECONDS_PER_DAY;
    let offset = (due_day - as_of_day) as usize;
    let mut expected_week = vec![0u64; 8];
    expected_week[offset] = 1;
    assert_eq!(stats.upcoming_week, expected_week);
}

#[test]
fn aggregate_windows_exclude_far_future_due_dates() {
    let cfg = SchedulerConfig::recommended();
    let mut store = CardStore::new();
    let mut known = KnownCards::new();
    assert!(known.add(card(1, 7)));
    store.ensure(1, 0);
    // many well-spaced Easy reviews push the due date far past 30 days
    let mut state = update(&MemoryState::New, ReviewGrade::Easy, 0, &cfg);
    for step in 1u64..8 {
        state = update(&state, ReviewGrade::Easy, step * 50 * SECONDS_PER_DAY, &cfg);
    }
    assert!(store.apply_update(1, state));
    let as_of = 7 * 50 * SECONDS_PER_DAY + 1;
    let stats = aggregate(&known, store.scan_all(), as_of, &cfg);
    assert_eq!(stats.due_now, 0);
    assert_eq!(stats.upcoming_week, vec![0u64; 8]);
    assert_eq!(stats.upcoming_month, 0);
}

#[test]
fn aggregate_of_empty_known_set_counts_only_rows() {
    let cfg = SchedulerConfig::recommended();
    let mut store = CardStore::new();
    store.ensure_batch(&vec![1, 2], 0);
    let known = KnownCards::new();
    let stats = aggregate(&known, store.scan_all(), 0, &cfg);
    assert_eq!(stats.total_rows, 2);
    assert_eq!(stats.num_cards, 0);
    assert_eq!(stats.new_count, 0);
    assert_eq!(stats.due_now, 0);
    assert_eq!(stats.difficulty_histogram.count, 0);
}
