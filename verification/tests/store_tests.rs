use repeat_core::config::{SchedulerConfig, SECONDS_PER_DAY};
use repeat_core::memory::{MemoryState, ReviewGrade};
use repeat_core::scheduler::update;
use repeat_core::cards::{Card, CardType, KnownCards};
use repeat_core::store::CardStore;
use repeat_core::errors::StoreError;

fn card(identity: u64) -> Card {
    Card { identity, card_type: CardType::Basic, origin: 1 }
}

fn known_of(identities: &[u64]) -> KnownCards {
    let mut known = KnownCards::new();
    for id in identities {
        assert!(known.add(card(*id)));
    }
    known
}

#[test]
fn ensure_registers_a_new_row() {
    let mut store = CardStore::new();
    assert!(!store.card_exists(7));
    store.ensure(7, 100);
    assert!(store.card_exists(7));
    assert_eq!(store.len(), 1);
    assert_eq!(store.get(7), Ok(MemoryState::New));
}

#[test]
fn ensure_twice_leaves_one_row_with_unchanged_added_at() {
    let mut store = CardStore::new();
    store.ensure(7, 100);
    store.ensure(7, 999);
    assert_eq!(store.len(), 1);
    let rows = store.scan_all();
    assert_eq!(rows.len(), 1);
    assert_eq!(rows[0].identity, 7);
    assert_eq!(rows[0].added_at, 100);
    assert_eq!(rows[0].state, MemoryState::New);
}

#[test]
fn ensure_batch_registers_missing_rows_only() {
    let mut store = CardStore::new();
    store.ensure(2, 50);
    store.ensure_batch(&vec![1, 2, 3, 1], 60);
    assert_eq!(store.len(), 3);
    let rows = store.scan_all();
    let added: Vec<(u64, u64)> = rows.iter().map(|r| (r.identity, r.added_at)).collect();
    assert_eq!(added, vec![(2, 50), (1, 60), (3, 60)]);
}

#[test]
fn get_unregistered_identity_is_not_found() {
    let store = CardStore::new();
    assert_eq!(store.get(5), Err(StoreError::NotFound));
}

#[test]
fn apply_update_persists_and_reports_match() {
    let cfg = SchedulerConfig::recommended();
    let mut store = CardStore::new();
    store.ensure(5, 10);
    let state = update(&MemoryState::New, ReviewGrade::Good, 20, &cfg);
    assert!(store.apply_update(5, state));
    assert_eq!(store.get(5), Ok(state));
    // unknown identity: no match, store unchanged
    assert!(!store.apply_update(6, state));
    assert_eq!(store.len(), 1);
}

#[test]
fn scan_due_reports_new_and_overdue_rows_once() {
    let cfg = SchedulerConfig::recommended();
    let mut store = CardStore::new();
    store.ensure(1, 0);
    store.ensure(2, 0);
    store.ensure(3, 0);
    // review card 2 at t=0; its due date moves into the future
    let state = update(&MemoryState::New, ReviewGrade::Good, 0, &cfg);
    assert!(store.apply_update(2, state));
    let due_now = store.scan_due(0);
    assert_eq!(due_now, vec![(1, 0), (3, 0)]);
    // once the due date arrives the card is due again, with its count
    let later = store.scan_due(30 * SECONDS_PER_DAY);
    assert_eq!(later, vec![(1, 0), (2, 1), (3, 0)]);
}

#[test]
fn select_due_respects_card_limit() {
    let mut store = CardStore::new();
    store.ensure_batch(&vec![1, 2, 3, 4, 5], 0);
    let known = known_of(&[1, 2, 3, 4, 5]);
    let session = store.select_due(&known, Some(3), None, 0);
    assert_eq!(session.len(), 3);
    let none_at_all = store.select_due(&known, Some(0), None, 0);
    assert!(none_at_all.is_empty());
}

#[test]
fn select_due_respects_new_card_limit() {
    let cfg = SchedulerConfig::recommended();
    let mut store = CardStore::new();
    store.ensure_batch(&vec![1, 2, 3, 4], 0);
    // card 1 reviewed long ago: due but not new
    let state = update(&MemoryState::New, ReviewGrade::Good, 0, &cfg);
    assert!(store.apply_update(1, state));
    let known = known_of(&[1, 2, 3, 4]);
    let as_of = 30 * SECONDS_PER_DAY;
    let session = store.select_due(&known, None, Some(1), as_of);
    // scanning in store order: card 1 (not new), card 2 (new, reaches the limit)
    let ids: Vec<u64> = session.iter().map(|c| c.identity).collect();
    assert_eq!(ids, vec![1, 2]);
    // a new-card limit of zero stops the session before anything is collected
    assert!(store.select_due(&known, None, Some(0), as_of).is_empty());
}

#[test]
fn select_due_skips_stale_rows_and_empty_known_set() {
    let mut store = CardStore::new();
    store.ensure_batch(&vec![1, 2, 3], 0);
    let known = known_of(&[2]);
    let session = store.select_due(&known, None, None, 0);
    let ids: Vec<u64> = session.iter().map(|c| c.identity).collect();
    assert_eq!(ids, vec![2]);
    let empty = KnownCards::new();
    assert!(store.select_due(&empty, None, None, 0).is_empty());
}

#[test]
fn known_cards_ignore_duplicate_identities() {
    let mut known = KnownCards::new();
    assert!(known.add(card(1)));
    assert!(!known.add(card(1)));
    assert_eq!(known.len(), 1);
    assert!(known.contains(1));
    assert!(!known.contains(2));
    assert_eq!(known.find(1), Some(card(1)));
    assert_eq!(known.find(2), None);
}

#[test]
fn end_to_end_session_shrinks_after_a_review() {
    let cfg = SchedulerConfig::recommended();
    let t = 1_700_000_000u64;
    let mut store = CardStore::new();
    let known = known_of(&[10, 20, 30]);
    store.ensure_batch(&vec![10, 20, 30], t);
    // with no prior rows all three known cards are due at the same instant
    let session = store.select_due(&known, None, None, t);
    assert_eq!(session.len(), 3);
    assert!(session.iter().all(|c| [10, 20, 30].contains(&c.identity)));
    // review one with Good: its new due date is in the future
    let current = store.get(20).unwrap();
    let next = update(&current, ReviewGrade::Good, t, &cfg);
    assert!(store.apply_update(20, next));
    let after = store.select_due(&known, None, None, t);
    let ids: Vec<u64> = after.iter().map(|c| c.identity).collect();
    assert_eq!(ids, vec![10, 30]);
}
