//! The card store: durable keyed storage from a card identity to its memory
//! state, with point lookups, idempotent registration, batch registration,
//! the due scan that feeds the session selector, and the full scan that
//! feeds statistics. Rows are created by registration, mutated only by a
//! review's update, and never deleted: a row whose identity is no longer
//! known is inert but kept.

use vstd::prelude::*;
use crate::memory::MemoryState;
use crate::errors::StoreError;

verus! {

/// The persisted form of one card: the identity, the registration time
/// (set once, immutable), and the memory state.
#[derive(Clone, Copy, Debug, PartialEq, Eq, Structural)]
pub struct StoredCardRow {
    pub identity: u64,
    pub added_at: u64,
    pub state: MemoryState,
}

/// The row a registration inserts: a new, never-reviewed card.
pub open spec fn spec_new_row(identity: u64, now: u64) -> StoredCardRow {
    StoredCardRow { identity, added_at: now, state: MemoryState::New }
}

/// Whether some row carries the identity.
pub open spec fn spec_store_contains(rows: Seq<StoredCardRow>, identity: u64) -> bool {
    exists|i: int| 0 <= i < rows.len() && rows[i].identity == identity
}

/// The first row carrying the identity, if any.
pub open spec fn spec_store_find(rows: Seq<StoredCardRow>, identity: u64) -> Option<StoredCardRow>
    decreases rows.len(),
{
    if rows.len() == 0 {
        None
    } else if rows[0].identity == identity {
        Some(rows[0])
    } else {
        spec_store_find(rows.drop_first(), identity)
    }
}

/// A found row is a member of the sequence and carries the identity sought;
/// nothing is found exactly when no row carries the identity.
pub proof fn lemma_store_find_properties(rows: Seq<StoredCardRow>, identity: u64)
    ensures
        spec_store_find(rows, identity) is Some <==> spec_store_contains(rows, identity),
        spec_store_find(rows, identity) matches Some(r) ==> rows.contains(r) && r.identity
            == identity,
    decreases rows.len(),
{
    if rows.len() == 0 {
    } else if rows[0].identity == identity {
        assert(rows.contains(rows[0]));
    } else {
        lemma_store_find_properties(rows.drop_first(), identity);
        let rest = rows.drop_first();
        if spec_store_contains(rows, identity) {
            let i = choose|i: int| 0 <= i < rows.len() && rows[i].identity == identity;
            assert(rest[i - 1] == rows[i]);
        }
        if spec_store_find(rest, identity) is Some {
            let r = spec_store_find(rest, identity)->Some_0;
            let j = choose|j: int| 0 <= j < rest.len() && rest[j] == r;
            assert(rows[j + 1] == r);
            assert(rows.contains(r));
        }
        if spec_store_contains(rest, identity) {
            let i = choose|i: int| 0 <= i < rest.len() && rest[i].identity == identity;
            assert(rows[i + 1] == rest[i]);
        }
    }
}

/// Registration of one identity: insert a new row if the identity is absent,
/// leave the store unchanged if it is present.
pub open spec fn spec_ensure(rows: Seq<StoredCardRow>, identity: u64, now: u64) -> Seq<
    StoredCardRow,
> {
    if spec_store_contains(rows, identity) {
        rows
    } else {
        rows.push(spec_new_row(identity, now))
    }
}

/// Registration of a batch of identities, in order.
pub open spec fn spec_ensure_batch(rows: Seq<StoredCardRow>, identities: Seq<u64>, now: u64) -> Seq<
    StoredCardRow,
>
    decreases identities.len(),
{
    if identities.len() == 0 {
        rows
    } else {
        spec_ensure_batch(spec_ensure(rows, identities[0], now), identities.drop_first(), now)
    }
}

/// Registering a batch and then one more identity is registering the batch
/// extended by that identity.
pub proof fn lemma_ensure_batch_push(rows: Seq<StoredCardRow>, identities: Seq<u64>, extra: u64,
    now: u64)
    ensures
        spec_ensure_batch(rows, identities.push(extra), now) == spec_ensure(
            spec_ensure_batch(rows, identities, now),
            extra,
            now,
        ),
    decreases identities.len(),
{
    if identities.len() == 0 {
        assert(identities.push(extra)[0] == extra);
        assert(identities.push(extra).drop_first() =~= Seq::<u64>::empty());
        assert(spec_ensure_batch(spec_ensure(rows, extra, now), Seq::<u64>::empty(), now)
            == spec_ensure(rows, extra, now));
    } else {
        assert(identities.push(extra)[0] == identities[0]);
        assert(identities.push(extra).drop_first() =~= identities.drop_first().push(extra));
        lemma_ensure_batch_push(
            spec_ensure(rows, identities[0], now),
            identities.drop_first(),
            extra,
            now,
        );
    }
}

/// The state update of a review: every row carrying the identity takes the
/// new state; every other row is untouched.
pub open spec fn spec_apply_update(
    rows: Seq<StoredCardRow>,
    identity: u64,
    state: MemoryState,
) -> Seq<StoredCardRow> {
    Seq::new(
        rows.len(),
        |i: int|
            if rows[i].identity == identity {
                StoredCardRow { identity: rows[i].identity, added_at: rows[i].added_at, state }
            } else {
                rows[i]
            },
    )
}

/// Whether a row is due at the given instant: a never-reviewed row counts as
/// due, a reviewed one is due once its due date has arrived.
pub open spec fn spec_is_due(row: StoredCardRow, as_of: u64) -> bool {
    match row.state {
        MemoryState::New => true,
        MemoryState::Reviewed(m) => m.due_date <= as_of,
    }
}

/// The identities due at the given instant, each with its review count, in
/// store order.
pub open spec fn spec_scan_due(rows: Seq<StoredCardRow>, as_of: u64) -> Seq<(u64, u32)>
    decreases rows.len(),
{
    if rows.len() == 0 {
        Seq::empty()
    } else {
        let rest = spec_scan_due(rows.drop_first(), as_of);
        if spec_is_due(rows[0], as_of) {
            seq![(rows[0].identity, rows[0].state.spec_review_count() as u32)] + rest
        } else {
            rest
        }
    }
}

/// The card store.
pub struct CardStore {
    pub rows: Vec<StoredCardRow>,
}

impl View for CardStore {
    type V = Seq<StoredCardRow>;

    open spec fn view(&self) -> Seq<StoredCardRow> {
        self.rows@
    }
}

impl CardStore {
    /// The invariant of the store: registration is a set-membership
    /// operation, so identities are unique; and every held state is
    /// well-formed.
    pub open spec fn inv(&self) -> bool {
        &&& forall|i: int, j: int|
            0 <= i < j < self@.len() ==> self@[i].identity != self@[j].identity
        &&& forall|i: int| 0 <= i < self@.len() ==> (#[trigger] self@[i].state).wf()
    }

    /// An empty store.
    pub fn new() -> (res: CardStore)
        ensures
            res@ =~= Seq::<StoredCardRow>::empty(),
            res.inv(),
    {
        CardStore { rows: Vec::new() }
    }

    /// The number of rows ever registered.
    pub fn len(&self) -> (n: usize)
        ensures
            n == self@.len(),
    {
        self.rows.len()
    }

    /// The first row carrying the identity, if any.
    fn find_row(&self, identity: u64) -> (res: Option<StoredCardRow>)
        ensures
            res == spec_store_find(self@, identity),
    {
        let n = self.rows.len();
        let mut i: usize = 0;
        proof {
            assert(self@.skip(0) =~= self@);
        }
        while i < n
            invariant
                n == self@.len(),
                i <= n,
                spec_store_find(self@, identity) == spec_store_find(
                    self@.skip(i as int),
                    identity,
                ),
            decreases n - i,
        {
            proof {
                assert(self@.skip(i as int)[0] == self@[i as int]);
            }
            if self.rows[i].identity == identity {
                return Some(self.rows[i]);
            }
            proof {
                assert(self@.skip(i as int).drop_first() =~= self@.skip(i as int + 1));
            }
            i = i + 1;
        }
        proof {
            assert(self@.skip(i as int) =~= Seq::<StoredCardRow>::empty());
        }
        None
    }

    /// Whether the identity has ever been registered.
    pub fn card_exists(&self, identity: u64) -> (res: bool)
        ensures
            res == spec_store_contains(self@, identity),
    {
        proof {
            lemma_store_find_properties(self@, identity);
        }
        match self.find_row(identity) {
            Some(_) => true,
            None => false,
        }
    }

    /// Register one identity: insert a new row if absent, do nothing if
    /// present. Calling it again with the same identity leaves the store,
    /// including the registration time of the existing row, unchanged.
    pub fn ensure(&mut self, identity: u64, now: u64)
        requires
            old(self).inv(),
        ensures
            final(self).inv(),
            final(self)@ == spec_ensure(old(self)@, identity, now),
            spec_store_contains(final(self)@, identity),
    {
        proof {
            lemma_store_find_properties(self@, identity);
        }
        let exists_already = self.card_exists(identity);
        if !exists_already {
            let ghost before = self@;
            self.rows.push(StoredCardRow { identity, added_at: now, state: MemoryState::New });
            proof {
                assert(self@[before.len() as int].identity == identity);
                assert forall|i: int, j: int|
                    0 <= i < j < self@.len() implies self@[i].identity != self@[j].identity by {
                    if j < before.len() {
                        assert(before[i].identity != before[j].identity);
                    } else {
                        assert(self@[j].identity == identity);
                        assert(!spec_store_contains(before, identity));
                    }
                }
            }
        }
    }

    /// Register every identity of a batch, in order; identities already
    /// present are left untouched. The store is in memory, so the batch
    /// takes effect as a unit: no failure can apply it partially.
    pub fn ensure_batch(&mut self, identities: &Vec<u64>, now: u64)
        requires
            old(self).inv(),
        ensures
            final(self).inv(),
            final(self)@ == spec_ensure_batch(old(self)@, identities@, now),
    {
        let n = identities.len();
        let mut i: usize = 0;
        proof {
            assert(identities@.take(0) =~= Seq::<u64>::empty());
        }
        while i < n
            invariant
                self.inv(),
                n == identities@.len(),
                i <= n,
                self@ == spec_ensure_batch(old(self)@, identities@.take(i as int), now),
            decreases n - i,
        {
            self.ensure(identities[i], now);
            proof {
                assert(identities@.take(i as int).push(identities@[i as int]) =~= identities@.take(
                    i as int + 1,
                ));
                lemma_ensure_batch_push(old(self)@, identities@.take(i as int), identities@[i as int], now);
            }
            i = i + 1;
        }
        proof {
            assert(identities@.take(n as int) =~= identities@);
        }
    }

    /// Point lookup of the memory state of an identity; fails with
    /// `NotFound` exactly when the identity has never been registered.
    pub fn get(&self, identity: u64) -> (res: Result<MemoryState, StoreError>)
        requires
            self.inv(),
        ensures
            res matches Ok(state) ==> spec_store_find(self@, identity) matches Some(row)
                && row.state == state && state.wf(),
            res matches Err(e) ==> e == StoreError::NotFound && !spec_store_contains(
                self@,
                identity,
            ),
            res is Ok <==> spec_store_contains(self@, identity),
    {
        proof {
            lemma_store_find_properties(self@, identity);
        }
        match self.find_row(identity) {
            Some(row) => {
                proof {
                    let r = spec_store_find(self@, identity)->Some_0;
                    let j = choose|j: int| 0 <= j < self@.len() && self@[j] == r;
                    assert(self@[j].state.wf());
                }
                Ok(row.state)
            },
            None => Err(StoreError::NotFound),
        }
    }

    /// Persist the state a review produced. Returns whether a row was
    /// matched and updated; an unknown identity is reported as no match and
    /// leaves the store unchanged.
    pub fn apply_update(&mut self, identity: u64, state: MemoryState) -> (matched: bool)
        requires
            old(self).inv(),
            state is Reviewed,
            state.wf(),
        ensures
            final(self).inv(),
            final(self)@ == spec_apply_update(old(self)@, identity, state),
            matched == spec_store_contains(old(self)@, identity),
    {
        let n = self.rows.len();
        let mut i: usize = 0;
        let mut matched = false;
        proof {
            assert(self@ =~= spec_apply_update(old(self)@, identity, state).take(0).add(
                old(self)@.skip(0),
            ));
        }
        while i < n
            invariant
                n == old(self)@.len(),
                self@.len() == n,
                i <= n,
                self@ =~= spec_apply_update(old(self)@, identity, state).take(i as int).add(
                    old(self)@.skip(i as int),
                ),
                matched == exists|k: int|
                    0 <= k < i && old(self)@[k].identity == identity,
                forall|k: int| 0 <= k < n ==> old(self)@[k].state.wf(),
                forall|k1: int, k2: int|
                    0 <= k1 < k2 < n ==> old(self)@[k1].identity != old(self)@[k2].identity,
                state.wf(),
            decreases n - i,
        {
            proof {
                assert(self@[i as int] == old(self)@[i as int]);
            }
            if self.rows[i].identity == identity {
                let added_at = self.rows[i].added_at;
                self.rows.set(i, StoredCardRow { identity, added_at, state });
                matched = true;
            }
            proof {
                assert(self@ =~= spec_apply_update(old(self)@, identity, state).take(
                    i as int + 1,
                ).add(old(self)@.skip(i as int + 1)));
            }
            i = i + 1;
        }
        proof {
            assert(self@ =~= spec_apply_update(old(self)@, identity, state));
            assert forall|i1: int, j1: int|
                0 <= i1 < j1 < self@.len() implies self@[i1].identity != self@[j1].identity by {
                assert(self@[i1].identity == old(self)@[i1].identity);
                assert(self@[j1].identity == old(self)@[j1].identity);
            }
        }
        matched
    }

    /// Every identity due at the given instant (a never-reviewed row counts
    /// as due), each with its review count, each at most once, in store
    /// order.
    pub fn scan_due(&self, as_of: u64) -> (res: Vec<(u64, u32)>)
        requires
            self.inv(),
        ensures
            res@ == spec_scan_due(self@, as_of),
    {
        let n = self.rows.len();
        let mut out: Vec<(u64, u32)> = Vec::new();
        let mut i: usize = 0;
        proof {
            assert(self@.skip(0) =~= self@);
        }
        while i < n
            invariant
                n == self@.len(),
                i <= n,
                spec_scan_due(self@, as_of) == out@ + spec_scan_due(self@.skip(i as int), as_of),
            decreases n - i,
        {
            let ghost prev = out@;
            let ghost suffix = self@.skip(i as int);
            proof {
                assert(suffix[0] == self@[i as int]);
                assert(suffix.drop_first() =~= self@.skip(i as int + 1));
            }
            let row = self.rows[i];
            let due = match row.state {
                MemoryState::New => true,
                MemoryState::Reviewed(m) => m.due_date <= as_of,
            };
            let count: u32 = match row.state {
                MemoryState::New => 0,
                MemoryState::Reviewed(m) => m.review_count,
            };
            if due {
                out.push((row.identity, count));
                proof {
                    assert(spec_scan_due(suffix, as_of) == seq![(row.identity, count)]
                        + spec_scan_due(self@.skip(i as int + 1), as_of));
                    assert(prev + (seq![(row.identity, count)] + spec_scan_due(
                        self@.skip(i as int + 1),
                        as_of,
                    )) =~= out@ + spec_scan_due(self@.skip(i as int + 1), as_of));
                }
            }
            i = i + 1;
        }
        proof {
            assert(self@.skip(n as int) =~= Seq::<StoredCardRow>::empty());
            assert(out@ + spec_scan_due(self@.skip(n as int), as_of) =~= out@);
        }
        out
    }

    /// Every row of the store, for statistics.
    pub fn scan_all(&self) -> (res: &Vec<StoredCardRow>)
        ensures
            res@ == self@,
    {
        &self.rows
    }
}

/// Law: registration is idempotent — registering an identity a second time,
/// at any later instant, leaves the store exactly as the first registration
/// left it, the registration time of the row included.
pub proof fn lemma_ensure_idempotent(
    rows: Seq<StoredCardRow>,
    identity: u64,
    t1: u64,
    t2: u64,
)
    ensures
        spec_ensure(spec_ensure(rows, identity, t1), identity, t2) == spec_ensure(
            rows,
            identity,
            t1,
        ),
        spec_store_contains(spec_ensure(rows, identity, t1), identity),
        !spec_store_contains(rows, identity) ==> spec_store_find(
            spec_ensure(rows, identity, t1),
            identity,
        ) == Some(spec_new_row(identity, t1)),
{
    let once = spec_ensure(rows, identity, t1);
    if spec_store_contains(rows, identity) {
    } else {
        assert(once[rows.len() as int].identity == identity);
        assert(spec_store_contains(once, identity));
        lemma_find_after_push(rows, spec_new_row(identity, t1));
    }
}

/// Pushing a row whose identity is absent makes it the row found under that
/// identity.
proof fn lemma_find_after_push(rows: Seq<StoredCardRow>, row: StoredCardRow)
    requires
        !spec_store_contains(rows, row.identity),
    ensures
        spec_store_find(rows.push(row), row.identity) == Some(row),
    decreases rows.len(),
{
    if rows.len() == 0 {
        assert(rows.push(row)[0] == row);
    } else {
        assert(rows.push(row)[0] == rows[0]);
        assert(rows[0].identity != row.identity) by {
            assert(0 <= 0 < rows.len());
        }
        let rest = rows.drop_first();
        assert(!spec_store_contains(rest, row.identity)) by {
            if spec_store_contains(rest, row.identity) {
                let i = choose|i: int|
                    0 <= i < rest.len() && rest[i].identity == row.identity;
                assert(rows[i + 1] == rest[i]);
            }
        }
        lemma_find_after_push(rest, row);
        assert(rows.push(row).drop_first() =~= rest.push(row));
    }
}

} // verus!
