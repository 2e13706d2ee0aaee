//! The due-queue selector: turns the store's due rows and the known-card set
//! into a bounded study session. A due row whose identity is no longer known
//! is a stale row and is skipped; collection stops as soon as either the
//! total-card limit or the new-card limit is reached, whichever first; a
//! missing limit leaves that dimension unbounded. The scan follows the
//! store's natural enumeration order.

use vstd::prelude::*;
use crate::memory::MemoryState;
use crate::cards::{Card, KnownCards, spec_known_find, lemma_known_find_properties};
use crate::store::{CardStore, StoredCardRow, spec_is_due};

verus! {

/// Whether a limit has been reached by a count.
pub open spec fn spec_limit_reached(limit: Option<usize>, count: int) -> bool {
    match limit {
        Some(l) => count >= l,
        None => false,
    }
}

/// The session selected from the remaining rows, given how many cards and
/// how many new cards are already collected; each selected card is paired
/// with whether its row was new (never reviewed).
pub open spec fn spec_select_pairs(
    rows: Seq<StoredCardRow>,
    known: Seq<Card>,
    card_limit: Option<usize>,
    new_card_limit: Option<usize>,
    picked: int,
    picked_new: int,
    as_of: u64,
) -> Seq<(Card, bool)>
    decreases rows.len(),
{
    if rows.len() == 0 {
        Seq::empty()
    } else if spec_limit_reached(card_limit, picked) || spec_limit_reached(
        new_card_limit,
        picked_new,
    ) {
        Seq::empty()
    } else {
        let row = rows[0];
        if spec_is_due(row, as_of) && spec_known_find(known, row.identity) is Some {
            let card = spec_known_find(known, row.identity)->Some_0;
            let is_new = row.state is New;
            seq![(card, is_new)] + spec_select_pairs(
                rows.drop_first(),
                known,
                card_limit,
                new_card_limit,
                picked + 1,
                picked_new + if is_new { 1int } else { 0 },
                as_of,
            )
        } else {
            spec_select_pairs(
                rows.drop_first(),
                known,
                card_limit,
                new_card_limit,
                picked,
                picked_new,
                as_of,
            )
        }
    }
}

/// The number of new cards among the selected pairs.
pub open spec fn spec_count_new(pairs: Seq<(Card, bool)>) -> int
    decreases pairs.len(),
{
    if pairs.len() == 0 {
        0
    } else {
        (if pairs[0].1 { 1int } else { 0 }) + spec_count_new(pairs.drop_first())
    }
}

/// The study session selected from a store's rows at an instant.
pub open spec fn spec_select_due(
    rows: Seq<StoredCardRow>,
    known: Seq<Card>,
    card_limit: Option<usize>,
    new_card_limit: Option<usize>,
    as_of: u64,
) -> Seq<Card> {
    spec_select_pairs(rows, known, card_limit, new_card_limit, 0, 0, as_of).map_values(
        |p: (Card, bool)| p.0,
    )
}

/// Law (counts): the selection never collects more cards than the card limit
/// leaves open, nor more new cards than the new-card limit leaves open.
pub proof fn lemma_select_pairs_bounded(
    rows: Seq<StoredCardRow>,
    known: Seq<Card>,
    card_limit: Option<usize>,
    new_card_limit: Option<usize>,
    picked: int,
    picked_new: int,
    as_of: u64,
)
    ensures
        card_limit matches Some(l) ==> (picked <= l ==> spec_select_pairs(
            rows,
            known,
            card_limit,
            new_card_limit,
            picked,
            picked_new,
            as_of,
        ).len() + picked <= l),
        new_card_limit matches Some(l) ==> (picked_new <= l ==> spec_count_new(
            spec_select_pairs(
                rows,
                known,
                card_limit,
                new_card_limit,
                picked,
                picked_new,
                as_of,
            ),
        ) + picked_new <= l),
        0 <= spec_count_new(
            spec_select_pairs(rows, known, card_limit, new_card_limit, picked, picked_new, as_of),
        ),
    decreases rows.len(),
{
    let result = spec_select_pairs(rows, known, card_limit, new_card_limit, picked, picked_new,
        as_of);
    if rows.len() == 0 {
    } else if spec_limit_reached(card_limit, picked) || spec_limit_reached(
        new_card_limit,
        picked_new,
    ) {
    } else {
        let row = rows[0];
        if spec_is_due(row, as_of) && spec_known_find(known, row.identity) is Some {
            let is_new = row.state is New;
            let delta: int = if is_new { 1 } else { 0 };
            lemma_select_pairs_bounded(
                rows.drop_first(),
                known,
                card_limit,
                new_card_limit,
                picked + 1,
                picked_new + delta,
                as_of,
            );
            let rest = spec_select_pairs(
                rows.drop_first(),
                known,
                card_limit,
                new_card_limit,
                picked + 1,
                picked_new + delta,
                as_of,
            );
            let head = seq![(spec_known_find(known, row.identity)->Some_0, is_new)];
            assert((head + rest).drop_first() =~= rest);
        } else {
            lemma_select_pairs_bounded(
                rows.drop_first(),
                known,
                card_limit,
                new_card_limit,
                picked,
                picked_new,
                as_of,
            );
        }
    }
}

/// Law (membership): every selected card is a member of the known-card set —
/// a stale row never reaches the session. In particular, with an empty
/// known-card set the session is empty.
pub proof fn lemma_select_pairs_known(
    rows: Seq<StoredCardRow>,
    known: Seq<Card>,
    card_limit: Option<usize>,
    new_card_limit: Option<usize>,
    picked: int,
    picked_new: int,
    as_of: u64,
)
    ensures
        forall|k: int|
            0 <= k < spec_select_pairs(
                rows,
                known,
                card_limit,
                new_card_limit,
                picked,
                picked_new,
                as_of,
            ).len() ==> known.contains(
                #[trigger] spec_select_pairs(
                    rows,
                    known,
                    card_limit,
                    new_card_limit,
                    picked,
                    picked_new,
                    as_of,
                )[k].0,
            ),
    decreases rows.len(),
{
    let result = spec_select_pairs(rows, known, card_limit, new_card_limit, picked, picked_new,
        as_of);
    if rows.len() == 0 {
    } else if spec_limit_reached(card_limit, picked) || spec_limit_reached(
        new_card_limit,
        picked_new,
    ) {
    } else {
        let row = rows[0];
        lemma_known_find_properties(known, row.identity);
        if spec_is_due(row, as_of) && spec_known_find(known, row.identity) is Some {
            let is_new = row.state is New;
            let delta: int = if is_new { 1 } else { 0 };
            lemma_select_pairs_known(
                rows.drop_first(),
                known,
                card_limit,
                new_card_limit,
                picked + 1,
                picked_new + delta,
                as_of,
            );
            let rest = spec_select_pairs(
                rows.drop_first(),
                known,
                card_limit,
                new_card_limit,
                picked + 1,
                picked_new + delta,
                as_of,
            );
            assert forall|k: int| 0 <= k < result.len() implies known.contains(result[k].0) by {
                if k > 0 {
                    assert(result[k] == rest[k - 1]);
                }
            }
        } else {
            lemma_select_pairs_known(
                rows.drop_first(),
                known,
                card_limit,
                new_card_limit,
                picked,
                picked_new,
                as_of,
            );
            let rest = spec_select_pairs(
                rows.drop_first(),
                known,
                card_limit,
                new_card_limit,
                picked,
                picked_new,
                as_of,
            );
            assert(result == rest);
            assert forall|k: int| 0 <= k < result.len() implies known.contains(result[k].0) by {
                assert(result[k] == rest[k]);
            }
        }
    }
}

/// Law (limits, at the session level): with both limits set, the session
/// holds at most `card_limit` cards and at most `new_card_limit` of them are
/// new; with an empty known-card set the session is empty; every card of the
/// session belongs to the known-card set.
pub proof fn lemma_select_due_bounds(
    rows: Seq<StoredCardRow>,
    known: Seq<Card>,
    card_limit: Option<usize>,
    new_card_limit: Option<usize>,
    as_of: u64,
)
    ensures
        card_limit matches Some(l) ==> spec_select_due(
            rows,
            known,
            card_limit,
            new_card_limit,
            as_of,
        ).len() <= l,
        new_card_limit matches Some(l) ==> spec_count_new(
            spec_select_pairs(rows, known, card_limit, new_card_limit, 0, 0, as_of),
        ) <= l,
        known.len() == 0 ==> spec_select_due(rows, known, card_limit, new_card_limit, as_of).len()
            == 0,
        forall|k: int|
            0 <= k < spec_select_due(rows, known, card_limit, new_card_limit, as_of).len()
                ==> known.contains(
                #[trigger] spec_select_due(rows, known, card_limit, new_card_limit, as_of)[k],
            ),
{
    lemma_select_pairs_bounded(rows, known, card_limit, new_card_limit, 0, 0, as_of);
    lemma_select_pairs_known(rows, known, card_limit, new_card_limit, 0, 0, as_of);
    let pairs = spec_select_pairs(rows, known, card_limit, new_card_limit, 0, 0, as_of);
    let session = spec_select_due(rows, known, card_limit, new_card_limit, as_of);
    assert(session.len() == pairs.len());
    assert forall|k: int| 0 <= k < session.len() implies known.contains(session[k]) by {
        assert(session[k] == pairs[k].0);
    }
    if known.len() == 0 && session.len() > 0 {
        assert(known.contains(session[0]));
    }
}

impl CardStore {
    /// The bounded study session at an instant: scan the due rows in store
    /// order, skip identities no longer known, collect each remaining card,
    /// and stop as soon as either the total-card limit or the new-card limit
    /// is reached — whichever triggers first; a `None` limit is unbounded.
    pub fn select_due(
        &self,
        known: &KnownCards,
        card_limit: Option<usize>,
        new_card_limit: Option<usize>,
        as_of: u64,
    ) -> (session: Vec<Card>)
        requires
            self.inv(),
        ensures
            session@ == spec_select_due(self@, known@, card_limit, new_card_limit, as_of),
    {
        let n = self.rows.len();
        let mut out: Vec<Card> = Vec::new();
        let mut picked_new: usize = 0;
        let mut i: usize = 0;
        proof {
            assert(self@.skip(0) =~= self@);
            assert(spec_select_due(self@, known@, card_limit, new_card_limit, as_of)
                == spec_select_pairs(self@, known@, card_limit, new_card_limit, 0, 0, as_of)
                .map_values(|p: (Card, bool)| p.0));
        }
        while i < n
            invariant
                n == self@.len(),
                i <= n,
                picked_new <= out@.len() <= i,
                spec_select_due(self@, known@, card_limit, new_card_limit, as_of) == out@
                    + spec_select_pairs(
                    self@.skip(i as int),
                    known@,
                    card_limit,
                    new_card_limit,
                    out@.len() as int,
                    picked_new as int,
                    as_of,
                ).map_values(|p: (Card, bool)| p.0),
            ensures
                out@ == spec_select_due(self@, known@, card_limit, new_card_limit, as_of),
            decreases n - i,
        {
            let card_full = match card_limit {
                Some(l) => out.len() >= l,
                None => false,
            };
            let new_full = match new_card_limit {
                Some(l) => picked_new >= l,
                None => false,
            };
            if card_full || new_full {
                proof {
                    assert(spec_select_pairs(
                        self@.skip(i as int),
                        known@,
                        card_limit,
                        new_card_limit,
                        out@.len() as int,
                        picked_new as int,
                        as_of,
                    ) =~= Seq::<(Card, bool)>::empty());
                    assert(Seq::<(Card, bool)>::empty().map_values(|p: (Card, bool)| p.0) =~= Seq::<
                        Card,
                    >::empty());
                    assert(out@ + Seq::<Card>::empty() =~= out@);
                }
                break ;
            }
            let ghost suffix = self@.skip(i as int);
            proof {
                assert(suffix[0] == self@[i as int]);
                assert(suffix.drop_first() =~= self@.skip(i as int + 1));
            }
            let row = self.rows[i];
            let due = match row.state {
                MemoryState::New => true,
                MemoryState::Reviewed(m) => m.due_date <= as_of,
            };
            if due {
                let found = known.find(row.identity);
                if let Some(card) = found {
                    let ghost prev = out@;
                    let is_new = match row.state {
                        MemoryState::New => true,
                        MemoryState::Reviewed(_) => false,
                    };
                    out.push(card);
                    if is_new {
                        picked_new = picked_new + 1;
                    }
                    proof {
                        let rest = spec_select_pairs(
                            self@.skip(i as int + 1),
                            known@,
                            card_limit,
                            new_card_limit,
                            out@.len() as int,
                            picked_new as int,
                            as_of,
                        );
                        assert(spec_select_pairs(
                            suffix,
                            known@,
                            card_limit,
                            new_card_limit,
                            prev.len() as int,
                            (picked_new - if is_new { 1int } else { 0 }) as int,
                            as_of,
                        ) == seq![(card, is_new)] + rest);
                        assert((seq![(card, is_new)] + rest).map_values(|p: (Card, bool)| p.0)
                            =~= seq![card] + rest.map_values(|p: (Card, bool)| p.0));
                        assert(prev + (seq![card] + rest.map_values(|p: (Card, bool)| p.0)) =~= out@
                            + rest.map_values(|p: (Card, bool)| p.0));
                    }
                }
            }
            i = i + 1;
        }
        proof {
            if i == n {
                assert(self@.skip(n as int) =~= Seq::<StoredCardRow>::empty());
                assert(Seq::<(Card, bool)>::empty().map_values(|p: (Card, bool)| p.0) =~= Seq::<
                    Card,
                >::empty());
                assert(out@ + Seq::<Card>::empty() =~= out@);
            }
        }
        out
    }
}

} // verus!
