//! Cards and the known-card set: the universe of card identities currently
//! present in the user's source files, as opposed to every identity the
//! store has ever seen. Identity computation belongs to the external card
//! parser; here an identity is an opaque content-derived fingerprint and an
//! origin is an opaque identifier of the source file a card came from.

use vstd::prelude::*;

verus! {

/// The kind of a card, as authored.
#[derive(Clone, Copy, Debug, PartialEq, Eq, Structural)]
pub enum CardType {
    Basic,
    Cloze,
}

/// A card as the core sees it: its content-derived identity, its kind, and
/// the identifier of the source file it came from.
#[derive(Clone, Copy, Debug, PartialEq, Eq, Structural)]
pub struct Card {
    pub identity: u64,
    pub card_type: CardType,
    pub origin: u64,
}

/// Whether some card in the sequence carries the identity.
pub open spec fn spec_known_contains(cards: Seq<Card>, identity: u64) -> bool {
    exists|i: int| 0 <= i < cards.len() && cards[i].identity == identity
}

/// The first card in the sequence carrying the identity, if any.
pub open spec fn spec_known_find(cards: Seq<Card>, identity: u64) -> Option<Card>
    decreases cards.len(),
{
    if cards.len() == 0 {
        None
    } else if cards[0].identity == identity {
        Some(cards[0])
    } else {
        spec_known_find(cards.drop_first(), identity)
    }
}

/// A found card is a member of the sequence and carries the identity sought;
/// nothing is found exactly when no card carries the identity.
pub proof fn lemma_known_find_properties(cards: Seq<Card>, identity: u64)
    ensures
        spec_known_find(cards, identity) is Some <==> spec_known_contains(cards, identity),
        spec_known_find(cards, identity) matches Some(c) ==> cards.contains(c) && c.identity
            == identity,
    decreases cards.len(),
{
    if cards.len() == 0 {
    } else if cards[0].identity == identity {
        assert(cards.contains(cards[0]));
    } else {
        lemma_known_find_properties(cards.drop_first(), identity);
        let rest = cards.drop_first();
        if spec_known_contains(cards, identity) {
            let i = choose|i: int| 0 <= i < cards.len() && cards[i].identity == identity;
            assert(rest[i - 1] == cards[i]);
            assert(spec_known_contains(rest, identity));
        }
        if spec_known_find(rest, identity) is Some {
            let c = spec_known_find(rest, identity)->Some_0;
            let j = choose|j: int| 0 <= j < rest.len() && rest[j] == c;
            assert(cards[j + 1] == c);
            assert(cards.contains(c));
        }
        if spec_known_contains(rest, identity) {
            let i = choose|i: int| 0 <= i < rest.len() && rest[i].identity == identity;
            assert(cards[i + 1] == rest[i]);
            assert(spec_known_contains(cards, identity));
        }
    }
}

/// The known-card set: the mapping from identity to card rebuilt by scanning
/// the user's source files. The core never mutates the set's meaning, it only
/// reconciles the store against it.
pub struct KnownCards {
    pub cards: Vec<Card>,
}

impl View for KnownCards {
    type V = Seq<Card>;

    open spec fn view(&self) -> Seq<Card> {
        self.cards@
    }
}

impl KnownCards {
    /// The invariant of the set: identities are unique.
    pub open spec fn wf(&self) -> bool {
        forall|i: int, j: int|
            0 <= i < j < self@.len() ==> self@[i].identity != self@[j].identity
    }

    /// An empty known-card set.
    pub fn new() -> (res: KnownCards)
        ensures
            res@ =~= Seq::<Card>::empty(),
            res.wf(),
    {
        KnownCards { cards: Vec::new() }
    }

    /// The number of known cards.
    pub fn len(&self) -> (n: usize)
        ensures
            n == self@.len(),
    {
        self.cards.len()
    }

    /// Add a card; a card whose identity is already present is ignored, so
    /// re-scanning the same files twice builds the same set.
    pub fn add(&mut self, card: Card) -> (added: bool)
        requires
            old(self).wf(),
        ensures
            final(self).wf(),
            added == !spec_known_contains(old(self)@, card.identity),
            added ==> final(self)@ == old(self)@.push(card),
            !added ==> final(self)@ == old(self)@,
    {
        let existing = self.find(card.identity);
        proof {
            lemma_known_find_properties(self@, card.identity);
        }
        match existing {
            Some(_) => false,
            None => {
                self.cards.push(card);
                true
            },
        }
    }

    /// The known card carrying the identity, if any.
    pub fn find(&self, identity: u64) -> (res: Option<Card>)
        ensures
            res == spec_known_find(self@, identity),
    {
        let n = self.cards.len();
        let mut i: usize = 0;
        proof {
            assert(self@.skip(0) =~= self@);
        }
        while i < n
            invariant
                n == self@.len(),
                i <= n,
                spec_known_find(self@, identity) == spec_known_find(
                    self@.skip(i as int),
                    identity,
                ),
            decreases n - i,
        {
            proof {
                assert(self@.skip(i as int)[0] == self@[i as int]);
            }
            if self.cards[i].identity == identity {
                return Some(self.cards[i]);
            }
            proof {
                assert(self@.skip(i as int).drop_first() =~= self@.skip(i as int + 1));
            }
            i = i + 1;
        }
        proof {
            assert(self@.skip(i as int) =~= Seq::<Card>::empty());
        }
        None
    }

    /// Whether the identity is among the known cards.
    pub fn contains(&self, identity: u64) -> (res: bool)
        ensures
            res == spec_known_contains(self@, identity),
    {
        let found = self.find(identity);
        proof {
            lemma_known_find_properties(self@, identity);
        }
        match found {
            Some(_) => true,
            None => false,
        }
    }
}

} // verus!
