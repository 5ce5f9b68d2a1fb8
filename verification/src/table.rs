//! The table: the deck and the piles seeded from it.

use vstd::prelude::*;

use crate::cards::{distinct_cards, sorted_cards, MAX_CARD, PILE_COUNT};
use crate::deck::{dealt, lemma_dealt, undealt, Deck};
use crate::fairness::lemma_opened_fair;
use crate::pile::{seeded, table_wf, PileView, Piles};

verus! {

/// What a table is: the cards left in the deck and the piles.
pub struct TableView {
    pub deck: Seq<u8>,
    pub piles: Seq<PileView>,
}

impl TableView {
    /// The deck holds distinct cards and the piles are valid.
    pub open spec fn wf(self) -> bool {
        distinct_cards(self.deck) && table_wf(self.piles)
    }

    /// The table is the one opened from the given deck: the top cards of the
    /// deck seed the piles in order of value, the other cards are the deck.
    pub open spec fn opened_from(self, full: Seq<u8>) -> bool {
        &&& self.deck == undealt(full, PILE_COUNT as nat)
        &&& self.piles == seeded(sorted_cards(dealt(full, PILE_COUNT as nat)))
    }
}

/// A deck of distinct valid cards that holds as many cards as there are
/// valid ones, and so each of them.
pub open spec fn full_deck(deck: Seq<u8>) -> bool {
    distinct_cards(deck) && deck.len() == MAX_CARD
}

/// The deck and the piles of one session.
#[derive(Debug)]
pub struct Table {
    deck: Deck,
    piles: Piles,
}

impl View for Table {
    type V = TableView;

    closed spec fn view(&self) -> TableView {
        TableView { deck: self.deck@, piles: self.piles@ }
    }
}

impl Table {
    /// The table is valid.
    pub open spec fn wf(&self) -> bool {
        self@.wf()
    }

    /// A table opened from a fresh deck, whose order is left to chance.
    pub fn new() -> (table: Table)
        ensures
            table.wf(),
            table@.fair(),
            table@.deck.len() == MAX_CARD - PILE_COUNT,
            exists|full: Seq<u8>| full_deck(full) && #[trigger] table@.opened_from(full),
    {
        let mut deck = Deck::new();
        let ghost full = deck@;
        let piles = Piles::new(&mut deck);
        let table = Table { deck, piles };
        proof {
            lemma_dealt(full, PILE_COUNT as nat);
            lemma_opened_fair(table@, full);
            assert(full_deck(full) && table@.opened_from(full));
        }
        table
    }

    /// A table opened from the given deck, if the deck can seed the piles.
    pub fn with_deck(deck: Deck) -> (table: Option<Table>)
        requires
            deck.wf(),
        ensures
            match table {
                Some(table) => table.wf() && table@.fair() && table@.opened_from(deck@),
                None => deck@.len() < PILE_COUNT,
            },
    {
        if deck.len() < PILE_COUNT {
            return None;
        }
        let mut deck = deck;
        let ghost full = deck@;
        let piles = Piles::new(&mut deck);
        let table = Table { deck, piles };
        proof {
            lemma_dealt(full, PILE_COUNT as nat);
            lemma_opened_fair(table@, full);
        }
        Some(table)
    }

    /// The deck, to deal from.
    pub fn deck_mut(&mut self) -> (deck: &mut Deck)
        ensures
            deck@ == old(self)@.deck,
            final(self)@ == (TableView { deck: final(deck)@, piles: old(self)@.piles }),
    {
        &mut self.deck
    }

    /// The deck.
    pub fn deck(&self) -> (deck: &Deck)
        ensures
            deck@ == self@.deck,
    {
        &self.deck
    }

    /// The piles.
    pub fn piles(&self) -> (piles: &Piles)
        ensures
            piles@ == self@.piles,
    {
        &self.piles
    }

    /// The piles, to place cards on.
    pub fn piles_mut(&mut self) -> (piles: &mut Piles)
        ensures
            piles@ == old(self)@.piles,
            final(self)@ == (TableView { deck: old(self)@.deck, piles: final(piles)@ }),
    {
        &mut self.piles
    }
}

} // verus!
