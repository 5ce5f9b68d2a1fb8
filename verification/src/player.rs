//! Players, their identities, and the registry that holds them.

use std::collections::hash_map::DefaultHasher;
use std::hash::{Hash, Hasher};
use vstd::prelude::*;

use crate::cards::{
    ascending, copy_cards, holds_card, lemma_sorted_cards, lemma_without_card, remove_card,
    sorted_cards, without_card, HAND_SIZE,
};
use crate::deck::{dealt, lemma_dealt, undealt, Deck};

verus! {

/// Most players a table seats: the deck holds no more hands beside the piles.
pub const MAX_PLAYERS: usize = 10;

/// Most points one round can bring a player: a full pile of the dearest cards.
pub const MAX_GAIN: u16 = 30;

/// The number that the standard library's default hasher gives for a name.
pub uninterp spec fn name_digest(name: Seq<char>) -> u64;

/// The decimal digit for a number below ten.
pub open spec fn digit(d: nat) -> char {
    if d == 0 {
        '0'
    } else if d == 1 {
        '1'
    } else if d == 2 {
        '2'
    } else if d == 3 {
        '3'
    } else if d == 4 {
        '4'
    } else if d == 5 {
        '5'
    } else if d == 6 {
        '6'
    } else if d == 7 {
        '7'
    } else if d == 8 {
        '8'
    } else {
        '9'
    }
}

/// A number written in decimal digits, without sign or leading zeros.
pub open spec fn decimal(n: nat) -> Seq<char>
    decreases n,
{
    if n < 10 {
        seq![digit(n)]
    } else {
        decimal(n / 10).push(digit(n % 10))
    }
}

/// The identity of the player who joins under a name.
pub open spec fn identity_of(name: Seq<char>) -> Seq<char> {
    decimal(name_digest(name) as nat)
}

/// Feeds the name to a `std::collections::hash_map::DefaultHasher` made by
/// `new` and returns what `finish` gives. The standard library promises that
/// all hashers made by `new` are the same, and a string is hashed by its
/// characters, so the result depends on the characters of the name alone. It
/// does not promise the same numbers from one release of the library to the
/// next: identities are good for the life of a session, not for storage.
#[verifier::external_body]
fn digest_name(name: &String) -> (digest: u64)
    ensures
        digest == name_digest(name@),
{
    let mut hasher = DefaultHasher::new();
    name.hash(&mut hasher);
    hasher.finish()
}

/// Writes the number with `u64::to_string`, which gives its decimal digits,
/// without sign or leading zeros.
#[verifier::external_body]
fn decimal_text(n: u64) -> (text: String)
    ensures
        text@ == decimal(n as nat),
{
    n.to_string()
}

/// Compares two strings with `str::eq`, which holds when they are made of
/// the same characters.
#[verifier::external_body]
pub(crate) fn same_text(a: &str, b: &str) -> (same: bool)
    ensures
        same == (a@ == b@),
{
    a == b
}

/// Derives the identity under which a name is registered.
pub fn derive_identity(name: &String) -> (id: String)
    ensures
        id@ == identity_of(name@),
{
    decimal_text(digest_name(name))
}

/// What a player is: identity, display name, points and hand.
pub struct PlayerView {
    pub id: Seq<char>,
    pub name: Seq<char>,
    pub points: nat,
    pub hand: Seq<u8>,
}

impl PlayerView {
    /// The hand is ascending and no larger than a dealt hand, and the points
    /// do not exceed what the cards already played can have brought.
    pub open spec fn wf(self) -> bool {
        &&& ascending(self.hand)
        &&& self.hand.len() <= HAND_SIZE
        &&& self.points + MAX_GAIN * self.hand.len() <= MAX_GAIN * HAND_SIZE
    }

    /// The player as dealt in: a full hand and no points.
    pub open spec fn fresh(self) -> bool {
        self.hand.len() == HAND_SIZE && self.points == 0
    }

    /// The player after a card was played and `gain` points were taken.
    pub open spec fn settled(self, card: u8, gain: nat) -> PlayerView {
        PlayerView {
            id: self.id,
            name: self.name,
            points: self.points + gain,
            hand: without_card(self.hand, card),
        }
    }
}

/// The hand dealt from the top of a deck: its top cards in order of value.
pub open spec fn hand_from(deck: Seq<u8>) -> Seq<u8> {
    sorted_cards(dealt(deck, HAND_SIZE as nat))
}

/// The player who joins under a name with a hand from the top of the deck.
pub open spec fn newcomer(id: Seq<char>, name: Seq<char>, deck: Seq<u8>) -> PlayerView {
    PlayerView { id, name, points: 0, hand: hand_from(deck) }
}

/// A hand dealt from distinct cards is ascending and full, holds the top
/// cards of the deck, and shares no card with what is left of the deck.
pub proof fn lemma_hand_from(deck: Seq<u8>)
    requires
        crate::cards::distinct_cards(deck),
        deck.len() >= HAND_SIZE,
    ensures
        ascending(hand_from(deck)),
        hand_from(deck).len() == HAND_SIZE,
        forall|c: u8| #[trigger]
            hand_from(deck).contains(c) ==> deck.contains(c) && !undealt(
                deck,
                HAND_SIZE as nat,
            ).contains(c),
        forall|c: u8| #[trigger]
            hand_from(deck).contains(c) <==> dealt(deck, HAND_SIZE as nat).contains(c),
{
    let top = dealt(deck, HAND_SIZE as nat);
    lemma_dealt(deck, HAND_SIZE as nat);
    lemma_sorted_cards(top);
    assert forall|c: u8| #[trigger] hand_from(deck).contains(c) implies deck.contains(c)
        && !undealt(deck, HAND_SIZE as nat).contains(c) by {
        assert(top.contains(c));
    }
}

/// A player at the table.
#[derive(Debug, Clone)]
pub struct Player {
    id: String,
    name: String,
    points: u16,
    hand: Vec<u8>,
}

impl View for Player {
    type V = PlayerView;

    closed spec fn view(&self) -> PlayerView {
        PlayerView { id: self.id@, name: self.name@, points: self.points as nat, hand: self.hand@ }
    }
}

impl Player {
    /// A player with no points and a hand dealt from the deck.
    pub fn new(id: String, name: String, deck: &mut Deck) -> (player: Player)
        requires
            old(deck)@.len() >= HAND_SIZE,
        ensures
            player@ == newcomer(id@, name@, old(deck)@),
            final(deck)@ == undealt(old(deck)@, HAND_SIZE as nat),
    {
        let hand = deck.deal_sorted(HAND_SIZE);
        Player { id, name, points: 0, hand }
    }

    /// The identity of the player.
    pub fn id(&self) -> (id: &String)
        ensures
            id@ == self@.id,
    {
        &self.id
    }

    /// The display name of the player.
    pub fn name(&self) -> (name: &String)
        ensures
            name@ == self@.name,
    {
        &self.name
    }

    /// The points of the player.
    pub fn points(&self) -> (points: u16)
        ensures
            points == self@.points,
    {
        self.points
    }

    /// The cards the player holds, in order of value.
    pub fn hand(&self) -> (hand: &Vec<u8>)
        ensures
            hand@ == self@.hand,
    {
        &self.hand
    }

    /// Tells whether the player holds the card.
    pub fn holds(&self, card: u8) -> (held: bool)
        ensures
            held == self@.hand.contains(card),
    {
        holds_card(&self.hand, card)
    }

    /// A player with the same identity, name, points and hand.
    pub fn duplicate(&self) -> (copy: Player)
        ensures
            copy@ == self@,
    {
        let hand = copy_cards(&self.hand);
        Player { id: self.id.clone(), name: self.name.clone(), points: self.points, hand }
    }

    /// Takes the played card out of the hand and adds the points it brought.
    pub fn settle(&mut self, card: u8, gain: u16)
        requires
            old(self)@.wf(),
            old(self)@.hand.contains(card),
            gain <= MAX_GAIN,
        ensures
            final(self)@ == old(self)@.settled(card, gain as nat),
            final(self)@.wf(),
    {
        proof {
            lemma_without_card(self.hand@, card);
        }
        remove_card(&mut self.hand, card);
        self.points = self.points + gain;
    }

    /// Gives the player a new hand from the deck and no points.
    pub fn redeal(&mut self, deck: &mut Deck)
        requires
            old(deck)@.len() >= HAND_SIZE,
        ensures
            final(self)@ == newcomer(old(self)@.id, old(self)@.name, old(deck)@),
            final(deck)@ == undealt(old(deck)@, HAND_SIZE as nat),
    {
        self.hand = deck.deal_sorted(HAND_SIZE);
        self.points = 0;
    }
}

} // verus!
