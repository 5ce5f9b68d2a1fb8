//! The shuffled deck that seeds the piles and deals the hands.

use rand::seq::SliceRandom;
use rand::thread_rng;
use vstd::prelude::*;
use vstd::seq_lib::*;

use crate::cards::{distinct_cards, insert_card, sorted_cards, valid_card, MAX_CARD, MIN_CARD};

verus! {

/// A stack of cards; the last card is dealt next.
#[derive(Debug)]
pub struct Deck {
    cards: Vec<u8>,
}

impl View for Deck {
    type V = Seq<u8>;

    closed spec fn view(&self) -> Seq<u8> {
        self.cards@
    }
}

/// Reorders `cards` in place with `rand::seq::SliceRandom::shuffle`, driven by
/// `rand::thread_rng`. The shuffle only swaps elements, so the cards after the
/// call are the cards before it, each as often as before; their order is left
/// open. The generator is seeded from the operating system when a thread first
/// uses it and panics if that source fails.
#[verifier::external_body]
fn shuffle(cards: &mut Vec<u8>)
    ensures
        final(cards)@.to_multiset() == old(cards)@.to_multiset(),
{
    cards.shuffle(&mut thread_rng());
}

/// A rearrangement of distinct cards is again a sequence of distinct cards
/// with the same length and the same members.
pub proof fn lemma_rearranged_cards(before: Seq<u8>, after: Seq<u8>)
    requires
        distinct_cards(before),
        after.to_multiset() == before.to_multiset(),
    ensures
        distinct_cards(after),
        after.len() == before.len(),
        forall|c: u8| after.contains(c) <==> before.contains(c),
{
    broadcast use {to_multiset_len, to_multiset_contains};

    before.lemma_multiset_has_no_duplicates();
    after.lemma_multiset_has_no_duplicates_conv();
    assert(after.len() == after.to_multiset().len());
    assert(before.len() == before.to_multiset().len());
    assert forall|c: u8| after.contains(c) <==> before.contains(c) by {
        assert(after.contains(c) <==> after.to_multiset().count(c) > 0);
        assert(before.contains(c) <==> before.to_multiset().count(c) > 0);
    }
    assert forall|i: int| 0 <= i < after.len() implies valid_card(#[trigger] after[i]) by {
        assert(after.contains(after[i]));
        let j = choose|j: int| 0 <= j < before.len() && before[j] == after[i];
        assert(valid_card(before[j]));
    }
}

/// The top `count` cards of a deck, in the order in which they are dealt.
pub open spec fn dealt(deck: Seq<u8>, count: nat) -> Seq<u8> {
    Seq::new(count, |k: int| deck[deck.len() - 1 - k])
}

/// The deck that is left once `count` cards were dealt.
pub open spec fn undealt(deck: Seq<u8>, count: nat) -> Seq<u8> {
    deck.take(deck.len() - count)
}

/// Dealing from distinct cards: the cards dealt and the cards left are
/// distinct, all of them come from the deck, and no card dealt is left.
pub proof fn lemma_dealt(deck: Seq<u8>, count: nat)
    requires
        distinct_cards(deck),
        count <= deck.len(),
    ensures
        distinct_cards(dealt(deck, count)),
        distinct_cards(undealt(deck, count)),
        dealt(deck, count).len() == count,
        undealt(deck, count).len() == deck.len() - count,
        forall|c: u8| #[trigger]
            dealt(deck, count).contains(c) ==> deck.contains(c) && !undealt(deck, count).contains(
                c,
            ),
        forall|c: u8| #[trigger] undealt(deck, count).contains(c) ==> deck.contains(c),
{
    let top = dealt(deck, count);
    let rest = undealt(deck, count);
    assert forall|i: int| 0 <= i < top.len() implies valid_card(#[trigger] top[i]) by {
        assert(top[i] == deck[deck.len() - 1 - i]);
    }
    assert forall|i: int, j: int| 0 <= i < top.len() && 0 <= j < top.len() && i != j implies top[i]
        != top[j] by {
        assert(top[i] == deck[deck.len() - 1 - i]);
        assert(top[j] == deck[deck.len() - 1 - j]);
    }
    assert forall|i: int| 0 <= i < rest.len() implies valid_card(#[trigger] rest[i]) by {
        assert(rest[i] == deck[i]);
    }
    assert forall|i: int, j: int|
        0 <= i < rest.len() && 0 <= j < rest.len() && i != j implies rest[i] != rest[j] by {
        assert(rest[i] == deck[i] && rest[j] == deck[j]);
    }
    assert forall|c: u8| #[trigger] top.contains(c) implies deck.contains(c) && !rest.contains(
        c,
    ) by {
        let i = choose|i: int| 0 <= i < top.len() && top[i] == c;
        assert(deck[deck.len() - 1 - i] == c);
        if rest.contains(c) {
            let j = choose|j: int| 0 <= j < rest.len() && rest[j] == c;
            assert(deck[j] == c);
        }
    }
    assert forall|c: u8| #[trigger] rest.contains(c) implies deck.contains(c) by {
        let j = choose|j: int| 0 <= j < rest.len() && rest[j] == c;
        assert(deck[j] == c);
    }
}

impl Deck {
    /// The cards are distinct and valid.
    pub open spec fn wf(&self) -> bool {
        distinct_cards(self@)
    }

    /// A full deck: every valid card exactly once, in an order left to chance.
    pub fn new() -> (deck: Deck)
        ensures
            deck.wf(),
            deck@.len() == MAX_CARD,
            forall|c: u8| valid_card(c) ==> deck@.contains(c),
    {
        let mut cards: Vec<u8> = Vec::new();
        let mut next: u8 = MIN_CARD;
        while next <= MAX_CARD
            invariant
                MIN_CARD <= next <= MAX_CARD + 1,
                cards@.len() == next - 1,
                forall|i: int| 0 <= i < cards@.len() ==> cards@[i] == i + 1,
            decreases MAX_CARD + 1 - next,
        {
            cards.push(next);
            next = next + 1;
        }
        let ghost ordered = cards@;
        shuffle(&mut cards);
        proof {
            lemma_rearranged_cards(ordered, cards@);
            assert forall|c: u8| valid_card(c) implies cards@.contains(c) by {
                assert(ordered[c - 1] == c);
                assert(ordered.contains(c));
            }
        }
        Deck { cards }
    }

    /// A deck of the given cards, the last of them on top, if they are
    /// distinct valid cards.
    pub fn from_cards(cards: Vec<u8>) -> (deck: Option<Deck>)
        ensures
            match deck {
                Some(deck) => deck@ == cards@ && deck.wf(),
                None => !distinct_cards(cards@),
            },
    {
        let mut seen: Vec<bool> = Vec::new();
        let mut v: usize = 0;
        while v <= MAX_CARD as usize
            invariant
                v <= MAX_CARD + 1,
                seen@.len() == v,
                forall|c: int| 0 <= c < v ==> !seen@[c],
            decreases MAX_CARD + 1 - v,
        {
            seen.push(false);
            v = v + 1;
        }
        let mut i: usize = 0;
        while i < cards.len()
            invariant
                i <= cards@.len(),
                seen@.len() == MAX_CARD + 1,
                distinct_cards(cards@.take(i as int)),
                forall|c: int|
                    0 <= c <= MAX_CARD ==> (#[trigger] seen@[c] <==> cards@.take(i as int).contains(
                        c as u8,
                    )),
            decreases cards@.len() - i,
        {
            let card = cards[i];
            let ghost before = cards@.take(i as int);
            let ghost now = cards@.take(i + 1);
            proof {
                assert(now =~= before.push(card));
                assert(now[i as int] == card);
            }
            if card < MIN_CARD || card > MAX_CARD {
                proof {
                    if distinct_cards(cards@) {
                        assert(valid_card(cards@[i as int]));
                    }
                }
                return None;
            }
            if seen[card as usize] {
                proof {
                    assert(before.contains(card));
                    let j = choose|j: int| 0 <= j < before.len() && before[j] == card;
                    assert(cards@[j] == cards@[i as int]);
                }
                return None;
            }
            seen.set(card as usize, true);
            proof {
                assert forall|a: int| 0 <= a < now.len() implies valid_card(#[trigger] now[a]) by {
                    if a < i {
                        assert(now[a] == before[a]);
                    }
                }
                assert forall|a: int, b: int|
                    0 <= a < now.len() && 0 <= b < now.len() && a != b implies now[a] != now[b] by {
                    if a < i && b < i {
                        assert(now[a] == before[a] && now[b] == before[b]);
                    } else if a < i {
                        assert(before[a] == now[a]);
                        assert(before.contains(now[a]));
                    } else {
                        assert(before[b] == now[b]);
                        assert(before.contains(now[b]));
                    }
                }
                assert forall|c: int| 0 <= c <= MAX_CARD implies (#[trigger] seen@[c]
                    <==> now.contains(c as u8)) by {
                    if now.contains(c as u8) {
                        let a = choose|a: int| 0 <= a < now.len() && now[a] == c as u8;
                        if a < i {
                            assert(before[a] == c as u8);
                            assert(before.contains(c as u8));
                        }
                    }
                    if before.contains(c as u8) {
                        let a = choose|a: int| 0 <= a < before.len() && before[a] == c as u8;
                        assert(now[a] == c as u8);
                    }
                    if c == card {
                        assert(now[i as int] == c as u8);
                    }
                }
            }
            i = i + 1;
        }
        assert(cards@.take(i as int) =~= cards@);
        Some(Deck { cards })
    }

    /// Number of cards left.
    pub fn len(&self) -> (n: usize)
        ensures
            n == self@.len(),
    {
        self.cards.len()
    }

    /// Removes and returns the top card.
    pub fn deal(&mut self) -> (card: u8)
        requires
            old(self)@.len() > 0,
        ensures
            card == old(self)@.last(),
            final(self)@ == old(self)@.drop_last(),
            old(self).wf() ==> final(self).wf() && valid_card(card) && !final(self)@.contains(card),
    {
        proof {
            if self.wf() {
                lemma_deal_keeps_distinct(self@);
            }
        }
        let card = self.cards.pop();
        card.unwrap()
    }

    /// Deals `count` cards and hands them back in order of value.
    pub fn deal_sorted(&mut self, count: usize) -> (cards: Vec<u8>)
        requires
            count <= old(self)@.len(),
        ensures
            cards@ == sorted_cards(dealt(old(self)@, count as nat)),
            final(self)@ == undealt(old(self)@, count as nat),
    {
        let mut cards: Vec<u8> = Vec::new();
        let mut i: usize = 0;
        while i < count
            invariant
                i <= count <= old(self)@.len(),
                cards@ == sorted_cards(dealt(old(self)@, i as nat)),
                self@ == undealt(old(self)@, i as nat),
            decreases count - i,
        {
            let card = self.deal();
            insert_card(&mut cards, card);
            proof {
                let before = dealt(old(self)@, i as nat);
                let now = dealt(old(self)@, (i + 1) as nat);
                assert(now.drop_last() =~= before);
                assert(now.last() == card);
                assert(self@ =~= undealt(old(self)@, (i + 1) as nat));
            }
            i = i + 1;
        }
        cards
    }
}

/// Dealing from distinct cards leaves distinct cards, none of them the card dealt.
pub proof fn lemma_deal_keeps_distinct(cards: Seq<u8>)
    requires
        distinct_cards(cards),
        cards.len() > 0,
    ensures
        distinct_cards(cards.drop_last()),
        !cards.drop_last().contains(cards.last()),
        valid_card(cards.last()),
{
    let rest = cards.drop_last();
    assert forall|i: int| 0 <= i < rest.len() implies valid_card(#[trigger] rest[i]) by {
        assert(rest[i] == cards[i]);
    }
    assert forall|i: int, j: int|
        0 <= i < rest.len() && 0 <= j < rest.len() && i != j implies rest[i] != rest[j] by {
        assert(rest[i] == cards[i] && rest[j] == cards[j]);
    }
    if rest.contains(cards.last()) {
        let i = choose|i: int| 0 <= i < rest.len() && rest[i] == cards.last();
        assert(cards[i] == cards[cards.len() - 1]);
    }
}

} // verus!
