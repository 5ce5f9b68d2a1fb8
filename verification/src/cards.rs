//! Card values, the scoring rule, and the orderings the table relies on.

use vstd::prelude::*;

use crate::order::{
    insert_by, lemma_insert_keeps_order, lemma_insert_members, lemma_slot_for, lemma_slot_is,
    slot_for, sort_by,
};

verus! {

/// Lowest card value of a deck.
pub const MIN_CARD: u8 = 1;

/// Highest card value of a deck; each value from `MIN_CARD` up to it exists once.
pub const MAX_CARD: u8 = 104;

/// Cards dealt to a player who joins.
pub const HAND_SIZE: usize = 10;

/// Piles on the table.
pub const PILE_COUNT: usize = 4;

/// Cards a pile holds before the next placement converts it to points.
pub const PILE_CAPACITY: usize = 5;

/// A card is valid when it lies in the deck's range.
pub open spec fn valid_card(card: u8) -> bool {
    MIN_CARD <= card <= MAX_CARD
}

/// Points one card is worth when its pile is converted.
pub open spec fn card_points(card: u8) -> nat {
    if card % 11 == 0 {
        if card == 55 {
            6
        } else {
            5
        }
    } else if card % 10 == 0 {
        3
    } else if card % 5 == 0 {
        2
    } else {
        1
    }
}

/// Points a stack of cards is worth: the sum over its cards.
pub open spec fn stack_points(cards: Seq<u8>) -> nat
    decreases cards.len(),
{
    if cards.len() == 0 {
        0
    } else {
        stack_points(cards.drop_last()) + card_points(cards.last())
    }
}

/// Each card lies strictly below the next one.
pub open spec fn ascending(cards: Seq<u8>) -> bool {
    forall|i: int, j: int| 0 <= i < j < cards.len() ==> cards[i] < cards[j]
}

/// No value occurs twice, and every value is a valid card.
pub open spec fn distinct_cards(cards: Seq<u8>) -> bool {
    &&& cards.no_duplicates()
    &&& forall|i: int| 0 <= i < cards.len() ==> valid_card(#[trigger] cards[i])
}

/// Computes the points of one card.
pub fn points_of_card(card: u8) -> (points: u16)
    ensures
        points == card_points(card),
        1 <= points <= 6,
{
    if card % 11 == 0 {
        if card == 55 {
            6
        } else {
            5
        }
    } else if card % 10 == 0 {
        3
    } else if card % 5 == 0 {
        2
    } else {
        1
    }
}

/// A stack is worth at least one and at most six points per card.
pub proof fn lemma_stack_points_bounds(cards: Seq<u8>)
    ensures
        cards.len() <= stack_points(cards) <= 6 * cards.len(),
    decreases cards.len(),
{
    if cards.len() > 0 {
        lemma_stack_points_bounds(cards.drop_last());
    }
}

/// Cards are ordered by their value.
pub open spec fn by_value() -> spec_fn(u8) -> int {
    |card: u8| card as int
}

/// The cards in order of value.
pub open spec fn sorted_cards(cards: Seq<u8>) -> Seq<u8> {
    sort_by(cards, by_value())
}

/// The hand without `card`.
pub open spec fn without_card(hand: Seq<u8>, card: u8) -> Seq<u8> {
    if hand.contains(card) {
        hand.remove(hand.index_of(card))
    } else {
        hand
    }
}

/// What a sequence holds after the element at `j` left, when nothing occurs twice.
pub proof fn lemma_remove_members<T>(s: Seq<T>, j: int)
    requires
        0 <= j < s.len(),
        s.no_duplicates(),
    ensures
        s.remove(j).no_duplicates(),
        forall|c: T| s.remove(j).contains(c) <==> (s.contains(c) && c != s[j]),
{
    let r = s.remove(j);
    assert forall|c: T| r.contains(c) <==> (s.contains(c) && c != s[j]) by {
        if r.contains(c) {
            let i = choose|i: int| 0 <= i < r.len() && r[i] == c;
            if i < j {
                assert(s[i] == c);
            } else {
                assert(s[i + 1] == c);
            }
        }
        if s.contains(c) && c != s[j] {
            let i = choose|i: int| 0 <= i < s.len() && s[i] == c;
            if i < j {
                assert(r[i] == c);
            } else {
                assert(r[i - 1] == c);
            }
        }
    }
    assert forall|a: int, b: int| 0 <= a < r.len() && 0 <= b < r.len() && a != b implies r[a]
        != r[b] by {
        let a0 = if a < j { a } else { a + 1 };
        let b0 = if b < j { b } else { b + 1 };
        assert(r[a] == s[a0] && r[b] == s[b0]);
    }
}

/// An ascending sequence holds nothing twice.
pub proof fn lemma_ascending_distinct(cards: Seq<u8>)
    requires
        ascending(cards),
    ensures
        cards.no_duplicates(),
{
    assert forall|i: int, j: int|
        0 <= i < cards.len() && 0 <= j < cards.len() && i != j implies cards[i]
        != cards[j] by {
        if i < j {
            assert(cards[i] < cards[j]);
        } else {
            assert(cards[j] < cards[i]);
        }
    }
}

/// Putting a card that is not yet there into an ascending hand leaves the hand
/// ascending, one card longer, and holding the new card beside the old ones.
pub proof fn lemma_insert_card(hand: Seq<u8>, card: u8)
    requires
        ascending(hand),
        !hand.contains(card),
    ensures
        ascending(insert_by(hand, card, by_value())),
        insert_by(hand, card, by_value()).len() == hand.len() + 1,
        forall|c: u8|
            insert_by(hand, card, by_value()).contains(c) <==> (hand.contains(c) || c == card),
{
    let r = insert_by(hand, card, by_value());
    let j = slot_for(hand, card, by_value());
    lemma_slot_for(hand, card, by_value());
    lemma_insert_members(hand, j, card);
    lemma_insert_keeps_order(hand, card, by_value());
    assert forall|a: int, b: int| 0 <= a < b < r.len() implies r[a] < r[b] by {
        assert(by_value()(r[a]) <= by_value()(r[b]));
        if r[a] == r[b] {
            if a == j {
                assert(r[b] == hand[b - 1]);
                assert(hand.contains(card));
            } else if b == j {
                assert(r[a] == hand[a]);
                assert(hand.contains(card));
            } else {
                let a0 = if a < j { a } else { a - 1 };
                let b0 = if b < j { b } else { b - 1 };
                assert(r[a] == hand[a0] && r[b] == hand[b0]);
                assert(hand[a0] < hand[b0]);
            }
        }
    }
}

/// Sorting distinct cards gives the ascending sequence of the same cards.
pub proof fn lemma_sorted_cards(cards: Seq<u8>)
    requires
        cards.no_duplicates(),
    ensures
        ascending(sorted_cards(cards)),
        sorted_cards(cards).len() == cards.len(),
        forall|c: u8| sorted_cards(cards).contains(c) <==> cards.contains(c),
    decreases cards.len(),
{
    if cards.len() > 0 {
        let front = cards.drop_last();
        let x = cards.last();
        lemma_sorted_cards(front);
        if front.contains(x) {
            let i = choose|i: int| 0 <= i < front.len() && front[i] == x;
            assert(cards[i] == cards[cards.len() - 1]);
        }
        lemma_insert_card(sorted_cards(front), x);
        assert forall|c: u8| sorted_cards(cards).contains(c) <==> cards.contains(c) by {
            if cards.contains(c) {
                let i = choose|i: int| 0 <= i < cards.len() && cards[i] == c;
                if i < front.len() {
                    assert(front[i] == c);
                }
            }
            if front.contains(c) {
                let i = choose|i: int| 0 <= i < front.len() && front[i] == c;
                assert(cards[i] == c);
            }
            if c == x {
                assert(cards[cards.len() - 1] == c);
            }
        }
    }
}

/// Taking a card out of an ascending hand leaves the hand ascending and
/// holding the other cards.
pub proof fn lemma_without_card(hand: Seq<u8>, card: u8)
    requires
        ascending(hand),
    ensures
        ascending(without_card(hand, card)),
        forall|c: u8| without_card(hand, card).contains(c) <==> (hand.contains(c) && c != card),
        hand.contains(card) ==> without_card(hand, card).len() + 1 == hand.len(),
        !hand.contains(card) ==> without_card(hand, card) == hand,
{
    if hand.contains(card) {
        let j = hand.index_of(card);
        let r = hand.remove(j);
        lemma_ascending_distinct(hand);
        lemma_remove_members(hand, j);
        assert forall|a: int, b: int| 0 <= a < b < r.len() implies r[a] < r[b] by {
            let a0 = if a < j { a } else { a + 1 };
            let b0 = if b < j { b } else { b + 1 };
            assert(r[a] == hand[a0] && r[b] == hand[b0]);
        }
    }
}

/// A copy of the cards.
pub fn copy_cards(cards: &Vec<u8>) -> (copy: Vec<u8>)
    ensures
        copy@ == cards@,
{
    let mut copy: Vec<u8> = Vec::new();
    let mut i: usize = 0;
    while i < cards.len()
        invariant
            i <= cards@.len(),
            copy@ == cards@.take(i as int),
        decreases cards@.len() - i,
    {
        copy.push(cards[i]);
        assert(cards@.take(i + 1) =~= cards@.take(i as int).push(cards@[i as int]));
        i = i + 1;
    }
    assert(cards@.take(i as int) =~= cards@);
    copy
}

/// Tells whether the hand holds the card.
pub fn holds_card(hand: &Vec<u8>, card: u8) -> (held: bool)
    ensures
        held == hand@.contains(card),
{
    let mut i: usize = 0;
    while i < hand.len()
        invariant
            i <= hand@.len(),
            forall|k: int| 0 <= k < i ==> hand@[k] != card,
        decreases hand@.len() - i,
    {
        if hand[i] == card {
            return true;
        }
        i = i + 1;
    }
    false
}

/// Puts the card into the hand at its place in the order of values.
pub fn insert_card(hand: &mut Vec<u8>, card: u8)
    ensures
        final(hand)@ == insert_by(old(hand)@, card, by_value()),
{
    let mut j: usize = hand.len();
    while j > 0 && hand[j - 1] > card
        invariant
            j <= hand@.len(),
            forall|k: int|
                j <= k < hand@.len() ==> by_value()(#[trigger] hand@[k]) > by_value()(card),
        decreases j,
    {
        j = j - 1;
    }
    proof {
        lemma_slot_is(hand@, card, by_value(), j as int);
    }
    hand.insert(j, card);
}

/// Takes the card out of an ascending hand, if it is there.
pub fn remove_card(hand: &mut Vec<u8>, card: u8)
    requires
        ascending(old(hand)@),
    ensures
        final(hand)@ == without_card(old(hand)@, card),
{
    let mut i: usize = 0;
    while i < hand.len()
        invariant
            i <= hand@.len(),
            hand@ == old(hand)@,
            ascending(hand@),
            forall|k: int| 0 <= k < i ==> hand@[k] != card,
        decreases hand@.len() - i,
    {
        if hand[i] == card {
            proof {
                lemma_ascending_distinct(hand@);
                assert(hand@.contains(card));
                let j = hand@.index_of(card);
                assert(hand@[j] == hand@[i as int]);
            }
            hand.remove(i);
            return ;
        }
        i = i + 1;
    }
}

} // verus!
