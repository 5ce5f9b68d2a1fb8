//! The piles on the table: ascending stacks that turn into points when they
//! overflow, kept in order of their top cards.

use vstd::prelude::*;
use vstd::std_specs::convert::TryFromSpecImpl;

use crate::cards::{
    ascending, by_value, copy_cards, lemma_stack_points_bounds, points_of_card, sorted_cards,
    stack_points, PILE_CAPACITY, PILE_COUNT,
};
use crate::deck::{dealt, undealt, Deck};
use crate::order::{
    insert_by, lemma_insert_keeps_order, lemma_slot_for, lemma_slot_is, lemma_sort_len,
    lemma_sort_members, lemma_sort_of_ordered, lemma_sort_ordered, ordered_by, slot_for, sort_by,
};

verus! {

/// The fixed name of a pile, as the players see it.
#[derive(Debug, Copy, Clone, PartialEq, Eq, PartialOrd, Ord, Structural)]
pub enum PileIndex {
    Zero,
    One,
    Two,
    Three,
}

/// The pile name that stands for a number, if it is below the number of piles.
pub open spec fn index_at(n: int) -> Option<PileIndex> {
    if n == 0 {
        Some(PileIndex::Zero)
    } else if n == 1 {
        Some(PileIndex::One)
    } else if n == 2 {
        Some(PileIndex::Two)
    } else if n == 3 {
        Some(PileIndex::Three)
    } else {
        None
    }
}

impl PileIndex {
    /// The number the name stands for.
    pub open spec fn rank(self) -> int {
        match self {
            PileIndex::Zero => 0,
            PileIndex::One => 1,
            PileIndex::Two => 2,
            PileIndex::Three => 3,
        }
    }

    /// The number the name stands for.
    pub fn position(self) -> (n: usize)
        ensures
            n == self.rank(),
            n < PILE_COUNT,
            index_at(n as int) == Some(self),
    {
        match self {
            PileIndex::Zero => 0,
            PileIndex::One => 1,
            PileIndex::Two => 2,
            PileIndex::Three => 3,
        }
    }
}

impl TryFrom<usize> for PileIndex {
    type Error = ();

    fn try_from(value: usize) -> (index: Result<Self, ()>) {
        match value {
            0 => Ok(PileIndex::Zero),
            1 => Ok(PileIndex::One),
            2 => Ok(PileIndex::Two),
            3 => Ok(PileIndex::Three),
            _ => Err(()),
        }
    }
}

impl TryFromSpecImpl<usize> for PileIndex {
    open spec fn obeys_try_from_spec() -> bool {
        true
    }

    open spec fn try_from_spec(value: usize) -> Result<Self, ()> {
        match index_at(value as int) {
            Some(index) => Ok(index),
            None => Err(()),
        }
    }
}

/// What a pile is: its name and its cards from bottom to top.
pub struct PileView {
    pub index: PileIndex,
    pub cards: Seq<u8>,
}

impl PileView {
    /// Between one card and the capacity, each card above a smaller one.
    pub open spec fn wf(self) -> bool {
        &&& 1 <= self.cards.len() <= PILE_CAPACITY
        &&& ascending(self.cards)
    }

    /// The card on top.
    pub open spec fn top(self) -> u8 {
        self.cards.last()
    }

    /// The pile holds as many cards as it can.
    pub open spec fn full(self) -> bool {
        self.cards.len() == PILE_CAPACITY
    }

    /// A pile of this name that holds one card.
    pub open spec fn reseeded(self, card: u8) -> PileView {
        PileView { index: self.index, cards: seq![card] }
    }

    /// The pile after `card` was placed on it: one card higher, or, when it
    /// was full, started again from `card`.
    pub open spec fn with_card(self, card: u8) -> PileView {
        if self.full() {
            self.reseeded(card)
        } else {
            PileView { index: self.index, cards: self.cards.push(card) }
        }
    }

    /// The points a placement on this pile converts: those of its cards when
    /// it is full, none otherwise.
    pub open spec fn overflow(self) -> Option<nat> {
        if self.full() {
            Some(stack_points(self.cards))
        } else {
            None
        }
    }
}

/// The pile after the cards were placed on it one after the other.
pub open spec fn stacked(pile: PileView, cards: Seq<u8>) -> PileView
    decreases cards.len(),
{
    if cards.len() == 0 {
        pile
    } else {
        stacked(pile, cards.drop_last()).with_card(cards.last())
    }
}

/// Each of the cards is placed on a lower top card.
pub open spec fn stackable(pile: PileView, cards: Seq<u8>) -> bool
    decreases cards.len(),
{
    if cards.len() == 0 {
        true
    } else {
        stackable(pile, cards.drop_last()) && stacked(pile, cards.drop_last()).top() < cards.last()
    }
}

/// However many cards are placed on a valid pile, each on a lower top card,
/// the pile stays valid: it holds between one card and the capacity, in
/// ascending order. Its top card is the card placed last, and no card of the
/// pile and no card placed before is higher.
pub proof fn lemma_stacked(pile: PileView, cards: Seq<u8>)
    requires
        pile.wf(),
        stackable(pile, cards),
    ensures
        stacked(pile, cards).wf(),
        stacked(pile, cards).index == pile.index,
        cards.len() > 0 ==> stacked(pile, cards).top() == cards.last(),
        forall|k: int|
            0 <= k < stacked(pile, cards).cards.len() ==> stacked(pile, cards).cards[k] <= stacked(
                pile,
                cards,
            ).top(),
        forall|k: int| 0 <= k < cards.len() ==> cards[k] <= stacked(pile, cards).top(),
        pile.top() <= stacked(pile, cards).top(),
    decreases cards.len(),
{
    if cards.len() > 0 {
        let front = cards.drop_last();
        lemma_stacked(pile, front);
        let before = stacked(pile, front);
        let after = stacked(pile, cards);
        assert forall|k: int| 0 <= k < cards.len() implies cards[k] <= after.top() by {
            if k < front.len() {
                assert(front[k] == cards[k]);
            }
        }
        assert forall|k: int| 0 <= k < after.cards.len() implies after.cards[k] <= after.top() by {
            if k < after.cards.len() - 1 {
                assert(after.cards[k] < after.cards[after.cards.len() - 1]);
            }
        }
    } else {
        assert forall|k: int| 0 <= k < pile.cards.len() implies pile.cards[k] <= pile.top() by {
            if k < pile.cards.len() - 1 {
                assert(pile.cards[k] < pile.cards[pile.cards.len() - 1]);
            }
        }
    }
}

/// One pile of the table.
#[derive(Debug)]
pub struct Pile {
    index: PileIndex,
    cards: Vec<u8>,
}

impl View for Pile {
    type V = PileView;

    closed spec fn view(&self) -> PileView {
        PileView { index: self.index, cards: self.cards@ }
    }
}

impl Pile {
    /// A pile that holds one card.
    pub fn new(index: PileIndex, card: u8) -> (pile: Pile)
        ensures
            pile@ == (PileView { index, cards: seq![card] }),
            pile@.wf(),
    {
        let mut cards: Vec<u8> = Vec::new();
        cards.push(card);
        assert(cards@ =~= seq![card]);
        Pile { index, cards }
    }

    /// The name of the pile.
    pub fn index(&self) -> (index: PileIndex)
        ensures
            index == self@.index,
    {
        self.index
    }

    /// The card on top.
    pub fn top_card(&self) -> (card: u8)
        requires
            self@.cards.len() > 0,
        ensures
            card == self@.top(),
    {
        self.cards[self.cards.len() - 1]
    }

    /// Places the card on the pile. A full pile is converted: its points are
    /// returned and the card starts the pile anew.
    pub fn place(&mut self, card: u8) -> (points: Option<u16>)
        requires
            old(self)@.wf(),
            old(self)@.top() < card,
        ensures
            final(self)@ == old(self)@.with_card(card),
            final(self)@.wf(),
            match points {
                Some(p) => old(self)@.overflow() == Some(p as nat),
                None => old(self)@.overflow().is_none(),
            },
    {
        if self.cards.len() == PILE_CAPACITY {
            let points = self.points();
            self.cards.clear();
            self.cards.push(card);
            assert(self.cards@ =~= seq![card]);
            Some(points)
        } else {
            self.cards.push(card);
            None
        }
    }

    /// The points the pile is worth.
    pub fn points(&self) -> (points: u16)
        requires
            self@.cards.len() <= PILE_CAPACITY,
        ensures
            points == stack_points(self@.cards),
            points <= 6 * PILE_CAPACITY,
    {
        let mut points: u16 = 0;
        let mut i: usize = 0;
        while i < self.cards.len()
            invariant
                i <= self.cards@.len() <= PILE_CAPACITY,
                points == stack_points(self.cards@.take(i as int)),
                points <= 6 * i,
            decreases self.cards@.len() - i,
        {
            proof {
                assert(self.cards@.take(i + 1).drop_last() =~= self.cards@.take(i as int));
            }
            points = points + points_of_card(self.cards[i]);
            i = i + 1;
        }
        assert(self.cards@.take(i as int) =~= self.cards@);
        points
    }

    /// The number of cards on the pile.
    pub fn num(&self) -> (n: usize)
        ensures
            n == self@.cards.len(),
    {
        self.cards.len()
    }

    /// A copy of the cards from bottom to top.
    pub fn cards(&self) -> (cards: Vec<u8>)
        ensures
            cards@ == self@.cards,
    {
        copy_cards(&self.cards)
    }
}

/// Piles are ordered by their top cards.
pub open spec fn by_top() -> spec_fn(PileView) -> int {
    |pile: PileView| pile.top() as int
}

/// The table holds its number of valid piles, in order of their top cards,
/// each under a name of its own.
pub open spec fn table_wf(piles: Seq<PileView>) -> bool {
    &&& piles.len() == PILE_COUNT
    &&& piles_in_order(piles)
}

/// Where a card is placed: on the last pile whose top card lies below it.
/// With the piles in order this is the pile with the highest such top card.
pub open spec fn target(piles: Seq<PileView>, card: u8) -> Option<int>
    decreases piles.len(),
{
    if piles.len() == 0 {
        None
    } else if piles.last().top() < card {
        Some(piles.len() - 1)
    } else {
        target(piles.drop_last(), card)
    }
}

/// The piles after the card was placed; unchanged when no pile takes it.
pub open spec fn placed(piles: Seq<PileView>, card: u8) -> Seq<PileView> {
    match target(piles, card) {
        Some(i) => piles.update(i, piles[i].with_card(card)),
        None => piles,
    }
}

/// The points that placing the card converts, if it makes a pile overflow.
pub open spec fn converted(piles: Seq<PileView>, card: u8) -> Option<nat> {
    match target(piles, card) {
        Some(i) => piles[i].overflow(),
        None => None,
    }
}

/// Where the pile of the given name lies on the table.
pub open spec fn seat(piles: Seq<PileView>, index: PileIndex) -> int {
    choose|i: int| 0 <= i < piles.len() && piles[i].index == index
}

/// The piles in order of their top cards. Piles with equal top cards stay in
/// the order in which they were.
pub open spec fn in_order(piles: Seq<PileView>) -> Seq<PileView> {
    sort_by(piles, by_top())
}

/// The piles after the pile of the given name was given up for `card`: it
/// restarts from that card, and the piles are put in order again.
pub open spec fn sacrificed(piles: Seq<PileView>, index: PileIndex, card: u8) -> Seq<PileView> {
    in_order(piles.update(seat(piles, index), PileView { index, cards: seq![card] }))
}

/// The piles a table starts with: one card each, named in order of value.
pub open spec fn seeded(cards: Seq<u8>) -> Seq<PileView> {
    Seq::new(
        PILE_COUNT as nat,
        |k: int| PileView { index: index_at(k).unwrap(), cards: seq![cards[k]] },
    )
}

/// Piles seeded from sorted cards make a valid table.
pub proof fn lemma_seeded_wf(cards: Seq<u8>)
    requires
        cards.len() == PILE_COUNT,
    ensures
        table_wf(seeded(sorted_cards(cards))),
{
    let seeds = sorted_cards(cards);
    let piles = seeded(seeds);
    lemma_sort_len(cards, by_value());
    lemma_sort_ordered(cards, by_value());
    assert forall|a: int, b: int| 0 <= a < b < piles.len() implies by_top()(piles[a]) <= by_top()(
        piles[b],
    ) by {
        assert(by_value()(seeds[a]) <= by_value()(seeds[b]));
    }
}

/// The target lies on the table, its top card is below the card, and no later
/// pile has a top card below it. Without a target no pile has one.
pub proof fn lemma_target(piles: Seq<PileView>, card: u8)
    ensures
        match target(piles, card) {
            Some(i) => {
                &&& 0 <= i < piles.len()
                &&& piles[i].top() < card
                &&& forall|k: int| i < k < piles.len() ==> (#[trigger] piles[k]).top() >= card
            },
            None => forall|k: int| 0 <= k < piles.len() ==> (#[trigger] piles[k]).top() >= card,
        },
    decreases piles.len(),
{
    if piles.len() > 0 && piles.last().top() >= card {
        let front = piles.drop_last();
        lemma_target(front, card);
        match target(piles, card) {
            Some(i) => {
                assert(piles[i] == front[i]);
                assert forall|k: int| i < k < piles.len() implies (#[trigger] piles[k]).top()
                    >= card by {
                    if k < front.len() {
                        assert(piles[k] == front[k]);
                    }
                }
            },
            None => {
                assert forall|k: int| 0 <= k < piles.len() implies (#[trigger] piles[k]).top()
                    >= card by {
                    if k < front.len() {
                        assert(piles[k] == front[k]);
                    }
                }
            },
        }
    }
}

/// On an ordered table the target is the tightest fit: no pile with a top
/// card below the card has a higher top card than the target.
pub proof fn lemma_target_is_tightest(piles: Seq<PileView>, card: u8)
    requires
        ordered_by(piles, by_top()),
    ensures
        target(piles, card) matches Some(i) ==> forall|k: int|
            0 <= k < piles.len() && (#[trigger] piles[k]).top() < card ==> piles[k].top()
                <= piles[i].top(),
        target(piles, card) is None <==> (piles.len() == 0 || piles[0].top() >= card),
{
    lemma_target(piles, card);
    match target(piles, card) {
        Some(i) => {
            assert forall|k: int|
                0 <= k < piles.len() && (#[trigger] piles[k]).top() < card implies piles[k].top()
                <= piles[i].top() by {
                if k < i {
                    assert(by_top()(piles[k]) <= by_top()(piles[i]));
                }
            }
            if i > 0 {
                assert(by_top()(piles[0]) <= by_top()(piles[i]));
            }
        },
        None => {},
    }
}

/// Placing a card keeps a valid table valid.
pub proof fn lemma_placed_wf(piles: Seq<PileView>, card: u8)
    requires
        table_wf(piles),
    ensures
        table_wf(placed(piles, card)),
{
    lemma_target(piles, card);
    match target(piles, card) {
        Some(i) => {
            let after = placed(piles, card);
            assert(piles[i].wf());
            assert(after[i].top() == card);
            assert forall|a: int, b: int| 0 <= a < b < after.len() implies by_top()(after[a])
                <= by_top()(after[b]) by {
                assert(by_top()(piles[a]) <= by_top()(piles[b]));
                if a == i {
                    assert(piles[b].top() >= card);
                }
            }
            assert forall|k: int| 0 <= k < after.len() implies (#[trigger] after[k]).wf() by {
                assert(piles[k].wf());
            }
            assert forall|a: int, b: int|
                0 <= a < b < after.len() implies (#[trigger] after[a]).index != (
            #[trigger] after[b]).index by {
                assert(piles[a].index != piles[b].index);
            }
        },
        None => {},
    }
}

/// On a valid table every name has a pile, and only one.
pub proof fn lemma_seat(piles: Seq<PileView>, index: PileIndex)
    requires
        table_wf(piles),
    ensures
        0 <= seat(piles, index) < piles.len(),
        piles[seat(piles, index)].index == index,
        forall|k: int|
            0 <= k < piles.len() && (#[trigger] piles[k]).index == index ==> k == seat(
                piles,
                index,
            ),
{
    assert(piles[0].index != piles[1].index);
    assert(piles[0].index != piles[2].index);
    assert(piles[0].index != piles[3].index);
    assert(piles[1].index != piles[2].index);
    assert(piles[1].index != piles[3].index);
    assert(piles[2].index != piles[3].index);
    assert(piles[0].index == index || piles[1].index == index || piles[2].index == index
        || piles[3].index == index);
    let s = seat(piles, index);
    assert forall|k: int| 0 <= k < piles.len() && (#[trigger] piles[k]).index == index implies k
        == s by {
        if k < s {
            assert(piles[k].index != piles[s].index);
        } else if s < k {
            assert(piles[s].index != piles[k].index);
        }
    }
}

/// Valid piles, each under a name of its own, in whatever order.
pub open spec fn piles_valid(piles: Seq<PileView>) -> bool {
    &&& forall|i: int| 0 <= i < piles.len() ==> (#[trigger] piles[i]).wf()
    &&& forall|i: int, j: int|
        0 <= i < j < piles.len() ==> (#[trigger] piles[i]).index != (#[trigger] piles[j]).index
}

/// Valid piles in order of their top cards, each under a name of its own.
pub open spec fn piles_in_order(piles: Seq<PileView>) -> bool {
    &&& piles_valid(piles)
    &&& ordered_by(piles, by_top())
}

/// Putting a valid pile with a new name among piles in order leaves them valid
/// and in order.
proof fn lemma_insert_pile(rest: Seq<PileView>, fresh: PileView)
    requires
        piles_in_order(rest),
        fresh.wf(),
        forall|a: int| 0 <= a < rest.len() ==> (#[trigger] rest[a]).index != fresh.index,
    ensures
        piles_in_order(insert_by(rest, fresh, by_top())),
        insert_by(rest, fresh, by_top()).len() == rest.len() + 1,
{
    lemma_slot_for(rest, fresh, by_top());
    lemma_insert_keeps_order(rest, fresh, by_top());
    let j = slot_for(rest, fresh, by_top());
    let after = insert_by(rest, fresh, by_top());
    assert forall|a: int| 0 <= a < after.len() implies (#[trigger] after[a]).wf() by {
        if a < j {
            assert(after[a] == rest[a]);
        } else if a > j {
            assert(after[a] == rest[a - 1]);
        }
    }
    assert forall|a: int, b: int| 0 <= a < b < after.len() implies (#[trigger] after[a]).index != (
    #[trigger] after[b]).index by {
        let a1 = if a < j { a } else { a - 1 };
        let b1 = if b < j { b } else { b - 1 };
        if a == j {
            assert(after[b] == rest[b1]);
        } else if b == j {
            assert(after[a] == rest[a1]);
        } else {
            assert(after[a] == rest[a1] && after[b] == rest[b1]);
            assert(rest[a1].index != rest[b1].index);
        }
    }
}

/// Valid piles put in order are the same piles, valid and in order.
pub proof fn lemma_in_order(piles: Seq<PileView>)
    requires
        piles_valid(piles),
    ensures
        piles_in_order(in_order(piles)),
        in_order(piles).len() == piles.len(),
        forall|p: PileView| in_order(piles).contains(p) <==> piles.contains(p),
    decreases piles.len(),
{
    lemma_sort_members(piles, by_top());
    if piles.len() > 0 {
        let front = piles.drop_last();
        let last = piles.last();
        assert forall|i: int| 0 <= i < front.len() implies (#[trigger] front[i]) == piles[i] by {}
        assert(piles_valid(front)) by {
            assert forall|i: int, j: int| 0 <= i < j < front.len() implies (#[trigger] front[i]).index
                != (#[trigger] front[j]).index by {
                assert(piles[i].index != piles[j].index);
            }
        }
        lemma_in_order(front);
        let sorted = in_order(front);
        assert forall|a: int| 0 <= a < sorted.len() implies (#[trigger] sorted[a]).index
            != last.index by {
            assert(sorted.contains(sorted[a]));
            assert(front.contains(sorted[a]));
            let b = choose|b: int| 0 <= b < front.len() && front[b] == sorted[a];
            assert(piles[b].index != piles[piles.len() - 1].index);
        }
        assert(piles[piles.len() - 1].wf());
        lemma_insert_pile(sorted, last);
    }
}

/// Giving up a pile keeps a valid table valid. The pile that restarts is on
/// the table, and every other pile is as it was.
pub proof fn lemma_sacrificed_wf(piles: Seq<PileView>, index: PileIndex, card: u8)
    requires
        table_wf(piles),
    ensures
        table_wf(sacrificed(piles, index, card)),
        sacrificed(piles, index, card).contains(PileView { index, cards: seq![card] }),
        forall|p: PileView| #[trigger]
            sacrificed(piles, index, card).contains(p) ==> p == (PileView {
                index,
                cards: seq![card],
            }) || (p.index != index && piles.contains(p)),
{
    lemma_seat(piles, index);
    let k = seat(piles, index);
    let fresh = PileView { index, cards: seq![card] };
    let renewed = piles.update(k, fresh);
    assert(piles_valid(renewed)) by {
        assert forall|i: int| 0 <= i < renewed.len() implies (#[trigger] renewed[i]).wf() by {
            if i != k {
                assert(piles[i].wf());
            }
        }
        assert forall|i: int, j: int| 0 <= i < j < renewed.len() implies (#[trigger] renewed[i]).index
            != (#[trigger] renewed[j]).index by {
            assert(piles[i].index != piles[j].index);
        }
    }
    lemma_in_order(renewed);
    assert(renewed[k] == fresh);
    assert(renewed.contains(fresh));
    assert forall|p: PileView| #[trigger] sacrificed(piles, index, card).contains(p) implies p
        == fresh || (p.index != index && piles.contains(p)) by {
        assert(renewed.contains(p));
        let i = choose|i: int| 0 <= i < renewed.len() && renewed[i] == p;
        if i != k {
            assert(piles[i] == p);
            if i < k {
                assert(piles[i].index != piles[k].index);
            } else {
                assert(piles[k].index != piles[i].index);
            }
        }
    }
}

/// Putting valid piles in order keeps their number and leaves each valid.
pub proof fn lemma_in_order_holds(piles: Seq<PileView>)
    requires
        forall|a: int| 0 <= a < piles.len() ==> (#[trigger] piles[a]).wf(),
    ensures
        in_order(piles).len() == piles.len(),
        forall|p: PileView| #[trigger] in_order(piles).contains(p) ==> p.wf(),
{
    lemma_sort_members(piles, by_top());
    assert forall|p: PileView| #[trigger] in_order(piles).contains(p) implies p.wf() by {
        assert(piles.contains(p));
        let a = choose|a: int| 0 <= a < piles.len() && piles[a] == p;
        assert(piles[a].wf());
    }
}

/// The piles of the table.
#[derive(Debug)]
pub struct Piles {
    piles: Vec<Pile>,
}

impl View for Piles {
    type V = Seq<PileView>;

    closed spec fn view(&self) -> Seq<PileView> {
        Seq::new(self.piles@.len(), |i: int| self.piles@[i]@)
    }
}

impl Piles {
    /// The table is valid.
    pub open spec fn wf(&self) -> bool {
        table_wf(self@)
    }

    /// Seeds the piles with the top cards of the deck, named in order of value.
    pub fn new(deck: &mut Deck) -> (piles: Piles)
        requires
            old(deck)@.len() >= PILE_COUNT,
        ensures
            piles@ == seeded(sorted_cards(dealt(old(deck)@, PILE_COUNT as nat))),
            piles.wf(),
            final(deck)@ == undealt(old(deck)@, PILE_COUNT as nat),
    {
        let seeds = deck.deal_sorted(PILE_COUNT);
        proof {
            lemma_sort_len(dealt(old(deck)@, PILE_COUNT as nat), by_value());
            lemma_seeded_wf(dealt(old(deck)@, PILE_COUNT as nat));
        }
        let mut piles: Vec<Pile> = Vec::new();
        piles.push(Pile::new(PileIndex::Zero, seeds[0]));
        piles.push(Pile::new(PileIndex::One, seeds[1]));
        piles.push(Pile::new(PileIndex::Two, seeds[2]));
        piles.push(Pile::new(PileIndex::Three, seeds[3]));
        let piles = Piles { piles };
        assert(piles@ =~= seeded(seeds@));
        piles
    }

    /// The place of the pile that takes the card, if one does.
    pub fn pile_for_card(&self, card: u8) -> (place: Option<usize>)
        requires
            self.wf(),
        ensures
            match place {
                Some(i) => target(self@, card) == Some(i as int),
                None => target(self@, card).is_none(),
            },
    {
        let mut n: usize = self.piles.len();
        assert(self@.take(n as int) =~= self@);
        while n > 0
            invariant
                n <= self.piles@.len(),
                self.wf(),
                target(self@, card) == target(self@.take(n as int), card),
            decreases n,
        {
            proof {
                assert(self@.take(n as int).drop_last() =~= self@.take(n - 1));
                assert(self@.take(n as int).last() == self@[n - 1]);
                assert(self@[n - 1].wf());
            }
            if self.piles[n - 1].top_card() < card {
                return Some(n - 1);
            }
            n = n - 1;
        }
        None
    }

    /// Tells whether some pile takes the card.
    pub fn can_place(&self, card: u8) -> (fits: bool)
        requires
            self.wf(),
        ensures
            fits == target(self@, card).is_some(),
    {
        self.pile_for_card(card).is_some()
    }

    /// Places the card on the pile that takes it. Returns nothing when no
    /// pile does, and otherwise the points converted by the placement, if any.
    pub fn place(&mut self, card: u8) -> (outcome: Option<Option<u16>>)
        requires
            old(self).wf(),
        ensures
            final(self).wf(),
            final(self)@ == placed(old(self)@, card),
            match outcome {
                Some(Some(p)) => converted(old(self)@, card) == Some(p as nat) && p <= 6
                    * PILE_CAPACITY,
                Some(None) => target(old(self)@, card).is_some() && converted(
                    old(self)@,
                    card,
                ).is_none(),
                None => target(old(self)@, card).is_none(),
            },
    {
        match self.pile_for_card(card) {
            None => None,
            Some(i) => {
                proof {
                    lemma_target(self@, card);
                    lemma_placed_wf(self@, card);
                    assert(self@[i as int].wf());
                    lemma_stack_points_bounds(self@[i as int].cards);
                }
                let points = self.piles[i].place(card);
                assert(self@ =~= placed(old(self)@, card));
                proof {
                    lemma_sort_of_ordered(self@, by_top());
                }
                self.sort();
                Some(points)
            },
        }
    }

    /// Puts the piles in order of their top cards. Piles with equal top
    /// cards stay in the order in which they were.
    pub fn sort(&mut self)
        requires
            forall|a: int| 0 <= a < old(self)@.len() ==> (#[trigger] old(self)@[a]).wf(),
        ensures
            final(self)@ == in_order(old(self)@),
    {
        let mut i: usize = 0;
        proof {
            assert(old(self)@.take(0) =~= Seq::<PileView>::empty());
            assert(in_order(old(self)@.take(0)) =~= Seq::<PileView>::empty());
            assert(self@ =~= in_order(old(self)@.take(0)) + old(self)@.skip(0));
        }
        while i < self.piles.len()
            invariant
                i <= self.piles@.len() == old(self)@.len(),
                self@ == in_order(old(self)@.take(i as int)) + old(self)@.skip(i as int),
                forall|a: int| 0 <= a < old(self)@.len() ==> (#[trigger] old(self)@[a]).wf(),
            decreases self.piles@.len() - i,
        {
            let ghost sorted = in_order(old(self)@.take(i as int));
            let ghost rest = old(self)@.skip(i + 1);
            let ghost before = self@;
            proof {
                lemma_in_order_holds(old(self)@.take(i as int));
                assert(before[i as int] == old(self)@.skip(i as int)[0]);
            }
            let pile = self.piles.remove(i);
            proof {
                assert(pile@ == old(self)@[i as int]);
                assert(self@ =~= before.remove(i as int));
                assert(before.remove(i as int) =~= sorted + rest);
                assert forall|a: int| 0 <= a < self.piles@.len() implies (
                #[trigger] self.piles@[a])@.wf() by {
                    assert(self.piles@[a]@ == self@[a]);
                    if a < i {
                        assert(self@[a] == sorted[a]);
                        assert(sorted.contains(sorted[a]));
                    } else {
                        assert(self@[a] == rest[a - i]);
                        assert(rest[a - i] == old(self)@[a + 1]);
                    }
                }
            }
            let top = pile.top_card();
            let mut j: usize = i;
            while j > 0 && self.piles[j - 1].top_card() > top
                invariant
                    j <= i <= self.piles@.len(),
                    sorted.len() == i,
                    self@ == sorted + rest,
                    top == pile@.top(),
                    forall|a: int|
                        0 <= a < self.piles@.len() ==> (#[trigger] self.piles@[a])@.wf(),
                    forall|a: int|
                        j <= a < sorted.len() ==> by_top()(#[trigger] sorted[a]) > by_top()(pile@),
                decreases j,
            {
                proof {
                    assert(self@[j - 1] == sorted[j - 1]);
                }
                j = j - 1;
            }
            proof {
                if j > 0 {
                    assert(self@[j - 1] == sorted[j - 1]);
                }
                lemma_slot_is(sorted, pile@, by_top(), j as int);
            }
            self.piles.insert(j, pile);
            proof {
                let upto = old(self)@.take(i + 1);
                assert(upto.drop_last() =~= old(self)@.take(i as int));
                assert(upto.last() == old(self)@[i as int]);
                assert(in_order(upto) == sorted.insert(j as int, pile@));
                assert(self@ =~= (sorted + rest).insert(j as int, pile@));
                assert((sorted + rest).insert(j as int, pile@) =~= sorted.insert(j as int, pile@)
                    + rest);
            }
            i = i + 1;
        }
        proof {
            assert(old(self)@.take(i as int) =~= old(self)@);
            assert(self@ =~= in_order(old(self)@));
        }
    }

    /// The place of the pile of the given name.
    pub fn seat_of(&self, index: PileIndex) -> (place: usize)
        requires
            self.wf(),
        ensures
            place == seat(self@, index),
            place < PILE_COUNT,
    {
        proof {
            lemma_seat(self@, index);
        }
        let mut i: usize = 0;
        while i < self.piles.len() - 1
            invariant
                i < self.piles@.len() == PILE_COUNT,
                self.wf(),
                i <= seat(self@, index) < self@.len(),
            decreases self.piles@.len() - i,
        {
            if self.piles[i].index() == index {
                proof {
                    lemma_seat(self@, index);
                    assert(self@[i as int].index == index);
                }
                return i;
            }
            proof {
                assert(self@[i as int].index != index);
                lemma_seat(self@, index);
            }
            i = i + 1;
        }
        i
    }

    /// Gives up the pile of the given name for `card`: the pile restarts from
    /// that card, and the points of the cards it held are returned.
    pub fn replace_pile(&mut self, index: PileIndex, card: u8) -> (points: u16)
        requires
            old(self).wf(),
        ensures
            final(self).wf(),
            final(self)@ == sacrificed(old(self)@, index, card),
            points == stack_points(old(self)@[seat(old(self)@, index)].cards),
            points <= 6 * PILE_CAPACITY,
    {
        let k = self.seat_of(index);
        proof {
            lemma_sacrificed_wf(self@, index, card);
            assert(self@[k as int].wf());
        }
        let points = self.piles[k].points();
        self.piles[k] = Pile::new(index, card);
        proof {
            let fresh = PileView { index, cards: seq![card] };
            assert(self@ =~= old(self)@.update(k as int, fresh));
            assert forall|a: int| 0 <= a < self@.len() implies (#[trigger] self@[a]).wf() by {
                if a != k {
                    assert(old(self)@[a].wf());
                }
            }
        }
        self.sort();
        points
    }

    /// The cards of each pile, the piles in order of their names.
    pub fn serialize(&self) -> (stacks: Vec<Vec<u8>>)
        requires
            self.wf(),
        ensures
            stacks@.len() == PILE_COUNT,
            forall|n: int|
                0 <= n < PILE_COUNT ==> (#[trigger] stacks@[n])@ == self@[seat(
                    self@,
                    index_at(n).unwrap(),
                )].cards,
    {
        let mut stacks: Vec<Vec<u8>> = Vec::new();
        let names = [PileIndex::Zero, PileIndex::One, PileIndex::Two, PileIndex::Three];
        let mut n: usize = 0;
        while n < PILE_COUNT
            invariant
                n <= PILE_COUNT,
                self.wf(),
                stacks@.len() == n,
                forall|m: int| 0 <= m < PILE_COUNT ==> index_at(m) == Some(#[trigger] names@[m]),
                forall|m: int|
                    0 <= m < n ==> (#[trigger] stacks@[m])@ == self@[seat(
                        self@,
                        index_at(m).unwrap(),
                    )].cards,
            decreases PILE_COUNT - n,
        {
            let k = self.seat_of(names[n]);
            stacks.push(self.piles[k].cards());
            n = n + 1;
        }
        stacks
    }
}

} // verus!
