//! No card is in two places: what leaves the deck lies on one pile or in
//! one hand, and every move of the session keeps it so.

use vstd::prelude::*;

use crate::cards::{
    distinct_cards, lemma_ascending_distinct, lemma_sorted_cards, sorted_cards, stack_points,
    valid_card, HAND_SIZE, PILE_COUNT,
};
use crate::deck::{dealt, lemma_dealt, undealt};
use crate::game::GameView;
use crate::lobby::LobbyView;
use crate::pile::{
    lemma_sacrificed_wf, lemma_seat, lemma_target, placed, sacrificed, seat, seeded, table_wf,
    target, PileIndex, PileView,
};
use crate::player::{hand_from, identity_of, lemma_hand_from, newcomer, PlayerView, MAX_GAIN};
use crate::registry::{
    credited, lemma_credited_wf, place_of, player_of, redealt, registered, registry_wf,
};
use crate::resolution::{applied, gain_of, lemma_resolve_step, resolvable};
use crate::round::{submitted, PlayView};
use crate::state::StateView;
use crate::table::{full_deck, TableView};

verus! {

/// The card lies on one of the piles.
pub open spec fn on_table(piles: Seq<PileView>, card: u8) -> bool {
    exists|i: int| 0 <= i < piles.len() && #[trigger] piles[i].cards.contains(card)
}

/// The card is in one of the hands.
pub open spec fn in_a_hand(players: Seq<PlayerView>, card: u8) -> bool {
    exists|i: int| 0 <= i < players.len() && #[trigger] players[i].hand.contains(card)
}

/// No card lies on two piles.
pub open spec fn piles_apart(piles: Seq<PileView>) -> bool {
    forall|i: int, j: int, c: u8|
        0 <= i < piles.len() && 0 <= j < piles.len() && i != j
            && #[trigger] piles[i].cards.contains(c) ==> !#[trigger] piles[j].cards.contains(c)
}

/// Every card on a pile or in a hand is a valid card that has left the
/// deck, and it is in that one place only: on one pile, or in a hand.
/// Valid players hold no card twice and share none, and a valid deck and
/// valid piles hold no card twice, so with them no card is anywhere twice.
pub open spec fn cards_unique(
    deck: Seq<u8>,
    piles: Seq<PileView>,
    players: Seq<PlayerView>,
) -> bool {
    &&& piles_apart(piles)
    &&& forall|c: u8| #[trigger]
        on_table(piles, c) ==> valid_card(c) && !deck.contains(c) && !in_a_hand(players, c)
    &&& forall|c: u8| #[trigger] in_a_hand(players, c) ==> valid_card(c) && !deck.contains(c)
}

impl TableView {
    /// No card of the table is in two places.
    pub open spec fn fair(self) -> bool {
        cards_unique(self.deck, self.piles, Seq::empty())
    }
}

impl LobbyView {
    /// No card of the lobby is in two places.
    pub open spec fn fair(self) -> bool {
        cards_unique(self.table.deck, self.table.piles, self.players)
    }
}

impl GameView {
    /// No card of the game is in two places.
    pub open spec fn fair(self) -> bool {
        cards_unique(self.table.deck, self.table.piles, self.players)
    }
}

impl StateView {
    /// No card of the session is in two places.
    pub open spec fn fair(self) -> bool {
        match self {
            StateView::Lobby(lobby) => lobby.fair(),
            StateView::Game(game) => game.fair(),
            StateView::GameOver(players) => forall|c: u8| #[trigger]
                in_a_hand(players, c) ==> valid_card(c),
        }
    }
}

/// A table opened from a full deck is fair.
pub proof fn lemma_opened_fair(table: TableView, full: Seq<u8>)
    requires
        distinct_cards(full),
        full.len() >= PILE_COUNT,
        table.opened_from(full),
    ensures
        table.fair(),
{
    let top = dealt(full, PILE_COUNT as nat);
    let seeds = sorted_cards(top);
    lemma_dealt(full, PILE_COUNT as nat);
    lemma_sorted_cards(top);
    lemma_ascending_distinct(seeds);
    let piles = table.piles;
    assert forall|i: int, c: u8|
        0 <= i < piles.len() && #[trigger] piles[i].cards.contains(c) implies c == seeds[i] by {
        let k = choose|k: int| 0 <= k < piles[i].cards.len() && piles[i].cards[k] == c;
    }
    assert forall|i: int, j: int, c: u8|
        0 <= i < piles.len() && 0 <= j < piles.len() && i != j
            && #[trigger] piles[i].cards.contains(c) implies !#[trigger] piles[j].cards.contains(
        c,
    ) by {
        if piles[j].cards.contains(c) {
            assert(seeds[i] == seeds[j]);
        }
    }
    assert forall|c: u8| #[trigger] on_table(piles, c) implies valid_card(c)
        && !table.deck.contains(c) && !in_a_hand(Seq::<PlayerView>::empty(), c) by {
        let i = choose|i: int| 0 <= i < piles.len() && #[trigger] piles[i].cards.contains(c);
        assert(seeds.contains(seeds[i]));
        assert(top.contains(c));
        let k = choose|k: int| 0 <= k < top.len() && top[k] == c;
        assert(valid_card(top[k]));
    }
}

/// The cards on the piles after a placement are the cards before and the
/// card placed, and piles that shared no card share none after a card
/// from elsewhere was placed.
pub proof fn lemma_placed_cards(piles: Seq<PileView>, card: u8)
    requires
        table_wf(piles),
    ensures
        forall|c: u8| #[trigger]
            on_table(placed(piles, card), c) ==> on_table(piles, c) || c == card,
        piles_apart(piles) && !on_table(piles, card) ==> piles_apart(placed(piles, card)),
{
    lemma_target(piles, card);
    let after = placed(piles, card);
    match target(piles, card) {
        None => {},
        Some(t) => {
            assert forall|i: int, c: u8|
                0 <= i < after.len() && #[trigger] after[i].cards.contains(c) implies c == card
                || piles[i].cards.contains(c) by {
                if i == t {
                    let k = choose|k: int| 0 <= k < after[i].cards.len() && after[i].cards[k] == c;
                    if c != card {
                        assert(piles[i].cards[k] == c);
                    }
                }
            }
            assert forall|c: u8| #[trigger] on_table(after, c) implies on_table(piles, c) || c
                == card by {
                let i = choose|i: int|
                    0 <= i < after.len() && #[trigger] after[i].cards.contains(c);
            }
            if piles_apart(piles) && !on_table(piles, card) {
                assert forall|i: int, j: int, c: u8|
                    0 <= i < after.len() && 0 <= j < after.len() && i != j
                        && #[trigger] after[i].cards.contains(c) implies !#[trigger] after[j]
                    .cards.contains(c) by {
                    if after[j].cards.contains(c) {
                        if c == card {
                            if i != t {
                                assert(piles[i].cards.contains(card));
                            } else {
                                assert(piles[j].cards.contains(card));
                            }
                        } else {
                            assert(piles[i].cards.contains(c));
                            assert(piles[j].cards.contains(c));
                        }
                    }
                }
            }
        },
    }
}

/// The cards on the piles after a pile was given up are among the cards
/// before and the card it restarts from, and piles that shared no card share
/// none after the pile restarted from a card from elsewhere.
pub proof fn lemma_sacrificed_cards(piles: Seq<PileView>, index: PileIndex, card: u8)
    requires
        table_wf(piles),
    ensures
        forall|c: u8| #[trigger]
            on_table(sacrificed(piles, index, card), c) ==> on_table(piles, c) || c == card,
        piles_apart(piles) && !on_table(piles, card) ==> piles_apart(
            sacrificed(piles, index, card),
        ),
{
    let fresh = PileView { index, cards: seq![card] };
    let after = sacrificed(piles, index, card);
    lemma_sacrificed_wf(piles, index, card);
    assert forall|c: u8| fresh.cards.contains(c) implies c == card by {
        let i = choose|i: int| 0 <= i < fresh.cards.len() && fresh.cards[i] == c;
    }
    assert forall|a: int, c: u8|
        0 <= a < after.len() && #[trigger] after[a].cards.contains(c) implies (after[a] == fresh
        && c == card) || (after[a] != fresh && on_table(piles, c)) by {
        assert(after.contains(after[a]));
        if after[a] != fresh {
            let b = choose|b: int| 0 <= b < piles.len() && piles[b] == after[a];
            assert(piles[b].cards.contains(c));
        }
    }
    assert forall|c: u8| #[trigger] on_table(after, c) implies on_table(piles, c) || c == card by {
        let a = choose|a: int| 0 <= a < after.len() && #[trigger] after[a].cards.contains(c);
    }
    if piles_apart(piles) && !on_table(piles, card) {
        assert forall|a: int, b: int, c: u8|
            0 <= a < after.len() && 0 <= b < after.len() && a != b
                && #[trigger] after[a].cards.contains(c) implies !#[trigger] after[b]
            .cards.contains(c) by {
            if after[b].cards.contains(c) {
                if a < b {
                    assert(after[a].index != after[b].index);
                } else {
                    assert(after[b].index != after[a].index);
                }
                assert(after.contains(after[a]));
                assert(after.contains(after[b]));
                if after[a] != fresh && after[b] != fresh {
                    let a0 = choose|a0: int| 0 <= a0 < piles.len() && piles[a0] == after[a];
                    let b0 = choose|b0: int| 0 <= b0 < piles.len() && piles[b0] == after[b];
                    assert(piles[a0].cards.contains(c));
                    assert(piles[b0].cards.contains(c));
                }
            }
        }
    }
}

/// After a play was settled the hands hold what they held before, without
/// the card played.
pub proof fn lemma_credited_cards(players: Seq<PlayerView>, id: Seq<char>, card: u8, gain: nat)
    requires
        registry_wf(players),
        registered(players, id),
        player_of(players, id).hand.contains(card),
        gain <= MAX_GAIN,
    ensures
        forall|c: u8| #[trigger]
            in_a_hand(credited(players, id, card, gain), c) ==> in_a_hand(players, c) && c != card,
{
    let after = credited(players, id, card, gain);
    lemma_credited_wf(players, id, card, gain);
    assert forall|c: u8| #[trigger] in_a_hand(after, c) implies in_a_hand(players, c) && c
        != card by {
        let i = choose|i: int| 0 <= i < after.len() && #[trigger] after[i].hand.contains(c);
        assert(after[i].hand.contains(c));
        assert(players[i].hand.contains(c));
        assert(!after[i].hand.contains(card));
    }
}

/// Placing a card from a hand and settling its player keeps the cards unique.
pub proof fn lemma_step_unique(
    deck: Seq<u8>,
    piles: Seq<PileView>,
    players: Seq<PlayerView>,
    id: Seq<char>,
    card: u8,
    gain: nat,
)
    requires
        table_wf(piles),
        registry_wf(players),
        registered(players, id),
        player_of(players, id).hand.contains(card),
        gain <= MAX_GAIN,
        cards_unique(deck, piles, players),
    ensures
        cards_unique(deck, placed(piles, card), credited(players, id, card, gain)),
{
    let s = place_of(players, id);
    assert(players[s].hand.contains(card));
    assert(in_a_hand(players, card));
    lemma_placed_cards(piles, card);
    lemma_credited_cards(players, id, card, gain);
    let piles1 = placed(piles, card);
    let players1 = credited(players, id, card, gain);
    assert forall|c: u8| #[trigger] on_table(piles1, c) implies valid_card(c) && !deck.contains(c)
        && !in_a_hand(players1, c) by {
        if in_a_hand(players1, c) {
            assert(in_a_hand(players, c) && c != card);
        }
    }
    assert forall|c: u8| #[trigger] in_a_hand(players1, c) implies valid_card(c) && !deck.contains(
        c,
    ) by {
        assert(in_a_hand(players, c));
    }
}

/// Applying a round keeps the cards unique.
pub proof fn lemma_applied_unique(
    deck: Seq<u8>,
    piles: Seq<PileView>,
    players: Seq<PlayerView>,
    plays: Seq<PlayView>,
)
    requires
        resolvable(piles, players, plays),
        cards_unique(deck, piles, players),
    ensures
        cards_unique(deck, applied(piles, players, plays).0, applied(piles, players, plays).1),
    decreases plays.len(),
{
    if plays.len() > 0 {
        let first = plays[0];
        let gain = gain_of(piles, first.card);
        lemma_resolve_step(piles, players, plays);
        assert(registered(players, first.player));
        lemma_step_unique(deck, piles, players, first.player, first.card, gain);
        lemma_applied_unique(
            deck,
            placed(piles, first.card),
            credited(players, first.player, first.card, gain),
            plays.drop_first(),
        );
    }
}

/// A newcomer dealt from the deck keeps the cards unique.
pub proof fn lemma_join_fair(lobby: LobbyView, name: Seq<char>)
    requires
        lobby.wf(),
        lobby.fair(),
        lobby.join_error(name).is_none(),
    ensures
        lobby.after_join(name).fair(),
        lobby.stocked() ==> lobby.after_join(name).stocked(),
{
    let deck = lobby.table.deck;
    let after = lobby.after_join(name);
    let fresh = newcomer(identity_of(name), name, deck);
    lemma_hand_from(deck);
    lemma_dealt(deck, HAND_SIZE as nat);
    assert forall|c: u8| #[trigger] in_a_hand(after.players, c) implies valid_card(c)
        && !after.table.deck.contains(c) && !on_table(lobby.table.piles, c) by {
        let i = choose|i: int|
            0 <= i < after.players.len() && #[trigger] after.players[i].hand.contains(c);
        if i < lobby.players.len() {
            assert(lobby.players[i].hand.contains(c));
            assert(in_a_hand(lobby.players, c));
            if after.table.deck.contains(c) {
                assert(deck.contains(c));
            }
        } else {
            assert(fresh.hand.contains(c));
            assert(deck.contains(c));
            let k = choose|k: int| 0 <= k < deck.len() && deck[k] == c;
            assert(valid_card(deck[k]));
        }
    }
    assert forall|c: u8| #[trigger] on_table(after.table.piles, c) implies valid_card(c)
        && !after.table.deck.contains(c) && !in_a_hand(after.players, c) by {
        if after.table.deck.contains(c) {
            assert(deck.contains(c));
        }
    }
}

/// A game that starts from a fair lobby is fair.
pub proof fn lemma_started_fair(lobby: LobbyView)
    requires
        lobby.fair(),
    ensures
        lobby.started().fair(),
{
}

/// Submitting an accepted card keeps a fair game fair.
pub proof fn lemma_after_play_fair(game: GameView, id: Seq<char>, card: u8)
    requires
        game.wf(),
        game.fair(),
        game.play_error(id, card).is_none(),
    ensures
        game.after_play(id, card).fair(),
{
    let plays = submitted(game.turn.plays(), id, card);
    crate::resolution::lemma_submitted_round(game.turn.plays(), game.players, id, card);
    if plays.len() == game.players.len() && target(game.table.piles, plays[0].card).is_some() {
        crate::pile::lemma_target_is_tightest(game.table.piles, plays[0].card);
        lemma_applied_unique(game.table.deck, game.table.piles, game.players, plays);
    }
}

/// Giving up a pile when that is awaited keeps a fair game fair.
pub proof fn lemma_after_choice_fair(game: GameView, index: PileIndex)
    requires
        game.wf(),
        game.fair(),
        game.turn is PileSelection,
    ensures
        game.after_choice(index).fair(),
{
    let plays = game.turn.plays();
    let first = plays[0];
    let piles = game.table.piles;
    let players = game.players;
    let deck = game.table.deck;
    lemma_seat(piles, index);
    let given = piles[seat(piles, index)];
    assert(given.wf());
    crate::cards::lemma_stack_points_bounds(given.cards);
    let gain = stack_points(given.cards);
    let piles1 = sacrificed(piles, index, first.card);
    let players1 = credited(players, first.player, first.card, gain);
    assert(registered(players, first.player));
    let s = place_of(players, first.player);
    assert(players[s].hand.contains(first.card));
    assert(in_a_hand(players, first.card));
    lemma_sacrificed_cards(piles, index, first.card);
    lemma_credited_cards(players, first.player, first.card, gain);
    assert forall|c: u8| #[trigger] on_table(piles1, c) implies valid_card(c) && !deck.contains(c)
        && !in_a_hand(players1, c) by {
        if in_a_hand(players1, c) {
            assert(in_a_hand(players, c) && c != first.card);
        }
    }
    assert forall|c: u8| #[trigger] in_a_hand(players1, c) implies valid_card(c) && !deck.contains(
        c,
    ) by {
        assert(in_a_hand(players, c));
    }
    crate::game::lemma_after_choice_resolvable(game, index);
    lemma_applied_unique(deck, piles1, players1, plays.drop_first());
}

/// The final scores of a fair game hold valid cards only.
pub proof fn lemma_settled_fair(game: GameView)
    requires
        game.fair(),
    ensures
        StateView::settled(game).fair(),
{
}

/// A lobby that a restart leads to is fair, and its deck holds a hand for
/// every free seat.
pub proof fn lemma_reopened_fair(players: Seq<PlayerView>, lobby: LobbyView)
    requires
        registry_wf(players),
        StateView::reopened(players, lobby),
    ensures
        lobby.fair(),
        lobby.stocked(),
{
    let full = choose|full: Seq<u8>|
        {
            &&& full_deck(full)
            &&& #[trigger] redealt(players, undealt(full, PILE_COUNT as nat)) == lobby.players
            &&& lobby.table.piles == seeded(sorted_cards(dealt(full, PILE_COUNT as nat)))
            &&& lobby.table.deck == undealt(
                undealt(full, PILE_COUNT as nat),
                (HAND_SIZE * players.len()) as nat,
            )
        };
    let deck = undealt(full, PILE_COUNT as nat);
    let opened = TableView { deck, piles: lobby.table.piles };
    lemma_opened_fair(opened, full);
    lemma_dealt(full, PILE_COUNT as nat);
    lemma_dealt(deck, (HAND_SIZE * players.len()) as nat);
    crate::registry::lemma_redealt_wf(players, deck);
    assert forall|c: u8| #[trigger] in_a_hand(lobby.players, c) implies valid_card(c)
        && !lobby.table.deck.contains(c) && deck.contains(c) by {
        let i = choose|i: int|
            0 <= i < lobby.players.len() && #[trigger] lobby.players[i].hand.contains(c);
        lemma_dealt(deck, (HAND_SIZE * i) as nat);
        lemma_hand_from(undealt(deck, (HAND_SIZE * i) as nat));
        assert(hand_from(undealt(deck, (HAND_SIZE * i) as nat)).contains(c));
        assert(undealt(deck, (HAND_SIZE * i) as nat).contains(c));
        assert(deck.contains(c));
        let k = choose|k: int| 0 <= k < deck.len() && deck[k] == c;
        assert(valid_card(deck[k]));
    }
    assert forall|c: u8| #[trigger] on_table(lobby.table.piles, c) implies valid_card(c)
        && !lobby.table.deck.contains(c) && !in_a_hand(lobby.players, c) by {
        assert(!deck.contains(c));
        if lobby.table.deck.contains(c) {
            assert(deck.contains(c));
        }
    }
}

/// While a seat is free in a stocked lobby, whoever comes under a name whose
/// identity is not taken can join.
pub proof fn lemma_join_succeeds(lobby: LobbyView, name: Seq<char>)
    requires
        lobby.stocked(),
        lobby.players.len() < crate::player::MAX_PLAYERS,
        !registered(lobby.players, identity_of(name)),
    ensures
        lobby.join_error(name).is_none(),
{
}

} // verus!
