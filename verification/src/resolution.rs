//! How a round is resolved: the plays are applied to the piles from the
//! lowest card to the highest, and each player is settled in turn.

use vstd::prelude::*;
use vstd::relations::injective_on;
use vstd::set_lib::*;

use crate::cards::{lemma_stack_points_bounds, lemma_without_card, without_card};
use crate::order::{lemma_slot_for, slot_for, strictly_ordered_by};
use crate::pile::{
    converted, lemma_placed_wf, lemma_target, lemma_target_is_tightest, placed, table_wf, target,
    PileView,
};
use crate::player::{PlayerView, MAX_GAIN};
use crate::registry::{
    credited, distinct_ids, lemma_credited_others, lemma_credited_wf, lemma_place_of, place_of,
    player_of, registered, registry_wf,
};
use crate::round::{
    buffer_wf, by_card, entry_of, has_played, lemma_entry_of, lemma_submitted, played_by,
    submitted, PlayView,
};

verus! {

/// Every play comes from a player at the table who holds the card played.
pub open spec fn plays_fit(plays: Seq<PlayView>, players: Seq<PlayerView>) -> bool {
    forall|k: int|
        0 <= k < plays.len() ==> registered(players, (#[trigger] plays[k]).player) && player_of(
            players,
            plays[k].player,
        ).hand.contains(plays[k].card)
}

/// The plays of a round in progress: one at most for each player, from
/// players at the table who hold their cards, in strict order of the cards.
pub open spec fn round_wf(plays: Seq<PlayView>, players: Seq<PlayerView>) -> bool {
    &&& buffer_wf(plays)
    &&& strictly_ordered_by(plays, by_card())
    &&& plays_fit(plays, players)
}

/// The points a placement brings the player: those of the pile it converts.
pub open spec fn gain_of(piles: Seq<PileView>, card: u8) -> nat {
    match converted(piles, card) {
        Some(points) => points,
        None => 0,
    }
}

/// The piles and the players after the plays were applied in their order:
/// each card is placed, and its player gives up the card and takes the points
/// that the placement converted.
pub open spec fn applied(piles: Seq<PileView>, players: Seq<PlayerView>, plays: Seq<PlayView>) -> (
    Seq<PileView>,
    Seq<PlayerView>,
)
    decreases plays.len(),
{
    if plays.len() == 0 {
        (piles, players)
    } else {
        applied(
            placed(piles, plays[0].card),
            credited(players, plays[0].player, plays[0].card, gain_of(piles, plays[0].card)),
            plays.drop_first(),
        )
    }
}

/// The plays can be applied: table, players and plays are valid, and the
/// lowest card lies above the lowest top card.
pub open spec fn resolvable(
    piles: Seq<PileView>,
    players: Seq<PlayerView>,
    plays: Seq<PlayView>,
) -> bool {
    &&& table_wf(piles)
    &&& registry_wf(players)
    &&& round_wf(plays, players)
    &&& plays.len() > 0 ==> piles[0].top() < plays[0].card
}

/// When as many players have played as sit at the table, every player has played.
pub proof fn lemma_full_round(plays: Seq<PlayView>, players: Seq<PlayerView>)
    requires
        buffer_wf(plays),
        distinct_ids(players),
        forall|k: int| 0 <= k < plays.len() ==> registered(players, (#[trigger] plays[k]).player),
        plays.len() == players.len(),
    ensures
        forall|i: int| 0 <= i < players.len() ==> has_played(plays, (#[trigger] players[i]).id),
{
    let n = players.len() as int;
    let entries = set_int_range(0, n);
    let seat_of_entry = |k: int| place_of(players, plays[k].player);
    let seats = entries.map(seat_of_entry);
    lemma_int_range(0, n);
    assert forall|a: int, b: int|
        entries.contains(a) && entries.contains(b) && #[trigger] seat_of_entry(a)
            == #[trigger] seat_of_entry(b) implies a == b by {
        assert(registered(players, plays[a].player));
        assert(registered(players, plays[b].player));
        let s = seat_of_entry(a);
        assert(players[s].id == plays[a].player);
        assert(players[s].id == plays[b].player);
        if a < b {
            assert(plays[a].player != plays[b].player);
        } else if b < a {
            assert(plays[b].player != plays[a].player);
        }
    }
    assert(injective_on(seat_of_entry, entries));
    lemma_map_size(entries, seats, seat_of_entry);
    assert forall|s: int| seats.contains(s) implies entries.contains(s) by {
        let k = choose|k: int| entries.contains(k) && s == seat_of_entry(k);
        assert(registered(players, plays[k].player));
    }
    assert(seats.subset_of(entries));
    lemma_subset_equality(seats, entries);
    assert forall|i: int| 0 <= i < players.len() implies has_played(
        plays,
        (#[trigger] players[i]).id,
    ) by {
        assert(entries.contains(i));
        assert(seats.contains(i));
        let k = choose|k: int| entries.contains(k) && i == seat_of_entry(k);
        assert(registered(players, plays[k].player));
        assert(plays[k].player == players[i].id);
    }
}

/// A card from the hand of a player who has not played yet enters a valid
/// round at a place of its own, and the round stays valid.
pub proof fn lemma_submitted_round(
    plays: Seq<PlayView>,
    players: Seq<PlayerView>,
    id: Seq<char>,
    card: u8,
)
    requires
        registry_wf(players),
        round_wf(plays, players),
        registered(players, id),
        player_of(players, id).hand.contains(card),
        !has_played(plays, id),
    ensures
        round_wf(submitted(plays, id, card), players),
        submitted(plays, id, card).len() == plays.len() + 1,
{
    let play = PlayView { player: id, card };
    let after = submitted(plays, id, card);
    let j = slot_for(plays, play, by_card());
    lemma_slot_for(plays, play, by_card());
    lemma_submitted(plays, id, card);
    assert forall|a: int| 0 <= a < after.len() implies (#[trigger] after[a]) == (if a < j {
        plays[a]
    } else if a == j {
        play
    } else {
        plays[a - 1]
    }) by {}
    assert forall|k: int| 0 <= k < plays.len() implies (#[trigger] plays[k]).card != card by {
        let s = place_of(players, plays[k].player);
        let t = place_of(players, id);
        assert(registered(players, plays[k].player));
        assert(players[s].id != players[t].id);
        assert(players[s].hand.contains(plays[k].card));
        assert(players[t].hand.contains(card));
        if plays[k].card == card {
            assert(!players[t].hand.contains(card));
        }
    }
    assert forall|a: int, b: int| 0 <= a < b < after.len() implies by_card()(after[a]) < by_card()(
        after[b],
    ) by {
        if a == j {
            assert(by_card()(plays[b - 1]) > by_card()(play));
        } else if b == j {
            assert(by_card()(plays[a]) <= by_card()(plays[j - 1]) || a == j - 1) by {
                if a < j - 1 {
                    assert(by_card()(plays[a]) < by_card()(plays[j - 1]));
                }
            }
            assert(plays[a].card != card);
        } else {
            let a0 = if a < j { a } else { a - 1 };
            let b0 = if b < j { b } else { b - 1 };
            assert(by_card()(plays[a0]) < by_card()(plays[b0]));
        }
    }
    assert forall|k: int| 0 <= k < after.len() implies registered(
        players,
        (#[trigger] after[k]).player,
    ) && player_of(players, after[k].player).hand.contains(after[k].card) by {
        if k != j {
            let k0 = if k < j { k } else { k - 1 };
            assert(registered(players, plays[k0].player));
        }
    }
}

/// One step of the resolution: the lowest card has a target, its player is
/// settled, and what is left can be applied to what results.
pub proof fn lemma_resolve_step(
    piles: Seq<PileView>,
    players: Seq<PlayerView>,
    plays: Seq<PlayView>,
)
    requires
        resolvable(piles, players, plays),
        plays.len() > 0,
    ensures
        target(piles, plays[0].card).is_some(),
        gain_of(piles, plays[0].card) <= MAX_GAIN,
        resolvable(
            placed(piles, plays[0].card),
            credited(players, plays[0].player, plays[0].card, gain_of(piles, plays[0].card)),
            plays.drop_first(),
        ),
{
    let first = plays[0];
    let rest = plays.drop_first();
    let gain = gain_of(piles, first.card);
    let piles1 = placed(piles, first.card);
    let players1 = credited(players, first.player, first.card, gain);
    lemma_target(piles, first.card);
    lemma_placed_wf(piles, first.card);
    let t = target(piles, first.card).unwrap();
    assert(piles[t].wf());
    lemma_stack_points_bounds(piles[t].cards);
    assert(registered(players, first.player));
    lemma_credited_wf(players, first.player, first.card, gain);
    assert forall|k: int| 0 <= k < rest.len() implies (#[trigger] rest[k]) == plays[k + 1] by {}
    assert forall|a: int, b: int| 0 <= a < b < rest.len() implies by_card()(rest[a]) < by_card()(
        rest[b],
    ) && by_card()(rest[a]) <= by_card()(rest[b]) && (#[trigger] rest[a]).player != (
    #[trigger] rest[b]).player by {
        assert(by_card()(plays[a + 1]) < by_card()(plays[b + 1]));
        assert(plays[a + 1].player != plays[b + 1].player);
    }
    assert forall|k: int| 0 <= k < rest.len() implies registered(
        players1,
        (#[trigger] rest[k]).player,
    ) && player_of(players1, rest[k].player).hand.contains(rest[k].card) by {
        assert(plays[0].player != plays[k + 1].player);
        assert(registered(players, plays[k + 1].player));
        lemma_credited_others(players, first.player, first.card, gain, rest[k].player);
    }
    if rest.len() > 0 {
        assert(by_card()(plays[0]) < by_card()(plays[1]));
        if t == 0 {
            assert(piles1[0].top() == first.card);
        } else {
            assert(piles1[0] == piles[0]);
        }
    }
}

/// Applying a round that can be applied leaves a valid table and valid
/// players in their seats under their names. Nobody loses points. Who played
/// holds the same hand without the card played, one card less; who did not is
/// as before.
pub proof fn lemma_applied(piles: Seq<PileView>, players: Seq<PlayerView>, plays: Seq<PlayView>)
    requires
        resolvable(piles, players, plays),
    ensures
        table_wf(applied(piles, players, plays).0),
        registry_wf(applied(piles, players, plays).1),
        applied(piles, players, plays).1.len() == players.len(),
        forall|i: int|
            0 <= i < players.len() ==> {
                let after = #[trigger] applied(piles, players, plays).1[i];
                &&& after.id == players[i].id
                &&& after.name == players[i].name
                &&& after.points >= players[i].points
                &&& after.hand == match played_by(plays, players[i].id) {
                    Some(card) => without_card(players[i].hand, card),
                    None => players[i].hand,
                }
                &&& after.hand.len() + (if has_played(plays, players[i].id) {
                    1int
                } else {
                    0int
                }) == players[i].hand.len()
                &&& !has_played(plays, players[i].id) ==> after == players[i]
            },
    decreases plays.len(),
{
    if plays.len() > 0 {
        let first = plays[0];
        let rest = plays.drop_first();
        let gain = gain_of(piles, first.card);
        let piles1 = placed(piles, first.card);
        let players1 = credited(players, first.player, first.card, gain);
        lemma_resolve_step(piles, players, plays);
        lemma_applied(piles1, players1, rest);
        lemma_credited_wf(players, first.player, first.card, gain);
        let done = applied(piles, players, plays).1;
        assert(done == applied(piles1, players1, rest).1);
        assert forall|i: int| 0 <= i < players.len() implies {
            let after = #[trigger] done[i];
            &&& after.id == players[i].id
            &&& after.name == players[i].name
            &&& after.points >= players[i].points
            &&& after.hand == match played_by(plays, players[i].id) {
                Some(card) => without_card(players[i].hand, card),
                None => players[i].hand,
            }
            &&& after.hand.len() + (if has_played(plays, players[i].id) {
                1int
            } else {
                0int
            }) == players[i].hand.len()
            &&& !has_played(plays, players[i].id) ==> after == players[i]
        } by {
            let id = players[i].id;
            assert(players1[i].id == id);
            assert(players[i].wf());
            lemma_without_card(players[i].hand, first.card);
            lemma_place_of(players, i);
            if id == first.player {
                assert(has_played(plays, id));
                lemma_entry_of(plays, 0);
                if has_played(rest, id) {
                    let k = entry_of(rest, id);
                    assert(rest[k] == plays[k + 1]);
                    assert(plays[0].player != plays[k + 1].player);
                }
                assert(players[i].hand.contains(first.card));
            } else {
                assert(players1[i] == players[i]);
                if has_played(plays, id) {
                    let k = entry_of(plays, id);
                    assert(k != 0);
                    assert(rest[k - 1] == plays[k]);
                    assert(has_played(rest, id));
                    lemma_entry_of(plays, k);
                    lemma_entry_of(rest, k - 1);
                }
                if has_played(rest, id) {
                    let k = entry_of(rest, id);
                    assert(rest[k] == plays[k + 1]);
                    assert(has_played(plays, id));
                }
            }
        }
    }
}

/// If the lowest card of a round has a target on an ordered table, every
/// card of the round has one: only the lowest card can be below every pile.
pub proof fn lemma_lowest_blocks(piles: Seq<PileView>, plays: Seq<PlayView>, k: int)
    requires
        table_wf(piles),
        strictly_ordered_by(plays, by_card()),
        0 <= k < plays.len(),
        target(piles, plays[0].card).is_some(),
    ensures
        target(piles, plays[k].card).is_some(),
{
    lemma_target_is_tightest(piles, plays[0].card);
    lemma_target_is_tightest(piles, plays[k].card);
    if k > 0 {
        assert(by_card()(plays[0]) < by_card()(plays[k]));
    }
}

} // verus!
