//! A game in progress: the table, the players, the turn and the round.

use vstd::pervasive::unreached;
use vstd::prelude::*;

use crate::cards::{lemma_stack_points_bounds, stack_points, HAND_SIZE};
use crate::pile::{
    by_top, lemma_sacrificed_wf, lemma_seat, lemma_target_is_tightest, sacrificed, seat, target,
    PileIndex, PileView, Piles,
};
use crate::player::{same_text, Player, PlayerView, MAX_GAIN};
use crate::registry::{
    all_fresh, credited, lemma_credited_others, lemma_credited_wf, lemma_place_of, player_of,
    registered, registry_wf, PlayerMapping,
};
use crate::resolution::{
    applied, lemma_applied, lemma_full_round, lemma_resolve_step, lemma_submitted_round,
    resolvable, round_wf,
};
use crate::round::{
    by_card, entry_of, has_played, lemma_entry_of, played_by, submitted, CardPlay, PlacementError,
    PlayView, Round, Turn, TurnView, LAST_ROUND,
};
use crate::table::{Table, TableView};
use crate::view::{PlayedState, PlayerStatus, TurnPhase};

verus! {

/// What a game is.
pub struct GameView {
    pub table: TableView,
    pub players: Seq<PlayerView>,
    pub turn: TurnView,
    pub round: nat,
}

impl GameView {
    /// Table and players are valid; the round is one of the game, or the one
    /// after the last; every player holds the cards not yet played; the plays
    /// of the round are valid; and a pending pile choice belongs to the
    /// player of the lowest card, when every player has played and no pile
    /// takes that card.
    pub open spec fn wf(self) -> bool {
        &&& self.table.wf()
        &&& registry_wf(self.players)
        &&& 1 <= self.round <= LAST_ROUND + 1
        &&& forall|i: int|
            0 <= i < self.players.len() ==> (#[trigger] self.players[i]).hand.len() + self.round
                == HAND_SIZE + 1
        &&& round_wf(self.turn.plays(), self.players)
        &&& match self.turn {
            TurnView::CardPlay(_) => true,
            TurnView::PileSelection(id, plays) => {
                &&& plays.len() == self.players.len()
                &&& plays.len() > 0
                &&& plays[0].player == id
                &&& target(self.table.piles, plays[0].card).is_none()
            },
        }
    }

    /// Why the card of the player is turned down, if it is.
    pub open spec fn play_error(self, id: Seq<char>, card: u8) -> Option<PlacementError> {
        match self.turn {
            TurnView::PileSelection(_, _) => Some(PlacementError::PlacementOutOfTurn),
            TurnView::CardPlay(plays) => {
                if !registered(self.players, id) {
                    Some(PlacementError::NoUser)
                } else if !player_of(self.players, id).hand.contains(card) {
                    Some(PlacementError::CardNotInHand)
                } else if has_played(plays, id) {
                    Some(PlacementError::RepeatedPlacement)
                } else {
                    None
                }
            },
        }
    }

    /// The game after the plays of a full round were applied: the next round
    /// begins with nothing played.
    pub open spec fn resolved(self, piles: Seq<PileView>, players: Seq<PlayerView>) -> GameView {
        GameView {
            table: TableView { deck: self.table.deck, piles },
            players,
            turn: TurnView::CardPlay(Seq::empty()),
            round: self.round + 1,
        }
    }

    /// The game after the player submitted the card. While somebody has yet
    /// to play, the card waits with the others. Once everybody has played,
    /// the round is applied, unless no pile takes the lowest card: then its
    /// player has to give up a pile first.
    pub open spec fn after_play(self, id: Seq<char>, card: u8) -> GameView {
        let plays = submitted(self.turn.plays(), id, card);
        if plays.len() != self.players.len() {
            GameView {
                table: self.table,
                players: self.players,
                turn: TurnView::CardPlay(plays),
                round: self.round,
            }
        } else if target(self.table.piles, plays[0].card).is_none() {
            GameView {
                table: self.table,
                players: self.players,
                turn: TurnView::PileSelection(plays[0].player, plays),
                round: self.round,
            }
        } else {
            let done = applied(self.table.piles, self.players, plays);
            self.resolved(done.0, done.1)
        }
    }

    /// Why the pile choice of the player is turned down, if it is.
    pub open spec fn choice_error(self, id: Seq<char>) -> Option<PlacementError> {
        match self.turn {
            TurnView::CardPlay(_) => Some(PlacementError::PlacementOutOfTurn),
            TurnView::PileSelection(blocked, _) => {
                if blocked == id {
                    None
                } else if registered(self.players, id) {
                    Some(PlacementError::WrongPlayer)
                } else {
                    Some(PlacementError::NoUser)
                }
            },
        }
    }

    /// The game after the blocked player gave up the pile of the given name:
    /// the pile restarts from the lowest card, its points go to that player,
    /// and the other plays are applied.
    pub open spec fn after_choice(self, index: PileIndex) -> GameView {
        let plays = self.turn.plays();
        let gain = stack_points(self.table.piles[seat(self.table.piles, index)].cards);
        let done = applied(
            sacrificed(self.table.piles, index, plays[0].card),
            credited(self.players, plays[0].player, plays[0].card, gain),
            plays.drop_first(),
        );
        self.resolved(done.0, done.1)
    }
}

/// Applying a full round that can be applied to a valid game gives a valid
/// game in the next round.
proof fn lemma_resolved_wf(
    game: GameView,
    piles: Seq<PileView>,
    players: Seq<PlayerView>,
    plays: Seq<PlayView>,
)
    requires
        game.table.wf(),
        1 <= game.round <= LAST_ROUND,
        resolvable(piles, players, plays),
        forall|i: int|
            0 <= i < players.len() ==> (#[trigger] players[i]).hand.len() + (if has_played(
                plays,
                players[i].id,
            ) {
                0int
            } else {
                1int
            }) + game.round == HAND_SIZE + 1,
    ensures
        game.resolved(applied(piles, players, plays).0, applied(piles, players, plays).1).wf(),
{
    lemma_applied(piles, players, plays);
    let after = applied(piles, players, plays).1;
    assert forall|i: int| 0 <= i < after.len() implies (#[trigger] after[i]).hand.len() + game.round
        + 1 == HAND_SIZE + 1 by {
        assert(players[i].hand.len() >= 0);
    }
}

/// Submitting an accepted card keeps a valid game valid.
pub proof fn lemma_after_play_wf(game: GameView, id: Seq<char>, card: u8)
    requires
        game.wf(),
        game.play_error(id, card).is_none(),
    ensures
        game.after_play(id, card).wf(),
{
    let plays = submitted(game.turn.plays(), id, card);
    lemma_submitted_round(game.turn.plays(), game.players, id, card);
    if plays.len() == game.players.len() && target(game.table.piles, plays[0].card).is_some() {
        lemma_target_is_tightest(game.table.piles, plays[0].card);
        lemma_full_round(plays, game.players);
        let s = crate::registry::place_of(game.players, id);
        assert(game.players[s].hand.len() >= 1);
        lemma_resolved_wf(game, game.table.piles, game.players, plays);
    }
}

/// Giving up a pile when that is awaited keeps a valid game valid.
pub proof fn lemma_after_choice_wf(game: GameView, index: PileIndex)
    requires
        game.wf(),
        game.turn is PileSelection,
    ensures
        game.after_choice(index).wf(),
{
    let plays = game.turn.plays();
    let first = plays[0];
    let rest = plays.drop_first();
    let piles = game.table.piles;
    lemma_seat(piles, index);
    let given = piles[seat(piles, index)];
    assert(given.wf());
    lemma_stack_points_bounds(given.cards);
    let gain = stack_points(given.cards);
    let piles1 = sacrificed(piles, index, first.card);
    let players1 = credited(game.players, first.player, first.card, gain);
    lemma_after_choice_resolvable(game, index);
    assert(registered(game.players, first.player));
    lemma_credited_wf(game.players, first.player, first.card, gain);
    assert forall|k: int| 0 <= k < rest.len() implies (#[trigger] rest[k]) == plays[k + 1] by {}
    assert(resolvable(piles1, players1, rest));
    assert forall|k: int| 0 <= k < plays.len() implies registered(
        players1,
        (#[trigger] plays[k]).player,
    ) by {
        assert(registered(game.players, plays[k].player));
        lemma_credited_others(game.players, first.player, first.card, gain, plays[k].player);
    }
    let s = crate::registry::place_of(game.players, first.player);
    assert(game.players[s].hand.len() >= 1);
    assert forall|i: int| 0 <= i < players1.len() implies (#[trigger] players1[i]).hand.len() + (
    if has_played(rest, players1[i].id) {
        0int
    } else {
        1int
    }) + game.round == HAND_SIZE + 1 by {
        let id = game.players[i].id;
        assert(players1[i].id == id);
        lemma_place_of(game.players, i);
        lemma_full_round(plays, game.players);
        assert(has_played(plays, id));
        let k = entry_of(plays, id);
        crate::cards::lemma_without_card(game.players[i].hand, first.card);
        if id == first.player {
            if has_played(rest, id) {
                let r = entry_of(rest, id);
                assert(rest[r] == plays[r + 1]);
                assert(plays[0].player != plays[r + 1].player);
            }
        } else {
            assert(k != 0);
            assert(rest[k - 1] == plays[k]);
            assert(has_played(rest, id));
        }
    }
    lemma_resolved_wf(game, piles1, players1, rest);
}

/// A game in progress.
#[derive(Debug)]
pub struct Game {
    table: Table,
    players: PlayerMapping,
    turn: Turn,
    round: Round,
}

impl View for Game {
    type V = GameView;

    closed spec fn view(&self) -> GameView {
        GameView {
            table: self.table@,
            players: self.players@,
            turn: self.turn@,
            round: self.round.0 as nat,
        }
    }
}

impl Game {
    /// The game is valid.
    pub open spec fn wf(&self) -> bool {
        self@.wf()
    }

    /// A game in its first round, with nothing played.
    pub fn new(table: Table, players: PlayerMapping) -> (game: Game)
        requires
            table.wf(),
            players.wf(),
            all_fresh(players@),
        ensures
            game@ == (GameView {
                table: table@,
                players: players@,
                turn: TurnView::CardPlay(Seq::empty()),
                round: 1,
            }),
            game.wf(),
    {
        Game { table, players, turn: Turn::CardPlay(CardPlay::new()), round: Round(1) }
    }

    /// Play a card as a user.
    ///
    /// Returns `Ok(true)` if the game is over.
    pub fn play_card(&mut self, user_id: &str, card: u8) -> (done: Result<bool, PlacementError>)
        requires
            old(self).wf(),
        ensures
            final(self).wf(),
            match done {
                Ok(over) => {
                    &&& old(self)@.play_error(user_id@, card).is_none()
                    &&& final(self)@ == old(self)@.after_play(user_id@, card)
                    &&& over == (final(self)@.round > LAST_ROUND)
                },
                Err(e) => {
                    &&& old(self)@.play_error(user_id@, card) == Some(e)
                    &&& final(self)@ == old(self)@
                },
            },
    {
        match &self.turn {
            Turn::PileSelection(_, _) => {
                return Err(PlacementError::PlacementOutOfTurn);
            },
            Turn::CardPlay(_) => {},
        }
        match self.players.get(user_id) {
            None => {
                return Err(PlacementError::NoUser);
            },
            Some(player) => {
                if !player.holds(card) {
                    return Err(PlacementError::CardNotInHand);
                }
            },
        }
        let mut turn = Turn::CardPlay(CardPlay::new());
        core::mem::swap(&mut self.turn, &mut turn);
        match turn {
            Turn::CardPlay(mut plays) => {
                match plays.play_card(user_id.to_owned(), card) {
                    Err(e) => {
                        self.turn = Turn::CardPlay(plays);
                        Err(e)
                    },
                    Ok(_) => {
                        proof {
                            lemma_after_play_wf(old(self)@, user_id@, card);
                            lemma_submitted_round(
                                old(self)@.turn.plays(),
                                old(self)@.players,
                                user_id@,
                                card,
                            );
                        }
                        if plays.num() != self.players.num() {
                            self.turn = Turn::CardPlay(plays);
                            Ok(false)
                        } else {
                            let lowest = plays.play_at(0);
                            if !self.table.piles().can_place(lowest.1) {
                                let blocked = lowest.0.clone();
                                self.turn = Turn::PileSelection(blocked, plays);
                                Ok(false)
                            } else {
                                proof {
                                    lemma_target_is_tightest(self@.table.piles, plays@[0].card);
                                }
                                self.apply_card_play(&plays);
                                Ok(self.round.inc())
                            }
                        }
                    },
                }
            },
            Turn::PileSelection(_, _) => unreached(),
        }
    }

    /// Selects a pile for a player (turning that pile into points)
    ///
    /// Returns `Ok(true)` if the game is over
    pub fn select_pile(&mut self, user_id: &str, pile_index: PileIndex) -> (done: Result<
        bool,
        PlacementError,
    >)
        requires
            old(self).wf(),
        ensures
            final(self).wf(),
            match done {
                Ok(over) => {
                    &&& old(self)@.choice_error(user_id@).is_none()
                    &&& final(self)@ == old(self)@.after_choice(pile_index)
                    &&& over == (final(self)@.round > LAST_ROUND)
                },
                Err(e) => {
                    &&& old(self)@.choice_error(user_id@) == Some(e)
                    &&& final(self)@ == old(self)@
                },
            },
    {
        match &self.turn {
            Turn::CardPlay(_) => {
                return Err(PlacementError::PlacementOutOfTurn);
            },
            Turn::PileSelection(blocked, _) => {
                if !same_text(blocked.as_str(), user_id) {
                    if self.players.seat_of(user_id).is_some() {
                        return Err(PlacementError::WrongPlayer);
                    } else {
                        return Err(PlacementError::NoUser);
                    }
                }
            },
        }
        let mut turn = Turn::CardPlay(CardPlay::new());
        core::mem::swap(&mut self.turn, &mut turn);
        match turn {
            Turn::PileSelection(_, mut plays) => {
                proof {
                    lemma_after_choice_wf(old(self)@, pile_index);
                    lemma_entry_of(plays@, 0);
                    assert(plays@.remove(0) =~= plays@.drop_first());
                    let piles = old(self)@.table.piles;
                    lemma_seat(piles, pile_index);
                    assert(piles[seat(piles, pile_index)].wf());
                    lemma_stack_points_bounds(piles[seat(piles, pile_index)].cards);
                    assert(registered(old(self)@.players, plays@[0].player));
                }
                let card = plays.remove_card(user_id).unwrap();
                let points = self.table.piles_mut().replace_pile(pile_index, card);
                self.apply_play_to_user(user_id, card, Some(points));
                proof {
                    lemma_after_choice_resolvable(old(self)@, pile_index);
                }
                self.apply_card_play(&plays);
                Ok(self.round.inc())
            },
            Turn::CardPlay(_) => unreached(),
        }
    }

    /// Applies the plays of a round to the piles, from the lowest card to the
    /// highest, and settles each player.
    fn apply_card_play(&mut self, cp: &CardPlay)
        requires
            resolvable(old(self)@.table.piles, old(self)@.players, cp@),
        ensures
            final(self)@.table.piles == applied(old(self)@.table.piles, old(self)@.players, cp@).0,
            final(self)@.players == applied(old(self)@.table.piles, old(self)@.players, cp@).1,
            final(self)@.table.deck == old(self)@.table.deck,
            final(self)@.turn == old(self)@.turn,
            final(self)@.round == old(self)@.round,
    {
        let mut k: usize = 0;
        assert(cp@.skip(0) =~= cp@);
        while k < cp.num()
            invariant
                k <= cp@.len(),
                resolvable(self@.table.piles, self@.players, cp@.skip(k as int)),
                applied(self@.table.piles, self@.players, cp@.skip(k as int)) == applied(
                    old(self)@.table.piles,
                    old(self)@.players,
                    cp@,
                ),
                self@.table.deck == old(self)@.table.deck,
                self@.turn == old(self)@.turn,
                self@.round == old(self)@.round,
            decreases cp@.len() - k,
        {
            let play = cp.play_at(k);
            proof {
                let rest = cp@.skip(k as int);
                assert(rest[0] == cp@[k as int]);
                assert(rest.drop_first() =~= cp@.skip(k + 1));
                lemma_resolve_step(self@.table.piles, self@.players, rest);
                assert(registered(self@.players, rest[0].player));
            }
            let outcome = self.table.piles_mut().place(play.1);
            let points = outcome.unwrap();
            self.apply_play_to_user(play.0.as_str(), play.1, points);
            k = k + 1;
        }
    }

    /// Settles one play: the player gives up the card and takes the points.
    fn apply_play_to_user(&mut self, user_id: &str, card: u8, points: Option<u16>)
        requires
            registry_wf(old(self)@.players),
            registered(old(self)@.players, user_id@),
            player_of(old(self)@.players, user_id@).hand.contains(card),
            points matches Some(p) ==> p <= MAX_GAIN,
        ensures
            final(self)@.players == credited(
                old(self)@.players,
                user_id@,
                card,
                match points {
                    Some(p) => p as nat,
                    None => 0,
                },
            ),
            final(self)@.table == old(self)@.table,
            final(self)@.turn == old(self)@.turn,
            final(self)@.round == old(self)@.round,
    {
        let gain: u16 = match points {
            Some(p) => p,
            None => 0,
        };
        self.players.settle(user_id, card, gain);
    }
}

/// After the blocked player gave up a pile and was settled, the other plays
/// can be applied.
pub proof fn lemma_after_choice_resolvable(game: GameView, index: PileIndex)
    requires
        game.wf(),
        game.turn is PileSelection,
    ensures
        resolvable(
            sacrificed(game.table.piles, index, game.turn.plays()[0].card),
            credited(
                game.players,
                game.turn.plays()[0].player,
                game.turn.plays()[0].card,
                stack_points(game.table.piles[seat(game.table.piles, index)].cards),
            ),
            game.turn.plays().drop_first(),
        ),
{
    let plays = game.turn.plays();
    let first = plays[0];
    let rest = plays.drop_first();
    let piles = game.table.piles;
    lemma_seat(piles, index);
    let given = piles[seat(piles, index)];
    assert(given.wf());
    lemma_stack_points_bounds(given.cards);
    let gain = stack_points(given.cards);
    let piles1 = sacrificed(piles, index, first.card);
    let players1 = credited(game.players, first.player, first.card, gain);
    lemma_sacrificed_wf(piles, index, first.card);
    assert(registered(game.players, first.player));
    lemma_credited_wf(game.players, first.player, first.card, gain);
    assert forall|k: int| 0 <= k < rest.len() implies (#[trigger] rest[k]) == plays[k + 1] by {}
    assert forall|a: int, b: int| 0 <= a < b < rest.len() implies by_card()(rest[a]) < by_card()(
        rest[b],
    ) && by_card()(rest[a]) <= by_card()(rest[b]) && (#[trigger] rest[a]).player != (
    #[trigger] rest[b]).player by {
        assert(by_card()(plays[a + 1]) < by_card()(plays[b + 1]));
        assert(plays[a + 1].player != plays[b + 1].player);
    }
    assert forall|k: int| 0 <= k < rest.len() implies registered(
        players1,
        (#[trigger] rest[k]).player,
    ) && player_of(players1, rest[k].player).hand.contains(rest[k].card) by {
        assert(plays[0].player != plays[k + 1].player);
        assert(registered(game.players, plays[k + 1].player));
        lemma_credited_others(game.players, first.player, first.card, gain, rest[k].player);
    }
    if rest.len() > 0 {
        let fresh = PileView { index, cards: seq![first.card] };
        assert(piles1.contains(fresh));
        let j = choose|j: int| 0 <= j < piles1.len() && piles1[j] == fresh;
        if j > 0 {
            assert(by_top()(piles1[0]) <= by_top()(piles1[j]));
        }
        assert(by_card()(plays[0]) < by_card()(plays[1]));
    }
}

impl GameView {
    /// What the player has to do in the round.
    pub open spec fn played_state_of(self, id: Seq<char>) -> PlayedState {
        match self.turn {
            TurnView::CardPlay(plays) => if has_played(plays, id) {
                PlayedState::Played
            } else {
                PlayedState::MustPlay
            },
            TurnView::PileSelection(blocked, _) => if blocked == id {
                PlayedState::MustPickPile
            } else {
                PlayedState::Played
            },
        }
    }

    /// What the round awaits, seen from the player.
    pub open spec fn phase_for(self, id: Seq<char>) -> TurnPhase {
        match self.turn {
            TurnView::CardPlay(_) => TurnPhase::Play,
            TurnView::PileSelection(blocked, _) => if blocked == id {
                TurnPhase::SelectPile
            } else {
                TurnPhase::OtherSelectPile
            },
        }
    }

    /// Tells of a player whether the round waits for them.
    pub open spec fn is_awaited(self) -> spec_fn(PlayerView) -> bool {
        |player: PlayerView| self.played_state_of(player.id) != PlayedState::Played
    }

    /// The players the round waits for, in the order of their seats.
    pub open spec fn awaited(self) -> Seq<PlayerView> {
        self.players.filter(self.is_awaited())
    }

    /// The status shows the player at the seat to the player who asks.
    pub open spec fn shows(
        self,
        status: PlayerStatus,
        seat: int,
        me: Seq<char>,
        online: Seq<String>,
    ) -> bool {
        &&& status.name@ == self.players[seat].name
        &&& status.points == self.players[seat].points
        &&& status.me == (self.players[seat].id == me)
        &&& status.played == self.played_state_of(self.players[seat].id)
        &&& status.online == listed(online, self.players[seat].id)
    }
}

/// The identity is among those listed.
pub open spec fn listed(ids: Seq<String>, id: Seq<char>) -> bool {
    exists|k: int| 0 <= k < ids.len() && (#[trigger] ids[k])@ == id
}

/// Tells whether the identity is among those listed.
pub fn is_listed(ids: &Vec<String>, id: &str) -> (found: bool)
    ensures
        found == listed(ids@, id@),
{
    let mut k: usize = 0;
    while k < ids.len()
        invariant
            k <= ids@.len(),
            forall|a: int| 0 <= a < k ==> (#[trigger] ids@[a])@ != id@,
        decreases ids@.len() - k,
    {
        if same_text(ids[k].as_str(), id) {
            return true;
        }
        k = k + 1;
    }
    false
}

impl Game {
    /// The players of the game.
    pub fn player_mapping(&self) -> (players: &PlayerMapping)
        ensures
            players@ == self@.players,
    {
        &self.players
    }

    /// The round being played.
    pub fn round(&self) -> (round: Round)
        ensures
            round.0 == self@.round,
    {
        self.round
    }

    /// What the table is waiting for.
    pub fn turn(&self) -> (turn: &Turn)
        ensures
            turn@ == self@.turn,
    {
        &self.turn
    }

    /// The piles of the table.
    pub fn piles(&self) -> (piles: &Piles)
        ensures
            piles@ == self@.table.piles,
    {
        self.table.piles()
    }

    /// The hand of the player with the identity, if there is such a player.
    pub fn hand_for(&self, user_id: &str) -> (hand: Option<&Vec<u8>>)
        requires
            self.wf(),
        ensures
            match hand {
                Some(cards) => registered(self@.players, user_id@) && cards@ == player_of(
                    self@.players,
                    user_id@,
                ).hand,
                None => !registered(self@.players, user_id@),
            },
    {
        match self.players.get(user_id) {
            Some(player) => Some(player.hand()),
            None => None,
        }
    }

    /// The player with the identity, if there is one.
    pub fn get_player(&self, user_id: &str) -> (player: Option<&Player>)
        requires
            self.wf(),
        ensures
            match player {
                Some(p) => registered(self@.players, user_id@) && p@ == player_of(
                    self@.players,
                    user_id@,
                ),
                None => !registered(self@.players, user_id@),
            },
    {
        self.players.get(user_id)
    }

    /// Get the card played in this round by this user if they've played
    pub fn played_card_for(&self, user_id: &str) -> (card: Option<u8>)
        requires
            self.wf(),
        ensures
            card == played_by(self@.turn.plays(), user_id@),
    {
        self.turn.played_card_for(user_id)
    }

    /// What the player has to do in the round.
    pub fn played_state(&self, user_id: &str) -> (state: PlayedState)
        requires
            self.wf(),
        ensures
            state == self@.played_state_of(user_id@),
    {
        match &self.turn {
            Turn::CardPlay(plays) => {
                if plays.played_card_for(user_id).is_some() {
                    PlayedState::Played
                } else {
                    PlayedState::MustPlay
                }
            },
            Turn::PileSelection(blocked, _) => {
                if same_text(blocked.as_str(), user_id) {
                    PlayedState::MustPickPile
                } else {
                    PlayedState::Played
                }
            },
        }
    }

    /// What the round awaits, seen from the player.
    pub fn turn_phase(&self, user_id: &str) -> (phase: TurnPhase)
        ensures
            phase == self@.phase_for(user_id@),
    {
        match &self.turn {
            Turn::CardPlay(_) => TurnPhase::Play,
            Turn::PileSelection(blocked, _) => {
                if same_text(blocked.as_str(), user_id) {
                    TurnPhase::SelectPile
                } else {
                    TurnPhase::OtherSelectPile
                }
            },
        }
    }

    /// Every player as shown to the player who asks, in the order of the seats.
    pub fn serialize_players(&self, current_user_id: &str, online_users: &Vec<String>) -> (statuses:
        Vec<PlayerStatus>)
        requires
            self.wf(),
        ensures
            statuses@.len() == self@.players.len(),
            forall|i: int|
                0 <= i < self@.players.len() ==> self@.shows(
                    #[trigger] statuses@[i],
                    i,
                    current_user_id@,
                    online_users@,
                ),
    {
        let mut statuses: Vec<PlayerStatus> = Vec::new();
        let mut i: usize = 0;
        while i < self.players.num()
            invariant
                i <= self@.players.len(),
                self.wf(),
                statuses@.len() == i,
                forall|k: int|
                    0 <= k < i ==> self@.shows(
                        #[trigger] statuses@[k],
                        k,
                        current_user_id@,
                        online_users@,
                    ),
            decreases self@.players.len() - i,
        {
            let player = self.players.player_at(i);
            let status = PlayerStatus {
                name: player.name().clone(),
                points: player.points(),
                me: same_text(player.id().as_str(), current_user_id),
                played: self.played_state(player.id().as_str()),
                online: is_listed(online_users, player.id().as_str()),
            };
            statuses.push(status);
            i = i + 1;
        }
        statuses
    }

    /// The names of the players the round waits for, in the order of the seats.
    pub fn waiting_for(&self) -> (names: Vec<String>)
        requires
            self.wf(),
        ensures
            names@.len() == self@.awaited().len(),
            forall|k: int|
                0 <= k < names@.len() ==> (#[trigger] names@[k])@ == self@.awaited()[k].name,
    {
        let mut names: Vec<String> = Vec::new();
        let mut i: usize = 0;
        proof {
            reveal(Seq::filter);
            assert(self@.players.take(0).filter(self@.is_awaited()) =~= Seq::<PlayerView>::empty());
        }
        while i < self.players.num()
            invariant
                i <= self@.players.len(),
                self.wf(),
                names@.len() == self@.players.take(i as int).filter(self@.is_awaited()).len(),
                forall|k: int|
                    0 <= k < names@.len() ==> (#[trigger] names@[k])@ == self@.players.take(
                        i as int,
                    ).filter(self@.is_awaited())[k].name,
            decreases self@.players.len() - i,
        {
            let player = self.players.player_at(i);
            proof {
                let before = self@.players.take(i as int);
                assert(self@.players.take(i + 1) =~= before.push(self@.players[i as int]));
                before.lemma_filter_push(self@.players[i as int], self@.is_awaited());
            }
            match self.played_state(player.id().as_str()) {
                PlayedState::Played => {},
                _ => {
                    names.push(player.name().clone());
                },
            }
            i = i + 1;
        }
        assert(self@.players.take(i as int) =~= self@.players);
        names
    }
}

} // verus!
