//! The session: a lobby, then a game, then the final scores.

use vstd::prelude::*;

use crate::cards::{copy_cards, sorted_cards, HAND_SIZE, PILE_COUNT};
use crate::deck::{dealt, undealt};
use crate::fairness::{
    lemma_after_choice_fair, lemma_after_play_fair, lemma_reopened_fair, lemma_settled_fair,
};
use crate::error::{rejection, StateError};
use crate::game::{Game, GameView};
use crate::lobby::{Lobby, LobbyView, MIN_PLAYERS};
use crate::pile::{index_at, seat, seeded, PileIndex};
use crate::player::{identity_of, Player, PlayerView};
use crate::registry::{player_of, redealt, registered, registry_wf, PlayerMapping};
use crate::round::{played_by, LAST_ROUND};
use crate::table::{full_deck, Table};
use crate::view::{ClientView, RoundStatus};

verus! {

/// What a player asks the session to do.
#[derive(Debug, Copy, Clone, PartialEq, Eq, Structural)]
pub enum Message {
    /// Asks for nothing; the caller may show the session.
    Debug,
    /// Start the game.
    StartGame,
    /// Play a card.
    PlayCard { card: u8 },
    /// Give up the pile with this number.
    SelectPile { pile_index: usize },
    /// Go back to a lobby with the same players.
    RestartGame,
}

/// What a session is.
pub enum StateView {
    Lobby(LobbyView),
    Game(GameView),
    GameOver(Seq<PlayerView>),
}

impl StateView {
    /// The phase is valid; a game that is still a game has rounds left.
    pub open spec fn wf(self) -> bool {
        match self {
            StateView::Lobby(lobby) => lobby.wf(),
            StateView::Game(game) => game.wf() && game.round <= LAST_ROUND,
            StateView::GameOver(players) => registry_wf(players),
        }
    }

    /// The players of the session.
    pub open spec fn players(self) -> Seq<PlayerView> {
        match self {
            StateView::Lobby(lobby) => lobby.players,
            StateView::Game(game) => game.players,
            StateView::GameOver(players) => players,
        }
    }

    /// Why a player cannot join under the name, if that is so.
    pub open spec fn join_error(self, name: Seq<char>) -> Option<StateError> {
        match self {
            StateView::Lobby(lobby) => lobby.join_error(name),
            _ => Some(StateError::PhaseViolation),
        }
    }

    /// The session after a player joined under the name.
    pub open spec fn after_join(self, name: Seq<char>) -> StateView {
        match self {
            StateView::Lobby(lobby) => StateView::Lobby(lobby.after_join(name)),
            _ => self,
        }
    }

    /// Why the game cannot start, if that is so.
    pub open spec fn start_error(self) -> Option<StateError> {
        match self {
            StateView::Lobby(lobby) => if lobby.players.len() < MIN_PLAYERS {
                Some(StateError::NotEnoughPlayers)
            } else {
                None
            },
            _ => Some(StateError::PhaseViolation),
        }
    }

    /// The session after the game started.
    pub open spec fn after_start(self) -> StateView {
        match self {
            StateView::Lobby(lobby) => StateView::Game(lobby.started()),
            _ => self,
        }
    }

    /// The session that holds the game after a move: the game itself while
    /// rounds are left, the final scores once the last round is over.
    pub open spec fn settled(game: GameView) -> StateView {
        if game.round > LAST_ROUND {
            StateView::GameOver(game.players)
        } else {
            StateView::Game(game)
        }
    }

    /// Why the card of the player is turned down, if it is.
    pub open spec fn play_error(self, id: Seq<char>, card: u8) -> Option<StateError> {
        match self {
            StateView::Game(game) => match game.play_error(id, card) {
                Some(e) => Some(rejection(e)),
                None => None,
            },
            _ => Some(StateError::PhaseViolation),
        }
    }

    /// The session after the player submitted the card.
    pub open spec fn after_play(self, id: Seq<char>, card: u8) -> StateView {
        match self {
            StateView::Game(game) => Self::settled(game.after_play(id, card)),
            _ => self,
        }
    }

    /// Why the pile choice of the player is turned down, if it is.
    pub open spec fn choice_error(self, id: Seq<char>) -> Option<StateError> {
        match self {
            StateView::Game(game) => match game.choice_error(id) {
                Some(e) => Some(rejection(e)),
                None => None,
            },
            _ => Some(StateError::PhaseViolation),
        }
    }

    /// The session after the blocked player gave up the pile of the given name.
    pub open spec fn after_choice(self, index: PileIndex) -> StateView {
        match self {
            StateView::Game(game) => Self::settled(game.after_choice(index)),
            _ => self,
        }
    }

    /// The lobby is one that a restart may lead to from the given players:
    /// some full deck seeded the piles with its top cards and then dealt the
    /// players, who sit in their seats under their names, their hands in the
    /// order of the seats.
    pub open spec fn reopened(players: Seq<PlayerView>, lobby: LobbyView) -> bool {
        &&& lobby.wf()
        &&& exists|full: Seq<u8>|
            {
                &&& full_deck(full)
                &&& #[trigger] redealt(players, undealt(full, PILE_COUNT as nat)) == lobby.players
                &&& lobby.table.piles == seeded(sorted_cards(dealt(full, PILE_COUNT as nat)))
                &&& lobby.table.deck == undealt(
                    undealt(full, PILE_COUNT as nat),
                    (HAND_SIZE * players.len()) as nat,
                )
            }
    }

    /// In a lobby the deck holds a hand for every free seat, and no more.
    pub open spec fn stocked(self) -> bool {
        match self {
            StateView::Lobby(lobby) => lobby.stocked(),
            _ => true,
        }
    }

    /// Why the session shows nothing to the player, if that is so: in a game
    /// the player has to sit at the table.
    pub open spec fn view_error(self, id: Seq<char>) -> Option<StateError> {
        match self {
            StateView::Game(game) => if registered(game.players, id) {
                None
            } else {
                Some(StateError::UnknownPlayer)
            },
            _ => None,
        }
    }

    /// The snapshot shows this session to the player: the names in a lobby;
    /// in a game every player's status, the round, the piles in the order of
    /// their names, and the hand and the points of the player who asks; the
    /// names and points once the game is over.
    pub open spec fn renders(self, view: ClientView, id: Seq<char>, online: Seq<String>) -> bool {
        match self {
            StateView::Lobby(lobby) => view matches ClientView::Lobby { names } && names_are(
                names@,
                lobby.players,
            ),
            StateView::Game(game) => view matches ClientView::Game {
                players,
                round,
                piles,
                hand,
                points,
            } && {
                &&& players@.len() == game.players.len()
                &&& forall|i: int|
                    0 <= i < game.players.len() ==> game.shows(
                        #[trigger] players@[i],
                        i,
                        id,
                        online,
                    )
                &&& round.number == game.round
                &&& round.phase == game.phase_for(id)
                &&& names_are(round.waiting_for@, game.awaited())
                &&& round.played == played_by(game.turn.plays(), id)
                &&& piles@.len() == PILE_COUNT
                &&& forall|n: int|
                    0 <= n < PILE_COUNT ==> (#[trigger] piles@[n])@ == game.table.piles[seat(
                        game.table.piles,
                        index_at(n).unwrap(),
                    )].cards
                &&& hand@ == player_of(game.players, id).hand
                &&& points == player_of(game.players, id).points
            },
            StateView::GameOver(players) => view matches ClientView::GameOver { scores } && {
                &&& scores@.len() == players.len()
                &&& forall|i: int|
                    0 <= i < players.len() ==> (#[trigger] scores@[i]).0@ == players[i].name
                        && scores@[i].1 == players[i].points
            },
        }
    }

    /// Why the message of the player is turned down, if it is.
    pub open spec fn message_error(self, id: Seq<char>, msg: Message) -> Option<StateError> {
        if !registered(self.players(), id) {
            Some(StateError::UnknownPlayer)
        } else {
            match msg {
                Message::Debug => None,
                Message::StartGame => self.start_error(),
                Message::PlayCard { card } => self.play_error(id, card),
                Message::SelectPile { pile_index } => if index_at(pile_index as int).is_none() {
                    Some(StateError::InvalidPileIndex)
                } else {
                    self.choice_error(id)
                },
                Message::RestartGame => None,
            }
        }
    }

    /// The session is one that the accepted message of the player may lead
    /// to from this one.
    pub open spec fn handles(self, id: Seq<char>, msg: Message, after: StateView) -> bool {
        match msg {
            Message::Debug => after == self,
            Message::StartGame => after == self.after_start(),
            Message::PlayCard { card } => after == self.after_play(id, card),
            Message::SelectPile { pile_index } => after == self.after_choice(
                index_at(pile_index as int).unwrap(),
            ),
            Message::RestartGame => self.restarts_to(after),
        }
    }

    /// The session is one that a restart may lead to from this one.
    pub open spec fn restarts_to(self, after: StateView) -> bool {
        match self {
            StateView::Lobby(_) => after == self,
            _ => after matches StateView::Lobby(lobby) && Self::reopened(self.players(), lobby),
        }
    }
}

/// The names are those of the players, in their order.
pub open spec fn names_are(names: Seq<String>, players: Seq<PlayerView>) -> bool {
    &&& names.len() == players.len()
    &&& forall|i: int| 0 <= i < players.len() ==> (#[trigger] names[i])@ == players[i].name
}

/// The session of one table.
#[derive(Debug)]
pub enum State {
    Lobby(Lobby),
    Game(Game),
    GameOver(PlayerMapping),
}

impl View for State {
    type V = StateView;

    open spec fn view(&self) -> StateView {
        match self {
            State::Lobby(lobby) => StateView::Lobby(lobby@),
            State::Game(game) => StateView::Game(game@),
            State::GameOver(players) => StateView::GameOver(players@),
        }
    }
}

impl State {
    /// The session is valid.
    pub open spec fn wf(&self) -> bool {
        self@.wf()
    }

    /// A session in its lobby, without players.
    pub fn new() -> (state: State)
        ensures
            state.wf(),
            state@ is Lobby,
            state@.players() == Seq::<PlayerView>::empty(),
            state@.fair(),
            state@.stocked(),
    {
        State::Lobby(Lobby::new())
    }

    /// Lets a player join the lobby under a name and returns the identity
    /// that the other operations take. A name whose identity is taken is
    /// turned away.
    pub fn join(&mut self, name: String) -> (id: Result<String, StateError>)
        requires
            old(self).wf(),
        ensures
            final(self).wf(),
            old(self)@.fair() ==> final(self)@.fair(),
            old(self)@.stocked() ==> final(self)@.stocked(),
            match id {
                Ok(id) => {
                    &&& old(self)@.join_error(name@).is_none()
                    &&& id@ == identity_of(name@)
                    &&& final(self)@ == old(self)@.after_join(name@)
                },
                Err(e) => {
                    &&& old(self)@.join_error(name@) == Some(e)
                    &&& final(self)@ == old(self)@
                },
            },
    {
        match self {
            State::Lobby(lobby) => lobby.join(name),
            State::Game(_) => Err(StateError::PhaseViolation),
            State::GameOver(_) => Err(StateError::PhaseViolation),
        }
    }

    /// Starts the game with the players of the lobby.
    pub fn start_game(&mut self) -> (done: Result<(), StateError>)
        requires
            old(self).wf(),
        ensures
            final(self).wf(),
            old(self)@.fair() ==> final(self)@.fair(),
            match done {
                Ok(_) => {
                    &&& old(self)@.start_error().is_none()
                    &&& final(self)@ == old(self)@.after_start()
                },
                Err(e) => {
                    &&& old(self)@.start_error() == Some(e)
                    &&& final(self)@ == old(self)@
                },
            },
    {
        match self {
            State::Lobby(lobby) => {
                match lobby.start_game() {
                    Ok(game) => {
                        *self = State::Game(game);
                        Ok(())
                    },
                    Err(_) => Err(StateError::NotEnoughPlayers),
                }
            },
            State::Game(_) => Err(StateError::PhaseViolation),
            State::GameOver(_) => Err(StateError::PhaseViolation),
        }
    }

    /// Submits a card for a player. The round is applied once everybody has
    /// played, and the session moves on to the final scores after the last round.
    pub fn play_card(&mut self, user_id: &str, card: u8) -> (done: Result<(), StateError>)
        requires
            old(self).wf(),
        ensures
            final(self).wf(),
            old(self)@.fair() ==> final(self)@.fair(),
            match done {
                Ok(_) => {
                    &&& old(self)@.play_error(user_id@, card).is_none()
                    &&& final(self)@ == old(self)@.after_play(user_id@, card)
                },
                Err(e) => {
                    &&& old(self)@.play_error(user_id@, card) == Some(e)
                    &&& final(self)@ == old(self)@
                },
            },
    {
        proof {
            if let StateView::Game(game) = self@ {
                if game.fair() && game.play_error(user_id@, card).is_none() {
                    lemma_after_play_fair(game, user_id@, card);
                    lemma_settled_fair(game.after_play(user_id@, card));
                }
            }
        }
        match self {
            State::Lobby(_) => Err(StateError::PhaseViolation),
            State::Game(game) => {
                match game.play_card(user_id, card) {
                    Ok(over) => {
                        if over {
                            let players = game.player_mapping().duplicate();
                            *self = State::GameOver(players);
                        }
                        Ok(())
                    },
                    Err(e) => Err(StateError::from_placement(e)),
                }
            },
            State::GameOver(_) => Err(StateError::PhaseViolation),
        }
    }

    /// Gives up a pile for the player whose card no pile takes, and applies
    /// the round.
    pub fn select_pile(&mut self, user_id: &str, pile_index: PileIndex) -> (done: Result<
        (),
        StateError,
    >)
        requires
            old(self).wf(),
        ensures
            final(self).wf(),
            old(self)@.fair() ==> final(self)@.fair(),
            match done {
                Ok(_) => {
                    &&& old(self)@.choice_error(user_id@).is_none()
                    &&& final(self)@ == old(self)@.after_choice(pile_index)
                },
                Err(e) => {
                    &&& old(self)@.choice_error(user_id@) == Some(e)
                    &&& final(self)@ == old(self)@
                },
            },
    {
        proof {
            if let StateView::Game(game) = self@ {
                if game.fair() && game.choice_error(user_id@).is_none() {
                    lemma_after_choice_fair(game, pile_index);
                    lemma_settled_fair(game.after_choice(pile_index));
                }
            }
        }
        match self {
            State::Lobby(_) => Err(StateError::PhaseViolation),
            State::Game(game) => {
                match game.select_pile(user_id, pile_index) {
                    Ok(over) => {
                        if over {
                            let players = game.player_mapping().duplicate();
                            *self = State::GameOver(players);
                        }
                        Ok(())
                    },
                    Err(e) => Err(StateError::from_placement(e)),
                }
            },
            State::GameOver(_) => Err(StateError::PhaseViolation),
        }
    }

    /// Goes back to a lobby. From a game or from the final scores the players
    /// keep their seats, identities and names, lose their points, and are
    /// dealt new hands from the deck of a fresh table. A lobby stays as it is.
    pub fn restart(&mut self)
        requires
            old(self).wf(),
        ensures
            final(self).wf(),
            old(self)@.restarts_to(final(self)@),
            old(self)@.fair() ==> final(self)@.fair(),
            old(self)@.stocked() ==> final(self)@.stocked(),
    {
        match self {
            State::Lobby(_) => {},
            State::Game(game) => {
                let lobby = reopen(game.player_mapping());
                *self = State::Lobby(lobby);
            },
            State::GameOver(players) => {
                let lobby = reopen(players);
                *self = State::Lobby(lobby);
            },
        }
    }

    /// Handles the message of a player who sits at the table.
    pub fn handle_message(&mut self, user_id: &str, msg: Message) -> (done: Result<(), StateError>)
        requires
            old(self).wf(),
        ensures
            final(self).wf(),
            old(self)@.fair() ==> final(self)@.fair(),
            match done {
                Ok(_) => {
                    &&& old(self)@.message_error(user_id@, msg).is_none()
                    &&& old(self)@.handles(user_id@, msg, final(self)@)
                },
                Err(e) => {
                    &&& old(self)@.message_error(user_id@, msg) == Some(e)
                    &&& final(self)@ == old(self)@
                },
            },
    {
        if self.get_player(user_id).is_none() {
            return Err(StateError::UnknownPlayer);
        }
        match msg {
            Message::Debug => Ok(()),
            Message::StartGame => self.start_game(),
            Message::PlayCard { card } => self.play_card(user_id, card),
            Message::SelectPile { pile_index } => {
                match PileIndex::try_from(pile_index) {
                    Ok(index) => self.select_pile(user_id, index),
                    Err(_) => Err(StateError::InvalidPileIndex),
                }
            },
            Message::RestartGame => {
                self.restart();
                Ok(())
            },
        }
    }

    /// The snapshot of the session for the player with the identity. In a
    /// game only a player at the table is shown one; nobody is shown the hand
    /// of another player.
    pub fn serialize_for_user(&self, user_id: &str, online_users: &Vec<String>) -> (view: Result<
        ClientView,
        StateError,
    >)
        requires
            self.wf(),
        ensures
            match view {
                Ok(view) => self@.view_error(user_id@).is_none() && self@.renders(
                    view,
                    user_id@,
                    online_users@,
                ),
                Err(e) => self@.view_error(user_id@) == Some(e),
            },
    {
        match self {
            State::Lobby(lobby) => Ok(ClientView::Lobby { names: lobby.players() }),
            State::Game(game) => {
                match game.get_player(user_id) {
                    None => Err(StateError::UnknownPlayer),
                    Some(player) => {
                        let round = RoundStatus {
                            number: game.round().0,
                            phase: game.turn_phase(user_id),
                            waiting_for: game.waiting_for(),
                            played: game.played_card_for(user_id),
                        };
                        Ok(
                            ClientView::Game {
                                players: game.serialize_players(user_id, online_users),
                                round,
                                piles: game.piles().serialize(),
                                hand: copy_cards(player.hand()),
                                points: player.points(),
                            },
                        )
                    },
                }
            },
            State::GameOver(players) => Ok(
                ClientView::GameOver { scores: players.player_scores() },
            ),
        }
    }

    /// The player with the identity, if there is one.
    pub fn get_player(&self, user_id: &str) -> (player: Option<&Player>)
        requires
            self.wf(),
        ensures
            match player {
                Some(p) => registered(self@.players(), user_id@) && p@ == player_of(
                    self@.players(),
                    user_id@,
                ),
                None => !registered(self@.players(), user_id@),
            },
    {
        match self {
            State::Lobby(lobby) => lobby.get_player(user_id),
            State::Game(game) => game.get_player(user_id),
            State::GameOver(players) => players.get(user_id),
        }
    }
}

/// A lobby around a fresh table for the given players, with new hands and
/// no points.
fn reopen(players: &PlayerMapping) -> (lobby: Lobby)
    requires
        players.wf(),
    ensures
        StateView::reopened(players@, lobby@),
        lobby@.fair(),
        lobby@.stocked(),
{
    let mut table = Table::new();
    let mut seated = players.duplicate();
    let ghost full = choose|full: Seq<u8>| full_deck(full) && #[trigger] table@.opened_from(full);
    seated.reset(table.deck_mut());
    let lobby = Lobby::new_from_parts(table, seated);
    proof {
        assert(redealt(players@, undealt(full, PILE_COUNT as nat)) == lobby@.players);
        lemma_reopened_fair(players@, lobby@);
    }
    lobby
}

} // verus!
