//! The lobby: players gather around a table until the game starts.

use vstd::prelude::*;

use crate::cards::HAND_SIZE;
use crate::deck::undealt;
use crate::error::{GameStartError, StateError};
use crate::fairness::lemma_join_fair;
use crate::game::{Game, GameView};
use crate::player::{identity_of, newcomer, Player, PlayerView, MAX_PLAYERS};
use crate::registry::{all_fresh, deck_apart, player_of, registered, registry_wf, PlayerMapping};
use crate::round::TurnView;
use crate::table::{full_deck, Table, TableView};

verus! {

/// Fewest players a game needs.
pub const MIN_PLAYERS: usize = 2;

/// What a lobby is: the table and the players who have joined.
pub struct LobbyView {
    pub table: TableView,
    pub players: Seq<PlayerView>,
}

impl LobbyView {
    /// Table and players are valid, every player holds a full hand and no
    /// points, and no card of the deck is in a hand.
    pub open spec fn wf(self) -> bool {
        &&& self.table.wf()
        &&& registry_wf(self.players)
        &&& all_fresh(self.players)
        &&& deck_apart(self.table.deck, self.players)
    }

    /// The deck holds a hand for every free seat, and no more.
    pub open spec fn stocked(self) -> bool {
        self.table.deck.len() + HAND_SIZE * self.players.len() == HAND_SIZE * MAX_PLAYERS
    }

    /// Why a player cannot join under the name, if that is so.
    pub open spec fn join_error(self, name: Seq<char>) -> Option<StateError> {
        if self.table.deck.len() < HAND_SIZE || self.players.len() >= MAX_PLAYERS {
            Some(StateError::DeckExhausted)
        } else if registered(self.players, identity_of(name)) {
            Some(StateError::NameTaken)
        } else {
            None
        }
    }

    /// The lobby after a player joined under the name: the newcomer takes the
    /// next seat with a hand from the top of the deck.
    pub open spec fn after_join(self, name: Seq<char>) -> LobbyView {
        LobbyView {
            table: TableView {
                deck: undealt(self.table.deck, HAND_SIZE as nat),
                piles: self.table.piles,
            },
            players: self.players.push(newcomer(identity_of(name), name, self.table.deck)),
        }
    }

    /// The game that starts from the lobby: its table, its players, the
    /// first round, nothing played.
    pub open spec fn started(self) -> GameView {
        GameView {
            table: self.table,
            players: self.players,
            turn: TurnView::CardPlay(Seq::empty()),
            round: 1,
        }
    }
}

/// The phase in which players gather.
#[derive(Debug)]
pub struct Lobby {
    table: Table,
    players: PlayerMapping,
}

impl View for Lobby {
    type V = LobbyView;

    closed spec fn view(&self) -> LobbyView {
        LobbyView { table: self.table@, players: self.players@ }
    }
}

impl Lobby {
    /// The lobby is valid.
    pub open spec fn wf(&self) -> bool {
        self@.wf()
    }

    /// A lobby without players around a fresh table: a full deck, in an order
    /// left to chance, has seeded the piles with its top cards, and the other
    /// cards wait in the deck for the players.
    pub fn new() -> (lobby: Lobby)
        ensures
            lobby.wf(),
            lobby@.players == Seq::<PlayerView>::empty(),
            exists|full: Seq<u8>| full_deck(full) && #[trigger] lobby@.table.opened_from(full),
            lobby@.stocked(),
            lobby@.fair(),
    {
        Lobby::new_from_parts(Table::new(), PlayerMapping::new())
    }

    /// A lobby around the given table with the given players.
    pub fn new_from_parts(table: Table, players: PlayerMapping) -> (lobby: Lobby)
        requires
            table.wf(),
            players.wf(),
            all_fresh(players@),
            deck_apart(table@.deck, players@),
        ensures
            lobby@ == (LobbyView { table: table@, players: players@ }),
            lobby.wf(),
    {
        Lobby { table, players }
    }

    /// Seats a player under the name and returns the identity. Fails when the
    /// table is full or when the identity derived from the name is taken.
    pub fn join(&mut self, name: String) -> (id: Result<String, StateError>)
        requires
            old(self).wf(),
        ensures
            final(self).wf(),
            old(self)@.fair() ==> final(self)@.fair(),
            old(self)@.stocked() ==> final(self)@.stocked(),
            match id {
                Ok(id) => {
                    &&& old(self)@.join_error(name@).is_none()
                    &&& id@ == identity_of(name@)
                    &&& final(self)@ == old(self)@.after_join(name@)
                },
                Err(e) => {
                    &&& old(self)@.join_error(name@) == Some(e)
                    &&& final(self)@ == old(self)@
                },
            },
    {
        if self.table.deck().len() < HAND_SIZE || self.players.num() >= MAX_PLAYERS {
            return Err(StateError::DeckExhausted);
        }
        proof {
            if self@.join_error(name@).is_none() && self@.fair() {
                lemma_join_fair(self@, name@);
            }
        }
        match self.players.join(name, self.table.deck_mut()) {
            Some(id) => Ok(id),
            None => Err(StateError::NameTaken),
        }
    }

    /// Starts the game once enough players have joined. The table and the
    /// players move into the game; the lobby is left empty around a fresh table.
    pub fn start_game(&mut self) -> (game: Result<Game, GameStartError>)
        requires
            old(self).wf(),
        ensures
            final(self).wf(),
            match game {
                Ok(game) => {
                    &&& old(self)@.players.len() >= MIN_PLAYERS
                    &&& game@ == old(self)@.started()
                    &&& game.wf()
                    &&& final(self)@.players == Seq::<PlayerView>::empty()
                    &&& final(self)@.stocked()
                    &&& final(self)@.fair()
                },
                Err(e) => {
                    &&& old(self)@.players.len() < MIN_PLAYERS
                    &&& e == GameStartError::NotEnoughPlayers(old(self)@.players.len() as usize)
                    &&& final(self)@ == old(self)@
                },
            },
    {
        if self.players.num() < MIN_PLAYERS {
            return Err(GameStartError::NotEnoughPlayers(self.players.num()));
        }
        let mut table = Table::new();
        core::mem::swap(&mut self.table, &mut table);
        let mut players = PlayerMapping::new();
        core::mem::swap(&mut self.players, &mut players);
        Ok(Game::new(table, players))
    }

    /// The display names of the players, in the order in which they joined.
    pub fn players(&self) -> (names: Vec<String>)
        ensures
            names@.len() == self@.players.len(),
            forall|i: int|
                0 <= i < names@.len() ==> (#[trigger] names@[i])@ == self@.players[i].name,
    {
        self.players.players()
    }

    /// The player with the identity, if there is one.
    pub fn get_player(&self, id: &str) -> (player: Option<&Player>)
        requires
            self.wf(),
        ensures
            match player {
                Some(p) => registered(self@.players, id@) && p@ == player_of(self@.players, id@),
                None => !registered(self@.players, id@),
            },
    {
        self.players.get(id)
    }
}

} // verus!
