//! What a client is shown: a snapshot of the session for one player.

use vstd::prelude::*;

verus! {

/// What a player has to do in the round.
#[derive(Debug, Copy, Clone, PartialEq, Eq, Structural)]
pub enum PlayedState {
    /// The player has played, and nothing is asked of them.
    Played,
    /// The player has yet to play a card.
    MustPlay,
    /// The player has to give up a pile.
    MustPickPile,
}

/// What the round awaits, seen from the player who asks.
#[derive(Debug, Copy, Clone, PartialEq, Eq, Structural)]
pub enum TurnPhase {
    /// Cards are being played.
    Play,
    /// The player who asks has to give up a pile.
    SelectPile,
    /// Another player has to give up a pile.
    OtherSelectPile,
}

/// One player as shown to everybody: never the hand.
#[derive(Debug, Clone)]
pub struct PlayerStatus {
    pub name: String,
    pub points: u16,
    pub me: bool,
    pub played: PlayedState,
    pub online: bool,
}

/// The round as shown to the player who asks.
#[derive(Debug, Clone)]
pub struct RoundStatus {
    pub number: u8,
    pub phase: TurnPhase,
    pub waiting_for: Vec<String>,
    pub played: Option<u8>,
}

/// The snapshot of the session for one player.
#[derive(Debug, Clone)]
pub enum ClientView {
    /// Players are gathering.
    Lobby { names: Vec<String> },
    /// A game is running.
    Game {
        players: Vec<PlayerStatus>,
        round: RoundStatus,
        piles: Vec<Vec<u8>>,
        hand: Vec<u8>,
        points: u16,
    },
    /// The game is over.
    GameOver { scores: Vec<(String, u16)> },
}

} // verus!
