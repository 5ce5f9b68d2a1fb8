//! Why the session turns an operation down.

use vstd::prelude::*;

use crate::round::PlacementError;

verus! {

/// Why the session turned an operation down. The session is unchanged
/// whenever one of these is returned.
#[derive(Debug, Copy, Clone, PartialEq, Eq, Structural)]
pub enum StateError {
    /// The phase, or the turn within the game, does not take the operation.
    PhaseViolation,
    /// No player has the identity.
    UnknownPlayer,
    /// Fewer players than a game needs have joined.
    NotEnoughPlayers,
    /// The player does not hold the card.
    CardNotInHand,
    /// The player has already submitted a card this round.
    RepeatedPlacement,
    /// The number names no pile.
    InvalidPileIndex,
    /// The pile choice belongs to another player.
    WrongTurnActor,
    /// A player with the identity derived from the name has joined already.
    NameTaken,
    /// The deck cannot supply another hand: the table is full.
    DeckExhausted,
}

/// Why a game could not start.
#[derive(Debug, Copy, Clone, PartialEq, Eq, Structural)]
pub enum GameStartError {
    /// Only this many players have joined.
    NotEnoughPlayers(usize),
}

/// The error of the session that stands for an error of the game.
pub open spec fn rejection(e: PlacementError) -> StateError {
    match e {
        PlacementError::PlacementOutOfTurn => StateError::PhaseViolation,
        PlacementError::RepeatedPlacement => StateError::RepeatedPlacement,
        PlacementError::CardNotInHand => StateError::CardNotInHand,
        PlacementError::NoUser => StateError::UnknownPlayer,
        PlacementError::WrongPlayer => StateError::WrongTurnActor,
    }
}

impl StateError {
    /// The error of the session that stands for an error of the game.
    pub fn from_placement(e: PlacementError) -> (error: StateError)
        ensures
            error == rejection(e),
    {
        match e {
            PlacementError::PlacementOutOfTurn => StateError::PhaseViolation,
            PlacementError::RepeatedPlacement => StateError::RepeatedPlacement,
            PlacementError::CardNotInHand => StateError::CardNotInHand,
            PlacementError::NoUser => StateError::UnknownPlayer,
            PlacementError::WrongPlayer => StateError::WrongTurnActor,
        }
    }
}

} // verus!
