//! Session engine for a simultaneous-turn card game: a lobby gathers players,
//! a game runs ten rounds over four shared piles, and a final phase holds the
//! scores.
//!
//! [`State`] is the session and the entry point. Every operation on it is
//! total: it either changes the session as its contract says or returns a
//! [`StateError`] and leaves the session as it was. The contracts are stated
//! over the views of the types (`StateView`, `GameView`, and so on), and the
//! module `fairness` proves that no card is ever in two places.
//!
//! Players are told apart by an identity derived from their name. Two names
//! with one identity cannot both sit at a table: the second one to join is
//! turned away with [`StateError::NameTaken`].

pub mod cards;
pub mod deck;
pub mod error;
pub mod fairness;
pub mod game;
pub mod lobby;
pub mod order;
pub mod pile;
pub mod player;
pub mod registry;
pub mod resolution;
pub mod round;
pub mod state;
pub mod table;
pub mod view;

pub use error::StateError;
pub use game::Game;
pub use lobby::Lobby;
pub use pile::PileIndex;
pub use player::Player;
pub use registry::PlayerMapping;
pub use state::{Message, State};
pub use view::ClientView;
