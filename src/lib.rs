//! Betting rules of multi-player poker hands: game definitions, the betting state of
//! one hand, showdown ranks and payoffs, and action histories of a game tree.

pub mod game;
pub mod hand;
pub mod state;
pub mod tree;

pub use game::{BettingType, Game, GameError, GameView};
pub use hand::rank_hand;
pub use state::{Action, Card, Snapshot, State, StateView, Step};
pub use tree::{legal_actions, Node};
