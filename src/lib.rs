//! An engine for the card game Scout: cards and decks, the ranking of sets,
//! the authoritative game state with its transitions, the per-player view,
//! the enumeration of legal actions and a search for hand strength.

pub mod card;

pub use card::{Card, CardSet};
pub mod ranks;

pub use ranks::{default_set_map, SetMap};
pub mod deck;
mod random;
pub mod game;

pub use game::{Action, ActionError, ConfigError, GameState, NewGameState, Player};
pub mod view;

pub use view::{GameView, NewGameView};
pub mod actions;

pub use actions::get_valid_actions;


pub mod search;

pub use search::{turns_to_empty, TurnsCache};
pub mod strategy;

pub use strategy::{tally_wins, GameResult, Strategy, StrategyRush};
