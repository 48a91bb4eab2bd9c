//! Turn-based card and board game engines for reinforcement-learning
//! environments. The centrepiece is a poker betting engine: a multi-phase
//! betting state machine with side-pot accounting under all-in conditions
//! and a combinatorial best-hand selection and ranking algorithm.

pub mod board;
pub mod card;
pub mod deck;
pub mod hand;
pub mod player;
pub mod strength;
pub mod table;

pub use card::CardC;
pub use deck::DeckC;
pub use hand::HandC;
pub use player::Player;
pub use table::{ObservationVals, Poker, PokerError};
