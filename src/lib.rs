//! A Canasta engine: cards, piles, hands, team melds and the game state
//! machine with its legality check and its execution of actions.

pub mod board;
pub mod card;
pub mod game;
pub mod hand;
pub mod invariants;
pub mod pile;
pub mod play;
pub mod random_play;
pub mod rules;
pub mod state;
pub mod sums;
