//! Dice, scoring, state encoding and the integer tables of an optimal
//! Yahtzee player, with their contracts proved by Verus.
//!
//! - `rolls`: a roll of five dice kept as the number of dice showing each
//!   face; scoring, and the enumeration of all rolls and of all keeps.
//! - `state`: a game state (filled categories, capped upper total, bonus
//!   flag) packed into one table index, and the state after scoring.
//! - `tables`: the integer tables the expected-value solver walks: roll
//!   positions, reroll outcomes, scores, open categories, stages.
//! - `dice`: conversions between five dice and face counts, and between a
//!   keep and marks on the dice.
//! - `names`: category names as the server and the browser spell them.
//! - `scoresheet`: reading a player's score sheet into a game state.

pub mod dice;
pub mod names;
pub mod rolls;
pub mod scoresheet;
pub mod state;
pub mod tables;
