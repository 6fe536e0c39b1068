//! Game logic for a poker solver: hand evaluation, card and bet abstractions,
//! and the rules of Kuhn, Leduc and heads-up no-limit hold'em poker.

pub mod action_abstraction;
pub mod card_abstraction;
pub mod cfr;
pub mod dcfr;
pub mod hand_evaluator;
pub mod leduc;
pub mod nlhe;
mod rng;
pub mod table;
pub mod text;
