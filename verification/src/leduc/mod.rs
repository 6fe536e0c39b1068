pub mod card;
pub mod game;
pub mod infoset;

pub use card::{LeducCard, LeducDeck};
pub use game::LeducState;
