pub mod state;

pub use state::NLHEState;
