pub mod board;
pub mod engine;
pub mod game;
pub mod rules;

pub use board::{new_board, Pit, PitKind, Player};
pub use engine::{negamax, negamax_search};
pub use game::KalahaState;
pub use rules::GameState;
