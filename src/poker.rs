pub mod evaluator;
pub mod game;
pub mod hand;

pub use evaluator::Evaluator;
pub use game::Game;
pub use hand::Hand;
