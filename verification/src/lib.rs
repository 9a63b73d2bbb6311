pub mod board;
mod dice;
pub mod codec;
pub mod game;
pub mod moves;
pub mod score;

pub use board::Board;
pub use game::Knucklebones;
