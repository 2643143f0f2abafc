pub mod board;
pub mod game_state;
pub mod movement;
pub mod piece;
pub mod position;
