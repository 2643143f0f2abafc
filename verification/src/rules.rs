pub mod castle_validator;
pub mod cmd_validator;
pub mod move_generator;
pub mod game_over;
pub mod cmd_exec;
