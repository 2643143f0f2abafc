pub mod controller;
pub mod game_tree;
pub mod alphabeta;
pub mod random_bot;
pub mod minimax;
pub mod local_human;
pub mod worth;
pub mod ordering;
