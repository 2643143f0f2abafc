pub mod chance;
pub mod controllers;
pub mod evaluation;
pub mod game;
pub mod model;
pub mod rules;
pub mod view;
