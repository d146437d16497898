//! A two-player connection game on a gravity-fed grid: the board with its
//! compact numeric encoding and win detection, a fixed-depth minimax search,
//! and the players that pick columns.

pub mod board;
pub mod interface;
pub mod random_bot;
pub mod minimax_bot;
pub mod human_controller;
pub mod game;
