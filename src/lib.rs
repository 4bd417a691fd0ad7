//! Puzzle solvers over text inputs, verified with Verus. The centre is the pipe maze:
//! `grid` reads a grid of pipe tiles and infers the connections of its start tile,
//! `walk` follows the loop through the start from both ends to find its farthest point.

pub mod almanac;
pub mod calibration;
pub mod calibration_words;
pub mod camel_cards;
pub mod camel_cards_joker;
pub mod cube_game;
pub mod direction;
pub mod engine;
pub mod grid;
pub mod network;
pub mod numbers;
pub mod scratchcards;
pub mod text;
pub mod walk;
