//! A Scrabble engine: board storage, tile bag, move generation and scoring,
//! and turn handling, with contracts checked by Verus.

pub mod board;
pub mod common;
pub mod text;
pub mod tile_bag;
pub mod utils;
pub mod dictionary;
pub mod game;
pub mod movegen;
pub mod ranking;
pub mod rules;
pub mod session;
pub mod board_iterator;
pub mod standalone;
