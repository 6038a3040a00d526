//! A chess engine core: board model, move generation, position loading and
//! an alpha-beta search with a transposition table.
pub mod board;
pub mod chessmove;
pub mod movegen;
pub mod search;
pub mod params;
pub mod position_utils;
pub mod commands;
