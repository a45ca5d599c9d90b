//! A Battlesnake engine: board model, move generation, static evaluation,
//! alpha-beta search with a move-ordering table, and a self-play trainer.

pub mod types;
pub mod move_lists;
pub mod small;
pub mod engine;
pub mod cartprod;
pub mod move_table;
pub mod rules;
pub mod search;
pub mod safety;
pub mod train;
