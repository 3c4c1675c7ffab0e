//! A falling-block arcade game: the grid physics, the player's movement,
//! pushing and carrying of blocks, and row clearing.
pub mod block;
pub mod game;
pub mod input;
pub mod player;
pub mod types;
