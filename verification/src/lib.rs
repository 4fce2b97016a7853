//! Tile bag and dictionary-building logic of a German word game.

pub mod scoring;
pub mod order;
pub mod wordset;
pub mod text;
pub mod frequency;
pub mod objectionable;
pub mod bag;
