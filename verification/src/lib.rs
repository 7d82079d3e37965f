//! Data model and persistence rules of a hex-grid tile map editor.

pub mod map;
pub mod persistence;
pub mod prelude;
pub mod round_trip;
pub mod tasks;
pub mod tileset;
pub mod world;
