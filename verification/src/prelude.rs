//! The names that most users of the library need.

pub use crate::map::{HexMap, Layer, Location};
pub use crate::persistence::{MapError, MapFormat, SaveId};
pub use crate::tileset::{Tile, TileRotation, TileTransform, Tileset};
pub use crate::world::{Component, Entity, TileRef, World};
