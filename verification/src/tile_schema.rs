//! Tile coordinates and the schema that places each tile in the world.

pub mod builder;
pub mod index;
pub mod schema;
