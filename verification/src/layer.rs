//! The displayed-tile cache of a tile layer.

pub mod displayed;
pub mod entries;
pub mod gathering;
pub mod laws;
pub mod ordered;
pub mod passes;
pub mod rebuild;
pub mod tiles;
