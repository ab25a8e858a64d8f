//! The tile-display cache of a map renderer: which rendered tiles are visible
//! after each viewport update, which earlier tiles stay as a visual fallback,
//! and how far each visible tile has faded in.

pub mod geometry;
pub mod layer;
pub mod tile_schema;

pub use geometry::{Point, Rect};
pub use layer::displayed::{BundleId, DisplayedTile, StyleId, TileKey};
pub use layer::rebuild::TileProvider;
pub use layer::tiles::TilesContainer;
pub use tile_schema::builder::{TileSchemaBuilder, TileSchemaError};
pub use tile_schema::index::{TileIndex, WrappingTileIndex};
pub use tile_schema::schema::{Resolution, TileSchema, VerticalDirection};
