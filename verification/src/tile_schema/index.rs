//! Tile coordinates.

use vstd::prelude::*;
use vstd::std_specs::convert::FromSpecImpl;

verus! {

/// Position of a tile in the grid of one zoom level.
#[derive(Clone, Copy, Debug, PartialEq, Eq, Hash, Structural)]
pub struct TileIndex {
    pub x: i32,
    pub y: i32,
    pub z: u32,
}

/// A tile coordinate after wrap-around: `x`, `y`, `z` name the tile whose
/// content is shown, `display_x` is the column at which it is drawn.
#[derive(Clone, Copy, Debug, PartialEq, Eq, Hash, Structural)]
pub struct WrappingTileIndex {
    pub x: i32,
    pub y: i32,
    pub z: u32,
    pub display_x: i32,
}

impl TileIndex {
    pub fn new(x: i32, y: i32, z: u32) -> (index: TileIndex)
        ensures
            index == (TileIndex { x, y, z }),
    {
        TileIndex { x, y, z }
    }
}

impl WrappingTileIndex {
    /// The coordinate of a tile that is drawn in its own column.
    pub fn new(x: i32, y: i32, z: u32) -> (index: WrappingTileIndex)
        ensures
            index == (WrappingTileIndex { x, y, z, display_x: x }),
    {
        WrappingTileIndex { x, y, z, display_x: x }
    }

    /// The tile whose content is shown at this coordinate.
    pub open spec fn content(self) -> TileIndex {
        TileIndex { x: self.x, y: self.y, z: self.z }
    }
}

impl From<WrappingTileIndex> for TileIndex {
    fn from(index: WrappingTileIndex) -> (tile: TileIndex) {
        TileIndex { x: index.x, y: index.y, z: index.z }
    }
}

impl FromSpecImpl<WrappingTileIndex> for TileIndex {
    open spec fn obeys_from_spec() -> bool {
        true
    }

    open spec fn from_spec(index: WrappingTileIndex) -> TileIndex {
        index.content()
    }
}

} // verus!
