//! Builder for the tile schema.

use vstd::prelude::*;
use crate::geometry::{Point, Rect};
use crate::tile_schema::schema::{TileSchema, VerticalDirection};

verus! {

/// Largest Web Mercator coordinate, in micrometres: 20 037 508.342787 m.
pub const WEB_MERCATOR_MAX_COORD: i64 = 20_037_508_342_787;

/// Smallest Web Mercator coordinate, in micrometres.
pub const WEB_MERCATOR_MIN_COORD: i64 = -20_037_508_342_787;

/// Side of a Web Mercator tile, in pixels.
pub const WEB_MERCATOR_TILE_SIZE: u32 = 256;

/// Builder for a tile schema.
///
/// The builder validates all the input parameters and guarantees that the
/// created schema is valid.
#[derive(Debug)]
pub struct TileSchemaBuilder {
    origin: Point,
    bounds: Rect,
    lods: Lods,
    tile_width: u32,
    tile_height: u32,
    y_direction: VerticalDirection,
}

#[derive(Debug)]
enum Lods {
    Logarithmic(Vec<u32>),
}

/// Errors that can occur during building a tile schema.
#[derive(Debug, Clone, Copy, PartialEq, Eq, Structural)]
pub enum TileSchemaError {
    /// No zoom levels provided
    NoZLevelsProvided,
    /// Invalid tile size
    InvalidTileSize {
        /// Tile width
        width: u32,
        /// Tile height
        height: u32,
    },
}

impl TileSchemaBuilder {
    pub closed spec fn spec_origin(&self) -> Point {
        self.origin
    }

    pub closed spec fn spec_bounds(&self) -> Rect {
        self.bounds
    }

    /// The zoom levels asked for, in the order given.
    pub closed spec fn spec_z_levels(&self) -> Seq<u32> {
        match self.lods {
            Lods::Logarithmic(z_levels) => z_levels@,
        }
    }

    pub closed spec fn spec_tile_width(&self) -> u32 {
        self.tile_width
    }

    pub closed spec fn spec_tile_height(&self) -> u32 {
        self.tile_height
    }

    pub closed spec fn spec_y_direction(&self) -> VerticalDirection {
        self.y_direction
    }

    /// Whether the schema can be built: at least one zoom level, and a tile
    /// size that is not zero in either direction.
    pub open spec fn is_valid(&self) -> bool {
        self.spec_z_levels().len() > 0 && self.spec_tile_width() > 0 && self.spec_tile_height()
            > 0
    }

    /// Builds the schema, or says why it cannot be built. A missing zoom level
    /// list is reported before a bad tile size.
    pub fn build(self) -> (result: Result<TileSchema, TileSchemaError>)
        requires
            forall|i: int|
                0 <= i < self.spec_z_levels().len() ==> self.spec_z_levels()[i] < usize::MAX,
        ensures
            match result {
                Ok(schema) => {
                    &&& self.is_valid()
                    &&& schema.well_formed()
                    &&& schema.spec_origin() == self.spec_origin()
                    &&& schema.spec_bounds() == self.spec_bounds()
                    &&& schema.spec_tile_width() == self.spec_tile_width()
                    &&& schema.spec_tile_height() == self.spec_tile_height()
                    &&& schema.spec_y_direction() == self.spec_y_direction()
                    &&& forall|z: u32| schema.has_level(z) <==> self.spec_z_levels().contains(z)
                    &&& self.spec_z_levels().contains((schema.spec_lod_count() - 1) as u32)
                    &&& forall|i: int|
                        0 <= i < self.spec_z_levels().len() ==> self.spec_z_levels()[i]
                            < schema.spec_lod_count()
                },
                Err(TileSchemaError::NoZLevelsProvided) => self.spec_z_levels().len() == 0,
                Err(TileSchemaError::InvalidTileSize { width, height }) => {
                    &&& self.spec_z_levels().len() > 0
                    &&& (self.spec_tile_width() == 0 || self.spec_tile_height() == 0)
                    &&& width == self.spec_tile_width()
                    &&& height == self.spec_tile_height()
                },
            },
    {
        let ghost levels = self.spec_z_levels();
        let TileSchemaBuilder { origin, bounds, lods, tile_width, tile_height, y_direction } = self;
        let lods = match lods {
            Lods::Logarithmic(z_levels) => {
                if z_levels.len() == 0 {
                    return Err(TileSchemaError::NoZLevelsProvided);
                }
                let mut max_z_level: u32 = z_levels[0];
                let mut i: usize = 1;
                while i < z_levels.len()
                    invariant
                        1 <= i <= z_levels.len(),
                        forall|j: int| 0 <= j < i ==> z_levels@[j] <= max_z_level,
                        exists|j: int| 0 <= j < i && z_levels@[j] == max_z_level,
                    decreases z_levels.len() - i,
                {
                    if z_levels[i] > max_z_level {
                        max_z_level = z_levels[i];
                    }
                    i = i + 1;
                }
                let count: usize = max_z_level as usize + 1;
                let mut lods: Vec<bool> = Vec::new();
                while lods.len() < count
                    invariant
                        lods@.len() <= count,
                        forall|j: int| 0 <= j < lods@.len() ==> !lods@[j],
                    decreases count - lods@.len(),
                {
                    lods.push(false);
                }
                let mut k: usize = 0;
                while k < z_levels.len()
                    invariant
                        k <= z_levels.len(),
                        lods@.len() == count,
                        count == max_z_level + 1,
                        forall|j: int| 0 <= j < z_levels@.len() ==> z_levels@[j] <= max_z_level,
                        forall|z: int|
                            0 <= z < count ==> (lods@[z] <==> exists|j: int|
                                0 <= j < k && z_levels@[j] == z),
                    decreases z_levels.len() - k,
                {
                    let z = z_levels[k];
                    let ghost before = lods@;
                    lods.set(z as usize, true);
                    k = k + 1;
                    assert forall|at: int| 0 <= at < count implies (lods@[at] <==> exists|j: int|
                        0 <= j < k && z_levels@[j] == at) by {
                        if at == z {
                            assert(z_levels@[k - 1] == at);
                        } else if before[at] {
                            let j = choose|j: int| 0 <= j < k - 1 && z_levels@[j] == at;
                            assert(0 <= j < k && z_levels@[j] == at);
                        }
                    }
                }
                proof {
                    let top = choose|j: int| 0 <= j < z_levels@.len() && z_levels@[j] == max_z_level;
                    assert(lods@[max_z_level as int]);
                    assert(levels.contains(max_z_level));
                }
                lods
            },
        };
        if tile_width == 0 || tile_height == 0 {
            return Err(TileSchemaError::InvalidTileSize { width: tile_width, height: tile_height });
        }
        let schema = TileSchema::assemble(origin, bounds, lods, tile_width, tile_height, y_direction);
        proof {
            use_type_invariant(&bounds);
            assert forall|z: u32| schema.has_level(z) <==> levels.contains(z) by {
                if schema.has_level(z) {
                    let j = choose|j: int| 0 <= j < levels.len() && levels[j] == z;
                    assert(levels.contains(z));
                }
                if levels.contains(z) {
                    let j = choose|j: int| 0 <= j < levels.len() && levels[j] == z;
                    assert(0 <= j < levels.len() && levels[j] == z as int);
                }
            }
        }
        Ok(schema)
    }

    /// Standard Web Mercator based tile scheme (used, for example, by OSM and
    /// Google maps), in micrometres.
    pub fn web_mercator(z_levels: Vec<u32>) -> (builder: TileSchemaBuilder)
        ensures
            builder.spec_origin() == (Point { x: WEB_MERCATOR_MIN_COORD, y: WEB_MERCATOR_MAX_COORD }),
            builder.spec_bounds() == Rect::spanning(
                WEB_MERCATOR_MIN_COORD,
                WEB_MERCATOR_MIN_COORD,
                WEB_MERCATOR_MAX_COORD,
                WEB_MERCATOR_MAX_COORD,
            ),
            builder.spec_z_levels() == z_levels@,
            builder.spec_tile_width() == WEB_MERCATOR_TILE_SIZE,
            builder.spec_tile_height() == WEB_MERCATOR_TILE_SIZE,
            builder.spec_y_direction() == VerticalDirection::TopToBottom,
    {
        Self::web_mercator_base().with_logarithmic_z_levels(z_levels).with_rect_tile_size(
            WEB_MERCATOR_TILE_SIZE,
        )
    }

    fn web_mercator_base() -> (builder: TileSchemaBuilder)
        ensures
            builder.spec_origin() == (Point { x: WEB_MERCATOR_MIN_COORD, y: WEB_MERCATOR_MAX_COORD }),
            builder.spec_bounds() == Rect::spanning(
                WEB_MERCATOR_MIN_COORD,
                WEB_MERCATOR_MIN_COORD,
                WEB_MERCATOR_MAX_COORD,
                WEB_MERCATOR_MAX_COORD,
            ),
            builder.spec_z_levels() == Seq::<u32>::empty(),
            builder.spec_tile_width() == 0,
            builder.spec_tile_height() == 0,
            builder.spec_y_direction() == VerticalDirection::TopToBottom,
    {
        TileSchemaBuilder {
            origin: Point::new(WEB_MERCATOR_MIN_COORD, WEB_MERCATOR_MAX_COORD),
            bounds: Rect::new(
                WEB_MERCATOR_MIN_COORD,
                WEB_MERCATOR_MIN_COORD,
                WEB_MERCATOR_MAX_COORD,
                WEB_MERCATOR_MAX_COORD,
            ),
            lods: Lods::Logarithmic(Vec::new()),
            tile_width: 0,
            tile_height: 0,
            y_direction: VerticalDirection::TopToBottom,
        }
    }

    /// Set both tile width and height to `tile_size`.
    pub fn with_rect_tile_size(self, tile_size: u32) -> (builder: TileSchemaBuilder)
        ensures
            builder.spec_tile_width() == tile_size,
            builder.spec_tile_height() == tile_size,
            builder.spec_origin() == self.spec_origin(),
            builder.spec_bounds() == self.spec_bounds(),
            builder.spec_z_levels() == self.spec_z_levels(),
            builder.spec_y_direction() == self.spec_y_direction(),
    {
        let mut builder = self;
        builder.tile_width = tile_size;
        builder.tile_height = tile_size;
        builder
    }

    fn with_logarithmic_z_levels(self, z_levels: Vec<u32>) -> (builder: TileSchemaBuilder)
        ensures
            builder.spec_z_levels() == z_levels@,
            builder.spec_tile_width() == self.spec_tile_width(),
            builder.spec_tile_height() == self.spec_tile_height(),
            builder.spec_origin() == self.spec_origin(),
            builder.spec_bounds() == self.spec_bounds(),
            builder.spec_y_direction() == self.spec_y_direction(),
    {
        let mut builder = self;
        builder.lods = Lods::Logarithmic(z_levels);
        builder
    }
}

} // verus!
