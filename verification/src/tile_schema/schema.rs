//! The tile schema: where each tile of each zoom level lies in the world.
//!
//! A schema halves its resolution from one zoom level to the next. At level `z`
//! one pixel covers `width of the bounds / (tile width * 2^z)` world units, so
//! the edges of the tile grid are exact fractions; a bounding box holds each
//! edge rounded down to a whole world unit.

use vstd::prelude::*;
use vstd::arithmetic::div_mod::*;
use vstd::arithmetic::power2::*;
use crate::geometry::{Point, Rect};
use crate::tile_schema::index::WrappingTileIndex;

verus! {

/// Direction in which tile rows are counted from the origin.
#[derive(Clone, Copy, Debug, PartialEq, Eq, Structural)]
pub enum VerticalDirection {
    /// Row 0 is the topmost one; rows grow downwards.
    TopToBottom,
    /// Row 0 is the lowest one; rows grow upwards.
    BottomToTop,
}

/// World units per pixel at one zoom level, as the exact fraction
/// `span / (pixels * 2^halvings)`.
#[derive(Clone, Copy, Debug, PartialEq, Eq, Structural)]
pub struct Resolution {
    pub span: u64,
    pub pixels: u32,
    pub halvings: u32,
}

/// Validated description of a tile grid. Made by the schema builder only.
#[derive(Debug)]
pub struct TileSchema {
    origin: Point,
    bounds: Rect,
    lods: Vec<bool>,
    tile_width: u32,
    tile_height: u32,
    y_direction: VerticalDirection,
}

/// Distance, in world units and rounded down, from the origin to grid line `k`
/// at zoom level `z`, along an axis on which one tile covers `pixels` pixels.
/// `span` is the width of the schema's bounds and `tile_width` its tile width
/// in pixels: together with `z` they fix the resolution.
pub open spec fn edge_offset(span: int, tile_width: int, pixels: int, z: nat, k: int) -> int {
    (k * pixels * span) / (tile_width * pow2(z))
}

/// Whether a world coordinate can be held.
pub open spec fn fits_world(v: int) -> bool {
    i64::MIN <= v <= i64::MAX
}

spec fn two_to_127() -> int {
    0x8000_0000_0000_0000_0000_0000_0000_0000
}

proof fn lemma_pow2_127()
    ensures
        pow2(127) == two_to_127(),
{
    lemma2_to64();
    lemma_pow2_adds(31, 32);
    lemma_pow2_adds(63, 64);
    assert(pow2(63) == 0x8000_0000_0000_0000) by {
        assert(0x8000_0000int * 0x1_0000_0000int == 0x8000_0000_0000_0000int)
            by (nonlinear_arith);
    }
    assert(pow2(63) * pow2(64) == two_to_127()) by {
        assert(0x8000_0000_0000_0000int * 0x1_0000_0000_0000_0000int == two_to_127())
            by (nonlinear_arith);
    }
}

fn power_of_two(z: u32) -> (t: u128)
    requires
        z < 127,
    ensures
        t == pow2(z as nat),
        0 < t < two_to_127(),
{
    let mut t: u128 = 1;
    let mut i: u32 = 0;
    proof {
        lemma2_to64();
    }
    while i < z
        invariant
            i <= z,
            z < 127,
            t == pow2(i as nat),
        decreases z - i,
    {
        proof {
            lemma_pow2_unfold((i + 1) as nat);
            lemma_pow2_strictly_increases((i + 1) as nat, 127);
            lemma_pow2_127();
        }
        t = t * 2;
        i = i + 1;
    }
    proof {
        lemma_pow2_pos(z as nat);
        lemma_pow2_strictly_increases(z as nat, 127);
        lemma_pow2_127();
    }
    t
}

/// Quotient of `m` by `q * 2^z`, rounded down, and whether it is exact.
fn divide_by_scaled(m: u128, q: u32, z: u32) -> (r: (u128, bool))
    requires
        q > 0,
        m < two_to_127(),
    ensures
        q * pow2(z as nat) > 0,
        r.0 == (m as int) / (q * pow2(z as nat)),
        r.1 == ((m as int) % (q * pow2(z as nat)) == 0),
        r.0 <= m,
{
    let a = m / (q as u128);
    let rest = m % (q as u128);
    let ghost t = pow2(z as nat) as int;
    proof {
        lemma_pow2_pos(z as nat);
        lemma_div_denominator(m as int, q as int, t);
        lemma_breakdown(m as int, q as int, t);
        lemma_div_is_ordered_by_denominator(m as int, 1, q as int);
        lemma_div_pos_is_pos(m as int, q as int);
        lemma_mod_bound((m as int) / (q as int), t);
        lemma_mod_bound(m as int, q as int);
        assert((q as int) * (((m as int) / (q as int)) % t) == 0 <==> ((m as int) / (q as int))
            % t == 0) by (nonlinear_arith)
            requires
                q > 0,
        ;
        assert(a as int <= m as int);
    }
    if z >= 127 {
        proof {
            lemma_pow2_127();
            if z > 127 {
                lemma_pow2_strictly_increases(127, z as nat);
            }
            lemma_basic_div(a as int, t);
            lemma_small_mod(a as nat, t as nat);
        }
        (0, rest == 0 && a == 0)
    } else {
        let scale = power_of_two(z);
        let b = a / scale;
        let low = a % scale;
        proof {
            lemma_div_is_ordered_by_denominator(a as int, 1, scale as int);
        }
        (b, rest == 0 && low == 0)
    }
}

/// `edge_offset`, computed.
fn grid_line(span: u64, tile_width: u32, pixels: u32, z: u32, k: i64) -> (r: i128)
    requires
        tile_width > 0,
        -0x8000_0000 <= k <= 0x8000_0000,
    ensures
        r == edge_offset(span as int, tile_width as int, pixels as int, z as nat, k as int),
{
    let steps: u128 = if k < 0 {
        (-k) as u128
    } else {
        k as u128
    };
    proof {
        assert(steps * pixels <= 0x8000_0000 * 0xffff_ffff) by (nonlinear_arith)
            requires
                steps <= 0x8000_0000,
                pixels <= 0xffff_ffff,
        ;
    }
    let run: u128 = steps * (pixels as u128);
    proof {
        assert(run * span <= 0x8000_0000 * 0xffff_ffff * 0xffff_ffff_ffff_ffff) by (nonlinear_arith)
            requires
                run <= 0x8000_0000 * 0xffff_ffff,
                span <= 0xffff_ffff_ffff_ffff,
        ;
    }
    let m: u128 = run * (span as u128);
    let (floor, exact) = divide_by_scaled(m, tile_width, z);
    let ghost d = tile_width * pow2(z as nat);
    let ghost n = k * pixels * span;
    if k >= 0 {
        proof {
            assert(n == m) by (nonlinear_arith)
                requires
                    n == k * pixels * span,
                    m == steps * pixels * span,
                    steps == k,
            ;
        }
        floor as i128
    } else {
        proof {
            assert(n == -m) by (nonlinear_arith)
                requires
                    n == k * pixels * span,
                    m == steps * pixels * span,
                    steps == -k,
            ;
            lemma_fundamental_div_mod(m as int, d);
            lemma_mod_bound(m as int, d);
            let rem = (m as int) % d;
            if rem == 0 {
                assert(n == (-floor) * d + 0) by (nonlinear_arith)
                    requires
                        n == -m,
                        m == d * floor + rem,
                        rem == 0,
                ;
                lemma_fundamental_div_mod_converse_div(n, d, -floor, 0);
            } else {
                assert(n == (-floor - 1) * d + (d - rem)) by (nonlinear_arith)
                    requires
                        n == -m,
                        m == d * floor + rem,
                ;
                lemma_fundamental_div_mod_converse_div(n, d, -floor - 1, d - rem);
            }
        }
        if exact {
            -(floor as i128)
        } else {
            -(floor as i128) - 1
        }
    }
}

/// The world coordinate at `offset` from `origin`, towards larger coordinates
/// or, if `backwards`, towards smaller ones; `None` where it cannot be held.
fn world_edge(origin: i64, offset: i128, backwards: bool) -> (r: Option<i64>)
    ensures
        r == if fits_world(
            if backwards {
                origin - offset
            } else {
                origin + offset
            },
        ) {
            Some(
                (if backwards {
                    origin - offset
                } else {
                    origin + offset
                }) as i64,
            )
        } else {
            None
        },
{
    if offset < -0x1_0000_0000_0000_0000 || offset > 0x1_0000_0000_0000_0000 {
        return None;
    }
    let at: i128 = if backwards {
        origin as i128 - offset
    } else {
        origin as i128 + offset
    };
    if at < i64::MIN as i128 || at > i64::MAX as i128 {
        None
    } else {
        Some(at as i64)
    }
}

impl TileSchema {
    #[verifier::type_invariant]
    spec fn valid(self) -> bool {
        &&& self.tile_width > 0
        &&& self.tile_height > 0
        &&& 0 < self.lods@.len() <= u32::MAX + 1
        &&& self.lods@[self.lods@.len() - 1]
    }

    pub closed spec fn spec_origin(&self) -> Point {
        self.origin
    }

    pub closed spec fn spec_bounds(&self) -> Rect {
        self.bounds
    }

    pub closed spec fn spec_tile_width(&self) -> u32 {
        self.tile_width
    }

    pub closed spec fn spec_tile_height(&self) -> u32 {
        self.tile_height
    }

    pub closed spec fn spec_y_direction(&self) -> VerticalDirection {
        self.y_direction
    }

    /// One more than the deepest zoom level of the schema.
    pub closed spec fn spec_lod_count(&self) -> nat {
        self.lods@.len()
    }

    /// Whether the schema has zoom level `z`.
    pub closed spec fn has_level(&self, z: u32) -> bool {
        z < self.lods@.len() && self.lods@[z as int]
    }

    /// What the builder guarantees of every schema it hands out.
    pub open spec fn well_formed(&self) -> bool {
        &&& self.spec_tile_width() > 0
        &&& self.spec_tile_height() > 0
        &&& self.spec_bounds().is_ordered()
        &&& 0 < self.spec_lod_count() <= u32::MAX + 1
        &&& self.has_level((self.spec_lod_count() - 1) as u32)
        &&& forall|z: u32| self.has_level(z) ==> z < self.spec_lod_count()
    }

    /// Distance from the origin to vertical grid line `k` of level `z`.
    pub open spec fn column_offset(&self, z: u32, k: int) -> int {
        edge_offset(
            self.spec_bounds().spec_width(),
            self.spec_tile_width() as int,
            self.spec_tile_width() as int,
            z as nat,
            k,
        )
    }

    /// Distance from the origin to horizontal grid line `k` of level `z`.
    pub open spec fn row_offset(&self, z: u32, k: int) -> int {
        edge_offset(
            self.spec_bounds().spec_width(),
            self.spec_tile_width() as int,
            self.spec_tile_height() as int,
            z as nat,
            k,
        )
    }

    /// World coordinate of the left side of a tile drawn in column `index.display_x`.
    pub open spec fn left_of(&self, index: WrappingTileIndex) -> int {
        self.spec_origin().x + self.column_offset(index.z, index.display_x as int)
    }

    /// World coordinate of its right side.
    pub open spec fn right_of(&self, index: WrappingTileIndex) -> int {
        self.spec_origin().x + self.column_offset(index.z, index.display_x + 1)
    }

    /// World coordinate of the side of row `index.y` that is nearer to the origin.
    pub open spec fn near_of(&self, index: WrappingTileIndex) -> int {
        match self.spec_y_direction() {
            VerticalDirection::TopToBottom => self.spec_origin().y - self.row_offset(
                index.z,
                index.y as int,
            ),
            VerticalDirection::BottomToTop => self.spec_origin().y + self.row_offset(
                index.z,
                index.y as int,
            ),
        }
    }

    /// World coordinate of the side of row `index.y` that is farther from the origin.
    pub open spec fn far_of(&self, index: WrappingTileIndex) -> int {
        match self.spec_y_direction() {
            VerticalDirection::TopToBottom => self.spec_origin().y - self.row_offset(
                index.z,
                index.y + 1,
            ),
            VerticalDirection::BottomToTop => self.spec_origin().y + self.row_offset(
                index.z,
                index.y + 1,
            ),
        }
    }

    /// The bounding box of a tile in world space: `None` where the schema has
    /// no zoom level `index.z`, or where a side of the box lies outside the
    /// coordinates that can be held.
    pub open spec fn bbox(&self, index: WrappingTileIndex) -> Option<Rect> {
        if self.has_level(index.z) && fits_world(self.left_of(index)) && fits_world(
            self.right_of(index),
        ) && fits_world(self.near_of(index)) && fits_world(self.far_of(index)) {
            Some(
                Rect::spanning(
                    self.left_of(index) as i64,
                    self.near_of(index) as i64,
                    self.right_of(index) as i64,
                    self.far_of(index) as i64,
                ),
            )
        } else {
            None
        }
    }

    /// Puts a schema together from parts that the builder has validated.
    pub(crate) fn assemble(
        origin: Point,
        bounds: Rect,
        lods: Vec<bool>,
        tile_width: u32,
        tile_height: u32,
        y_direction: VerticalDirection,
    ) -> (schema: TileSchema)
        requires
            tile_width > 0,
            tile_height > 0,
            0 < lods@.len() <= u32::MAX + 1,
            lods@[lods@.len() - 1],
        ensures
            schema.spec_origin() == origin,
            schema.spec_bounds() == bounds,
            schema.spec_tile_width() == tile_width,
            schema.spec_tile_height() == tile_height,
            schema.spec_y_direction() == y_direction,
            schema.spec_lod_count() == lods@.len(),
            forall|z: u32| schema.has_level(z) <==> (z < lods@.len() && lods@[z as int]),
    {
        TileSchema { origin, bounds, lods, tile_width, tile_height, y_direction }
    }

    pub fn origin(&self) -> (p: Point)
        ensures
            p == self.spec_origin(),
    {
        self.origin
    }

    pub fn bounds(&self) -> (r: Rect)
        ensures
            r == self.spec_bounds(),
    {
        self.bounds
    }

    pub fn tile_width(&self) -> (w: u32)
        ensures
            w == self.spec_tile_width(),
            w > 0,
    {
        proof {
            use_type_invariant(self);
        }
        self.tile_width
    }

    pub fn tile_height(&self) -> (h: u32)
        ensures
            h == self.spec_tile_height(),
            h > 0,
    {
        proof {
            use_type_invariant(self);
        }
        self.tile_height
    }

    pub fn y_direction(&self) -> (d: VerticalDirection)
        ensures
            d == self.spec_y_direction(),
    {
        self.y_direction
    }

    /// One more than the deepest zoom level.
    pub fn lod_count(&self) -> (n: usize)
        ensures
            n == self.spec_lod_count(),
            n > 0,
    {
        proof {
            use_type_invariant(self);
        }
        self.lods.len()
    }

    /// Whether the schema has zoom level `z`.
    pub fn has_lod(&self, z: u32) -> (b: bool)
        ensures
            b == self.has_level(z),
    {
        (z as usize) < self.lods.len() && self.lods[z as usize]
    }

    /// The resolution at zoom level `z`, or `None` where the schema has no
    /// such level.
    pub fn lod_resolution(&self, z: u32) -> (r: Option<Resolution>)
        ensures
            r == if self.has_level(z) {
                Some(
                    Resolution {
                        span: self.spec_bounds().spec_width() as u64,
                        pixels: self.spec_tile_width(),
                        halvings: z,
                    },
                )
            } else {
                None
            },
    {
        if self.has_lod(z) {
            Some(Resolution { span: self.bounds.width(), pixels: self.tile_width, halvings: z })
        } else {
            None
        }
    }

    /// The bounding box of a tile in world space.
    pub fn tile_bbox(&self, index: WrappingTileIndex) -> (r: Option<Rect>)
        ensures
            r == self.bbox(index),
    {
        proof {
            use_type_invariant(self);
        }
        if !self.has_lod(index.z) {
            return None;
        }
        let span = self.bounds.width();
        let backwards = match self.y_direction {
            VerticalDirection::TopToBottom => true,
            VerticalDirection::BottomToTop => false,
        };
        let column = index.display_x as i64;
        let row = index.y as i64;
        let left = world_edge(
            self.origin.x,
            grid_line(span, self.tile_width, self.tile_width, index.z, column),
            false,
        );
        let right = world_edge(
            self.origin.x,
            grid_line(span, self.tile_width, self.tile_width, index.z, column + 1),
            false,
        );
        let near = world_edge(
            self.origin.y,
            grid_line(span, self.tile_width, self.tile_height, index.z, row),
            backwards,
        );
        let far = world_edge(
            self.origin.y,
            grid_line(span, self.tile_width, self.tile_height, index.z, row + 1),
            backwards,
        );
        match (left, right, near, far) {
            (Some(x0), Some(x1), Some(y0), Some(y1)) => Some(Rect::new(x0, y0, x1, y1)),
            _ => None,
        }
    }
}

} // verus!
