//! A displayed tile, its key in the cache, and how far it has faded in.

use vstd::prelude::*;
use crate::tile_schema::index::WrappingTileIndex;

verus! {

/// Identifier of a rendering style. The same coordinate may be displayed under
/// several styles at once; each is a cache entry of its own.
pub type StyleId = u32;

/// Handle of a rendered artifact. The cache passes it on and never looks
/// behind it; whoever renders resolves it to the shared content.
pub type BundleId = u64;

/// Key of a cache entry: column, row and zoom level of the tile, the column it
/// is drawn in, and the style.
pub type TileKey = (i32, i32, u32, i32, u32);

/// One cache entry: a key and the tile stored under it.
pub type Entry = (TileKey, DisplayedTile);

/// Opacity of a tile that is fully visible. Opacities count in thousandths.
pub const OPACITY_FULL: u32 = 1000;

/// Fade-in duration of a new cache, in milliseconds.
pub const DEFAULT_FADE_IN_DURATION: u64 = 300;

/// A tile that is currently displayed.
#[derive(Clone, Copy, Debug, PartialEq, Eq, Structural)]
pub struct DisplayedTile {
    /// Where the tile is.
    pub index: WrappingTileIndex,
    /// The rendered content.
    pub bundle: BundleId,
    /// The style it was rendered with.
    pub style_id: StyleId,
    /// From 0 (invisible) to `OPACITY_FULL`.
    pub opacity: u32,
    /// Clock reading, in milliseconds, at which the tile entered the cache.
    pub displayed_at: u64,
}

/// The key under which a coordinate is cached for a style.
pub open spec fn tile_key(index: WrappingTileIndex, style_id: StyleId) -> TileKey {
    (index.x, index.y, index.z, index.display_x, style_id)
}

/// The coordinate that a key was made from.
pub open spec fn key_index(key: TileKey) -> WrappingTileIndex {
    WrappingTileIndex { x: key.0, y: key.1, z: key.2, display_x: key.3 }
}

/// Milliseconds from `since` to `now`; zero where the clock reads earlier than `since`.
pub open spec fn elapsed_between(since: u64, now: u64) -> u64 {
    if now >= since {
        (now - since) as u64
    } else {
        0
    }
}

/// Whether tiles fade in at all: a duration of at most one millisecond
/// switches the animation off.
pub open spec fn animated(fade_in: u64) -> bool {
    fade_in > 1
}

/// Opacity of a tile that has been displayed for `elapsed` milliseconds, with a
/// fade-in of `fade_in` milliseconds: the elapsed share of the fade-in, in
/// thousandths rounded down, and full once the fade-in is over or where there
/// is no animation.
pub open spec fn fade_progress(elapsed: u64, fade_in: u64) -> u32 {
    if animated(fade_in) && elapsed < fade_in {
        (elapsed * OPACITY_FULL / fade_in as int) as u32
    } else {
        OPACITY_FULL
    }
}

/// Opacity of a tile in the moment it enters the cache.
pub open spec fn initial_opacity(fade_in: u64) -> u32 {
    if animated(fade_in) {
        0
    } else {
        OPACITY_FULL
    }
}

/// `fade_progress` never exceeds full opacity, and below the fade-in duration
/// it stays short of it.
pub proof fn lemma_fade_progress_bounds(elapsed: u64, fade_in: u64)
    ensures
        fade_progress(elapsed, fade_in) <= OPACITY_FULL,
        fade_progress(elapsed, fade_in) == OPACITY_FULL <==> (!animated(fade_in) || elapsed
            >= fade_in),
        animated(fade_in) && elapsed < fade_in ==> fade_progress(elapsed, fade_in) == elapsed
            * OPACITY_FULL / fade_in as int,
{
    if animated(fade_in) && elapsed < fade_in {
        let q = elapsed * OPACITY_FULL / fade_in as int;
        assert(0 <= q < OPACITY_FULL) by (nonlinear_arith)
            requires
                q == elapsed * OPACITY_FULL / fade_in as int,
                0 <= elapsed < fade_in,
                OPACITY_FULL == 1000,
        ;
    }
}

/// A longer display never gives a smaller opacity.
pub proof fn lemma_fade_progress_monotonic(earlier: u64, later: u64, fade_in: u64)
    requires
        earlier <= later,
    ensures
        fade_progress(earlier, fade_in) <= fade_progress(later, fade_in),
{
    lemma_fade_progress_bounds(earlier, fade_in);
    lemma_fade_progress_bounds(later, fade_in);
    if animated(fade_in) && later < fade_in {
        assert(earlier * OPACITY_FULL / fade_in as int <= later * OPACITY_FULL / fade_in as int)
            by (nonlinear_arith)
            requires
                0 <= earlier <= later,
                fade_in > 0,
                OPACITY_FULL == 1000,
        ;
    }
}

/// The key under which a coordinate is cached for a style.
pub fn make_key(index: WrappingTileIndex, style_id: StyleId) -> (key: TileKey)
    ensures
        key == tile_key(index, style_id),
{
    (index.x, index.y, index.z, index.display_x, style_id)
}

/// The coordinate that a key was made from.
pub fn index_of_key(key: TileKey) -> (index: WrappingTileIndex)
    ensures
        index == key_index(key),
{
    WrappingTileIndex { x: key.0, y: key.1, z: key.2, display_x: key.3 }
}

/// Milliseconds from `since` to `now`; zero where the clock reads earlier than `since`.
pub fn elapsed_millis(since: u64, now: u64) -> (elapsed: u64)
    ensures
        elapsed == elapsed_between(since, now),
{
    if now >= since {
        now - since
    } else {
        0
    }
}

/// Opacity after `elapsed` milliseconds of a fade-in that takes `fade_in`.
pub fn opacity_after(elapsed: u64, fade_in: u64) -> (opacity: u32)
    ensures
        opacity == fade_progress(elapsed, fade_in),
        opacity <= OPACITY_FULL,
{
    proof {
        lemma_fade_progress_bounds(elapsed, fade_in);
    }
    if fade_in > 1 && elapsed < fade_in {
        let share: u128 = (elapsed as u128) * (OPACITY_FULL as u128) / (fade_in as u128);
        share as u32
    } else {
        OPACITY_FULL
    }
}

impl DisplayedTile {
    /// The key of the cache entry that holds this tile.
    pub open spec fn key(self) -> TileKey {
        tile_key(self.index, self.style_id)
    }

    /// Whether the tile has reached full opacity.
    pub open spec fn opaque(self) -> bool {
        self.opacity >= OPACITY_FULL
    }

    /// The tile as it is shown at clock reading `now`: its opacity follows the
    /// time it has been displayed, everything else stays.
    pub open spec fn faded(self, now: u64, fade_in: u64) -> DisplayedTile {
        DisplayedTile {
            opacity: fade_progress(elapsed_between(self.displayed_at, now), fade_in),
            ..self
        }
    }

    /// The tile that enters the cache at clock reading `now` with the content
    /// `bundle`: invisible where tiles fade in, fully visible where they do not.
    pub open spec fn fresh(
        index: WrappingTileIndex,
        bundle: BundleId,
        style_id: StyleId,
        now: u64,
        fade_in: u64,
    ) -> DisplayedTile {
        DisplayedTile {
            index,
            bundle,
            style_id,
            opacity: initial_opacity(fade_in),
            displayed_at: now,
        }
    }

    /// Whether the tile has reached full opacity.
    pub fn is_opaque(&self) -> (b: bool)
        ensures
            b == self.opaque(),
    {
        self.opacity >= OPACITY_FULL
    }

    /// The key of the cache entry that holds this tile.
    pub fn cache_key(&self) -> (key: TileKey)
        ensures
            key == self.key(),
    {
        make_key(self.index, self.style_id)
    }
}

} // verus!
