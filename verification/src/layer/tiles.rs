//! The container of the tiles that a layer currently displays.

use vstd::prelude::*;
use ordered_hash_map::OrderedHashMap;
use web_time::Instant;
use crate::layer::displayed::{
    animated,
    BundleId,
    DisplayedTile,
    Entry,
    StyleId,
    TileKey,
    DEFAULT_FADE_IN_DURATION,
};
use crate::layer::entries::well_formed;
use crate::layer::ordered::{map_entries, map_len, map_new, map_values, tiles_of};
use crate::layer::rebuild::{rebuild, rebuilt, redraw_due, Answers, TileProvider};
use crate::tile_schema::index::WrappingTileIndex;
use crate::tile_schema::schema::TileSchema;

verus! {

/// `web_time::Instant`: a reading of the monotonic clock. Nothing inside it is
/// visible here.
#[verifier::external_type_specification]
#[verifier::external_body]
pub struct ExInstant(Instant);

/// `web_time::Instant::now`: the current reading of the monotonic clock.
#[verifier::external_body]
fn clock_reading() -> Instant {
    Instant::now()
}

/// `web_time::Instant::elapsed`: the time that has passed on the monotonic
/// clock since the given reading. Nothing is claimed of its length.
#[verifier::external_body]
fn time_since(start: &Instant) -> core::time::Duration {
    start.elapsed()
}

/// `core::time::Duration::as_millis`: the whole milliseconds of a duration.
/// Nothing is claimed of their number.
#[verifier::external_body]
fn whole_millis(duration: &core::time::Duration) -> u64 {
    duration.as_millis() as u64
}

/// The tiles that a layer displays, in paint order, together with the schema
/// that places them, the provider that renders them and the fade-in duration.
pub struct TilesContainer<Provider: TileProvider> {
    tiles: OrderedHashMap<TileKey, DisplayedTile>,
    tile_schema: TileSchema,
    tile_provider: Provider,
    fade_in_duration: u64,
    started: Instant,
}

impl<Provider: TileProvider> View for TilesContainer<Provider> {
    type V = Seq<Entry>;

    /// The cache entries in paint order: the first one is painted first.
    closed spec fn view(&self) -> Seq<Entry> {
        map_entries(self.tiles)
    }
}

impl<Provider: TileProvider> TilesContainer<Provider> {
    #[verifier::type_invariant]
    spec fn valid(self) -> bool {
        well_formed(map_entries(self.tiles))
    }

    /// The schema that places the tiles.
    pub closed spec fn spec_schema(&self) -> TileSchema {
        self.tile_schema
    }

    /// The provider of rendered tiles.
    pub closed spec fn spec_provider(&self) -> Provider {
        self.tile_provider
    }

    /// The fade-in duration, in milliseconds.
    pub closed spec fn spec_fade_in(&self) -> u64 {
        self.fade_in_duration
    }

    /// An empty container with the default fade-in duration. Its clock starts now.
    pub fn new(tile_schema: TileSchema, tile_provider: Provider) -> (container: Self)
        ensures
            container@ == Seq::<Entry>::empty(),
            container.spec_schema() == tile_schema,
            container.spec_provider() == tile_provider,
            container.spec_fade_in() == DEFAULT_FADE_IN_DURATION,
    {
        Self {
            tiles: map_new(),
            tile_schema,
            tile_provider,
            fade_in_duration: DEFAULT_FADE_IN_DURATION,
            started: clock_reading(),
        }
    }

    /// Updates the displayed tiles for the coordinates that the viewport needs
    /// now, at the current reading of the container's clock. Returns whether
    /// the caller has to draw again.
    ///
    /// The clock and the provider decide what comes back; whatever they say,
    /// the new cache is the update of the old one for some clock reading and
    /// some answers of the provider.
    pub fn update_displayed_tiles(
        &mut self,
        needed_indices: Vec<WrappingTileIndex>,
        style_id: StyleId,
    ) -> (redraw: bool)
        ensures
            final(self).spec_schema() == old(self).spec_schema(),
            final(self).spec_provider() == old(self).spec_provider(),
            final(self).spec_fade_in() == old(self).spec_fade_in(),
            well_formed(old(self)@),
            well_formed(final(self)@),
            exists|now: u64, answers: Seq<Option<BundleId>>|
                {
                    &&& answers.len() == needed_indices@.len()
                    &&& final(self)@ == #[trigger] rebuilt(
                        old(self)@,
                        old(self).spec_schema(),
                        needed_indices@,
                        answers,
                        style_id,
                        now,
                        old(self).spec_fade_in(),
                    )
                    &&& redraw == redraw_due(
                        old(self)@,
                        old(self).spec_schema(),
                        needed_indices@,
                        answers,
                        style_id,
                        now,
                        old(self).spec_fade_in(),
                    )
                },
    {
        let elapsed = time_since(&self.started);
        let now = whole_millis(&elapsed);
        self.update_displayed_tiles_at(needed_indices, style_id, now)
    }

    /// Updates the displayed tiles for the coordinates that the viewport needs
    /// at the clock reading `now`, in milliseconds. Returns whether the caller
    /// has to draw again.
    ///
    /// The provider is asked once for each request that finds its coordinate
    /// not displayed; whatever it answers, the new cache is the update of the
    /// old one for some answers.
    pub fn update_displayed_tiles_at(
        &mut self,
        needed_indices: Vec<WrappingTileIndex>,
        style_id: StyleId,
        now: u64,
    ) -> (redraw: bool)
        ensures
            final(self).spec_schema() == old(self).spec_schema(),
            final(self).spec_provider() == old(self).spec_provider(),
            final(self).spec_fade_in() == old(self).spec_fade_in(),
            well_formed(old(self)@),
            well_formed(final(self)@),
            exists|answers: Seq<Option<BundleId>>|
                {
                    &&& answers.len() == needed_indices@.len()
                    &&& final(self)@ == #[trigger] rebuilt(
                        old(self)@,
                        old(self).spec_schema(),
                        needed_indices@,
                        answers,
                        style_id,
                        now,
                        old(self).spec_fade_in(),
                    )
                    &&& redraw == redraw_due(
                        old(self)@,
                        old(self).spec_schema(),
                        needed_indices@,
                        answers,
                        style_id,
                        now,
                        old(self).spec_fade_in(),
                    )
                },
    {
        proof {
            use_type_invariant(&*self);
        }
        let ghost before = self@;
        let mut tiles = map_new();
        core::mem::swap(&mut self.tiles, &mut tiles);
        let (redraw, answers) = rebuild(
            &mut tiles,
            &self.tile_schema,
            Answers::Ask(&self.tile_provider),
            &needed_indices,
            style_id,
            now,
            self.fade_in_duration,
        );
        self.tiles = tiles;
        proof {
            assert(self@ == rebuilt(
                before,
                self.spec_schema(),
                needed_indices@,
                answers@,
                style_id,
                now,
                self.spec_fade_in(),
            ));
        }
        redraw
    }

    /// Updates the displayed tiles at the clock reading `now` with answers
    /// that were fetched from the provider before: `answers[i]` is what the
    /// provider has for `needed_indices[i]`, and a missing answer counts as
    /// "not ready". The provider itself is not asked. Returns whether the
    /// caller has to draw again.
    pub fn update_with_answers(
        &mut self,
        needed_indices: Vec<WrappingTileIndex>,
        answers: Vec<Option<BundleId>>,
        style_id: StyleId,
        now: u64,
    ) -> (redraw: bool)
        ensures
            final(self).spec_schema() == old(self).spec_schema(),
            final(self).spec_provider() == old(self).spec_provider(),
            final(self).spec_fade_in() == old(self).spec_fade_in(),
            well_formed(old(self)@),
            well_formed(final(self)@),
            final(self)@ == rebuilt(
                old(self)@,
                old(self).spec_schema(),
                needed_indices@,
                answers@,
                style_id,
                now,
                old(self).spec_fade_in(),
            ),
            redraw == redraw_due(
                old(self)@,
                old(self).spec_schema(),
                needed_indices@,
                answers@,
                style_id,
                now,
                old(self).spec_fade_in(),
            ),
    {
        proof {
            use_type_invariant(&*self);
        }
        let mut tiles = map_new();
        core::mem::swap(&mut self.tiles, &mut tiles);
        let (redraw, _) = rebuild::<Provider>(
            &mut tiles,
            &self.tile_schema,
            Answers::Given(&answers),
            &needed_indices,
            style_id,
            now,
            self.fade_in_duration,
        );
        self.tiles = tiles;
        redraw
    }

    /// The fade-in duration, in milliseconds.
    pub fn fade_in_duration(&self) -> (millis: u64)
        ensures
            millis == self.spec_fade_in(),
    {
        self.fade_in_duration
    }

    /// Sets the fade-in duration, in milliseconds, for the updates that
    /// follow. The displayed tiles stay as they are.
    pub fn set_fade_in_duration(&mut self, millis: u64)
        ensures
            final(self).spec_fade_in() == millis,
            final(self)@ == old(self)@,
            final(self).spec_schema() == old(self).spec_schema(),
            final(self).spec_provider() == old(self).spec_provider(),
    {
        proof {
            use_type_invariant(&*self);
        }
        self.fade_in_duration = millis;
    }

    /// Whether new tiles fade in: they do unless the fade-in duration is at
    /// most one millisecond.
    pub fn requires_animation(&self) -> (b: bool)
        ensures
            b == animated(self.spec_fade_in()),
    {
        self.fade_in_duration > 1
    }

    /// The displayed tiles in paint order.
    pub fn displayed_tiles(&self) -> (tiles: Vec<DisplayedTile>)
        ensures
            tiles@ == tiles_of(self@),
            well_formed(self@),
    {
        proof {
            use_type_invariant(self);
        }
        map_values(&self.tiles)
    }

    /// The number of displayed tiles.
    pub fn len(&self) -> (n: usize)
        ensures
            n == self@.len(),
    {
        map_len(&self.tiles)
    }

    /// The schema that places the tiles.
    pub fn tile_schema(&self) -> (schema: &TileSchema)
        ensures
            *schema == self.spec_schema(),
    {
        &self.tile_schema
    }

    /// The provider of rendered tiles.
    pub fn tile_provider(&self) -> (provider: &Provider)
        ensures
            *provider == self.spec_provider(),
    {
        &self.tile_provider
    }
}

} // verus!
