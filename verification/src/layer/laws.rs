//! What every update of the displayed tiles guarantees.

use vstd::prelude::*;
use crate::geometry::Rect;
use crate::layer::displayed::{
    elapsed_between,
    fade_progress,
    lemma_fade_progress_bounds,
    lemma_fade_progress_monotonic,
    tile_key,
    BundleId,
    DisplayedTile,
    Entry,
    StyleId,
    TileKey,
    OPACITY_FULL,
};
use crate::layer::entries::{
    lemma_found_at,
    lemma_value_is_entry,
    well_formed,
};
use crate::layer::gathering::{
    calls_for_redraw,
    first_request,
    from_cache,
    just_inserted,
    lemma_first_request,
    lemma_gathered_once,
    lemma_gathered_origin,
    lemma_gathered_quiet,
    lemma_gathered_redraw,
    lemma_gathered_regions,
    lemma_gathered_remaining,
    lemma_gathered_wanted,
    lemma_request_cases,
    no_repeats,
    requested,
    wants,
};
use crate::layer::ordered::{has_key, position_of, value_of};
use crate::layer::passes::{
    as_entries,
    claimed,
    lemma_as_entries,
    lemma_installed,
    lemma_installed_behind,
    lemma_installed_in_order,
    lemma_substituted,
};
use crate::layer::rebuild::{
    answer_at,
    fallbacks,
    gathered,
    gathered_all,
    installed,
    lemma_rebuilt_well_formed,
    rebuilt,
    redraw_due,
    touches,
};
use crate::tile_schema::index::WrappingTileIndex;
use crate::tile_schema::schema::TileSchema;

verus! {

/// The regions in which an update keeps earlier tiles visible, in the order
/// in which it records them. Each is the bounding box of a requested
/// coordinate whose tile is missing, new, or still fading in.
pub open spec fn fallback_regions(
    tiles: Seq<Entry>,
    schema: TileSchema,
    needed: Seq<WrappingTileIndex>,
    answers: Seq<Option<BundleId>>,
    style_id: StyleId,
    now: u64,
    fade_in: u64,
) -> Seq<Rect> {
    gathered_all(tiles, schema, needed, answers, style_id, now, fade_in).regions
}

/// Whether the tile stored under the key has a bounding box that has a point
/// in common with the bounding box of the coordinate.
pub open spec fn covers(schema: TileSchema, key: TileKey, index: WrappingTileIndex) -> bool {
    match schema.bbox(index) {
        Some(region) => touches(schema, key, region),
        None => false,
    }
}

/// Whether the opacity of the tile is at most what the time since its
/// insertion gives at the clock reading `now`.
pub open spec fn keeps_pace(tile: DisplayedTile, now: u64, fade_in: u64) -> bool {
    tile.opacity <= fade_progress(elapsed_between(tile.displayed_at, now), fade_in)
}

/// Whether every tile keeps pace with the clock. An empty cache does, and
/// updates with a clock that does not run backwards and an unchanged fade-in
/// duration keep it so.
pub open spec fn all_keep_pace(tiles: Seq<Entry>, now: u64, fade_in: u64) -> bool {
    forall|i: int| 0 <= i < tiles.len() ==> keeps_pace((#[trigger] tiles[i]).1, now, fade_in)
}

/// The cache that holds exactly the requested tiles, in the order of the
/// requests, each as the earlier cache held it.
pub open spec fn settled(tiles: Seq<Entry>, needed: Seq<WrappingTileIndex>, style_id: StyleId) -> Seq<
    Entry,
> {
    Seq::new(
        needed.len(),
        |j: int|
            (tile_key(needed[j], style_id), value_of(tiles, tile_key(needed[j], style_id)).unwrap()),
    )
}

/// Whether the cache holds every requested tile at full opacity.
pub open spec fn all_opaque(tiles: Seq<Entry>, needed: Seq<WrappingTileIndex>, style_id: StyleId) -> bool {
    forall|j: int|
        0 <= j < needed.len() ==> has_key(tiles, tile_key(#[trigger] needed[j], style_id))
            && value_of(tiles, tile_key(needed[j], style_id)).unwrap().opaque()
}

/// Where a key of the new cache comes from: a wanted tile, or a fallback that
/// the earlier cache held under the same key and that no request asked for.
pub proof fn lemma_rebuilt_sources(
    tiles: Seq<Entry>,
    schema: TileSchema,
    needed: Seq<WrappingTileIndex>,
    answers: Seq<Option<BundleId>>,
    style_id: StyleId,
    now: u64,
    fade_in: u64,
)
    requires
        well_formed(tiles),
    ensures
        ({
            let all = gathered_all(tiles, schema, needed, answers, style_id, now, fade_in);
            let after = rebuilt(tiles, schema, needed, answers, style_id, now, fade_in);
            &&& well_formed(after)
            &&& forall|key: TileKey|
                #![trigger has_key(after, key)]
                has_key(after, key) <==> (wants(all.wanted, key) || (has_key(tiles, key)
                    && !requested(needed, style_id, needed.len(), key) && claimed(
                    schema,
                    all.regions,
                    all.regions.len(),
                    key,
                )))
            &&& forall|key: TileKey|
                #![trigger value_of(after, key)]
                has_key(after, key) && !wants(all.wanted, key) ==> value_of(after, key)
                    == value_of(tiles, key)
            &&& forall|key: TileKey|
                #![trigger value_of(after, key)]
                wants(all.wanted, key) ==> exists|i: int|
                    0 <= i < all.wanted.len() && (#[trigger] all.wanted[i]).key() == key
                        && value_of(after, key) == Some(all.wanted[i])
            &&& forall|key: TileKey|
                #![trigger wants(all.wanted, key)]
                wants(all.wanted, key) ==> requested(needed, style_id, needed.len(), key)
            &&& forall|key: TileKey|
                #![trigger wants(all.wanted, key)]
                has_key(tiles, key) && requested(needed, style_id, needed.len(), key) ==> wants(
                    all.wanted,
                    key,
                )
        }),
{
    let n = needed.len();
    let all = gathered_all(tiles, schema, needed, answers, style_id, now, fade_in);
    let kept = fallbacks(all.remaining, schema, all.regions);
    let after = rebuilt(tiles, schema, needed, answers, style_id, now, fade_in);
    lemma_rebuilt_well_formed(tiles, schema, needed, answers, style_id, now, fade_in);
    lemma_gathered_remaining(tiles, schema, needed, answers, style_id, now, fade_in, n);
    lemma_gathered_wanted(tiles, schema, needed, answers, style_id, now, fade_in, n);
    lemma_substituted(all.remaining, schema, all.regions, all.regions.len());
    lemma_installed(kept, all.wanted, all.wanted.len());
    assert forall|key: TileKey| #![trigger wants(all.wanted, key)] wants(
        all.wanted,
        key,
    ) implies requested(needed, style_id, n, key) by {
        let i = choose|i: int| 0 <= i < all.wanted.len() && (#[trigger] all.wanted[i]).key() == key;
        assert(requested(needed, style_id, n, all.wanted[i].key()));
    }
    assert forall|key: TileKey| #![trigger has_key(after, key)] has_key(after, key) <==> (wants(
        all.wanted,
        key,
    ) || (has_key(tiles, key) && !requested(needed, style_id, n, key) && claimed(
        schema,
        all.regions,
        all.regions.len(),
        key,
    ))) by {
        assert(has_key(kept, key) <==> (has_key(all.remaining, key) && claimed(
            schema,
            all.regions,
            all.regions.len(),
            key,
        )));
        assert(has_key(all.remaining, key) <==> (has_key(tiles, key) && !requested(
            needed,
            style_id,
            n,
            key,
        )));
    }
    assert forall|key: TileKey| #![trigger value_of(after, key)] has_key(after, key) && !wants(
        all.wanted,
        key,
    ) implies value_of(after, key) == value_of(tiles, key) by {
        assert(value_of(after, key) == value_of(kept, key));
        assert(has_key(kept, key));
        assert(value_of(kept, key) == value_of(all.remaining, key));
        assert(has_key(all.remaining, key));
        assert(value_of(all.remaining, key) == value_of(tiles, key));
    }
}

/// No gap: after an update, the cache holds every requested coordinate, or
/// else every earlier tile whose bounding box touches the box of that
/// coordinate. So where the coordinate itself is not displayed and some
/// earlier tile could stand in for it, some tile does.
pub proof fn law_no_gap(
    tiles: Seq<Entry>,
    schema: TileSchema,
    needed: Seq<WrappingTileIndex>,
    answers: Seq<Option<BundleId>>,
    style_id: StyleId,
    now: u64,
    fade_in: u64,
    i: int,
)
    requires
        well_formed(tiles),
        0 <= i < needed.len(),
    ensures
        ({
            let after = rebuilt(tiles, schema, needed, answers, style_id, now, fade_in);
            ||| has_key(after, tile_key(needed[i], style_id))
            ||| forall|key: TileKey|
                has_key(tiles, key) && covers(schema, key, needed[i]) ==> #[trigger] has_key(
                    after,
                    key,
                )
        }),
        ({
            let after = rebuilt(tiles, schema, needed, answers, style_id, now, fade_in);
            ||| has_key(after, tile_key(needed[i], style_id))
            ||| (exists|key: TileKey| has_key(tiles, key) && #[trigger] covers(schema, key, needed[i]))
                ==> (exists|key: TileKey|
                has_key(after, key) && #[trigger] covers(schema, key, needed[i]))
        }),
{
    let n = needed.len();
    let all = gathered_all(tiles, schema, needed, answers, style_id, now, fade_in);
    let after = rebuilt(tiles, schema, needed, answers, style_id, now, fade_in);
    let wanted_key = tile_key(needed[i], style_id);
    lemma_rebuilt_sources(tiles, schema, needed, answers, style_id, now, fade_in);
    lemma_gathered_regions(tiles, schema, needed, answers, style_id, now, fade_in, n);
    if !has_key(after, wanted_key) {
        assert(!wants(all.wanted, wanted_key));
        assert forall|key: TileKey| has_key(tiles, key) && covers(
            schema,
            key,
            needed[i],
        ) implies #[trigger] has_key(after, key) by {
            let region = schema.bbox(needed[i]).unwrap();
            assert(all.regions.contains(region));
            let j = choose|j: int| 0 <= j < all.regions.len() && all.regions[j] == region;
            assert(touches(schema, key, all.regions[j]));
            assert(claimed(schema, all.regions, all.regions.len(), key));
        }
        if exists|key: TileKey| has_key(tiles, key) && #[trigger] covers(schema, key, needed[i]) {
            let key = choose|key: TileKey|
                has_key(tiles, key) && #[trigger] covers(schema, key, needed[i]);
            assert(has_key(after, key) && covers(schema, key, needed[i]));
        }
    }
}

/// Eviction: a tile that the cache held before an update and does not hold
/// after it was not requested, and its bounding box touches no fallback
/// region of the update.
pub proof fn law_eviction(
    tiles: Seq<Entry>,
    schema: TileSchema,
    needed: Seq<WrappingTileIndex>,
    answers: Seq<Option<BundleId>>,
    style_id: StyleId,
    now: u64,
    fade_in: u64,
    key: TileKey,
)
    requires
        well_formed(tiles),
        has_key(tiles, key),
        !has_key(rebuilt(tiles, schema, needed, answers, style_id, now, fade_in), key),
    ensures
        forall|j: int| 0 <= j < needed.len() ==> tile_key(#[trigger] needed[j], style_id) != key,
        forall|j: int|
            0 <= j < fallback_regions(
                tiles,
                schema,
                needed,
                answers,
                style_id,
                now,
                fade_in,
            ).len() ==> !touches(
                schema,
                key,
                #[trigger] fallback_regions(
                    tiles,
                    schema,
                    needed,
                    answers,
                    style_id,
                    now,
                    fade_in,
                )[j],
            ),
{
    let regions = fallback_regions(tiles, schema, needed, answers, style_id, now, fade_in);
    lemma_rebuilt_sources(tiles, schema, needed, answers, style_id, now, fade_in);
    assert(!requested(needed, style_id, needed.len(), key));
    assert(!claimed(schema, regions, regions.len(), key));
}

/// Every fallback region of an update is the bounding box of a requested
/// coordinate.
pub proof fn law_regions_are_requested(
    tiles: Seq<Entry>,
    schema: TileSchema,
    needed: Seq<WrappingTileIndex>,
    answers: Seq<Option<BundleId>>,
    style_id: StyleId,
    now: u64,
    fade_in: u64,
    i: int,
)
    requires
        well_formed(tiles),
        0 <= i < fallback_regions(tiles, schema, needed, answers, style_id, now, fade_in).len(),
    ensures
        exists|j: int|
            0 <= j < needed.len() && schema.bbox(#[trigger] needed[j]) == Some(
                fallback_regions(tiles, schema, needed, answers, style_id, now, fade_in)[i],
            ),
{
    lemma_gathered_regions(tiles, schema, needed, answers, style_id, now, fade_in, needed.len());
}

/// Paint order: the new cache is the fallbacks, in the order in which the
/// regions claimed them, followed by the requested tiles. No fallback has the
/// key of a request, and every entry behind the fallbacks has.
pub proof fn law_paint_order(
    tiles: Seq<Entry>,
    schema: TileSchema,
    needed: Seq<WrappingTileIndex>,
    answers: Seq<Option<BundleId>>,
    style_id: StyleId,
    now: u64,
    fade_in: u64,
)
    requires
        well_formed(tiles),
    ensures
        ({
            let all = gathered_all(tiles, schema, needed, answers, style_id, now, fade_in);
            let kept = fallbacks(all.remaining, schema, all.regions);
            let after = rebuilt(tiles, schema, needed, answers, style_id, now, fade_in);
            &&& kept.len() <= after.len()
            &&& after.take(kept.len() as int) == kept
            &&& forall|i: int|
                0 <= i < kept.len() ==> !requested(
                    needed,
                    style_id,
                    needed.len(),
                    (#[trigger] after[i]).0,
                )
            &&& forall|i: int|
                kept.len() <= i < after.len() ==> requested(
                    needed,
                    style_id,
                    needed.len(),
                    (#[trigger] after[i]).0,
                )
        }),
{
    let n = needed.len();
    let all = gathered_all(tiles, schema, needed, answers, style_id, now, fade_in);
    let kept = fallbacks(all.remaining, schema, all.regions);
    let after = rebuilt(tiles, schema, needed, answers, style_id, now, fade_in);
    let empty = Seq::<Entry>::empty();
    let behind = installed(empty, all.wanted, all.wanted.len());
    lemma_rebuilt_sources(tiles, schema, needed, answers, style_id, now, fade_in);
    lemma_gathered_remaining(tiles, schema, needed, answers, style_id, now, fade_in, n);
    lemma_substituted(all.remaining, schema, all.regions, all.regions.len());
    assert forall|i: int| 0 <= i < all.wanted.len() implies !has_key(
        kept,
        (#[trigger] all.wanted[i]).key(),
    ) by {
        assert(wants(all.wanted, all.wanted[i].key()));
    }
    lemma_installed_behind(kept, all.wanted, all.wanted.len());
    lemma_installed(empty, all.wanted, all.wanted.len());
    assert(after == kept + behind);
    assert(after.take(kept.len() as int) == kept);
    assert forall|i: int| 0 <= i < kept.len() implies !requested(
        needed,
        style_id,
        n,
        (#[trigger] after[i]).0,
    ) by {
        assert(after[i] == kept[i]);
        assert(has_key(kept, kept[i].0));
    }
    assert forall|i: int| kept.len() <= i < after.len() implies requested(
        needed,
        style_id,
        n,
        (#[trigger] after[i]).0,
    ) by {
        assert(after[i] == behind[i - kept.len()]);
        assert(has_key(behind, behind[i - kept.len()].0));
        assert(!has_key(empty, after[i].0)) by {
            if has_key(empty, after[i].0) {
                let p = position_of(empty, after[i].0);
                assert(0 <= p < empty.len());
            }
        }
        assert(wants(all.wanted, after[i].0));
    }
}

/// Full opacity: after an update, a requested tile that has been displayed
/// for at least the fade-in duration is fully opaque, and no requested tile
/// is more than that.
pub proof fn law_opaque_after_fade_in(
    tiles: Seq<Entry>,
    schema: TileSchema,
    needed: Seq<WrappingTileIndex>,
    answers: Seq<Option<BundleId>>,
    style_id: StyleId,
    now: u64,
    fade_in: u64,
    i: int,
)
    requires
        well_formed(tiles),
        0 <= i < needed.len(),
        has_key(
            rebuilt(tiles, schema, needed, answers, style_id, now, fade_in),
            tile_key(needed[i], style_id),
        ),
    ensures
        ({
            let tile = value_of(
                rebuilt(tiles, schema, needed, answers, style_id, now, fade_in),
                tile_key(needed[i], style_id),
            ).unwrap();
            &&& tile.opacity <= OPACITY_FULL
            &&& elapsed_between(tile.displayed_at, now) >= fade_in ==> tile.opacity
                == OPACITY_FULL
        }),
{
    let all = gathered_all(tiles, schema, needed, answers, style_id, now, fade_in);
    let key = tile_key(needed[i], style_id);
    lemma_rebuilt_sources(tiles, schema, needed, answers, style_id, now, fade_in);
    lemma_gathered_origin(tiles, schema, needed, answers, style_id, now, fade_in, needed.len());
    assert(requested(needed, style_id, needed.len(), key));
    assert(wants(all.wanted, key));
}

/// Pace: an update at the clock reading `now` leaves every tile with an
/// opacity that keeps pace with the clock, then and at every later reading.
pub proof fn law_pace_is_kept(
    tiles: Seq<Entry>,
    schema: TileSchema,
    needed: Seq<WrappingTileIndex>,
    answers: Seq<Option<BundleId>>,
    style_id: StyleId,
    now: u64,
    fade_in: u64,
    later: u64,
)
    requires
        well_formed(tiles),
        all_keep_pace(tiles, now, fade_in),
        now <= later,
    ensures
        all_keep_pace(
            rebuilt(tiles, schema, needed, answers, style_id, now, fade_in),
            later,
            fade_in,
        ),
{
    let all = gathered_all(tiles, schema, needed, answers, style_id, now, fade_in);
    let after = rebuilt(tiles, schema, needed, answers, style_id, now, fade_in);
    lemma_rebuilt_sources(tiles, schema, needed, answers, style_id, now, fade_in);
    lemma_gathered_origin(tiles, schema, needed, answers, style_id, now, fade_in, needed.len());
    assert forall|i: int| 0 <= i < after.len() implies keeps_pace(
        (#[trigger] after[i]).1,
        later,
        fade_in,
    ) by {
        let key = after[i].0;
        let tile = after[i].1;
        lemma_found_at(after, i);
        assert(value_of(after, key) == Some(tile));
        lemma_fade_progress_monotonic(
            elapsed_between(tile.displayed_at, now),
            elapsed_between(tile.displayed_at, later),
            fade_in,
        );
        if wants(all.wanted, key) {
            let w = choose|w: int|
                0 <= w < all.wanted.len() && (#[trigger] all.wanted[w]).key() == key && value_of(
                    after,
                    key,
                ) == Some(all.wanted[w]);
            assert(tile == all.wanted[w]);
            if from_cache(tiles, tile, now, fade_in) {
                let displayed = value_of(tiles, tile.key()).unwrap();
                lemma_value_is_entry(tiles, tile.key());
                assert(keeps_pace(tiles[position_of(tiles, tile.key())].1, now, fade_in));
            } else {
                assert(just_inserted(tile, now, fade_in));
                lemma_fade_progress_bounds(0, fade_in);
            }
            assert(keeps_pace(tile, now, fade_in));
        } else {
            assert(value_of(after, key) == value_of(tiles, key));
            assert(has_key(tiles, key));
            lemma_value_is_entry(tiles, key);
            assert(keeps_pace(tiles[position_of(tiles, key)].1, now, fade_in));
        }
    }
}

/// Monotonic opacity, one update: where no coordinate is requested twice and
/// the tiles keep pace with the clock, a tile that the cache holds before and
/// after the update keeps its content and its time of insertion, and its
/// opacity does not decrease.
pub proof fn law_opacity_never_decreases(
    tiles: Seq<Entry>,
    schema: TileSchema,
    needed: Seq<WrappingTileIndex>,
    answers: Seq<Option<BundleId>>,
    style_id: StyleId,
    now: u64,
    fade_in: u64,
    key: TileKey,
)
    requires
        well_formed(tiles),
        all_keep_pace(tiles, now, fade_in),
        no_repeats(needed, needed.len()),
        has_key(tiles, key),
        has_key(rebuilt(tiles, schema, needed, answers, style_id, now, fade_in), key),
    ensures
        ({
            let before = value_of(tiles, key).unwrap();
            let after = value_of(
                rebuilt(tiles, schema, needed, answers, style_id, now, fade_in),
                key,
            ).unwrap();
            &&& after.opacity >= before.opacity
            &&& after.displayed_at == before.displayed_at
            &&& after.bundle == before.bundle
            &&& after.index == before.index
            &&& after.style_id == before.style_id
        }),
{
    let all = gathered_all(tiles, schema, needed, answers, style_id, now, fade_in);
    let after = rebuilt(tiles, schema, needed, answers, style_id, now, fade_in);
    lemma_rebuilt_sources(tiles, schema, needed, answers, style_id, now, fade_in);
    lemma_gathered_once(tiles, schema, needed, answers, style_id, now, fade_in, needed.len());
    lemma_value_is_entry(tiles, key);
    assert(keeps_pace(tiles[position_of(tiles, key)].1, now, fade_in));
    if wants(all.wanted, key) {
        let w = choose|w: int|
            0 <= w < all.wanted.len() && (#[trigger] all.wanted[w]).key() == key && value_of(
                after,
                key,
            ) == Some(all.wanted[w]);
        assert(from_cache(tiles, all.wanted[w], now, fade_in));
    }
}

/// Monotonic opacity, two updates: starting from tiles that keep pace with
/// the clock, with a clock that does not run backwards and one fade-in
/// duration, a tile that the cache holds after the first and after the second
/// update keeps its content and its time of insertion, and its opacity does
/// not decrease from the first to the second, provided the second update
/// requests no coordinate twice.
pub proof fn law_opacity_across_updates(
    tiles: Seq<Entry>,
    schema: TileSchema,
    first_needed: Seq<WrappingTileIndex>,
    first_answers: Seq<Option<BundleId>>,
    first_style: StyleId,
    first_now: u64,
    second_needed: Seq<WrappingTileIndex>,
    second_answers: Seq<Option<BundleId>>,
    second_style: StyleId,
    second_now: u64,
    fade_in: u64,
    key: TileKey,
)
    requires
        well_formed(tiles),
        all_keep_pace(tiles, first_now, fade_in),
        first_now <= second_now,
        no_repeats(second_needed, second_needed.len()),
        has_key(
            rebuilt(tiles, schema, first_needed, first_answers, first_style, first_now, fade_in),
            key,
        ),
        has_key(
            rebuilt(
                rebuilt(
                    tiles,
                    schema,
                    first_needed,
                    first_answers,
                    first_style,
                    first_now,
                    fade_in,
                ),
                schema,
                second_needed,
                second_answers,
                second_style,
                second_now,
                fade_in,
            ),
            key,
        ),
    ensures
        ({
            let between = rebuilt(
                tiles,
                schema,
                first_needed,
                first_answers,
                first_style,
                first_now,
                fade_in,
            );
            let first = value_of(between, key).unwrap();
            let second = value_of(
                rebuilt(
                    between,
                    schema,
                    second_needed,
                    second_answers,
                    second_style,
                    second_now,
                    fade_in,
                ),
                key,
            ).unwrap();
            &&& second.opacity >= first.opacity
            &&& second.displayed_at == first.displayed_at
            &&& second.bundle == first.bundle
        }),
{
    let between = rebuilt(
        tiles,
        schema,
        first_needed,
        first_answers,
        first_style,
        first_now,
        fade_in,
    );
    lemma_rebuilt_well_formed(
        tiles,
        schema,
        first_needed,
        first_answers,
        first_style,
        first_now,
        fade_in,
    );
    law_pace_is_kept(
        tiles,
        schema,
        first_needed,
        first_answers,
        first_style,
        first_now,
        fade_in,
        second_now,
    );
    law_opacity_never_decreases(
        between,
        schema,
        second_needed,
        second_answers,
        second_style,
        second_now,
        fade_in,
        key,
    );
}

/// Redraw signal: an update asks for a redraw exactly if some request finds
/// its tile displayed short of full opacity, or finds no tile displayed and
/// gets one from the provider.
pub proof fn law_redraw_signal(
    tiles: Seq<Entry>,
    schema: TileSchema,
    needed: Seq<WrappingTileIndex>,
    answers: Seq<Option<BundleId>>,
    style_id: StyleId,
    now: u64,
    fade_in: u64,
)
    requires
        well_formed(tiles),
    ensures
        redraw_due(tiles, schema, needed, answers, style_id, now, fade_in) <==> exists|j: int|
            0 <= j < needed.len() && #[trigger] calls_for_redraw(
                tiles,
                needed,
                answers,
                style_id,
                j,
            ),
{
    lemma_gathered_redraw(tiles, schema, needed, answers, style_id, now, fade_in, needed.len());
}

/// No redraw, no change: an update that asks for no redraw has inserted no
/// tile and changed none. Every tile of the new cache was in the earlier one
/// under the same key, with the same content and opacity.
pub proof fn law_quiet_update(
    tiles: Seq<Entry>,
    schema: TileSchema,
    needed: Seq<WrappingTileIndex>,
    answers: Seq<Option<BundleId>>,
    style_id: StyleId,
    now: u64,
    fade_in: u64,
    key: TileKey,
)
    requires
        well_formed(tiles),
        !redraw_due(tiles, schema, needed, answers, style_id, now, fade_in),
        has_key(rebuilt(tiles, schema, needed, answers, style_id, now, fade_in), key),
    ensures
        has_key(tiles, key),
        value_of(rebuilt(tiles, schema, needed, answers, style_id, now, fade_in), key) == value_of(
            tiles,
            key,
        ),
{
    let all = gathered_all(tiles, schema, needed, answers, style_id, now, fade_in);
    let after = rebuilt(tiles, schema, needed, answers, style_id, now, fade_in);
    lemma_rebuilt_sources(tiles, schema, needed, answers, style_id, now, fade_in);
    lemma_gathered_quiet(tiles, schema, needed, answers, style_id, now, fade_in, needed.len());
    if wants(all.wanted, key) {
        let w = choose|w: int|
            0 <= w < all.wanted.len() && (#[trigger] all.wanted[w]).key() == key && value_of(
                after,
                key,
            ) == Some(all.wanted[w]);
        assert(value_of(tiles, all.wanted[w].key()) == Some(all.wanted[w]));
    }
}

/// Requests that all find their tiles fully opaque want exactly these tiles,
/// record no region and ask for no redraw.
proof fn lemma_gathered_settled(
    tiles: Seq<Entry>,
    schema: TileSchema,
    needed: Seq<WrappingTileIndex>,
    answers: Seq<Option<BundleId>>,
    style_id: StyleId,
    now: u64,
    fade_in: u64,
    n: nat,
)
    requires
        well_formed(tiles),
        n <= needed.len(),
        no_repeats(needed, needed.len()),
        all_opaque(tiles, needed, style_id),
    ensures
        ({
            let so_far = gathered(tiles, schema, needed, answers, style_id, now, fade_in, n);
            &&& so_far.wanted == Seq::new(
                n,
                |j: int| value_of(tiles, tile_key(needed[j], style_id)).unwrap(),
            )
            &&& so_far.regions == Seq::<Rect>::empty()
            &&& !so_far.redraw
        }),
    decreases n,
{
    let so_far = gathered(tiles, schema, needed, answers, style_id, now, fade_in, n);
    let expected = Seq::new(n, |j: int| value_of(tiles, tile_key(needed[j], style_id)).unwrap());
    if n == 0 {
        assert(so_far.wanted == expected);
    } else {
        let m = (n - 1) as nat;
        lemma_gathered_settled(tiles, schema, needed, answers, style_id, now, fade_in, m);
        lemma_gathered_remaining(tiles, schema, needed, answers, style_id, now, fade_in, m);
        let before = gathered(tiles, schema, needed, answers, style_id, now, fade_in, m);
        let key = tile_key(needed[n - 1], style_id);
        lemma_first_request(needed, style_id, n - 1);
        assert(first_request(needed, n - 1));
        assert(has_key(tiles, key));
        assert(has_key(before.remaining, key));
        assert(value_of(before.remaining, key) == value_of(tiles, key));
        lemma_request_cases(
            before,
            schema,
            needed[n - 1],
            style_id,
            answer_at(answers, n - 1),
            now,
            fade_in,
        );
        assert(so_far.wanted == expected);
    }
}

/// Fixed point: where no coordinate is requested twice and the cache holds
/// every requested tile at full opacity, an update asks for no redraw and
/// leaves exactly the requested tiles, unchanged and in the order of the
/// requests; and repeating the request, at any time and whatever the provider
/// answers, changes nothing any more.
pub proof fn law_fixed_point(
    tiles: Seq<Entry>,
    schema: TileSchema,
    needed: Seq<WrappingTileIndex>,
    answers: Seq<Option<BundleId>>,
    style_id: StyleId,
    now: u64,
    fade_in: u64,
    later_answers: Seq<Option<BundleId>>,
    later: u64,
    later_fade_in: u64,
)
    requires
        well_formed(tiles),
        no_repeats(needed, needed.len()),
        all_opaque(tiles, needed, style_id),
    ensures
        !redraw_due(tiles, schema, needed, answers, style_id, now, fade_in),
        rebuilt(tiles, schema, needed, answers, style_id, now, fade_in) == settled(
            tiles,
            needed,
            style_id,
        ),
        !redraw_due(
            rebuilt(tiles, schema, needed, answers, style_id, now, fade_in),
            schema,
            needed,
            later_answers,
            style_id,
            later,
            later_fade_in,
        ),
        rebuilt(
            rebuilt(tiles, schema, needed, answers, style_id, now, fade_in),
            schema,
            needed,
            later_answers,
            style_id,
            later,
            later_fade_in,
        ) == rebuilt(tiles, schema, needed, answers, style_id, now, fade_in),
{
    lemma_settles(tiles, schema, needed, answers, style_id, now, fade_in);
    let after = rebuilt(tiles, schema, needed, answers, style_id, now, fade_in);
    lemma_rebuilt_well_formed(tiles, schema, needed, answers, style_id, now, fade_in);
    lemma_settles(after, schema, needed, later_answers, style_id, later, later_fade_in);
    assert(settled(after, needed, style_id) == settled(tiles, needed, style_id));
}

/// One update of a cache that holds every requested tile at full opacity.
proof fn lemma_settles(
    tiles: Seq<Entry>,
    schema: TileSchema,
    needed: Seq<WrappingTileIndex>,
    answers: Seq<Option<BundleId>>,
    style_id: StyleId,
    now: u64,
    fade_in: u64,
)
    requires
        well_formed(tiles),
        no_repeats(needed, needed.len()),
        all_opaque(tiles, needed, style_id),
    ensures
        !redraw_due(tiles, schema, needed, answers, style_id, now, fade_in),
        rebuilt(tiles, schema, needed, answers, style_id, now, fade_in) == settled(
            tiles,
            needed,
            style_id,
        ),
        all_opaque(settled(tiles, needed, style_id), needed, style_id),
        forall|j: int|
            0 <= j < needed.len() ==> value_of(
                settled(tiles, needed, style_id),
                tile_key(#[trigger] needed[j], style_id),
            ) == value_of(tiles, tile_key(needed[j], style_id)),
{
    let n = needed.len();
    let all = gathered_all(tiles, schema, needed, answers, style_id, now, fade_in);
    lemma_gathered_settled(tiles, schema, needed, answers, style_id, now, fade_in, n);
    let kept = fallbacks(all.remaining, schema, all.regions);
    assert(kept == Seq::<Entry>::empty());
    let wanted = all.wanted;
    assert(wanted.len() == n);
    assert forall|j: int| 0 <= j < n implies (#[trigger] wanted[j]).key() == tile_key(
        needed[j],
        style_id,
    ) by {
        let key = tile_key(needed[j], style_id);
        assert(has_key(tiles, tile_key(needed[j], style_id)));
        lemma_value_is_entry(tiles, key);
        assert(tiles[position_of(tiles, key)].0 == tiles[position_of(tiles, key)].1.key());
    }
    assert forall|a: int, b: int| 0 <= a < b < n implies (#[trigger] wanted[a]).key() != (
    #[trigger] wanted[b]).key() by {
        assert(needed[a] != needed[b]);
    }
    assert forall|j: int| 0 <= j < n implies !has_key(kept, (#[trigger] wanted[j]).key()) by {
        if has_key(kept, wanted[j].key()) {
            let p = position_of(kept, wanted[j].key());
            assert(0 <= p < kept.len());
        }
    }
    lemma_installed_in_order(kept, wanted, n);
    let after = rebuilt(tiles, schema, needed, answers, style_id, now, fade_in);
    assert(after == kept + as_entries(wanted, n));
    assert(kept + as_entries(wanted, n) == as_entries(wanted, n));
    assert(as_entries(wanted, n) == settled(tiles, needed, style_id));
    assert forall|j: int| 0 <= j < n implies value_of(
        settled(tiles, needed, style_id),
        tile_key(#[trigger] needed[j], style_id),
    ) == value_of(tiles, tile_key(needed[j], style_id)) && has_key(
        settled(tiles, needed, style_id),
        tile_key(needed[j], style_id),
    ) by {
        lemma_as_entries(wanted, n, j);
    }
}

} // verus!
