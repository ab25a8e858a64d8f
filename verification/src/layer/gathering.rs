//! What the pass over the requested coordinates gathers: which earlier
//! entries remain, which tiles are wanted and where they come from, which
//! regions need a fallback, and when a redraw is due.

use vstd::prelude::*;
use crate::layer::displayed::{
    elapsed_between,
    initial_opacity,
    lemma_fade_progress_bounds,
    tile_key,
    BundleId,
    DisplayedTile,
    Entry,
    StyleId,
    TileKey,
    OPACITY_FULL,
};
use crate::layer::entries::{lemma_remove_key, lemma_value_is_entry, well_formed};
use crate::layer::ordered::{has_key, position_of, remove_key, value_of};
use crate::layer::passes::wanted_among;
use crate::layer::rebuild::{
    answer_at,
    gathered,
    lemma_gathered_well_formed,
    request,
    Gathered,
};
use crate::tile_schema::index::WrappingTileIndex;
use crate::tile_schema::schema::TileSchema;

verus! {

/// Whether one of the first `n` requests asks for the key.
pub open spec fn requested(
    needed: Seq<WrappingTileIndex>,
    style_id: StyleId,
    n: nat,
    key: TileKey,
) -> bool {
    exists|j: int| 0 <= j < n && tile_key(#[trigger] needed[j], style_id) == key
}

/// Whether some wanted tile has the key.
pub open spec fn wants(wanted: Seq<DisplayedTile>, key: TileKey) -> bool {
    wanted_among(wanted, wanted.len(), key)
}

/// No coordinate is among the first `n` requests twice.
pub open spec fn no_repeats(needed: Seq<WrappingTileIndex>, n: nat) -> bool {
    forall|i: int, j: int| 0 <= i < j < n ==> #[trigger] needed[i] != #[trigger] needed[j]
}

/// Whether request number `j` is the first one for its coordinate.
pub open spec fn first_request(needed: Seq<WrappingTileIndex>, j: int) -> bool {
    forall|e: int| 0 <= e < j ==> #[trigger] needed[e] != needed[j]
}

/// Whether the wanted tile is a tile of the earlier cache as it is shown now:
/// unchanged if it was opaque, with its opacity following the clock if not.
pub open spec fn from_cache(tiles: Seq<Entry>, wanted: DisplayedTile, now: u64, fade_in: u64) -> bool {
    match value_of(tiles, wanted.key()) {
        Some(displayed) => if displayed.opaque() {
            wanted == displayed
        } else {
            wanted == displayed.faded(now, fade_in)
        },
        None => false,
    }
}

/// Whether the wanted tile has just entered the cache.
pub open spec fn just_inserted(wanted: DisplayedTile, now: u64, fade_in: u64) -> bool {
    wanted.displayed_at == now && wanted.opacity == initial_opacity(fade_in)
}

/// Whether request number `j` calls for a redraw: it finds its tile displayed
/// and short of full opacity, or it finds no tile displayed and the provider
/// supplies one. A request finds its tile displayed if the cache held it
/// before the update and no earlier request of the update has taken it.
pub open spec fn calls_for_redraw(
    tiles: Seq<Entry>,
    needed: Seq<WrappingTileIndex>,
    answers: Seq<Option<BundleId>>,
    style_id: StyleId,
    j: int,
) -> bool {
    let key = tile_key(needed[j], style_id);
    if first_request(needed, j) && has_key(tiles, key) {
        !value_of(tiles, key).unwrap().opaque()
    } else {
        answer_at(answers, j) is Some
    }
}

/// One more request asks for one more key.
pub proof fn lemma_requested_next(needed: Seq<WrappingTileIndex>, style_id: StyleId, n: nat)
    requires
        0 < n <= needed.len(),
    ensures
        forall|key: TileKey|
            #![trigger requested(needed, style_id, n, key)]
            requested(needed, style_id, n, key) <==> (requested(
                needed,
                style_id,
                (n - 1) as nat,
                key,
            ) || tile_key(needed[n - 1], style_id) == key),
{
    assert forall|key: TileKey| #![trigger requested(needed, style_id, n, key)] requested(
        needed,
        style_id,
        n,
        key,
    ) <==> (requested(needed, style_id, (n - 1) as nat, key) || tile_key(needed[n - 1], style_id)
        == key) by {
        if requested(needed, style_id, n, key) {
            let j = choose|j: int| 0 <= j < n && tile_key(#[trigger] needed[j], style_id) == key;
            if j < n - 1 {
                assert(requested(needed, style_id, (n - 1) as nat, key));
            }
        }
        if requested(needed, style_id, (n - 1) as nat, key) {
            let j = choose|j: int|
                0 <= j < n - 1 && tile_key(#[trigger] needed[j], style_id) == key;
            assert(0 <= j < n && tile_key(needed[j], style_id) == key);
        }
        if tile_key(needed[n - 1], style_id) == key {
            assert(0 <= n - 1 < n && tile_key(needed[n - 1], style_id) == key);
        }
    }
}

/// A key was requested before request `j` exactly if its coordinate was.
pub proof fn lemma_first_request(needed: Seq<WrappingTileIndex>, style_id: StyleId, j: int)
    requires
        0 <= j < needed.len(),
    ensures
        first_request(needed, j) <==> !requested(
            needed,
            style_id,
            j as nat,
            tile_key(needed[j], style_id),
        ),
{
    let key = tile_key(needed[j], style_id);
    if requested(needed, style_id, j as nat, key) {
        let e = choose|e: int| 0 <= e < j && tile_key(#[trigger] needed[e], style_id) == key;
        assert(needed[e] == needed[j]);
    }
    if !first_request(needed, j) {
        let e = choose|e: int| 0 <= e < j && #[trigger] needed[e] == needed[j];
        assert(tile_key(needed[e], style_id) == key);
    }
}

/// A wanted tile more keeps the earlier ones wanted.
pub proof fn lemma_wants_more(wanted: Seq<DisplayedTile>, tile: DisplayedTile)
    ensures
        wants(wanted.push(tile), tile.key()),
        forall|key: TileKey| #[trigger] wants(wanted, key) ==> wants(wanted.push(tile), key),
        forall|key: TileKey|
            #[trigger] wants(wanted.push(tile), key) ==> wants(wanted, key) || key == tile.key(),
{
    let more = wanted.push(tile);
    assert(more[wanted.len() as int].key() == tile.key());
    assert forall|key: TileKey| #[trigger] wants(wanted, key) implies wants(more, key) by {
        let i = choose|i: int| 0 <= i < wanted.len() && (#[trigger] wanted[i]).key() == key;
        assert(more[i].key() == key);
    }
    assert forall|key: TileKey| #[trigger] wants(more, key) implies wants(wanted, key) || key
        == tile.key() by {
        let i = choose|i: int| 0 <= i < more.len() && (#[trigger] more[i]).key() == key;
        if i < wanted.len() {
            assert(wanted[i].key() == key);
        }
    }
}

/// The entries that remain after `n` requests are the earlier entries whose
/// keys were not requested, each with its tile.
pub proof fn lemma_gathered_remaining(
    tiles: Seq<Entry>,
    schema: TileSchema,
    needed: Seq<WrappingTileIndex>,
    answers: Seq<Option<BundleId>>,
    style_id: StyleId,
    now: u64,
    fade_in: u64,
    n: nat,
)
    requires
        well_formed(tiles),
        n <= needed.len(),
    ensures
        well_formed(gathered(tiles, schema, needed, answers, style_id, now, fade_in, n).remaining),
        forall|key: TileKey|
            #![trigger has_key(gathered(tiles, schema, needed, answers, style_id, now, fade_in, n).remaining, key)]
            has_key(
                gathered(tiles, schema, needed, answers, style_id, now, fade_in, n).remaining,
                key,
            ) <==> (has_key(tiles, key) && !requested(needed, style_id, n, key)),
        forall|key: TileKey|
            #![trigger value_of(gathered(tiles, schema, needed, answers, style_id, now, fade_in, n).remaining, key)]
            has_key(
                gathered(tiles, schema, needed, answers, style_id, now, fade_in, n).remaining,
                key,
            ) ==> value_of(
                gathered(tiles, schema, needed, answers, style_id, now, fade_in, n).remaining,
                key,
            ) == value_of(tiles, key),
    decreases n,
{
    lemma_gathered_well_formed(tiles, schema, needed, answers, style_id, now, fade_in, n);
    let after = gathered(tiles, schema, needed, answers, style_id, now, fade_in, n);
    if n == 0 {
        assert forall|key: TileKey| !requested(needed, style_id, 0, key) by {}
    } else {
        lemma_gathered_remaining(
            tiles,
            schema,
            needed,
            answers,
            style_id,
            now,
            fade_in,
            (n - 1) as nat,
        );
        let before = gathered(
            tiles,
            schema,
            needed,
            answers,
            style_id,
            now,
            fade_in,
            (n - 1) as nat,
        );
        let key = tile_key(needed[n - 1], style_id);
        lemma_requested_next(needed, style_id, n);
        lemma_remove_key(before.remaining, key);
        assert(after.remaining == remove_key(before.remaining, key));
        assert forall|other: TileKey| #![trigger has_key(after.remaining, other)] has_key(
            after.remaining,
            other,
        ) <==> (has_key(tiles, other) && !requested(needed, style_id, n, other)) by {
            if other != key {
                assert(has_key(after.remaining, other) == has_key(before.remaining, other));
            }
        }
        assert forall|other: TileKey| #![trigger value_of(after.remaining, other)] has_key(
            after.remaining,
            other,
        ) implies value_of(after.remaining, other) == value_of(tiles, other) by {
            assert(other != key);
            assert(value_of(after.remaining, other) == value_of(before.remaining, other));
            assert(has_key(before.remaining, other));
        }
    }
}

/// What one request does, case by case.
pub proof fn lemma_request_cases(
    so_far: Gathered,
    schema: TileSchema,
    index: WrappingTileIndex,
    style_id: StyleId,
    answer: Option<BundleId>,
    now: u64,
    fade_in: u64,
)
    requires
        well_formed(so_far.remaining),
    ensures
        ({
            let key = tile_key(index, style_id);
            let next = request(so_far, schema, index, style_id, answer, now, fade_in);
            &&& next.remaining == remove_key(so_far.remaining, key)
            &&& match value_of(so_far.remaining, key) {
                Some(displayed) => {
                    &&& displayed.key() == key
                    &&& displayed.opacity <= OPACITY_FULL
                    &&& next.wanted == so_far.wanted.push(
                        if displayed.opaque() {
                            displayed
                        } else {
                            displayed.faded(now, fade_in)
                        },
                    )
                    &&& next.wanted.last().key() == key
                    &&& next.redraw == (so_far.redraw || !displayed.opaque())
                },
                None => match answer {
                    Some(bundle) => {
                        &&& next.wanted == so_far.wanted.push(
                            DisplayedTile::fresh(index, bundle, style_id, now, fade_in),
                        )
                        &&& next.wanted.last().key() == key
                        &&& next.redraw
                    },
                    None => next.wanted == so_far.wanted && next.redraw == so_far.redraw,
                },
            }
        }),
{
    let key = tile_key(index, style_id);
    lemma_remove_key(so_far.remaining, key);
    if has_key(so_far.remaining, key) {
        lemma_value_is_entry(so_far.remaining, key);
        let p = position_of(so_far.remaining, key);
        assert(so_far.remaining[p].0 == so_far.remaining[p].1.key());
    }
}

/// Every wanted tile answers a request, and every earlier tile that was
/// requested is wanted.
pub proof fn lemma_gathered_wanted(
    tiles: Seq<Entry>,
    schema: TileSchema,
    needed: Seq<WrappingTileIndex>,
    answers: Seq<Option<BundleId>>,
    style_id: StyleId,
    now: u64,
    fade_in: u64,
    n: nat,
)
    requires
        well_formed(tiles),
        n <= needed.len(),
    ensures
        forall|i: int|
            #![trigger gathered(tiles, schema, needed, answers, style_id, now, fade_in, n).wanted[i]]
            0 <= i < gathered(
                tiles,
                schema,
                needed,
                answers,
                style_id,
                now,
                fade_in,
                n,
            ).wanted.len() ==> requested(
                needed,
                style_id,
                n,
                gathered(tiles, schema, needed, answers, style_id, now, fade_in, n).wanted[i].key(),
            ),
        forall|key: TileKey|
            #![trigger wants(gathered(tiles, schema, needed, answers, style_id, now, fade_in, n).wanted, key)]
            has_key(tiles, key) && requested(needed, style_id, n, key) ==> wants(
                gathered(tiles, schema, needed, answers, style_id, now, fade_in, n).wanted,
                key,
            ),
    decreases n,
{
    let after = gathered(tiles, schema, needed, answers, style_id, now, fade_in, n);
    if n == 0 {
        assert forall|key: TileKey| !requested(needed, style_id, 0, key) by {}
    } else {
        let m = (n - 1) as nat;
        lemma_gathered_wanted(tiles, schema, needed, answers, style_id, now, fade_in, m);
        lemma_gathered_remaining(tiles, schema, needed, answers, style_id, now, fade_in, m);
        let before = gathered(tiles, schema, needed, answers, style_id, now, fade_in, m);
        let key = tile_key(needed[n - 1], style_id);
        lemma_requested_next(needed, style_id, n);
        lemma_request_cases(
            before,
            schema,
            needed[n - 1],
            style_id,
            answer_at(answers, n - 1),
            now,
            fade_in,
        );
        assert forall|i: int| #![trigger after.wanted[i]] 0 <= i < after.wanted.len() implies requested(
            needed,
            style_id,
            n,
            after.wanted[i].key(),
        ) by {
            if i < before.wanted.len() {
                assert(after.wanted[i] == before.wanted[i]);
                assert(requested(needed, style_id, m, before.wanted[i].key()));
            } else {
                assert(after.wanted[i].key() == key);
            }
        }
        if after.wanted != before.wanted {
            lemma_wants_more(before.wanted, after.wanted.last());
            assert(after.wanted == before.wanted.push(after.wanted.last()));
        }
        assert forall|other: TileKey| #![trigger wants(after.wanted, other)] has_key(tiles, other)
            && requested(needed, style_id, n, other) implies wants(after.wanted, other) by {
            if requested(needed, style_id, m, other) {
                assert(wants(before.wanted, other));
            } else {
                assert(other == key);
                assert(has_key(before.remaining, key));
            }
        }
    }
}

/// A request that gives no wanted tile leaves a fallback region, where its
/// coordinate has a bounding box; and every region is the box of a request.
pub proof fn lemma_gathered_regions(
    tiles: Seq<Entry>,
    schema: TileSchema,
    needed: Seq<WrappingTileIndex>,
    answers: Seq<Option<BundleId>>,
    style_id: StyleId,
    now: u64,
    fade_in: u64,
    n: nat,
)
    requires
        well_formed(tiles),
        n <= needed.len(),
    ensures
        forall|j: int|
            #![trigger needed[j]]
            0 <= j < n ==> wants(
                gathered(tiles, schema, needed, answers, style_id, now, fade_in, n).wanted,
                tile_key(needed[j], style_id),
            ) || (schema.bbox(needed[j]) matches Some(region) ==> gathered(
                tiles,
                schema,
                needed,
                answers,
                style_id,
                now,
                fade_in,
                n,
            ).regions.contains(region)),
        forall|i: int|
            #![trigger gathered(tiles, schema, needed, answers, style_id, now, fade_in, n).regions[i]]
            0 <= i < gathered(
                tiles,
                schema,
                needed,
                answers,
                style_id,
                now,
                fade_in,
                n,
            ).regions.len() ==> exists|j: int|
                0 <= j < n && schema.bbox(#[trigger] needed[j]) == Some(
                    gathered(tiles, schema, needed, answers, style_id, now, fade_in, n).regions[i],
                ),
    decreases n,
{
    let after = gathered(tiles, schema, needed, answers, style_id, now, fade_in, n);
    if n > 0 {
        let m = (n - 1) as nat;
        lemma_gathered_regions(tiles, schema, needed, answers, style_id, now, fade_in, m);
        lemma_gathered_remaining(tiles, schema, needed, answers, style_id, now, fade_in, m);
        let before = gathered(tiles, schema, needed, answers, style_id, now, fade_in, m);
        let key = tile_key(needed[n - 1], style_id);
        lemma_request_cases(
            before,
            schema,
            needed[n - 1],
            style_id,
            answer_at(answers, n - 1),
            now,
            fade_in,
        );
        if after.wanted != before.wanted {
            lemma_wants_more(before.wanted, after.wanted.last());
            assert(after.wanted == before.wanted.push(after.wanted.last()));
        }
        assert forall|i: int| 0 <= i < before.regions.len() implies #[trigger] after.regions[i]
            == before.regions[i] && i < after.regions.len() by {}
        assert forall|j: int| #![trigger needed[j]] 0 <= j < n implies wants(
            after.wanted,
            tile_key(needed[j], style_id),
        ) || (schema.bbox(needed[j]) matches Some(region) ==> after.regions.contains(region)) by {
            if j < n - 1 {
                if !wants(before.wanted, tile_key(needed[j], style_id)) {
                    if let Some(region) = schema.bbox(needed[j]) {
                        assert(before.regions.contains(region));
                        let i = choose|i: int|
                            0 <= i < before.regions.len() && before.regions[i] == region;
                        assert(after.regions[i] == region);
                    }
                }
            } else {
                if !wants(after.wanted, key) {
                    if let Some(region) = schema.bbox(needed[j]) {
                        assert(after.regions == before.regions.push(region));
                        assert(after.regions[before.regions.len() as int] == region);
                    }
                }
            }
        }
        assert forall|i: int| #![trigger after.regions[i]] 0 <= i < after.regions.len() implies exists|
            j: int,
        |
            0 <= j < n && schema.bbox(#[trigger] needed[j]) == Some(after.regions[i]) by {
            if i < before.regions.len() {
                assert(after.regions[i] == before.regions[i]);
                let j = choose|j: int|
                    0 <= j < m && schema.bbox(#[trigger] needed[j]) == Some(before.regions[i]);
                assert(0 <= j < n && schema.bbox(needed[j]) == Some(after.regions[i]));
            } else {
                assert(schema.bbox(needed[n - 1]) == Some(after.regions[i]));
            }
        }
    }
}

/// Every wanted tile comes from the earlier cache, shown as of now, or has
/// just been inserted; and it is fully opaque once its fade-in is over.
pub proof fn lemma_gathered_origin(
    tiles: Seq<Entry>,
    schema: TileSchema,
    needed: Seq<WrappingTileIndex>,
    answers: Seq<Option<BundleId>>,
    style_id: StyleId,
    now: u64,
    fade_in: u64,
    n: nat,
)
    requires
        well_formed(tiles),
        n <= needed.len(),
    ensures
        forall|i: int|
            #![trigger gathered(tiles, schema, needed, answers, style_id, now, fade_in, n).wanted[i]]
            0 <= i < gathered(
                tiles,
                schema,
                needed,
                answers,
                style_id,
                now,
                fade_in,
                n,
            ).wanted.len() ==> {
                let tile = gathered(
                    tiles,
                    schema,
                    needed,
                    answers,
                    style_id,
                    now,
                    fade_in,
                    n,
                ).wanted[i];
                &&& from_cache(tiles, tile, now, fade_in) || just_inserted(tile, now, fade_in)
                &&& tile.opacity <= OPACITY_FULL
                &&& elapsed_between(tile.displayed_at, now) >= fade_in ==> tile.opacity
                    == OPACITY_FULL
            },
    decreases n,
{
    let after = gathered(tiles, schema, needed, answers, style_id, now, fade_in, n);
    if n > 0 {
        let m = (n - 1) as nat;
        lemma_gathered_origin(tiles, schema, needed, answers, style_id, now, fade_in, m);
        lemma_gathered_remaining(tiles, schema, needed, answers, style_id, now, fade_in, m);
        let before = gathered(tiles, schema, needed, answers, style_id, now, fade_in, m);
        let key = tile_key(needed[n - 1], style_id);
        lemma_request_cases(
            before,
            schema,
            needed[n - 1],
            style_id,
            answer_at(answers, n - 1),
            now,
            fade_in,
        );
        assert forall|i: int| #![trigger after.wanted[i]] 0 <= i < after.wanted.len() implies {
            let tile = after.wanted[i];
            &&& from_cache(tiles, tile, now, fade_in) || just_inserted(tile, now, fade_in)
            &&& tile.opacity <= OPACITY_FULL
            &&& elapsed_between(tile.displayed_at, now) >= fade_in ==> tile.opacity
                == OPACITY_FULL
        } by {
            let tile = after.wanted[i];
            if i < before.wanted.len() {
                assert(after.wanted[i] == before.wanted[i]);
            } else {
                match value_of(before.remaining, key) {
                    Some(displayed) => {
                        assert(has_key(before.remaining, key));
                        assert(value_of(tiles, key) == Some(displayed));
                        lemma_fade_progress_bounds(
                            elapsed_between(displayed.displayed_at, now),
                            fade_in,
                        );
                        assert(tile.key() == key);
                        assert(from_cache(tiles, tile, now, fade_in));
                    },
                    None => {
                        assert(just_inserted(tile, now, fade_in));
                        assert(elapsed_between(now, now) == 0);
                    },
                }
            }
        }
    }
}

/// Where no coordinate is requested twice, the wanted tiles have keys of
/// their own, and a wanted tile whose key the earlier cache held comes from
/// that cache.
pub proof fn lemma_gathered_once(
    tiles: Seq<Entry>,
    schema: TileSchema,
    needed: Seq<WrappingTileIndex>,
    answers: Seq<Option<BundleId>>,
    style_id: StyleId,
    now: u64,
    fade_in: u64,
    n: nat,
)
    requires
        well_formed(tiles),
        n <= needed.len(),
        no_repeats(needed, n),
    ensures
        forall|i: int, j: int|
            #![trigger gathered(tiles, schema, needed, answers, style_id, now, fade_in, n).wanted[i], gathered(tiles, schema, needed, answers, style_id, now, fade_in, n).wanted[j]]
            0 <= i < j < gathered(
                tiles,
                schema,
                needed,
                answers,
                style_id,
                now,
                fade_in,
                n,
            ).wanted.len() ==> gathered(
                tiles,
                schema,
                needed,
                answers,
                style_id,
                now,
                fade_in,
                n,
            ).wanted[i].key() != gathered(
                tiles,
                schema,
                needed,
                answers,
                style_id,
                now,
                fade_in,
                n,
            ).wanted[j].key(),
        forall|i: int|
            #![trigger gathered(tiles, schema, needed, answers, style_id, now, fade_in, n).wanted[i]]
            0 <= i < gathered(
                tiles,
                schema,
                needed,
                answers,
                style_id,
                now,
                fade_in,
                n,
            ).wanted.len() && has_key(
                tiles,
                gathered(tiles, schema, needed, answers, style_id, now, fade_in, n).wanted[i].key(),
            ) ==> from_cache(
                tiles,
                gathered(tiles, schema, needed, answers, style_id, now, fade_in, n).wanted[i],
                now,
                fade_in,
            ),
    decreases n,
{
    let after = gathered(tiles, schema, needed, answers, style_id, now, fade_in, n);
    if n > 0 {
        let m = (n - 1) as nat;
        lemma_gathered_once(tiles, schema, needed, answers, style_id, now, fade_in, m);
        lemma_gathered_remaining(tiles, schema, needed, answers, style_id, now, fade_in, m);
        lemma_gathered_wanted(tiles, schema, needed, answers, style_id, now, fade_in, m);
        let before = gathered(tiles, schema, needed, answers, style_id, now, fade_in, m);
        let key = tile_key(needed[n - 1], style_id);
        lemma_first_request(needed, style_id, n - 1);
        assert(first_request(needed, n - 1));
        assert(!requested(needed, style_id, m, key));
        lemma_request_cases(
            before,
            schema,
            needed[n - 1],
            style_id,
            answer_at(answers, n - 1),
            now,
            fade_in,
        );
        assert forall|i: int, j: int| #![trigger after.wanted[i], after.wanted[j]] 0 <= i < j
            < after.wanted.len() implies after.wanted[i].key() != after.wanted[j].key() by {
            assert(after.wanted[i] == before.wanted[i]);
            if j < before.wanted.len() {
                assert(after.wanted[j] == before.wanted[j]);
            } else {
                assert(after.wanted[j].key() == key);
                assert(requested(needed, style_id, m, before.wanted[i].key()));
            }
        }
        assert forall|i: int| #![trigger after.wanted[i]] 0 <= i < after.wanted.len() && has_key(
            tiles,
            after.wanted[i].key(),
        ) implies from_cache(tiles, after.wanted[i], now, fade_in) by {
            if i < before.wanted.len() {
                assert(after.wanted[i] == before.wanted[i]);
            } else {
                assert(after.wanted[i].key() == key);
                assert(has_key(before.remaining, key));
                assert(value_of(before.remaining, key) == value_of(tiles, key));
            }
        }
    }
}

/// A redraw is due exactly if some request calls for one.
pub proof fn lemma_gathered_redraw(
    tiles: Seq<Entry>,
    schema: TileSchema,
    needed: Seq<WrappingTileIndex>,
    answers: Seq<Option<BundleId>>,
    style_id: StyleId,
    now: u64,
    fade_in: u64,
    n: nat,
)
    requires
        well_formed(tiles),
        n <= needed.len(),
    ensures
        gathered(tiles, schema, needed, answers, style_id, now, fade_in, n).redraw <==> exists|
            j: int,
        |
            0 <= j < n && #[trigger] calls_for_redraw(tiles, needed, answers, style_id, j),
    decreases n,
{
    if n > 0 {
        let m = (n - 1) as nat;
        lemma_gathered_redraw(tiles, schema, needed, answers, style_id, now, fade_in, m);
        lemma_gathered_remaining(tiles, schema, needed, answers, style_id, now, fade_in, m);
        let before = gathered(tiles, schema, needed, answers, style_id, now, fade_in, m);
        let after = gathered(tiles, schema, needed, answers, style_id, now, fade_in, n);
        let key = tile_key(needed[n - 1], style_id);
        lemma_first_request(needed, style_id, n - 1);
        lemma_request_cases(
            before,
            schema,
            needed[n - 1],
            style_id,
            answer_at(answers, n - 1),
            now,
            fade_in,
        );
        let last = calls_for_redraw(tiles, needed, answers, style_id, n - 1);
        assert(after.redraw == (before.redraw || last)) by {
            if has_key(before.remaining, key) {
                assert(value_of(before.remaining, key) == value_of(tiles, key));
            }
        }
        if after.redraw {
            if before.redraw {
                let j = choose|j: int|
                    0 <= j < m && #[trigger] calls_for_redraw(tiles, needed, answers, style_id, j);
                assert(0 <= j < n && calls_for_redraw(tiles, needed, answers, style_id, j));
            } else {
                assert(0 <= n - 1 < n && calls_for_redraw(tiles, needed, answers, style_id, n - 1));
            }
        }
        if exists|j: int|
            0 <= j < n && #[trigger] calls_for_redraw(tiles, needed, answers, style_id, j) {
            let j = choose|j: int|
                0 <= j < n && #[trigger] calls_for_redraw(tiles, needed, answers, style_id, j);
            if j < n - 1 {
                assert(0 <= j < m && calls_for_redraw(tiles, needed, answers, style_id, j));
            }
        }
    }
}

/// Without a redraw, every wanted tile is stored in the earlier cache as it is.
pub proof fn lemma_gathered_quiet(
    tiles: Seq<Entry>,
    schema: TileSchema,
    needed: Seq<WrappingTileIndex>,
    answers: Seq<Option<BundleId>>,
    style_id: StyleId,
    now: u64,
    fade_in: u64,
    n: nat,
)
    requires
        well_formed(tiles),
        n <= needed.len(),
        !gathered(tiles, schema, needed, answers, style_id, now, fade_in, n).redraw,
    ensures
        forall|i: int|
            #![trigger gathered(tiles, schema, needed, answers, style_id, now, fade_in, n).wanted[i]]
            0 <= i < gathered(
                tiles,
                schema,
                needed,
                answers,
                style_id,
                now,
                fade_in,
                n,
            ).wanted.len() ==> value_of(
                tiles,
                gathered(tiles, schema, needed, answers, style_id, now, fade_in, n).wanted[i].key(),
            ) == Some(
                gathered(tiles, schema, needed, answers, style_id, now, fade_in, n).wanted[i],
            ),
    decreases n,
{
    if n > 0 {
        let m = (n - 1) as nat;
        let before = gathered(tiles, schema, needed, answers, style_id, now, fade_in, m);
        let after = gathered(tiles, schema, needed, answers, style_id, now, fade_in, n);
        let key = tile_key(needed[n - 1], style_id);
        lemma_gathered_remaining(tiles, schema, needed, answers, style_id, now, fade_in, m);
        lemma_request_cases(
            before,
            schema,
            needed[n - 1],
            style_id,
            answer_at(answers, n - 1),
            now,
            fade_in,
        );
        assert(!before.redraw);
        lemma_gathered_quiet(tiles, schema, needed, answers, style_id, now, fade_in, m);
        assert forall|i: int| #![trigger after.wanted[i]] 0 <= i < after.wanted.len() implies value_of(
            tiles,
            after.wanted[i].key(),
        ) == Some(after.wanted[i]) by {
            if i < before.wanted.len() {
                assert(after.wanted[i] == before.wanted[i]);
            } else {
                assert(has_key(before.remaining, key));
                assert(value_of(before.remaining, key) == value_of(tiles, key));
            }
        }
    }
}

} // verus!
