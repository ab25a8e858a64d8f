//! One update of the displayed tiles, step by step.
//!
//! An update gathers the requested tiles and the regions that need a fallback,
//! keeps every earlier tile that touches such a region, and then stores the
//! requested tiles after the kept ones, so that they are painted last.

use vstd::prelude::*;
use ordered_hash_map::OrderedHashMap;
use crate::geometry::Rect;
use crate::layer::displayed::{
    elapsed_between,
    elapsed_millis,
    index_of_key,
    key_index,
    lemma_fade_progress_bounds,
    make_key,
    opacity_after,
    tile_key,
    BundleId,
    DisplayedTile,
    Entry,
    StyleId,
    TileKey,
    OPACITY_FULL,
};
use crate::layer::entries::{
    lemma_put_well_formed,
    lemma_remove_key_well_formed,
    lemma_value_is_entry,
    well_formed,
};
use crate::layer::ordered::{
    keys_of,
    map_entries,
    map_insert,
    map_keys,
    map_new,
    map_remove,
    put,
    remove_key,
    value_of,
};
use crate::tile_schema::index::{TileIndex, WrappingTileIndex};
use crate::tile_schema::schema::TileSchema;

verus! {

/// Source of rendered tiles. An answer of `None` means "not ready yet", not
/// "will never exist"; the call must not block.
pub trait TileProvider {
    fn get_tile(&self, index: TileIndex, style_id: StyleId) -> Option<BundleId>;
}

/// What the pass over the requested coordinates has gathered so far.
pub struct Gathered {
    /// Earlier entries that no request has claimed.
    pub remaining: Seq<Entry>,
    /// Tiles that must be in the new cache, in the order of the requests.
    pub wanted: Seq<DisplayedTile>,
    /// Regions in which earlier tiles stay visible, in the order recorded.
    pub regions: Seq<Rect>,
    /// Whether the caller has to draw again.
    pub redraw: bool,
}

/// The regions with the bounding box of a coordinate added, where it has one.
pub open spec fn with_region(regions: Seq<Rect>, bbox: Option<Rect>) -> Seq<Rect> {
    match bbox {
        Some(region) => regions.push(region),
        None => regions,
    }
}

/// The provider's answer to request number `i`; `None` where the list is too short.
pub open spec fn answer_at(answers: Seq<Option<BundleId>>, i: int) -> Option<BundleId> {
    if 0 <= i < answers.len() {
        answers[i]
    } else {
        None
    }
}

/// One request. A coordinate that is displayed leaves the earlier entries and
/// is wanted again: if it is still fading in, its opacity follows the clock,
/// its box becomes a fallback region and a redraw is due. A coordinate that is
/// not displayed is wanted if the provider has it, with a redraw; ready or
/// not, its box becomes a fallback region. `answer` is what the provider says
/// about the coordinate; it counts only where the coordinate is not displayed.
pub open spec fn request(
    so_far: Gathered,
    schema: TileSchema,
    index: WrappingTileIndex,
    style_id: StyleId,
    answer: Option<BundleId>,
    now: u64,
    fade_in: u64,
) -> Gathered {
    let key = tile_key(index, style_id);
    match value_of(so_far.remaining, key) {
        Some(displayed) => if displayed.opaque() {
            Gathered {
                remaining: remove_key(so_far.remaining, key),
                wanted: so_far.wanted.push(displayed),
                ..so_far
            }
        } else {
            Gathered {
                remaining: remove_key(so_far.remaining, key),
                wanted: so_far.wanted.push(displayed.faded(now, fade_in)),
                regions: with_region(so_far.regions, schema.bbox(index)),
                redraw: true,
            }
        },
        None => match answer {
            Some(bundle) => Gathered {
                remaining: so_far.remaining,
                wanted: so_far.wanted.push(
                    DisplayedTile::fresh(index, bundle, style_id, now, fade_in),
                ),
                regions: with_region(so_far.regions, schema.bbox(index)),
                redraw: true,
            },
            None => Gathered {
                regions: with_region(so_far.regions, schema.bbox(index)),
                ..so_far
            },
        },
    }
}

/// What the first `n` requests gather from the entries `tiles`.
pub open spec fn gathered(
    tiles: Seq<Entry>,
    schema: TileSchema,
    needed: Seq<WrappingTileIndex>,
    answers: Seq<Option<BundleId>>,
    style_id: StyleId,
    now: u64,
    fade_in: u64,
    n: nat,
) -> Gathered
    decreases n,
{
    if n == 0 {
        Gathered { remaining: tiles, wanted: Seq::empty(), regions: Seq::empty(), redraw: false }
    } else {
        request(
            gathered(tiles, schema, needed, answers, style_id, now, fade_in, (n - 1) as nat),
            schema,
            needed[n - 1],
            style_id,
            answer_at(answers, n - 1),
            now,
            fade_in,
        )
    }
}

/// Whether the tile stored under the key has a bounding box that has a point
/// in common with the region.
pub open spec fn touches(schema: TileSchema, key: TileKey, region: Rect) -> bool {
    match schema.bbox(key_index(key)) {
        Some(bbox) => bbox.overlaps(region),
        None => false,
    }
}

/// `touches`, as a predicate on keys.
pub open spec fn touching(schema: TileSchema, region: Rect) -> spec_fn(TileKey) -> bool {
    |key: TileKey| touches(schema, key, region)
}

/// The keys of the entries that touch the region, in the entries' order.
pub open spec fn touching_keys(schema: TileSchema, entries: Seq<Entry>, region: Rect) -> Seq<
    TileKey,
> {
    keys_of(entries).filter(touching(schema, region))
}

/// The kept and the remaining entries after the first `n` of the keys have
/// been moved from the remaining to the kept ones. An entry can move once.
pub open spec fn moved(kept: Seq<Entry>, remaining: Seq<Entry>, keys: Seq<TileKey>, n: nat) -> (
    Seq<Entry>,
    Seq<Entry>,
)
    decreases n,
{
    if n == 0 {
        (kept, remaining)
    } else {
        let before = moved(kept, remaining, keys, (n - 1) as nat);
        match value_of(before.1, keys[n - 1]) {
            Some(tile) => (put(before.0, keys[n - 1], tile), remove_key(before.1, keys[n - 1])),
            None => before,
        }
    }
}

/// The kept and the remaining entries after the first `n` regions have each
/// claimed the remaining entries that touch them. Where several regions touch
/// an entry, the first one claims it.
pub open spec fn substituted(
    remaining: Seq<Entry>,
    schema: TileSchema,
    regions: Seq<Rect>,
    n: nat,
) -> (Seq<Entry>, Seq<Entry>)
    decreases n,
{
    if n == 0 {
        (Seq::empty(), remaining)
    } else {
        let before = substituted(remaining, schema, regions, (n - 1) as nat);
        let keys = touching_keys(schema, before.1, regions[n - 1]);
        moved(before.0, before.1, keys, keys.len())
    }
}

/// The entries after the first `n` wanted tiles have been stored, each under
/// its own key, after the kept ones.
pub open spec fn installed(kept: Seq<Entry>, wanted: Seq<DisplayedTile>, n: nat) -> Seq<Entry>
    decreases n,
{
    if n == 0 {
        kept
    } else {
        put(installed(kept, wanted, (n - 1) as nat), wanted[n - 1].key(), wanted[n - 1])
    }
}

/// Everything the requests gather from the entries `tiles`.
pub open spec fn gathered_all(
    tiles: Seq<Entry>,
    schema: TileSchema,
    needed: Seq<WrappingTileIndex>,
    answers: Seq<Option<BundleId>>,
    style_id: StyleId,
    now: u64,
    fade_in: u64,
) -> Gathered {
    gathered(tiles, schema, needed, answers, style_id, now, fade_in, needed.len())
}

/// The earlier entries that stay as a fallback, in paint order.
pub open spec fn fallbacks(remaining: Seq<Entry>, schema: TileSchema, regions: Seq<Rect>) -> Seq<
    Entry,
> {
    substituted(remaining, schema, regions, regions.len()).0
}

/// The entries of the cache after an update: the fallbacks, then the
/// requested tiles.
pub open spec fn rebuilt(
    tiles: Seq<Entry>,
    schema: TileSchema,
    needed: Seq<WrappingTileIndex>,
    answers: Seq<Option<BundleId>>,
    style_id: StyleId,
    now: u64,
    fade_in: u64,
) -> Seq<Entry> {
    let all = gathered_all(tiles, schema, needed, answers, style_id, now, fade_in);
    installed(fallbacks(all.remaining, schema, all.regions), all.wanted, all.wanted.len())
}

/// Whether an update asks for a redraw.
pub open spec fn redraw_due(
    tiles: Seq<Entry>,
    schema: TileSchema,
    needed: Seq<WrappingTileIndex>,
    answers: Seq<Option<BundleId>>,
    style_id: StyleId,
    now: u64,
    fade_in: u64,
) -> bool {
    gathered_all(tiles, schema, needed, answers, style_id, now, fade_in).redraw
}

/// Every wanted tile has an opacity within bounds.
pub open spec fn tiles_bounded(tiles: Seq<DisplayedTile>) -> bool {
    forall|i: int| 0 <= i < tiles.len() ==> (#[trigger] tiles[i]).opacity <= OPACITY_FULL
}

/// Requests that agree on the answers to the first `n` of them gather the same.
pub proof fn lemma_gathered_reads_prefix(
    tiles: Seq<Entry>,
    schema: TileSchema,
    needed: Seq<WrappingTileIndex>,
    first: Seq<Option<BundleId>>,
    second: Seq<Option<BundleId>>,
    style_id: StyleId,
    now: u64,
    fade_in: u64,
    n: nat,
)
    requires
        forall|i: int| 0 <= i < n ==> answer_at(first, i) == answer_at(second, i),
    ensures
        gathered(tiles, schema, needed, first, style_id, now, fade_in, n) == gathered(
            tiles,
            schema,
            needed,
            second,
            style_id,
            now,
            fade_in,
            n,
        ),
    decreases n,
{
    if n > 0 {
        lemma_gathered_reads_prefix(
            tiles,
            schema,
            needed,
            first,
            second,
            style_id,
            now,
            fade_in,
            (n - 1) as nat,
        );
        assert(answer_at(first, n - 1) == answer_at(second, n - 1));
    }
}

/// A request keeps the remaining entries well formed and the wanted tiles
/// within bounds.
pub proof fn lemma_request_well_formed(
    so_far: Gathered,
    schema: TileSchema,
    index: WrappingTileIndex,
    style_id: StyleId,
    answer: Option<BundleId>,
    now: u64,
    fade_in: u64,
)
    requires
        well_formed(so_far.remaining),
        tiles_bounded(so_far.wanted),
    ensures
        well_formed(request(so_far, schema, index, style_id, answer, now, fade_in).remaining),
        tiles_bounded(request(so_far, schema, index, style_id, answer, now, fade_in).wanted),
{
    let key = tile_key(index, style_id);
    let next = request(so_far, schema, index, style_id, answer, now, fade_in);
    lemma_remove_key_well_formed(so_far.remaining, key);
    match value_of(so_far.remaining, key) {
        Some(displayed) => {
            lemma_value_is_entry(so_far.remaining, key);
            lemma_fade_progress_bounds(elapsed_between(displayed.displayed_at, now), fade_in);
            assert(next.wanted.last().opacity <= OPACITY_FULL);
        },
        None => {},
    }
    assert forall|i: int| 0 <= i < next.wanted.len() implies (#[trigger] next.wanted[i]).opacity
        <= OPACITY_FULL by {
        if i < so_far.wanted.len() {
            assert(next.wanted[i] == so_far.wanted[i]);
        }
    }
}

/// The requests keep the remaining entries well formed and the wanted tiles
/// within bounds.
pub proof fn lemma_gathered_well_formed(
    tiles: Seq<Entry>,
    schema: TileSchema,
    needed: Seq<WrappingTileIndex>,
    answers: Seq<Option<BundleId>>,
    style_id: StyleId,
    now: u64,
    fade_in: u64,
    n: nat,
)
    requires
        well_formed(tiles),
    ensures
        well_formed(gathered(tiles, schema, needed, answers, style_id, now, fade_in, n).remaining),
        tiles_bounded(gathered(tiles, schema, needed, answers, style_id, now, fade_in, n).wanted),
    decreases n,
{
    if n > 0 {
        lemma_gathered_well_formed(
            tiles,
            schema,
            needed,
            answers,
            style_id,
            now,
            fade_in,
            (n - 1) as nat,
        );
        lemma_request_well_formed(
            gathered(tiles, schema, needed, answers, style_id, now, fade_in, (n - 1) as nat),
            schema,
            needed[n - 1],
            style_id,
            answer_at(answers, n - 1),
            now,
            fade_in,
        );
    }
}

/// Moving keys keeps both sides well formed.
pub proof fn lemma_moved_well_formed(
    kept: Seq<Entry>,
    remaining: Seq<Entry>,
    keys: Seq<TileKey>,
    n: nat,
)
    requires
        well_formed(kept),
        well_formed(remaining),
    ensures
        well_formed(moved(kept, remaining, keys, n).0),
        well_formed(moved(kept, remaining, keys, n).1),
    decreases n,
{
    if n > 0 {
        lemma_moved_well_formed(kept, remaining, keys, (n - 1) as nat);
        let before = moved(kept, remaining, keys, (n - 1) as nat);
        let key = keys[n - 1];
        if let Some(tile) = value_of(before.1, key) {
            lemma_value_is_entry(before.1, key);
            lemma_put_well_formed(before.0, tile);
            lemma_remove_key_well_formed(before.1, key);
        }
    }
}

/// Claiming fallbacks keeps both sides well formed.
pub proof fn lemma_substituted_well_formed(
    remaining: Seq<Entry>,
    schema: TileSchema,
    regions: Seq<Rect>,
    n: nat,
)
    requires
        well_formed(remaining),
    ensures
        well_formed(substituted(remaining, schema, regions, n).0),
        well_formed(substituted(remaining, schema, regions, n).1),
    decreases n,
{
    if n > 0 {
        lemma_substituted_well_formed(remaining, schema, regions, (n - 1) as nat);
        let before = substituted(remaining, schema, regions, (n - 1) as nat);
        let keys = touching_keys(schema, before.1, regions[n - 1]);
        lemma_moved_well_formed(before.0, before.1, keys, keys.len());
    }
}

/// Storing wanted tiles keeps the entries well formed.
pub proof fn lemma_installed_well_formed(kept: Seq<Entry>, wanted: Seq<DisplayedTile>, n: nat)
    requires
        well_formed(kept),
        tiles_bounded(wanted),
        n <= wanted.len(),
    ensures
        well_formed(installed(kept, wanted, n)),
    decreases n,
{
    if n > 0 {
        lemma_installed_well_formed(kept, wanted, (n - 1) as nat);
        lemma_put_well_formed(installed(kept, wanted, (n - 1) as nat), wanted[n - 1]);
    }
}

/// An update of well-formed entries gives well-formed entries.
pub proof fn lemma_rebuilt_well_formed(
    tiles: Seq<Entry>,
    schema: TileSchema,
    needed: Seq<WrappingTileIndex>,
    answers: Seq<Option<BundleId>>,
    style_id: StyleId,
    now: u64,
    fade_in: u64,
)
    requires
        well_formed(tiles),
    ensures
        well_formed(rebuilt(tiles, schema, needed, answers, style_id, now, fade_in)),
{
    let all = gathered_all(tiles, schema, needed, answers, style_id, now, fade_in);
    lemma_gathered_well_formed(tiles, schema, needed, answers, style_id, now, fade_in, needed.len());
    lemma_substituted_well_formed(all.remaining, schema, all.regions, all.regions.len());
    lemma_installed_well_formed(
        fallbacks(all.remaining, schema, all.regions),
        all.wanted,
        all.wanted.len(),
    );
}

/// Where the provider's answers come from.
pub(crate) enum Answers<'a, Provider: TileProvider> {
    /// Ask the provider, once for each request that finds nothing displayed.
    Ask(&'a Provider),
    /// Answers that were fetched before, one for each request.
    Given(&'a Vec<Option<BundleId>>),
}

/// Adds the bounding box of the coordinate to the regions, where it has one.
fn record_region(regions: &mut Vec<Rect>, schema: &TileSchema, index: WrappingTileIndex)
    ensures
        final(regions)@ == with_region(old(regions)@, schema.bbox(index)),
{
    match schema.tile_bbox(index) {
        Some(bbox) => {
            regions.push(bbox);
        },
        None => {},
    }
}

/// The first pass: takes the requested tiles out of the cache or asks for
/// them, and records the fallback regions.
pub(crate) fn gather<Provider: TileProvider>(
    tiles: &mut OrderedHashMap<TileKey, DisplayedTile>,
    schema: &TileSchema,
    source: Answers<'_, Provider>,
    needed: &Vec<WrappingTileIndex>,
    style_id: StyleId,
    now: u64,
    fade_in: u64,
) -> (out: (Vec<DisplayedTile>, Vec<Rect>, bool, Ghost<Seq<Option<BundleId>>>))
    ensures
        (Gathered {
            remaining: map_entries(*final(tiles)),
            wanted: out.0@,
            regions: out.1@,
            redraw: out.2,
        }) == gathered_all(
            map_entries(*old(tiles)),
            *schema,
            needed@,
            out.3@,
            style_id,
            now,
            fade_in,
        ),
        source matches Answers::Given(list) ==> out.3@ == list@,
        source is Ask ==> out.3@.len() == needed@.len(),
{
    let ghost before = map_entries(*tiles);
    let ghost mut answers: Seq<Option<BundleId>> = match source {
        Answers::Given(list) => list@,
        Answers::Ask(_) => Seq::empty(),
    };
    let mut wanted: Vec<DisplayedTile> = Vec::new();
    let mut regions: Vec<Rect> = Vec::new();
    let mut redraw = false;
    let mut i: usize = 0;
    while i < needed.len()
        invariant
            i <= needed.len(),
            source matches Answers::Given(list) ==> answers == list@,
            source is Ask ==> answers.len() == i,
            (Gathered {
                remaining: map_entries(*tiles),
                wanted: wanted@,
                regions: regions@,
                redraw,
            }) == gathered(before, *schema, needed@, answers, style_id, now, fade_in, i as nat),
        decreases needed.len() - i,
    {
        let index = needed[i];
        let key = make_key(index, style_id);
        let ghost answers_before = answers;
        let ghost so_far = gathered(
            before,
            *schema,
            needed@,
            answers_before,
            style_id,
            now,
            fade_in,
            i as nat,
        );
        let found = map_remove(tiles, &key);
        match found {
            Some(displayed) => {
                let mut displayed = displayed;
                if !displayed.is_opaque() {
                    record_region(&mut regions, schema, index);
                    displayed.opacity = opacity_after(
                        elapsed_millis(displayed.displayed_at, now),
                        fade_in,
                    );
                    redraw = true;
                }
                wanted.push(displayed);
                proof {
                    if source is Ask {
                        answers = answers_before.push(None);
                    }
                }
            },
            None => {
                let answer = match source {
                    Answers::Ask(provider) => provider.get_tile(TileIndex::from(index), style_id),
                    Answers::Given(list) => if i < list.len() {
                        list[i]
                    } else {
                        None
                    },
                };
                proof {
                    if source is Ask {
                        answers = answers_before.push(answer);
                    }
                    assert(answer_at(answers, i as int) == answer);
                }
                match answer {
                    Some(bundle) => {
                        let opacity = if fade_in > 1 {
                            0
                        } else {
                            OPACITY_FULL
                        };
                        wanted.push(
                            DisplayedTile { index, bundle, style_id, opacity, displayed_at: now },
                        );
                        record_region(&mut regions, schema, index);
                        redraw = true;
                    },
                    None => {
                        record_region(&mut regions, schema, index);
                    },
                }
            },
        }
        proof {
            lemma_gathered_reads_prefix(
                before,
                *schema,
                needed@,
                answers_before,
                answers,
                style_id,
                now,
                fade_in,
                i as nat,
            );
        }
        i = i + 1;
    }
    (wanted, regions, redraw, Ghost(answers))
}

/// The second pass: every region claims the remaining tiles that touch it.
pub(crate) fn substitute(
    tiles: &mut OrderedHashMap<TileKey, DisplayedTile>,
    schema: &TileSchema,
    regions: &Vec<Rect>,
) -> (kept: OrderedHashMap<TileKey, DisplayedTile>)
    ensures
        (map_entries(kept), map_entries(*final(tiles))) == substituted(
            map_entries(*old(tiles)),
            *schema,
            regions@,
            regions@.len(),
        ),
{
    let ghost before = map_entries(*tiles);
    let mut kept = map_new();
    let mut selected: Vec<TileKey> = Vec::new();
    let mut r: usize = 0;
    while r < regions.len()
        invariant
            r <= regions.len(),
            selected@.len() == 0,
            (map_entries(kept), map_entries(*tiles)) == substituted(
                before,
                *schema,
                regions@,
                r as nat,
            ),
        decreases regions.len() - r,
    {
        let region = regions[r];
        let ghost start = (map_entries(kept), map_entries(*tiles));
        let keys = map_keys(tiles);
        let mut i: usize = 0;
        while i < keys.len()
            invariant
                i <= keys.len(),
                selected@ == keys@.take(i as int).filter(touching(*schema, region)),
            decreases keys.len() - i,
        {
            let key = keys[i];
            proof {
                reveal(Seq::filter);
                assert(keys@.take(i + 1).drop_last() == keys@.take(i as int));
            }
            let intersects = match schema.tile_bbox(index_of_key(key)) {
                Some(bbox) => bbox.intersects(region),
                None => false,
            };
            if intersects {
                selected.push(key);
            }
            i = i + 1;
        }
        proof {
            assert(keys@.take(keys@.len() as int) == keys@);
        }
        let mut j: usize = 0;
        while j < selected.len()
            invariant
                j <= selected.len(),
                (map_entries(kept), map_entries(*tiles)) == moved(
                    start.0,
                    start.1,
                    selected@,
                    j as nat,
                ),
            decreases selected.len() - j,
        {
            let key = selected[j];
            match map_remove(tiles, &key) {
                Some(tile) => {
                    map_insert(&mut kept, key, tile);
                },
                None => {},
            }
            j = j + 1;
        }
        selected.clear();
        r = r + 1;
    }
    kept
}

/// The third pass: stores the wanted tiles after the kept ones.
pub(crate) fn install(kept: &mut OrderedHashMap<TileKey, DisplayedTile>, wanted: &Vec<DisplayedTile>)
    ensures
        map_entries(*final(kept)) == installed(map_entries(*old(kept)), wanted@, wanted@.len()),
{
    let ghost before = map_entries(*kept);
    let mut i: usize = 0;
    while i < wanted.len()
        invariant
            i <= wanted.len(),
            map_entries(*kept) == installed(before, wanted@, i as nat),
        decreases wanted.len() - i,
    {
        let tile = wanted[i];
        map_insert(kept, tile.cache_key(), tile);
        i = i + 1;
    }
}

/// One update of the cache, in place.
pub(crate) fn rebuild<Provider: TileProvider>(
    tiles: &mut OrderedHashMap<TileKey, DisplayedTile>,
    schema: &TileSchema,
    source: Answers<'_, Provider>,
    needed: &Vec<WrappingTileIndex>,
    style_id: StyleId,
    now: u64,
    fade_in: u64,
) -> (out: (bool, Ghost<Seq<Option<BundleId>>>))
    requires
        well_formed(map_entries(*old(tiles))),
    ensures
        well_formed(map_entries(*final(tiles))),
        map_entries(*final(tiles)) == rebuilt(
            map_entries(*old(tiles)),
            *schema,
            needed@,
            out.1@,
            style_id,
            now,
            fade_in,
        ),
        out.0 == redraw_due(
            map_entries(*old(tiles)),
            *schema,
            needed@,
            out.1@,
            style_id,
            now,
            fade_in,
        ),
        source matches Answers::Given(list) ==> out.1@ == list@,
        source is Ask ==> out.1@.len() == needed@.len(),
{
    let ghost before = map_entries(*tiles);
    let (wanted, regions, redraw, answers) = gather(
        tiles,
        schema,
        source,
        needed,
        style_id,
        now,
        fade_in,
    );
    let mut kept = substitute(tiles, schema, &regions);
    install(&mut kept, &wanted);
    proof {
        lemma_rebuilt_well_formed(before, *schema, needed@, answers@, style_id, now, fade_in);
    }
    *tiles = kept;
    (redraw, answers)
}

} // verus!
