use std::cell::RefCell;
use std::collections::HashMap;

use tile_display::layer::displayed::{
    elapsed_millis, index_of_key, make_key, opacity_after, DEFAULT_FADE_IN_DURATION, OPACITY_FULL,
};
use tile_display::{
    BundleId, DisplayedTile, StyleId, TileIndex, TileProvider, TileSchema, TileSchemaBuilder,
    TilesContainer, WrappingTileIndex,
};

/// A provider that has what it was given, and remembers what it was asked.
struct Shelf {
    ready: HashMap<(TileIndex, StyleId), BundleId>,
    asked: RefCell<Vec<(TileIndex, StyleId)>>,
}

impl Shelf {
    fn new() -> Self {
        Shelf {
            ready: HashMap::new(),
            asked: RefCell::new(Vec::new()),
        }
    }

    fn with(mut self, index: WrappingTileIndex, style_id: StyleId, bundle: BundleId) -> Self {
        self.ready.insert((content(index), style_id), bundle);
        self
    }

    fn asked(&self) -> Vec<(TileIndex, StyleId)> {
        self.asked.borrow().clone()
    }
}

impl TileProvider for Shelf {
    fn get_tile(&self, index: TileIndex, style_id: StyleId) -> Option<BundleId> {
        self.asked.borrow_mut().push((index, style_id));
        self.ready.get(&(index, style_id)).copied()
    }
}

fn content(index: WrappingTileIndex) -> TileIndex {
    TileIndex::new(index.x, index.y, index.z)
}

fn schema() -> TileSchema {
    TileSchemaBuilder::web_mercator(vec![0, 1, 2])
        .build()
        .unwrap()
}

fn tile(x: i32, y: i32, z: u32) -> WrappingTileIndex {
    WrappingTileIndex::new(x, y, z)
}

fn keys(container: &TilesContainer<Shelf>) -> Vec<(WrappingTileIndex, StyleId)> {
    container
        .displayed_tiles()
        .iter()
        .map(|tile| (tile.index, tile.style_id))
        .collect()
}

const S1: StyleId = 1;
const S2: StyleId = 2;

#[test]
fn a_new_container_is_empty() {
    let container = TilesContainer::new(schema(), Shelf::new());
    assert_eq!(container.len(), 0);
    assert!(container.displayed_tiles().is_empty());
    assert_eq!(container.fade_in_duration(), 300);
    assert_eq!(DEFAULT_FADE_IN_DURATION, 300);
    assert!(container.requires_animation());
    assert_eq!(container.tile_schema().lod_count(), 3);
    assert!(container.tile_provider().asked().is_empty());
}

#[test]
fn requested_tiles_that_are_ready_are_inserted() {
    let a = tile(0, 0, 1);
    let b = tile(1, 0, 1);
    let shelf = Shelf::new().with(a, S1, 10).with(b, S1, 11);
    let mut container = TilesContainer::new(schema(), shelf);

    let redraw = container.update_displayed_tiles_at(vec![a, b], S1, 1000);

    assert!(redraw);
    assert_eq!(
        container.displayed_tiles(),
        vec![
            DisplayedTile {
                index: a,
                bundle: 10,
                style_id: S1,
                opacity: 0,
                displayed_at: 1000
            },
            DisplayedTile {
                index: b,
                bundle: 11,
                style_id: S1,
                opacity: 0,
                displayed_at: 1000
            },
        ]
    );
    assert_eq!(container.len(), 2);
    assert_eq!(
        container.tile_provider().asked(),
        vec![(content(a), S1), (content(b), S1)]
    );
}

#[test]
fn requested_tiles_are_opaque_at_once_without_animation() {
    let a = tile(0, 0, 1);
    let b = tile(1, 0, 1);
    let shelf = Shelf::new().with(a, S1, 10).with(b, S1, 11);
    let mut container = TilesContainer::new(schema(), shelf);
    container.set_fade_in_duration(0);
    assert!(!container.requires_animation());

    let redraw = container.update_displayed_tiles_at(vec![a, b], S1, 1000);

    assert!(redraw);
    let tiles = container.displayed_tiles();
    assert_eq!(tiles.len(), 2);
    for tile in &tiles {
        assert_eq!(tile.opacity, OPACITY_FULL);
        assert_eq!(tile.displayed_at, 1000);
        assert!(tile.is_opaque());
    }
}

#[test]
fn one_millisecond_switches_the_animation_off() {
    let a = tile(0, 0, 1);
    let mut container = TilesContainer::new(schema(), Shelf::new().with(a, S1, 10));
    container.set_fade_in_duration(1);
    assert_eq!(container.fade_in_duration(), 1);
    assert!(!container.requires_animation());
    container.update_displayed_tiles_at(vec![a], S1, 5);
    assert_eq!(container.displayed_tiles()[0].opacity, 1000);

    let mut container = TilesContainer::new(schema(), Shelf::new().with(a, S1, 10));
    container.set_fade_in_duration(2);
    assert!(container.requires_animation());
    container.update_displayed_tiles_at(vec![a], S1, 5);
    assert_eq!(container.displayed_tiles()[0].opacity, 0);
}

#[test]
fn an_opaque_tile_stays_as_fallback_for_a_tile_that_is_not_ready() {
    let a = tile(0, 0, 0);
    let b = tile(0, 0, 1);
    let mut container = TilesContainer::new(schema(), Shelf::new().with(a, S1, 10));
    container.update_displayed_tiles_at(vec![a], S1, 0);
    assert!(container.update_displayed_tiles_at(vec![a], S1, 300));
    assert_eq!(container.displayed_tiles()[0].opacity, OPACITY_FULL);

    let redraw = container.update_displayed_tiles_at(vec![b], S1, 400);

    assert!(!redraw);
    assert_eq!(keys(&container), vec![(a, S1)]);
    assert_eq!(
        container.displayed_tiles()[0],
        DisplayedTile {
            index: a,
            bundle: 10,
            style_id: S1,
            opacity: OPACITY_FULL,
            displayed_at: 0
        }
    );
}

#[test]
fn a_tile_that_is_neither_needed_nor_a_fallback_is_evicted() {
    let a = tile(0, 0, 1);
    let far = tile(3, 3, 2);
    let shelf = Shelf::new().with(a, S1, 10);
    let mut container = TilesContainer::new(schema(), shelf);
    container.set_fade_in_duration(0);
    container.update_displayed_tiles_at(vec![a], S1, 0);
    assert_eq!(keys(&container), vec![(a, S1)]);

    let redraw = container.update_displayed_tiles_at(vec![far], S1, 10);

    assert!(!redraw);
    assert!(container.displayed_tiles().is_empty());
    assert_eq!(container.len(), 0);
}

#[test]
fn a_fresh_tile_keeps_its_fallback_until_it_is_requested_again() {
    let a = tile(0, 0, 0);
    let b = tile(0, 0, 1);
    let shelf = Shelf::new().with(a, S1, 10).with(b, S1, 11);
    let mut container = TilesContainer::new(schema(), shelf);
    container.set_fade_in_duration(0);
    container.update_displayed_tiles_at(vec![a], S1, 0);

    let redraw = container.update_displayed_tiles_at(vec![b], S1, 10);
    assert!(redraw);
    assert_eq!(keys(&container), vec![(a, S1), (b, S1)]);
    let tiles = container.displayed_tiles();
    assert_eq!(tiles[1].opacity, OPACITY_FULL);
    assert_eq!(tiles[1].displayed_at, 10);

    let redraw = container.update_displayed_tiles_at(vec![b], S1, 20);
    assert!(!redraw);
    assert_eq!(keys(&container), vec![(b, S1)]);
}

#[test]
fn opacity_follows_the_clock() {
    let a = tile(0, 0, 1);
    let mut container = TilesContainer::new(schema(), Shelf::new().with(a, S1, 10));
    assert!(container.update_displayed_tiles_at(vec![a], S1, 1000));
    assert_eq!(container.displayed_tiles()[0].opacity, 0);

    assert!(container.update_displayed_tiles_at(vec![a], S1, 1100));
    assert_eq!(container.displayed_tiles()[0].opacity, 333);

    assert!(container.update_displayed_tiles_at(vec![a], S1, 1150));
    assert_eq!(container.displayed_tiles()[0].opacity, 500);

    assert!(container.update_displayed_tiles_at(vec![a], S1, 1299));
    assert_eq!(container.displayed_tiles()[0].opacity, 996);

    assert!(container.update_displayed_tiles_at(vec![a], S1, 1300));
    assert_eq!(container.displayed_tiles()[0].opacity, 1000);
    assert_eq!(container.displayed_tiles()[0].displayed_at, 1000);

    assert!(!container.update_displayed_tiles_at(vec![a], S1, 1400));
    assert_eq!(container.displayed_tiles()[0].opacity, 1000);
    assert_eq!(container.tile_provider().asked(), vec![(content(a), S1)]);
}

#[test]
fn a_fading_tile_asks_for_a_redraw_even_when_no_time_has_passed() {
    let a = tile(0, 0, 1);
    let mut container = TilesContainer::new(schema(), Shelf::new().with(a, S1, 10));
    assert!(container.update_displayed_tiles_at(vec![a], S1, 1000));
    assert!(container.update_displayed_tiles_at(vec![a], S1, 1000));
    assert_eq!(container.displayed_tiles()[0].opacity, 0);
}

#[test]
fn a_clock_that_reads_earlier_counts_as_no_time() {
    let a = tile(0, 0, 1);
    let mut container = TilesContainer::new(schema(), Shelf::new().with(a, S1, 10));
    container.update_displayed_tiles_at(vec![a], S1, 1000);
    container.update_displayed_tiles_at(vec![a], S1, 1150);
    assert_eq!(container.displayed_tiles()[0].opacity, 500);
    container.update_displayed_tiles_at(vec![a], S1, 900);
    assert_eq!(container.displayed_tiles()[0].opacity, 0);
}

#[test]
fn a_fading_tile_keeps_what_lies_under_it() {
    let a = tile(0, 0, 0);
    let b = tile(0, 0, 1);
    let shelf = Shelf::new().with(a, S1, 10).with(b, S1, 11);
    let mut container = TilesContainer::new(schema(), shelf);
    container.update_displayed_tiles_at(vec![a], S1, 0);
    container.update_displayed_tiles_at(vec![a], S1, 300);

    assert!(container.update_displayed_tiles_at(vec![b], S1, 400));
    assert_eq!(keys(&container), vec![(a, S1), (b, S1)]);
    assert!(container.update_displayed_tiles_at(vec![b], S1, 550));
    assert_eq!(keys(&container), vec![(a, S1), (b, S1)]);
    assert_eq!(container.displayed_tiles()[1].opacity, 500);
    assert!(container.update_displayed_tiles_at(vec![b], S1, 700));
    assert_eq!(keys(&container), vec![(a, S1), (b, S1)]);
    assert_eq!(container.displayed_tiles()[1].opacity, 1000);
    assert!(!container.update_displayed_tiles_at(vec![b], S1, 800));
    assert_eq!(keys(&container), vec![(b, S1)]);
}

#[test]
fn fallbacks_come_before_requested_tiles() {
    let a = tile(0, 0, 1);
    let b = tile(1, 0, 1);
    let c = tile(1, 0, 2);
    let shelf = Shelf::new()
        .with(a, S1, 10)
        .with(b, S1, 11)
        .with(c, S1, 12);
    let mut container = TilesContainer::new(schema(), shelf);
    container.set_fade_in_duration(0);
    container.update_displayed_tiles_at(vec![a, b], S1, 0);
    assert_eq!(keys(&container), vec![(a, S1), (b, S1)]);

    // `a` is requested again; `c` is new, lies inside `a` and shares a side
    // with `b`, which therefore stays as a fallback and is painted first.
    container.update_displayed_tiles_at(vec![c, a], S1, 10);
    assert_eq!(keys(&container), vec![(b, S1), (c, S1), (a, S1)]);
}

#[test]
fn a_tile_that_touches_no_region_goes() {
    let a = tile(0, 0, 1);
    let b = tile(1, 0, 1);
    let c = tile(0, 0, 2);
    let shelf = Shelf::new()
        .with(a, S1, 10)
        .with(b, S1, 11)
        .with(c, S1, 12);
    let mut container = TilesContainer::new(schema(), shelf);
    container.set_fade_in_duration(0);
    container.update_displayed_tiles_at(vec![a, b], S1, 0);

    // `c` lies in the far corner of `a`, away from `b`.
    container.update_displayed_tiles_at(vec![c, a], S1, 10);
    assert_eq!(keys(&container), vec![(c, S1), (a, S1)]);
}

fn settled_three() -> TilesContainer<Shelf> {
    let whole = tile(0, 0, 0);
    let left = tile(0, 0, 1);
    let right = tile(1, 0, 1);
    let shelf = Shelf::new()
        .with(whole, S1, 10)
        .with(left, S1, 11)
        .with(right, S1, 12);
    let mut container = TilesContainer::new(schema(), shelf);
    container.set_fade_in_duration(0);
    container.update_displayed_tiles_at(vec![left, right, whole], S1, 0);
    assert_eq!(keys(&container), vec![(left, S1), (right, S1), (whole, S1)]);
    container
}

#[test]
fn a_region_claims_in_the_order_of_the_cache() {
    let whole = tile(0, 0, 0);
    let left = tile(0, 0, 1);
    let right = tile(1, 0, 1);
    let mut container = settled_three();

    // Nothing of level 2 is ready. The first region lies in `left` and
    // shares a side with `right`; it claims all three.
    let redraw = container.update_displayed_tiles_at(vec![tile(1, 0, 2), tile(2, 0, 2)], S1, 10);
    assert!(!redraw);
    assert_eq!(keys(&container), vec![(left, S1), (right, S1), (whole, S1)]);
}

#[test]
fn the_first_region_claims_a_shared_fallback() {
    let whole = tile(0, 0, 0);
    let left = tile(0, 0, 1);
    let right = tile(1, 0, 1);

    // The lower right corner touches `whole` only, the upper left corner
    // touches `left` and `whole`; `right` touches neither.
    let mut container = settled_three();
    container.update_displayed_tiles_at(vec![tile(3, 3, 2), tile(0, 0, 2)], S1, 20);
    assert_eq!(keys(&container), vec![(whole, S1), (left, S1)]);

    let mut container = settled_three();
    container.update_displayed_tiles_at(vec![tile(0, 0, 2), tile(3, 3, 2)], S1, 20);
    assert_eq!(keys(&container), vec![(left, S1), (whole, S1)]);
    assert!(!keys(&container).contains(&(right, S1)));
}

#[test]
fn styles_are_separate_entries() {
    let a = tile(0, 0, 1);
    let shelf = Shelf::new().with(a, S1, 10).with(a, S2, 20);
    let mut container = TilesContainer::new(schema(), shelf);
    container.set_fade_in_duration(0);
    container.update_displayed_tiles_at(vec![a], S1, 0);

    let redraw = container.update_displayed_tiles_at(vec![a], S2, 5);

    assert!(redraw);
    assert_eq!(keys(&container), vec![(a, S1), (a, S2)]);
    let tiles = container.displayed_tiles();
    assert_eq!(tiles[0].bundle, 10);
    assert_eq!(tiles[1].bundle, 20);
    assert_eq!(
        container.tile_provider().asked(),
        vec![(content(a), S1), (content(a), S2)]
    );
}

#[test]
fn a_repeated_request_once_all_is_opaque_changes_nothing() {
    let a = tile(0, 0, 1);
    let b = tile(1, 1, 1);
    let shelf = Shelf::new().with(a, S1, 10).with(b, S1, 11);
    let mut container = TilesContainer::new(schema(), shelf);
    container.update_displayed_tiles_at(vec![a, b], S1, 0);
    container.update_displayed_tiles_at(vec![a, b], S1, 300);
    let settled = container.displayed_tiles();
    assert_eq!(settled.len(), 2);
    assert!(settled.iter().all(|tile| tile.is_opaque()));

    for _ in 0..3 {
        assert!(!container.update_displayed_tiles_at(vec![a, b], S1, 300));
        assert_eq!(container.displayed_tiles(), settled);
    }
}

#[test]
fn an_empty_request_clears_the_cache() {
    let a = tile(0, 0, 1);
    let mut container = TilesContainer::new(schema(), Shelf::new().with(a, S1, 10));
    container.update_displayed_tiles_at(vec![a], S1, 0);
    assert_eq!(container.len(), 1);
    assert!(!container.update_displayed_tiles_at(Vec::new(), S1, 10));
    assert_eq!(container.len(), 0);
}

#[test]
fn a_coordinate_without_a_box_is_still_displayed() {
    let nowhere = tile(0, 0, 7);
    let a = tile(0, 0, 0);
    let shelf = Shelf::new().with(nowhere, S1, 10).with(a, S1, 11);
    let mut container = TilesContainer::new(schema(), shelf);
    container.set_fade_in_duration(0);
    container.update_displayed_tiles_at(vec![a], S1, 0);

    assert!(container.update_displayed_tiles_at(vec![nowhere], S1, 10));
    // No box, so no fallback region: `a` goes.
    assert_eq!(keys(&container), vec![(nowhere, S1)]);

    // And a tile without a box is no fallback for anything.
    assert!(!container.update_displayed_tiles_at(vec![tile(1, 1, 2)], S1, 20));
    assert!(container.displayed_tiles().is_empty());
}

#[test]
fn the_provider_gets_the_content_coordinate() {
    let wrapped = WrappingTileIndex {
        x: 1,
        y: 0,
        z: 1,
        display_x: -1,
    };
    let shelf = Shelf::new().with(wrapped, S1, 10);
    let mut container = TilesContainer::new(schema(), shelf);
    container.update_displayed_tiles_at(vec![wrapped, tile(1, 0, 1)], S1, 0);
    assert_eq!(
        container.tile_provider().asked(),
        vec![(TileIndex::new(1, 0, 1), S1), (TileIndex::new(1, 0, 1), S1)]
    );
    // The same content in two columns is two entries.
    assert_eq!(keys(&container), vec![(wrapped, S1), (tile(1, 0, 1), S1)]);
}

#[test]
fn a_coordinate_requested_twice_is_fetched_anew() {
    let a = tile(0, 0, 1);
    let mut container = TilesContainer::new(schema(), Shelf::new().with(a, S1, 10));
    container.set_fade_in_duration(0);
    container.update_displayed_tiles_at(vec![a], S1, 0);

    assert!(container.update_displayed_tiles_at(vec![a, a], S1, 50));
    assert_eq!(
        container.displayed_tiles(),
        vec![DisplayedTile {
            index: a,
            bundle: 10,
            style_id: S1,
            opacity: OPACITY_FULL,
            displayed_at: 50
        }]
    );
}

#[test]
fn fetched_answers_give_the_same_update() {
    let a = tile(0, 0, 0);
    let b = tile(0, 0, 1);
    let c = tile(1, 1, 1);
    let shelf = Shelf::new().with(a, S1, 10).with(b, S1, 11);
    let mut asked = TilesContainer::new(schema(), shelf);
    let mut given = TilesContainer::new(schema(), Shelf::new());

    assert_eq!(
        asked.update_displayed_tiles_at(vec![a], S1, 0),
        given.update_with_answers(vec![a], vec![Some(10)], S1, 0)
    );
    assert_eq!(asked.displayed_tiles(), given.displayed_tiles());

    assert_eq!(
        asked.update_displayed_tiles_at(vec![a, b, c], S1, 100),
        given.update_with_answers(vec![a, b, c], vec![Some(99), Some(11), None], S1, 100)
    );
    assert_eq!(asked.displayed_tiles(), given.displayed_tiles());
    assert_eq!(
        given.displayed_tiles(),
        vec![
            DisplayedTile {
                index: a,
                bundle: 10,
                style_id: S1,
                opacity: 333,
                displayed_at: 0
            },
            DisplayedTile {
                index: b,
                bundle: 11,
                style_id: S1,
                opacity: 0,
                displayed_at: 100
            },
        ]
    );
    assert!(given.tile_provider().asked().is_empty());
}

#[test]
fn a_missing_answer_counts_as_not_ready() {
    let a = tile(0, 0, 1);
    let b = tile(1, 0, 1);
    let mut container = TilesContainer::new(schema(), Shelf::new());
    assert!(container.update_with_answers(vec![a, b], vec![Some(1)], S1, 0));
    assert_eq!(keys(&container), vec![(a, S1)]);
}

#[test]
fn the_running_clock_never_lowers_an_opacity() {
    let a = tile(0, 0, 1);
    let mut container = TilesContainer::new(schema(), Shelf::new().with(a, S1, 10));
    assert!(container.update_displayed_tiles(vec![a], S1));
    let first = container.displayed_tiles()[0];
    container.update_displayed_tiles(vec![a], S1);
    let second = container.displayed_tiles()[0];
    assert_eq!(second.displayed_at, first.displayed_at);
    assert!(second.opacity >= first.opacity);
    assert!(second.opacity <= OPACITY_FULL);
    assert_eq!(second.bundle, 10);
}

#[test]
fn opacity_formula() {
    assert_eq!(opacity_after(0, 300), 0);
    assert_eq!(opacity_after(1, 300), 3);
    assert_eq!(opacity_after(150, 300), 500);
    assert_eq!(opacity_after(299, 300), 996);
    assert_eq!(opacity_after(300, 300), 1000);
    assert_eq!(opacity_after(301, 300), 1000);
    assert_eq!(opacity_after(u64::MAX, 300), 1000);
    assert_eq!(opacity_after(0, 0), 1000);
    assert_eq!(opacity_after(0, 1), 1000);
    assert_eq!(opacity_after(0, 2), 0);
    assert_eq!(opacity_after(1, 2), 500);
    assert_eq!(opacity_after(u64::MAX - 1, u64::MAX), 999);
    assert_eq!(opacity_after(u64::MAX / 2, u64::MAX), 499);
}

#[test]
fn elapsed_time() {
    assert_eq!(elapsed_millis(10, 25), 15);
    assert_eq!(elapsed_millis(25, 25), 0);
    assert_eq!(elapsed_millis(26, 25), 0);
    assert_eq!(elapsed_millis(0, u64::MAX), u64::MAX);
}

#[test]
fn keys_and_coordinates() {
    let wrapped = WrappingTileIndex {
        x: 1,
        y: -2,
        z: 3,
        display_x: -7,
    };
    let key = make_key(wrapped, 9);
    assert_eq!(key, (1, -2, 3, -7, 9));
    assert_eq!(index_of_key(key), wrapped);
    let shown = DisplayedTile {
        index: wrapped,
        bundle: 4,
        style_id: 9,
        opacity: 999,
        displayed_at: 0,
    };
    assert_eq!(shown.cache_key(), key);
    assert!(!shown.is_opaque());
    assert_eq!(TileIndex::from(wrapped), TileIndex::new(1, -2, 3));
    assert_eq!(tile(4, 5, 6).display_x, 4);
}
