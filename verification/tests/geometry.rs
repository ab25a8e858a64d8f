use tile_display::{Point, Rect, TileSchemaBuilder, WrappingTileIndex};

const MAX: i64 = 20037508342787;

#[test]
fn rect_orders_its_bounds() {
    let rect = Rect::new(5, 9, -3, 2);
    assert_eq!(rect.x_min(), -3);
    assert_eq!(rect.x_max(), 5);
    assert_eq!(rect.y_min(), 2);
    assert_eq!(rect.y_max(), 9);
    assert_eq!(rect, Rect::new(-3, 2, 5, 9));
}

#[test]
fn rect_extent() {
    let rect = Rect::new(-3, 2, 5, 9);
    assert_eq!(rect.width(), 8);
    assert_eq!(rect.height(), 7);
    let widest = Rect::new(i64::MIN, i64::MIN, i64::MAX, i64::MAX);
    assert_eq!(widest.width(), u64::MAX);
    assert_eq!(widest.height(), u64::MAX);
}

#[test]
fn point_coordinates() {
    let point = Point::new(-7, 11);
    assert_eq!(point.x(), -7);
    assert_eq!(point.y(), 11);
}

#[test]
fn overlapping_rects_intersect() {
    let a = Rect::new(0, 0, 10, 10);
    assert!(a.intersects(Rect::new(5, 5, 15, 15)));
    assert!(a.intersects(Rect::new(2, 2, 3, 3)));
    assert!(Rect::new(2, 2, 3, 3).intersects(a));
    assert!(a.intersects(a));
}

#[test]
fn touching_rects_intersect() {
    let a = Rect::new(0, 0, 10, 10);
    assert!(a.intersects(Rect::new(10, 0, 20, 10)));
    assert!(a.intersects(Rect::new(10, 10, 20, 20)));
    assert!(a.intersects(Rect::new(-5, -5, 0, 0)));
}

#[test]
fn separate_rects_do_not_intersect() {
    let a = Rect::new(0, 0, 10, 10);
    assert!(!a.intersects(Rect::new(11, 0, 20, 10)));
    assert!(!a.intersects(Rect::new(0, 11, 10, 20)));
    assert!(!a.intersects(Rect::new(-9, 0, -1, 10)));
    assert!(!a.intersects(Rect::new(0, -9, 10, -1)));
    assert!(!Rect::new(11, 0, 20, 10).intersects(a));
}

#[test]
fn bbox_of_the_world_tile() {
    let schema = TileSchemaBuilder::web_mercator(vec![0, 1, 2])
        .build()
        .unwrap();
    assert_eq!(
        schema.tile_bbox(WrappingTileIndex::new(0, 0, 0)),
        Some(Rect::new(-MAX, -MAX, MAX, MAX))
    );
}

#[test]
fn bbox_of_quarter_tiles() {
    let schema = TileSchemaBuilder::web_mercator(vec![0, 1, 2])
        .build()
        .unwrap();
    assert_eq!(
        schema.tile_bbox(WrappingTileIndex::new(0, 0, 1)),
        Some(Rect::new(-MAX, 0, 0, MAX))
    );
    assert_eq!(
        schema.tile_bbox(WrappingTileIndex::new(1, 0, 1)),
        Some(Rect::new(0, 0, MAX, MAX))
    );
    assert_eq!(
        schema.tile_bbox(WrappingTileIndex::new(0, 1, 1)),
        Some(Rect::new(-MAX, -MAX, 0, 0))
    );
    assert_eq!(
        schema.tile_bbox(WrappingTileIndex::new(1, 1, 1)),
        Some(Rect::new(0, -MAX, MAX, 0))
    );
}

#[test]
fn bbox_edges_round_down() {
    let schema = TileSchemaBuilder::web_mercator(vec![0, 1, 2])
        .build()
        .unwrap();
    // A quarter of the width is 10018754171393.5 world units.
    assert_eq!(
        schema.tile_bbox(WrappingTileIndex::new(1, 0, 2)),
        Some(Rect::new(
            -MAX + 10018754171393,
            MAX - 10018754171393,
            0,
            MAX
        ))
    );
    assert_eq!(
        schema.tile_bbox(WrappingTileIndex::new(3, 3, 2)),
        Some(Rect::new(
            -MAX + 30056262514180,
            -MAX,
            MAX,
            MAX - 30056262514180
        ))
    );
}

#[test]
fn bbox_follows_the_display_column() {
    let schema = TileSchemaBuilder::web_mercator(vec![0, 1]).build().unwrap();
    let wrapped = WrappingTileIndex {
        x: 1,
        y: 0,
        z: 1,
        display_x: -1,
    };
    assert_eq!(
        schema.tile_bbox(wrapped),
        Some(Rect::new(-2 * MAX, 0, -MAX, MAX))
    );
    let beyond = WrappingTileIndex {
        x: 0,
        y: 0,
        z: 1,
        display_x: 2,
    };
    assert_eq!(
        schema.tile_bbox(beyond),
        Some(Rect::new(MAX, 0, 2 * MAX, MAX))
    );
}

#[test]
fn bbox_of_a_missing_level_is_none() {
    let schema = TileSchemaBuilder::web_mercator(vec![0, 2]).build().unwrap();
    assert_eq!(schema.tile_bbox(WrappingTileIndex::new(0, 0, 1)), None);
    assert_eq!(schema.tile_bbox(WrappingTileIndex::new(0, 0, 3)), None);
    assert_eq!(schema.tile_bbox(WrappingTileIndex::new(0, 0, 4000000000)), None);
    assert!(schema.tile_bbox(WrappingTileIndex::new(0, 0, 2)).is_some());
}

#[test]
fn bbox_outside_the_coordinate_range_is_none() {
    let schema = TileSchemaBuilder::web_mercator(vec![0]).build().unwrap();
    assert_eq!(
        schema.tile_bbox(WrappingTileIndex::new(i32::MAX, 0, 0)),
        None
    );
    assert_eq!(
        schema.tile_bbox(WrappingTileIndex::new(i32::MIN, 0, 0)),
        None
    );
    assert_eq!(
        schema.tile_bbox(WrappingTileIndex::new(0, i32::MAX, 0)),
        None
    );
    assert_eq!(
        schema.tile_bbox(WrappingTileIndex::new(0, i32::MIN, 0)),
        None
    );
}

#[test]
fn bbox_at_a_deep_level() {
    let levels: Vec<u32> = (0..=140).collect();
    let schema = TileSchemaBuilder::web_mercator(levels).build().unwrap();
    // Below one world unit per tile every edge rounds down to the origin,
    // or to one unit before it on the negative side.
    assert_eq!(
        schema.tile_bbox(WrappingTileIndex::new(5, 7, 130)),
        Some(Rect::new(-MAX, MAX, -MAX, MAX))
    );
    assert_eq!(
        schema.tile_bbox(WrappingTileIndex::new(-1, -1, 130)),
        Some(Rect::new(-MAX - 1, MAX, -MAX, MAX + 1))
    );
    // At level 45 a tile is 1.13 world units wide.
    assert_eq!(
        schema.tile_bbox(WrappingTileIndex::new(0, 0, 45)),
        Some(Rect::new(-MAX, MAX - 1, -MAX + 1, MAX))
    );
    assert_eq!(
        schema.tile_bbox(WrappingTileIndex::new(1, 1, 45)),
        Some(Rect::new(-MAX + 1, MAX - 2, -MAX + 2, MAX - 1))
    );
    assert_eq!(
        schema.tile_bbox(WrappingTileIndex::new(-1, 0, 45)),
        Some(Rect::new(-MAX - 2, MAX - 1, -MAX, MAX))
    );
}

#[test]
fn parent_and_child_boxes_intersect() {
    let schema = TileSchemaBuilder::web_mercator(vec![0, 1, 2])
        .build()
        .unwrap();
    let parent = schema.tile_bbox(WrappingTileIndex::new(0, 0, 1)).unwrap();
    let child = schema.tile_bbox(WrappingTileIndex::new(1, 1, 2)).unwrap();
    let far = schema.tile_bbox(WrappingTileIndex::new(3, 3, 2)).unwrap();
    assert!(parent.intersects(child));
    assert!(child.intersects(parent));
    assert!(!parent.intersects(far));
}
