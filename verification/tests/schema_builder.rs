use tile_display::tile_schema::builder::{
    WEB_MERCATOR_MAX_COORD, WEB_MERCATOR_MIN_COORD, WEB_MERCATOR_TILE_SIZE,
};
use tile_display::{
    Point, Rect, Resolution, TileSchema, TileSchemaBuilder, TileSchemaError, VerticalDirection,
};

/// World units are micrometres.
const UNITS_PER_METRE: f64 = 1e6;

fn metres(units: i64) -> f64 {
    units as f64 / UNITS_PER_METRE
}

/// Metres per pixel of an exact resolution.
fn metres_per_pixel(resolution: Resolution) -> f64 {
    let top_resolution = resolution.span as f64 / UNITS_PER_METRE / resolution.pixels as f64;
    top_resolution / f64::powi(2.0, resolution.halvings as i32)
}

fn lod(schema: &TileSchema, z: u32) -> f64 {
    metres_per_pixel(schema.lod_resolution(z).expect("zoom level is part of the schema"))
}

fn assert_close(actual: f64, expected: f64) {
    assert!(
        (actual - expected).abs() <= f64::EPSILON,
        "{} is not {}",
        actual,
        expected
    );
}

#[test]
fn schema_builder_normal_web_mercator() {
    let schema = TileSchemaBuilder::web_mercator((0..=20).collect())
        .build()
        .unwrap();
    assert_eq!(schema.lod_count(), 21);

    assert_close(lod(&schema, 0), 156543.03392802345);

    for z in 1..=20 {
        let expected = 156543.03392802345 / 2f64.powi(z);
        assert_close(lod(&schema, z as u32), expected);
    }

    assert_eq!(schema.tile_width(), 256);
    assert_eq!(schema.tile_height(), 256);
    assert_eq!(
        schema.origin(),
        Point::new(-20037508342787, 20037508342787)
    );
    assert_eq!(metres(schema.origin().x()), -20037508.342787);
    assert_eq!(metres(schema.origin().y()), 20037508.342787);
    assert_eq!(
        schema.bounds(),
        Rect::new(
            -20037508342787,
            -20037508342787,
            20037508342787,
            20037508342787
        )
    );
    assert_eq!(metres(schema.bounds().x_min()), -20037508.342787);
    assert_eq!(metres(schema.bounds().y_min()), -20037508.342787);
    assert_eq!(metres(schema.bounds().x_max()), 20037508.342787);
    assert_eq!(metres(schema.bounds().y_max()), 20037508.342787);
    assert_eq!(schema.y_direction(), VerticalDirection::TopToBottom);
}

#[test]
fn schema_builder_no_z_levels() {
    let result = TileSchemaBuilder::web_mercator(Vec::new()).build();
    assert!(
        matches!(result, Err(TileSchemaError::NoZLevelsProvided)),
        "Got {:?}",
        result
    );
}

#[test]
fn skipping_first_z_levels() {
    let schema = TileSchemaBuilder::web_mercator((5..=10).collect())
        .build()
        .unwrap();
    assert_eq!(schema.lod_count(), 11);

    assert_close(lod(&schema, 5), 156543.03392802345 / 2f64.powi(5));
    assert_close(lod(&schema, 10), 156543.03392802345 / 2f64.powi(10));
}

#[test]
fn zero_tile_size() {
    let result = TileSchemaBuilder::web_mercator((0..=20).collect())
        .with_rect_tile_size(0)
        .build();
    assert!(
        matches!(
            result,
            Err(TileSchemaError::InvalidTileSize {
                width: 0,
                height: 0
            })
        ),
        "Got {:?}",
        result
    );
}

#[test]
fn skipped_levels_are_absent() {
    let schema = TileSchemaBuilder::web_mercator(vec![5, 10, 7])
        .build()
        .unwrap();
    assert_eq!(schema.lod_count(), 11);
    for z in 0..=12 {
        let present = z == 5 || z == 7 || z == 10;
        assert_eq!(schema.has_lod(z), present, "level {}", z);
        assert_eq!(schema.lod_resolution(z).is_some(), present, "level {}", z);
    }
    assert_eq!(
        schema.lod_resolution(7),
        Some(Resolution {
            span: 40075016685574,
            pixels: 256,
            halvings: 7
        })
    );
}

#[test]
fn repeated_levels_count_once() {
    let schema = TileSchemaBuilder::web_mercator(vec![2, 2, 0, 2])
        .build()
        .unwrap();
    assert_eq!(schema.lod_count(), 3);
    assert!(schema.has_lod(0));
    assert!(!schema.has_lod(1));
    assert!(schema.has_lod(2));
}

#[test]
fn missing_levels_are_reported_before_the_tile_size() {
    let result = TileSchemaBuilder::web_mercator(Vec::new())
        .with_rect_tile_size(0)
        .build();
    assert!(matches!(result, Err(TileSchemaError::NoZLevelsProvided)));
}

#[test]
fn tile_size_is_taken_over() {
    let schema = TileSchemaBuilder::web_mercator(vec![0])
        .with_rect_tile_size(512)
        .build()
        .unwrap();
    assert_eq!(schema.tile_width(), 512);
    assert_eq!(schema.tile_height(), 512);
    assert_eq!(
        schema.lod_resolution(0),
        Some(Resolution {
            span: 40075016685574,
            pixels: 512,
            halvings: 0
        })
    );
}

#[test]
fn web_mercator_constants() {
    assert_eq!(WEB_MERCATOR_MAX_COORD, 20037508342787);
    assert_eq!(WEB_MERCATOR_MIN_COORD, -20037508342787);
    assert_eq!(WEB_MERCATOR_TILE_SIZE, 256);
}

#[test]
fn error_values_compare() {
    assert_eq!(
        TileSchemaError::InvalidTileSize {
            width: 0,
            height: 3
        },
        TileSchemaError::InvalidTileSize {
            width: 0,
            height: 3
        }
    );
    assert_ne!(
        TileSchemaError::NoZLevelsProvided,
        TileSchemaError::InvalidTileSize {
            width: 0,
            height: 0
        }
    );
}
