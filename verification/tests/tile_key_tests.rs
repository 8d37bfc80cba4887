use ingress_intel_rs::tile_key::{tiles_per_edge, tile_keys_around, TileKey, TileKeyField, TileKeyFromStrError};

fn key(x: i64, y: i64) -> TileKey {
    TileKey::from_coords(x, y, None, None, None, None)
}

#[test]
fn encode_default_fields() {
    let tk = key(17105, 11440);
    assert_eq!(tk.zoom, 15);
    assert_eq!(tk.min_level, 0);
    assert_eq!(tk.max_level, 8);
    assert_eq!(tk.health, 100);
    assert_eq!(tk.encode(), "15_17105_11440_0_8_100");
}

#[test]
fn encode_explicit_fields() {
    let tk = TileKey::from_coords(-3, 0, Some(7), Some(1), Some(6), Some(95));
    assert_eq!(tk.encode(), "7_-3_0_1_6_95");
}

#[test]
fn decode_round_trip() {
    let samples = [
        key(17105, 11440),
        TileKey::from_coords(-1, -1, Some(3), Some(0), Some(8), Some(0)),
        TileKey::from_coords(i64::MAX, i64::MIN, Some(255), Some(255), Some(255), Some(255)),
        TileKey::from_coords(0, 0, Some(0), Some(0), Some(0), Some(0)),
    ];
    for tk in samples {
        assert_eq!(TileKey::decode(&tk.encode()), Ok(tk));
    }
}

#[test]
fn decode_exact_value() {
    assert_eq!(
        TileKey::decode("15_17105_11440_0_8_100"),
        Ok(TileKey { zoom: 15, x: 17105, y: 11440, min_level: 0, max_level: 8, health: 100 })
    );
}

#[test]
fn decode_ignores_extra_fields() {
    assert_eq!(
        TileKey::decode("15_1_2_3_4_5_whatever_else"),
        Ok(TileKey { zoom: 15, x: 1, y: 2, min_level: 3, max_level: 4, health: 5 })
    );
}

#[test]
fn decode_missing_fields() {
    assert_eq!(TileKey::decode("15"), Err(TileKeyFromStrError::Missing(TileKeyField::X)));
    assert_eq!(TileKey::decode("15_1"), Err(TileKeyFromStrError::Missing(TileKeyField::Y)));
    assert_eq!(TileKey::decode("15_1_2"), Err(TileKeyFromStrError::Missing(TileKeyField::MinLevel)));
    assert_eq!(TileKey::decode("15_1_2_3"), Err(TileKeyFromStrError::Missing(TileKeyField::MaxLevel)));
    assert_eq!(TileKey::decode("15_1_2_3_4"), Err(TileKeyFromStrError::Missing(TileKeyField::Health)));
}

#[test]
fn decode_invalid_fields() {
    assert_eq!(TileKey::decode(""), Err(TileKeyFromStrError::Invalid(TileKeyField::Zoom)));
    assert_eq!(TileKey::decode("abc_1_2_3_4_5"), Err(TileKeyFromStrError::Invalid(TileKeyField::Zoom)));
    assert_eq!(TileKey::decode("256_1_2_3_4_5"), Err(TileKeyFromStrError::Invalid(TileKeyField::Zoom)));
    assert_eq!(TileKey::decode("15_x_2_3_4_5"), Err(TileKeyFromStrError::Invalid(TileKeyField::X)));
    assert_eq!(TileKey::decode("15_1_-_3_4_5"), Err(TileKeyFromStrError::Invalid(TileKeyField::Y)));
    assert_eq!(TileKey::decode("15_1_2__4_5"), Err(TileKeyFromStrError::Invalid(TileKeyField::MinLevel)));
    assert_eq!(TileKey::decode("15_1_2_3_-4_5"), Err(TileKeyFromStrError::Invalid(TileKeyField::MaxLevel)));
    assert_eq!(TileKey::decode("15_1_2_3_4_1000"), Err(TileKeyFromStrError::Invalid(TileKeyField::Health)));
}

#[test]
fn decode_signed_bounds() {
    let k_max = TileKey::decode("15_9223372036854775807_0_0_8_100").unwrap();
    assert_eq!(k_max.x, i64::MAX);
    let k_min = TileKey::decode("15_-9223372036854775808_0_0_8_100").unwrap();
    assert_eq!(k_min.x, i64::MIN);
    assert_eq!(
        TileKey::decode("15_9223372036854775808_0_0_8_100"),
        Err(TileKeyFromStrError::Invalid(TileKeyField::X))
    );
    assert_eq!(
        TileKey::decode("15_-9223372036854775809_0_0_8_100"),
        Err(TileKeyFromStrError::Invalid(TileKeyField::X))
    );
}

#[test]
fn range_covers_rectangle() {
    let tks = TileKey::range((10, 20), (12, 21), None, None, None, None);
    assert_eq!(tks.len(), 6);
    for x in 10..=12 {
        for y in 20..=21 {
            assert!(tks.contains(&key(x, y)), "missing tile {x},{y}");
        }
    }
    for tk in &tks {
        assert!((10..=12).contains(&tk.x) && (20..=21).contains(&tk.y));
    }
}

#[test]
fn range_corner_order_immaterial() {
    let a = TileKey::range((12, 20), (10, 21), None, None, None, None);
    let b = TileKey::range((10, 21), (12, 20), None, None, None, None);
    assert_eq!(a.len(), 6);
    for tk in &a {
        assert!(b.contains(tk));
    }
}

#[test]
fn range_degenerate_point() {
    let tks = TileKey::range((7, -9), (7, -9), Some(8), None, None, None);
    assert_eq!(tks.len(), 1);
    assert_eq!(tks[0], TileKey::from_coords(7, -9, Some(8), None, None, None));
}

#[test]
fn square_block() {
    let base = key(100, 200);
    let tks = base.square(2);
    assert_eq!(tks.len(), 4);
    for x in 100..=101 {
        for y in 200..=201 {
            assert!(tks.contains(&key(x, y)));
        }
    }
    assert!(base.square(0).is_empty());
    assert_eq!(base.square(1), vec![base]);
}

#[test]
fn tiles_per_edge_clamps_zoom() {
    assert_eq!(tiles_per_edge(0), 40);
    assert_eq!(tiles_per_edge(3), 40);
    assert_eq!(tiles_per_edge(7), 320);
    assert_eq!(tiles_per_edge(8), 1000);
    assert_eq!(tiles_per_edge(12), 8000);
    assert_eq!(tiles_per_edge(15), 32000);
    assert_eq!(tiles_per_edge(200), 32000);
}

#[test]
fn neighborhood_keys() {
    let around = tile_keys_around(5, 6, None, None, None, None);
    assert_eq!(around.len(), 9);
    assert_eq!(around[0], key(5, 6).encode());
    assert_eq!(around[1], key(4, 5).encode());
    assert_eq!(around[8], key(6, 5).encode());
    for s in &around {
        let tk = TileKey::decode(s).unwrap();
        assert!((4..=6).contains(&tk.x) && (5..=7).contains(&tk.y));
    }
}

#[test]
fn offset_moves_position_only() {
    let tk = TileKey::from_coords(5, 6, Some(9), Some(1), Some(7), Some(50));
    let moved = tk.offset(-2, 3);
    assert_eq!(moved, TileKey::from_coords(3, 9, Some(9), Some(1), Some(7), Some(50)));
}
