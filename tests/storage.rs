use entitiles::math::{TileArea, TileIndex};
use entitiles::storage::ChunkedStorage;

#[test]
fn set_get_remove() {
    let mut s: ChunkedStorage<u32> = ChunkedStorage::new(16);
    assert_eq!(s.get(TileIndex::new(3, 4)), None);
    s.set(TileIndex::new(3, 4), 9);
    s.set(TileIndex::new(-3, -40), 11);
    assert_eq!(s.get(TileIndex::new(3, 4)), Some(9));
    assert_eq!(s.get(TileIndex::new(-3, -40)), Some(11));
    assert_eq!(s.get(TileIndex::new(4, 3)), None);
    assert_eq!(s.len(), 2);
    s.set(TileIndex::new(3, 4), 10);
    assert_eq!(s.get(TileIndex::new(3, 4)), Some(10));
    assert_eq!(s.len(), 2);
    s.remove(TileIndex::new(3, 4));
    assert_eq!(s.get(TileIndex::new(3, 4)), None);
    assert_eq!(s.len(), 1);
    s.remove(TileIndex::new(100, 100));
    assert_eq!(s.len(), 1);
}

#[test]
fn transform_index_uses_floor_division() {
    let s: ChunkedStorage<u8> = ChunkedStorage::new(16);
    assert_eq!(s.transform_index(TileIndex::new(0, 0)), (TileIndex::new(0, 0), 0));
    assert_eq!(s.transform_index(TileIndex::new(17, 2)), (TileIndex::new(1, 0), 2 * 16 + 1));
    assert_eq!(s.transform_index(TileIndex::new(-1, -1)), (TileIndex::new(-1, -1), 15 * 16 + 15));
    assert_eq!(s.transform_index(TileIndex::new(-16, -17)), (TileIndex::new(-1, -2), 15 * 16));
    let s: ChunkedStorage<u8> = ChunkedStorage::new(3);
    assert_eq!(s.transform_index(TileIndex::new(i32::MIN, i32::MAX)), (TileIndex::new(-715827883, 715827882), 3 + 1));
}

#[test]
fn extreme_indices() {
    let mut s: ChunkedStorage<i8> = ChunkedStorage::new(7);
    s.set(TileIndex::new(i32::MAX, i32::MIN), 1);
    s.set(TileIndex::new(i32::MIN, i32::MAX), 2);
    assert_eq!(s.get(TileIndex::new(i32::MAX, i32::MIN)), Some(1));
    assert_eq!(s.get(TileIndex::new(i32::MIN, i32::MAX)), Some(2));
    assert_eq!(s.get(TileIndex::new(i32::MAX - 1, i32::MIN)), None);
}

#[test]
fn fill_rect_reports_width_times_height() {
    let mut s: ChunkedStorage<u8> = ChunkedStorage::new(16);
    s.fill_rect(TileArea::new(TileIndex::new(-5, -7), 37, 21), 4);
    assert_eq!(s.len(), 37 * 21);
    assert_eq!(s.get(TileIndex::new(-5, -7)), Some(4));
    assert_eq!(s.get(TileIndex::new(31, 13)), Some(4));
    assert_eq!(s.get(TileIndex::new(32, 13)), None);
    assert_eq!(s.get(TileIndex::new(31, 14)), None);
    assert_eq!(s.get(TileIndex::new(-6, 0)), None);
}

#[test]
fn fill_rect_large() {
    let mut s: ChunkedStorage<u8> = ChunkedStorage::new(64);
    s.fill_rect(TileArea::new(TileIndex::new(0, 0), 300, 300), 1);
    assert_eq!(s.len(), 90_000);
}

#[test]
fn fill_rect_empty_area() {
    let mut s: ChunkedStorage<u8> = ChunkedStorage::new(16);
    s.fill_rect(TileArea::new(TileIndex::new(0, 0), 0, 10), 1);
    assert_eq!(s.len(), 0);
}

#[test]
fn fill_rect_custom_skips_none() {
    let mut s: ChunkedStorage<i32> = ChunkedStorage::new(4);
    s.fill_rect_custom(TileArea::new(TileIndex::new(0, 0), 10, 10), |i: TileIndex| {
        if (i.x + i.y) % 2 == 0 {
            Some(i.x * 100 + i.y)
        } else {
            None
        }
    });
    assert_eq!(s.len(), 50);
    assert_eq!(s.get(TileIndex::new(3, 5)), Some(305));
    assert_eq!(s.get(TileIndex::new(3, 4)), None);
}

#[test]
fn fill_rect_custom_keeps_old_where_skipped() {
    let mut s: ChunkedStorage<i32> = ChunkedStorage::new(4);
    s.set(TileIndex::new(1, 0), -1);
    s.set(TileIndex::new(2, 0), -2);
    s.fill_rect_custom(TileArea::new(TileIndex::new(0, 0), 3, 1), |i: TileIndex| if i.x == 2 { Some(7) } else { None });
    assert_eq!(s.get(TileIndex::new(0, 0)), None);
    assert_eq!(s.get(TileIndex::new(1, 0)), Some(-1));
    assert_eq!(s.get(TileIndex::new(2, 0)), Some(7));
    assert_eq!(s.len(), 2);
}

#[test]
fn entries_list_every_tile_once() {
    let mut s: ChunkedStorage<i32> = ChunkedStorage::new(4);
    s.fill_rect(TileArea::new(TileIndex::new(-3, -3), 7, 2), 5);
    s.set(TileIndex::new(100, -100), 6);
    s.remove(TileIndex::new(0, -3));
    let mut e = s.entries();
    assert_eq!(e.len(), 14);
    e.sort_by_key(|(i, _)| (i.x, i.y));
    for w in e.windows(2) {
        assert_ne!(w[0].0, w[1].0);
    }
    for (i, v) in &e {
        assert_eq!(s.get(*i), Some(*v));
    }
    assert!(e.contains(&(TileIndex::new(100, -100), 6)));
    assert!(!e.iter().any(|(i, _)| *i == TileIndex::new(0, -3)));
}

#[test]
fn from_entries_later_entry_wins() {
    let entries = vec![(TileIndex::new(1, 1), 1u8), (TileIndex::new(-20, 3), 2), (TileIndex::new(1, 1), 3)];
    let s = ChunkedStorage::from_entries(8, &entries);
    assert_eq!(s.len(), 2);
    assert_eq!(s.get(TileIndex::new(1, 1)), Some(3));
    assert_eq!(s.get(TileIndex::new(-20, 3)), Some(2));
}

#[test]
fn fill_rect_million_tiles() {
    let mut s: ChunkedStorage<u8> = ChunkedStorage::new(16);
    s.fill_rect_custom(TileArea::new(TileIndex::new(-500, -500), 1000, 1000), |i: TileIndex| {
        if i.x == 0 && i.y == 0 {
            None
        } else {
            Some(1)
        }
    });
    assert_eq!(s.len(), 999_999);
    assert_eq!(s.get(TileIndex::new(0, 0)), None);
    assert_eq!(s.get(TileIndex::new(-500, 499)), Some(1));
    assert_eq!(s.get(TileIndex::new(500, 0)), None);
}

#[test]
fn clone_is_independent() {
    let mut s: ChunkedStorage<u8> = ChunkedStorage::new(16);
    s.set(TileIndex::new(1, 1), 1);
    let c = s.clone();
    s.set(TileIndex::new(1, 1), 2);
    s.set(TileIndex::new(2, 2), 3);
    assert_eq!(c.get(TileIndex::new(1, 1)), Some(1));
    assert_eq!(c.get(TileIndex::new(2, 2)), None);
    assert_eq!(c.len(), 1);
}
