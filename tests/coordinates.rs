use entitiles::coordinates::{hex_collider_outline, HexCorner, HexVertex};
use entitiles::math::TileIndex;

fn v(x: i32, y: i32, corner: HexCorner) -> HexVertex {
    HexVertex { tile: TileIndex::new(x, y), corner }
}

#[test]
fn single_hex_has_seven_vertices() {
    let r = hex_collider_outline(1, 1);
    assert_eq!(r.len(), 7);
    assert_eq!(r[0], r[6]);
    for i in 0..6 {
        for j in 0..i {
            assert_ne!(r[i], r[j]);
        }
    }
    assert_eq!(
        r,
        vec![
            v(0, 0, HexCorner::Bottom),
            v(0, 0, HexCorner::LowerRight),
            v(0, 0, HexCorner::UpperRight),
            v(0, 0, HexCorner::Top),
            v(0, 0, HexCorner::UpperLeft),
            v(0, 0, HexCorner::LowerLeft),
            v(0, 0, HexCorner::Bottom),
        ]
    );
}

#[test]
fn block_outline_walks_the_four_edges() {
    let r = hex_collider_outline(2, 3);
    assert_eq!(r.len(), 4 * (2 + 3) - 1);
    assert_eq!(
        r,
        vec![
            v(0, 0, HexCorner::Bottom),
            v(0, 0, HexCorner::LowerRight),
            v(1, 0, HexCorner::Bottom),
            v(1, 0, HexCorner::LowerRight),
            v(1, 0, HexCorner::UpperRight),
            v(1, 1, HexCorner::LowerRight),
            v(1, 1, HexCorner::UpperRight),
            v(1, 2, HexCorner::LowerRight),
            v(1, 2, HexCorner::UpperRight),
            v(1, 2, HexCorner::Top),
            v(1, 2, HexCorner::UpperLeft),
            v(0, 2, HexCorner::Top),
            v(0, 2, HexCorner::UpperLeft),
            v(0, 2, HexCorner::LowerLeft),
            v(0, 1, HexCorner::UpperLeft),
            v(0, 1, HexCorner::LowerLeft),
            v(0, 0, HexCorner::UpperLeft),
            v(0, 0, HexCorner::LowerLeft),
            v(0, 0, HexCorner::Bottom),
        ]
    );
}
