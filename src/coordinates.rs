use vstd::prelude::*;

use crate::math::TileIndex;

verus! {

/// How tile indices are laid out in the world.
#[derive(Debug, Clone, Copy, PartialEq, Eq, Structural)]
pub enum TilemapType {
    Square,
    Isometric,
    /// Hexagons whose vertical sides have the given length.
    Hexagonal(u32),
}

/// A corner of a hexagonal tile, going round from the bottom one.
#[derive(Debug, Clone, Copy, PartialEq, Eq, Structural)]
pub enum HexCorner {
    Bottom,
    LowerRight,
    UpperRight,
    Top,
    UpperLeft,
    LowerLeft,
}

/// A vertex of a hexagonal collider: a corner of one tile.
#[derive(Debug, Clone, Copy, PartialEq, Eq, Structural)]
pub struct HexVertex {
    pub tile: TileIndex,
    pub corner: HexCorner,
}

pub open spec fn hv(x: int, y: int, corner: HexCorner) -> HexVertex {
    HexVertex { tile: TileIndex { x: x as i32, y: y as i32 }, corner }
}

/// Along the bottom row, left to right: the bottom and lower right corner of each tile.
pub open spec fn bottom_edge(w: int) -> Seq<HexVertex> {
    Seq::new((2 * w) as nat, |i: int| hv(i / 2, 0, if i % 2 == 0 { HexCorner::Bottom } else { HexCorner::LowerRight }))
}

/// Up the right column: the lower and upper right corner of each tile.
pub open spec fn right_edge(w: int, h: int) -> Seq<HexVertex> {
    Seq::new((2 * h) as nat, |i: int| hv(w - 1, i / 2, if i % 2 == 0 { HexCorner::LowerRight } else { HexCorner::UpperRight }))
}

/// Along the top row, right to left: the top and upper left corner of each tile.
pub open spec fn top_edge(w: int, h: int) -> Seq<HexVertex> {
    Seq::new((2 * w) as nat, |i: int| hv(w - 1 - i / 2, h - 1, if i % 2 == 0 { HexCorner::Top } else { HexCorner::UpperLeft }))
}

/// Down the left column: the upper and lower left corner of each tile.
pub open spec fn left_edge(h: int) -> Seq<HexVertex> {
    Seq::new((2 * h) as nat, |i: int| hv(0, h - 1 - i / 2, if i % 2 == 0 { HexCorner::UpperLeft } else { HexCorner::LowerLeft }))
}

/// The closed outline of a `w × h` block of hexagonal tiles, counter-clockwise from the bottom
/// corner of tile `(0, 0)`: the four edges, where a corner shared by two edges appears once,
/// then the first vertex again.
pub open spec fn hex_outline(w: int, h: int) -> Seq<HexVertex> {
    bottom_edge(w) + right_edge(w, h).drop_first() + top_edge(w, h) + left_edge(h).drop_first() + seq![hv(0, 0, HexCorner::Bottom)]
}

/// The vertices of the collider of a `width × height` block of hexagonal tiles, as tile
/// corners; see `hex_outline`.
pub fn hex_collider_outline(width: u32, height: u32) -> (r: Vec<HexVertex>)
    requires
        1 <= width <= i32::MAX,
        1 <= height <= i32::MAX,
    ensures
        r@ == hex_outline(width as int, height as int),
        r@.len() == 4 * (width + height) - 1,
        r@[0] == r@[r@.len() - 1],
{
    let w = width as i32;
    let h = height as i32;
    let mut r: Vec<HexVertex> = Vec::new();
    let mut x: i32 = 0;
    while x < w
        invariant
            0 <= x <= w,
            w == width,
            r@ =~= bottom_edge(x as int),
        decreases w - x,
    {
        r.push(HexVertex { tile: TileIndex { x, y: 0 }, corner: HexCorner::Bottom });
        r.push(HexVertex { tile: TileIndex { x, y: 0 }, corner: HexCorner::LowerRight });
        assert(r@ =~= bottom_edge(x + 1));
        x += 1;
    }
    let ghost a = r@;
    let mut y: i32 = 0;
    while y < h
        invariant
            0 <= y <= h,
            w == width,
            h == height,
            a == bottom_edge(w as int),
            r@ =~= a + Seq::new((if y == 0 { 0 } else { 2 * y - 1 }) as nat, |i: int| right_edge(w as int, h as int)[i + 1]),
        decreases h - y,
    {
        if y > 0 {
            r.push(HexVertex { tile: TileIndex { x: w - 1, y }, corner: HexCorner::LowerRight });
        }
        r.push(HexVertex { tile: TileIndex { x: w - 1, y }, corner: HexCorner::UpperRight });
        assert(r@ =~= a + Seq::new((2 * (y + 1) - 1) as nat, |i: int| right_edge(w as int, h as int)[i + 1]));
        y += 1;
    }
    assert(Seq::new((2 * h - 1) as nat, |i: int| right_edge(w as int, h as int)[i + 1]) =~= right_edge(w as int, h as int).drop_first());
    let ghost b = r@;
    let mut x: i32 = w;
    while x > 0
        invariant
            0 <= x <= w,
            w == width,
            h == height,
            r@ =~= b + Seq::new((2 * (w - x)) as nat, |i: int| top_edge(w as int, h as int)[i]),
        decreases x,
    {
        x -= 1;
        r.push(HexVertex { tile: TileIndex { x, y: h - 1 }, corner: HexCorner::Top });
        r.push(HexVertex { tile: TileIndex { x, y: h - 1 }, corner: HexCorner::UpperLeft });
        assert(r@ =~= b + Seq::new((2 * (w - x)) as nat, |i: int| top_edge(w as int, h as int)[i]));
    }
    assert(Seq::new((2 * w) as nat, |i: int| top_edge(w as int, h as int)[i]) =~= top_edge(w as int, h as int));
    let ghost c = r@;
    let mut y: i32 = h;
    while y > 0
        invariant
            0 <= y <= h,
            h == height,
            r@ =~= c + Seq::new((if y == h { 0 } else { 2 * (h - y) - 1 }) as nat, |i: int| left_edge(h as int)[i + 1]),
        decreases y,
    {
        y -= 1;
        if y < h - 1 {
            r.push(HexVertex { tile: TileIndex { x: 0, y }, corner: HexCorner::UpperLeft });
        }
        r.push(HexVertex { tile: TileIndex { x: 0, y }, corner: HexCorner::LowerLeft });
        assert(r@ =~= c + Seq::new((2 * (h - y) - 1) as nat, |i: int| left_edge(h as int)[i + 1]));
    }
    assert(Seq::new((2 * h - 1) as nat, |i: int| left_edge(h as int)[i + 1]) =~= left_edge(h as int).drop_first());
    r.push(HexVertex { tile: TileIndex { x: 0, y: 0 }, corner: HexCorner::Bottom });
    assert(r@ =~= hex_outline(width as int, height as int));
    r
}

} // verus!
