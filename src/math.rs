use vstd::prelude::*;

verus! {

/// A tile's place in a tilemap: a signed 2D integer coordinate.
#[derive(Debug, Clone, Copy, PartialEq, Eq, Structural, Hash)]
pub struct TileIndex {
    pub x: i32,
    pub y: i32,
}

impl TileIndex {
    pub open spec fn pos(self) -> (int, int) {
        (self.x as int, self.y as int)
    }

    pub fn new(x: i32, y: i32) -> (r: TileIndex)
        ensures
            r.x == x,
            r.y == y,
    {
        TileIndex { x, y }
    }
}

/// A rectangle of tiles: `width` columns and `height` rows from `origin`.
#[derive(Debug, Clone, Copy, PartialEq, Eq, Structural)]
pub struct TileArea {
    pub origin: TileIndex,
    pub width: u32,
    pub height: u32,
}

impl TileArea {
    pub fn new(origin: TileIndex, width: u32, height: u32) -> (r: TileArea)
        ensures
            r.origin == origin,
            r.width == width,
            r.height == height,
    {
        TileArea { origin, width, height }
    }

    /// Whether the position `p` lies in the rectangle.
    pub open spec fn contains(self, p: (int, int)) -> bool {
        &&& self.origin.x <= p.0 < self.origin.x + self.width
        &&& self.origin.y <= p.1 < self.origin.y + self.height
    }

    /// The positions of the rectangle.
    pub open spec fn spec_set(self) -> Set<(int, int)> {
        Set::new(|p: (int, int)| self.contains(p))
    }

    /// Every tile of the rectangle has an index that fits in 32 bits.
    pub open spec fn fits(self) -> bool {
        &&& self.origin.x + self.width <= i32::MAX + 1
        &&& self.origin.y + self.height <= i32::MAX + 1
    }
}

/// The positions `(x0 + i, y0 + j)` for `i < w`, `j < h`.
pub open spec fn rect_set(x0: int, y0: int, w: nat, h: nat) -> Set<(int, int)> {
    Set::new(|p: (int, int)| x0 <= p.0 < x0 + w && y0 <= p.1 < y0 + h)
}

proof fn lemma_rect_len(x0: int, y0: int, w: nat, h: nat)
    ensures
        rect_set(x0, y0, w, h).finite(),
        rect_set(x0, y0, w, h).len() == w * h,
    decreases w + h,
{
    if h == 0 {
        assert(rect_set(x0, y0, w, h) =~= Set::empty());
        assert(w * h == 0) by (nonlinear_arith)
            requires
                h == 0,
        ;
    } else if w == 0 {
        assert(rect_set(x0, y0, w, h) =~= Set::empty());
        assert(w * h == 0) by (nonlinear_arith)
            requires
                w == 0,
        ;
    } else if h == 1 {
        lemma_rect_len(x0, y0, (w - 1) as nat, 1);
        let prev = rect_set(x0, y0, (w - 1) as nat, 1);
        assert(rect_set(x0, y0, w, h) =~= prev.insert((x0 + w - 1, y0)));
        assert(!prev.contains((x0 + w - 1, y0)));
    } else {
        lemma_rect_len(x0, y0, w, (h - 1) as nat);
        lemma_rect_len(x0, y0 + h - 1, w, 1);
        let a = rect_set(x0, y0, w, (h - 1) as nat);
        let b = rect_set(x0, y0 + h - 1, w, 1);
        assert(rect_set(x0, y0, w, h) =~= a + b);
        assert(a.disjoint(b));
        vstd::set_lib::lemma_set_disjoint_lens(a, b);
        assert(w * (h - 1) + w * 1 == w * h) by (nonlinear_arith);
    }
}

/// A rectangle of `width × height` tiles holds exactly `width * height` positions.
pub proof fn lemma_area_len(area: TileArea)
    ensures
        area.spec_set().finite(),
        area.spec_set().len() == area.width * area.height,
{
    lemma_rect_len(area.origin.x as int, area.origin.y as int, area.width as nat, area.height as nat);
    assert(area.spec_set() =~= rect_set(
        area.origin.x as int,
        area.origin.y as int,
        area.width as nat,
        area.height as nat,
    ));
}

} // verus!
