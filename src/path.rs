use vstd::prelude::*;

use crate::math::{TileArea, TileIndex};
use crate::storage::{map_of, tile_at, ChunkedStorage};

verus! {

/// The side of a chunk in a path tilemap.
pub const PATH_CHUNK_SIZE: u32 = 16;

/// The cost of stepping onto a tile.
#[derive(Debug, Clone, Copy, PartialEq, Eq, Structural)]
pub struct PathTile {
    pub cost: u32,
}

/// The grid a path finder searches: a cost for each passable tile; a tile without an entry
/// is impassable.
#[derive(Clone)]
pub struct PathTilemap {
    pub tiles: ChunkedStorage<PathTile>,
}

impl PathTilemap {
    /// The passable tiles and their costs.
    pub open spec fn view(&self) -> Map<(int, int), PathTile> {
        self.tiles@
    }

    pub open spec fn wf(&self) -> bool {
        self.tiles.wf()
    }

    /// An empty grid: every tile impassable.
    pub fn new() -> (r: PathTilemap)
        ensures
            r.wf(),
            r@ == Map::<(int, int), PathTile>::empty(),
    {
        PathTilemap { tiles: ChunkedStorage::new(PATH_CHUNK_SIZE) }
    }

    /// The number of passable tiles.
    pub fn len(&self) -> (r: usize)
        requires
            self.wf(),
        ensures
            r == self@.len(),
    {
        self.tiles.len()
    }

    /// The tile at `index`; `None` means impassable.
    pub fn get(&self, index: TileIndex) -> (r: Option<PathTile>)
        requires
            self.wf(),
        ensures
            r == tile_at(self@, index.pos()),
    {
        self.tiles.get(index)
    }

    /// Makes `index` passable at the cost of `tile`.
    pub fn set(&mut self, index: TileIndex, tile: PathTile)
        requires
            old(self).wf(),
            !old(self)@.contains_key(index.pos()) ==> old(self)@.len() < usize::MAX,
        ensures
            final(self).wf(),
            final(self)@ == old(self)@.insert(index.pos(), tile),
    {
        self.tiles.set(index, tile)
    }

    /// Makes `index` impassable.
    pub fn remove(&mut self, index: TileIndex)
        requires
            old(self).wf(),
        ensures
            final(self).wf(),
            final(self)@ == old(self)@.remove(index.pos()),
    {
        self.tiles.remove(index)
    }

    /// Gives every tile of `area` the cost of `tile`.
    pub fn fill_path_rect(&mut self, area: TileArea, tile: PathTile)
        requires
            old(self).wf(),
            area.fits(),
            old(self)@.len() + area.width * area.height <= usize::MAX,
        ensures
            final(self).wf(),
            forall|p: (int, int)|
                #[trigger] tile_at(final(self)@, p) == if area.contains(p) {
                    Some(tile)
                } else {
                    tile_at(old(self)@, p)
                },
            old(self)@.dom().disjoint(area.spec_set()) ==> final(self)@.len() == old(self)@.len()
                + area.width * area.height,
    {
        self.tiles.fill_rect(area, tile)
    }

    /// Fills `area` from `generator`; where it returns `None` the tile is left as it was.
    pub fn fill_path_rect_custom<F: Fn(TileIndex) -> Option<PathTile>>(&mut self, area: TileArea, generator: F)
        requires
            old(self).wf(),
            area.fits(),
            old(self)@.len() + area.width * area.height <= usize::MAX,
            forall|idx: TileIndex| area.contains(idx.pos()) ==> #[trigger] generator.requires((idx,)),
        ensures
            final(self).wf(),
            forall|p: (int, int)|
                !area.contains(p) ==> #[trigger] tile_at(final(self)@, p) == tile_at(old(self)@, p),
            forall|idx: TileIndex|
                area.contains(idx.pos()) ==> #[trigger] crate::storage::filled_from(
                    generator,
                    final(self)@,
                    old(self)@,
                    idx,
                ),
            old(self)@.dom().subset_of(final(self)@.dom()),
            final(self)@.len() == old(self)@.len() + final(self)@.dom().difference(old(self)@.dom()).len(),
    {
        self.tiles.fill_rect_custom(area, generator)
    }

    /// Every passable tile, once each, with its index.
    pub fn entries(&self) -> (r: Vec<(TileIndex, PathTile)>)
        requires
            self.wf(),
        ensures
            forall|a: int, b: int| 0 <= a < b < r@.len() ==> (#[trigger] r@[a]).0 != (#[trigger] r@[b]).0,
            forall|a: int| 0 <= a < r@.len() ==> tile_at(self@, (#[trigger] r@[a]).0.pos()) == Some(r@[a].1),
            forall|p: (int, int)|
                #[trigger] self@.contains_key(p) ==> exists|a: int| 0 <= a < r@.len() && (#[trigger] r@[a]).0.pos() == p,
    {
        self.tiles.entries()
    }

    /// A grid holding `entries`, written in order.
    pub fn from_entries(entries: &Vec<(TileIndex, PathTile)>) -> (r: PathTilemap)
        ensures
            r.wf(),
            r@ == map_of(entries@),
    {
        PathTilemap { tiles: ChunkedStorage::from_entries(PATH_CHUNK_SIZE, entries) }
    }
}

} // verus!
