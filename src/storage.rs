use vstd::prelude::*;

use std::collections::HashMap;

use crate::math::{TileArea, TileIndex};

verus! {

broadcast use vstd::std_specs::hash::group_hash_axioms;

/// The key of chunk `c` in the chunk index: both coordinates shifted to be non-negative and
/// packed into one 64-bit number.
pub open spec fn chunk_key(c: TileIndex) -> u64 {
    ((c.x as int + 0x8000_0000) * 0x1_0000_0000 + (c.y as int + 0x8000_0000)) as u64
}

proof fn lemma_chunk_key(a: TileIndex, b: TileIndex)
    ensures
        chunk_key(a) == (a.x as int + 0x8000_0000) * 0x1_0000_0000 + (a.y as int + 0x8000_0000),
        chunk_key(a) == chunk_key(b) ==> a == b,
{
    let ha = a.x as int + 0x8000_0000;
    let la = a.y as int + 0x8000_0000;
    let hb = b.x as int + 0x8000_0000;
    let lb = b.y as int + 0x8000_0000;
    assert(0 <= ha * 0x1_0000_0000 + la <= u64::MAX) by (nonlinear_arith)
        requires
            0 <= ha < 0x1_0000_0000,
            0 <= la < 0x1_0000_0000,
    ;
    assert(0 <= hb * 0x1_0000_0000 + lb <= u64::MAX) by (nonlinear_arith)
        requires
            0 <= hb < 0x1_0000_0000,
            0 <= lb < 0x1_0000_0000,
    ;
    if chunk_key(a) == chunk_key(b) {
        let k = ha * 0x1_0000_0000 + la;
        vstd::arithmetic::div_mod::lemma_fundamental_div_mod_converse(k, 0x1_0000_0000, ha, la);
        vstd::arithmetic::div_mod::lemma_fundamental_div_mod_converse(k, 0x1_0000_0000, hb, lb);
    }
}

fn key_of_chunk(c: TileIndex) -> (r: u64)
    ensures
        r == chunk_key(c),
{
    proof {
        lemma_chunk_key(c, c);
    }
    let h = (c.x as i64 + 0x8000_0000) as u64;
    let l = (c.y as i64 + 0x8000_0000) as u64;
    h * 0x1_0000_0000 + l
}

/// The chunk that holds position `p`, for chunks of `cs × cs` tiles.
pub open spec fn chunk_of(p: (int, int), cs: int) -> (int, int) {
    (p.0 / cs, p.1 / cs)
}

/// The slot of position `p` inside its chunk, row by row.
pub open spec fn in_chunk_of(p: (int, int), cs: int) -> int {
    (p.1 % cs) * cs + p.0 % cs
}

/// The position held by slot `k` of chunk `c`.
pub open spec fn pos_of(c: (int, int), k: int, cs: int) -> (int, int) {
    (c.0 * cs + k % cs, c.1 * cs + k / cs)
}

/// Both coordinates of `p` fit in 32 bits.
pub open spec fn in_range(p: (int, int)) -> bool {
    i32::MIN <= p.0 <= i32::MAX && i32::MIN <= p.1 <= i32::MAX
}

/// What `m` holds at `p`, if anything.
pub open spec fn tile_at<T>(m: Map<(int, int), T>, p: (int, int)) -> Option<T> {
    if m.contains_key(p) {
        Some(m[p])
    } else {
        None
    }
}

proof fn lemma_slot_of_pos(p: (int, int), cs: int)
    requires
        cs > 0,
    ensures
        0 <= in_chunk_of(p, cs) < cs * cs,
        pos_of(chunk_of(p, cs), in_chunk_of(p, cs), cs) == p,
{
    let k = in_chunk_of(p, cs);
    let a = p.0 % cs;
    let b = p.1 % cs;
    vstd::arithmetic::div_mod::lemma_fundamental_div_mod(p.0, cs);
    vstd::arithmetic::div_mod::lemma_fundamental_div_mod(p.1, cs);
    assert(0 <= a < cs && 0 <= b < cs);
    assert(0 <= k < cs * cs) by (nonlinear_arith)
        requires
            k == b * cs + a,
            0 <= a < cs,
            0 <= b < cs,
    ;
    vstd::arithmetic::div_mod::lemma_fundamental_div_mod_converse(k, cs, b, a);
    assert(p.0 == (p.0 / cs) * cs + a && p.1 == (p.1 / cs) * cs + b) by (nonlinear_arith)
        requires
            p.0 == cs * (p.0 / cs) + a,
            p.1 == cs * (p.1 / cs) + b,
    ;
}

proof fn lemma_pos_of_slot(c: (int, int), k: int, cs: int)
    requires
        cs > 0,
        0 <= k < cs * cs,
    ensures
        chunk_of(pos_of(c, k, cs), cs) == c,
        in_chunk_of(pos_of(c, k, cs), cs) == k,
{
    let a = k % cs;
    let b = k / cs;
    vstd::arithmetic::div_mod::lemma_fundamental_div_mod(k, cs);
    assert(0 <= a < cs);
    assert(0 <= b < cs) by (nonlinear_arith)
        requires
            k == cs * b + a,
            0 <= a < cs,
            0 <= k < cs * cs,
    ;
    let p = pos_of(c, k, cs);
    vstd::arithmetic::div_mod::lemma_fundamental_div_mod_converse(p.0, cs, c.0, a);
    vstd::arithmetic::div_mod::lemma_fundamental_div_mod_converse(p.1, cs, c.1, b);
}

/// Splits one coordinate into chunk coordinate and remainder: `x == q * cs + r`, `0 <= r < cs`.
fn split_coord(x: i32, cs: u32) -> (r: (i32, u32))
    requires
        cs > 0,
    ensures
        r.0 as int == x as int / cs as int,
        r.1 as int == x as int % cs as int,
{
    let d = cs as u64;
    let q: i64;
    if x >= 0 {
        let n = x as u64;
        q = (n / d) as i64;
        proof {
            vstd::arithmetic::div_mod::lemma_fundamental_div_mod(n as int, d as int);
        }
    } else {
        let n = (-(x as i64) - 1) as u64;
        q = -((n / d) as i64) - 1;
        proof {
            vstd::arithmetic::div_mod::lemma_fundamental_div_mod(n as int, d as int);
            assert((n / d) * d <= n) by (nonlinear_arith)
                requires
                    n == d * (n / d) + n % d,
                    n % d >= 0,
            ;
        }
    }
    proof {
        assert(q * d <= x < q * d + d) by (nonlinear_arith)
            requires
                x >= 0 ==> q == (x as u64) / d,
                x < 0 ==> q == -(((-(x as int)) - 1) as u64 / d) - 1,
                d > 0,
        {
            vstd::arithmetic::div_mod::lemma_fundamental_div_mod(x as int, d as int);
            let n: int = if x >= 0 { x as int } else { -(x as int) - 1 };
            vstd::arithmetic::div_mod::lemma_fundamental_div_mod(n, d as int);
        }
        assert(i32::MIN <= q <= i32::MAX) by (nonlinear_arith)
            requires
                q * d <= x < q * d + d,
                d >= 1,
                i32::MIN <= x <= i32::MAX,
        ;
    }
    let r = (x as i64 - q * (d as i64)) as u32;
    proof {
        vstd::arithmetic::div_mod::lemma_fundamental_div_mod_converse(x as int, d as int, q as int, r as int);
    }
    (q as i32, r)
}

/// What a fill leaves at a position: the generated tile, or the old one when none was generated.
pub open spec fn filled<T>(generated: Option<T>, before: Option<T>) -> Option<T> {
    if generated is Some {
        generated
    } else {
        before
    }
}

/// `m` holds at `idx` what `generator` may return for it, or what `before` held there when
/// that is `None`.
pub open spec fn filled_from<T, F: Fn(TileIndex) -> Option<T>>(
    generator: F,
    m: Map<(int, int), T>,
    before: Map<(int, int), T>,
    idx: TileIndex,
) -> bool {
    exists|r: Option<T>|
        #[trigger] generator.ensures((idx,), r) && tile_at(m, idx.pos()) == filled(r, tile_at(before, idx.pos()))
}

/// The map that writing `entries` in order into an empty storage gives; a later entry for
/// the same index wins.
pub open spec fn map_of<T>(entries: Seq<(TileIndex, T)>) -> Map<(int, int), T>
    decreases entries.len(),
{
    if entries.len() == 0 {
        Map::empty()
    } else {
        map_of(entries.drop_last()).insert(entries.last().0.pos(), entries.last().1)
    }
}

proof fn lemma_map_of_len<T>(entries: Seq<(TileIndex, T)>)
    ensures
        map_of(entries).dom().finite(),
        map_of(entries).len() <= entries.len(),
    decreases entries.len(),
{
    if entries.len() > 0 {
        lemma_map_of_len(entries.drop_last());
    }
}

/// Whether a row-by-row walk of `area` has passed `p` once it stands at column `i` of row `j`.
pub open spec fn walked(area: TileArea, j: int, i: int, p: (int, int)) -> bool {
    &&& area.contains(p)
    &&& (p.1 < area.origin.y + j || (p.1 == area.origin.y + j && p.0 < area.origin.x + i))
}

/// A sparse map from tile index to payload, paged into square chunks that are created on
/// first write and never dropped.
#[derive(Clone)]
pub struct ChunkedStorage<T> {
    chunk_size: u32,
    chunks: Vec<(TileIndex, Vec<Option<T>>)>,
    index: HashMap<u64, usize>,
    count: usize,
    tiles: Ghost<Map<(int, int), T>>,
}

impl<T: Copy> ChunkedStorage<T> {
    /// The tiles held, by position.
    pub closed spec fn view(&self) -> Map<(int, int), T> {
        self.tiles@
    }

    /// The side of a chunk.
    pub closed spec fn cs(&self) -> int {
        self.chunk_size as int
    }

    pub closed spec fn wf(&self) -> bool {
        &&& self.chunk_size > 0
        &&& self.chunk_size * self.chunk_size <= usize::MAX
        &&& self.tiles@.dom().finite()
        &&& self.count == self.tiles@.len()
        &&& forall|i: int|
            0 <= i < self.chunks@.len() ==> (#[trigger] self.chunks@[i]).1@.len() == self.cs()
                * self.cs()
        &&& forall|i: int, j: int|
            0 <= i < j < self.chunks@.len() ==> (#[trigger] self.chunks@[i]).0 != (
            #[trigger] self.chunks@[j]).0
        &&& forall|i: int, k: int|
            #![trigger self.chunks@[i].1@[k]]
            0 <= i < self.chunks@.len() && 0 <= k < self.cs() * self.cs() ==> self.chunks@[i].1@[k]
                == tile_at(self.tiles@, pos_of(self.chunks@[i].0.pos(), k, self.cs()))
        &&& forall|p: (int, int)|
            #[trigger] self.tiles@.contains_key(p) ==> self.has_chunk(chunk_of(p, self.cs()))
        &&& forall|p: (int, int)| #[trigger] self.tiles@.contains_key(p) ==> in_range(p)
        &&& forall|k: u64|
            #[trigger] self.index@.contains_key(k) ==> self.index@[k] < self.chunks@.len() && chunk_key(
                self.chunks@[self.index@[k] as int].0,
            ) == k
        &&& forall|i: int|
            0 <= i < self.chunks@.len() ==> self.index@.contains_key(chunk_key(#[trigger] self.chunks@[i].0))
                && self.index@[chunk_key(self.chunks@[i].0)] == i
    }

    pub closed spec fn has_chunk(&self, c: (int, int)) -> bool {
        exists|i: int| 0 <= i < self.chunks@.len() && (#[trigger] self.chunks@[i]).0.pos() == c
    }

    /// An empty storage with chunks of `chunk_size × chunk_size` tiles.
    pub fn new(chunk_size: u32) -> (r: Self)
        requires
            chunk_size > 0,
            chunk_size * chunk_size <= usize::MAX,
        ensures
            r.wf(),
            r@ == Map::<(int, int), T>::empty(),
            r.cs() == chunk_size,
    {
        ChunkedStorage {
            chunk_size,
            chunks: Vec::new(),
            index: HashMap::new(),
            count: 0,
            tiles: Ghost(Map::empty()),
        }
    }

    /// Every position held has coordinates that fit in 32 bits.
    pub proof fn lemma_keys_in_range(&self)
        requires
            self.wf(),
        ensures
            forall|p: (int, int)| #[trigger] self@.contains_key(p) ==> in_range(p),
            self@.dom().finite(),
    {
    }

    /// The side of a chunk, in tiles.
    pub fn chunk_size(&self) -> (r: u32)
        ensures
            r == self.cs(),
    {
        self.chunk_size
    }

    /// The number of tiles held.
    pub fn len(&self) -> (r: usize)
        requires
            self.wf(),
        ensures
            r == self@.len(),
    {
        self.count
    }

    /// The chunk of `index` and its slot in that chunk.
    pub fn transform_index(&self, index: TileIndex) -> (r: (TileIndex, usize))
        requires
            self.wf(),
        ensures
            r.0.pos() == chunk_of(index.pos(), self.cs()),
            r.1 as int == in_chunk_of(index.pos(), self.cs()),
            r.1 < self.cs() * self.cs(),
    {
        let (cx, rx) = split_coord(index.x, self.chunk_size);
        let (cy, ry) = split_coord(index.y, self.chunk_size);
        proof {
            lemma_slot_of_pos(index.pos(), self.cs());
        }
        let k = ry as usize * self.chunk_size as usize + rx as usize;
        (TileIndex { x: cx, y: cy }, k)
    }

    fn find_chunk(&self, c: TileIndex) -> (r: Option<usize>)
        requires
            self.wf(),
        ensures
            r matches Some(i) ==> i < self.chunks@.len() && self.chunks@[i as int].0 == c,
            r is None ==> !self.has_chunk(c.pos()),
    {
        let key = key_of_chunk(c);
        match self.index.get(&key) {
            Some(i) => {
                proof {
                    lemma_chunk_key(self.chunks@[*i as int].0, c);
                }
                Some(*i)
            },
            None => {
                proof {
                    assert forall|j: int| 0 <= j < self.chunks@.len() implies (#[trigger] self.chunks@[j]).0.pos() != c.pos() by {
                        if self.chunks@[j].0.pos() == c.pos() {
                            assert(self.chunks@[j].0 == c);
                        }
                    }
                }
                None
            },
        }
    }

    /// The tile at `index`, if any; an index in no chunk reads as empty.
    pub fn get(&self, index: TileIndex) -> (r: Option<T>)
        requires
            self.wf(),
        ensures
            r == tile_at(self@, index.pos()),
    {
        let (c, k) = self.transform_index(index);
        proof {
            lemma_slot_of_pos(index.pos(), self.cs());
        }
        match self.find_chunk(c) {
            Some(i) => {
                let r = self.chunks[i].1[k];
                r
            },
            None => {
                None
            },
        }
    }

    /// Writes slot `k` of chunk `i`, which holds position `p`.
    fn write_slot(&mut self, i: usize, k: usize, p: Ghost<(int, int)>, value: Option<T>)
        requires
            old(self).wf(),
            i < old(self).chunks@.len(),
            k < old(self).cs() * old(self).cs(),
            p@ == pos_of(old(self).chunks@[i as int].0.pos(), k as int, old(self).cs()),
            value is Some && !old(self)@.contains_key(p@) ==> old(self)@.len() < usize::MAX,
            value is Some ==> in_range(p@),
        ensures
            final(self).wf(),
            final(self).cs() == old(self).cs(),
            final(self)@ == match value {
                Some(v) => old(self)@.insert(p@, v),
                None => old(self)@.remove(p@),
            },
    {
        let ghost cs = self.cs();
        let ghost old_tiles = self.tiles@;
        let ghost old_chunks = self.chunks@;
        proof {
            lemma_pos_of_slot(self.chunks@[i as int].0.pos(), k as int, cs);
        }
        let mut chunk = (TileIndex { x: 0, y: 0 }, Vec::new());
        std::mem::swap(&mut chunk, &mut self.chunks[i]);
        let was = chunk.1[k];
        chunk.1.set(k, value);
        self.chunks.set(i, chunk);
        match value {
            Some(v) => {
                if was.is_none() {
                    self.count = self.count + 1;
                }
                self.tiles = Ghost(self.tiles@.insert(p@, v));
            },
            None => {
                if was.is_some() {
                    self.count = self.count - 1;
                }
                self.tiles = Ghost(self.tiles@.remove(p@));
            },
        }
        proof {
            assert forall|i2: int, k2: int|
                0 <= i2 < self.chunks@.len() && 0 <= k2 < cs * cs implies #[trigger] self.chunks@[i2].1@[k2]
                == tile_at(self.tiles@, pos_of(self.chunks@[i2].0.pos(), k2, cs)) by {
                let q = pos_of(self.chunks@[i2].0.pos(), k2, cs);
                lemma_pos_of_slot(self.chunks@[i2].0.pos(), k2, cs);
                if i2 != i {
                    assert(old_chunks[i2] == self.chunks@[i2]);
                    assert(self.chunks@[i2].0 != self.chunks@[i as int].0);
                    assert(q != p@);
                } else if k2 != k {
                    assert(q != p@);
                }
            }
            assert forall|q: (int, int)| #[trigger] self.tiles@.contains_key(q) implies self.has_chunk(
                chunk_of(q, cs),
            ) by {
                if q == p@ {
                    assert(self.chunks@[i as int].0.pos() == chunk_of(q, cs));
                } else {
                    assert(old_tiles.contains_key(q));
                    let j = choose|j: int|
                        0 <= j < old_chunks.len() && (#[trigger] old_chunks[j]).0.pos() == chunk_of(q, cs);
                    assert(self.chunks@[j].0 == old_chunks[j].0);
                }
            }
        }
    }

    /// The chunk index `c` after adding an empty chunk for it when there is none.
    fn chunk_for(&mut self, c: TileIndex) -> (r: usize)
        requires
            old(self).wf(),
        ensures
            final(self).wf(),
            final(self)@ == old(self)@,
            final(self).cs() == old(self).cs(),
            r < final(self).chunks@.len(),
            final(self).chunks@[r as int].0 == c,
    {
        match self.find_chunk(c) {
            Some(i) => i,
            None => {
                let ghost cs = self.cs();
                let n = self.chunk_size as usize * self.chunk_size as usize;
                let mut slots: Vec<Option<T>> = Vec::new();
                while slots.len() < n
                    invariant
                        slots@.len() <= n,
                        forall|k: int| 0 <= k < slots@.len() ==> #[trigger] slots@[k] is None,
                    decreases n - slots@.len(),
                {
                    slots.push(None);
                }
                let ghost old_chunks = self.chunks@;
                let ghost old_index = self.index@;
                let key = key_of_chunk(c);
                self.index.insert(key, self.chunks.len());
                self.chunks.push((c, slots));
                proof {
                    assert forall|k: u64| #[trigger] self.index@.contains_key(k) implies self.index@[k] < self.chunks@.len() && chunk_key(
                        self.chunks@[self.index@[k] as int].0,
                    ) == k by {
                        if k != key {
                            assert(old_index.contains_key(k));
                            assert(self.chunks@[self.index@[k] as int] == old_chunks[old_index[k] as int]);
                        }
                    }
                    assert forall|i: int|
                        0 <= i < self.chunks@.len() implies self.index@.contains_key(chunk_key(#[trigger] self.chunks@[i].0))
                            && self.index@[chunk_key(self.chunks@[i].0)] == i by {
                        if i < old_chunks.len() {
                            assert(self.chunks@[i] == old_chunks[i]);
                            assert(old_chunks[i].0 != c);
                            lemma_chunk_key(old_chunks[i].0, c);
                        }
                    }
                    assert forall|i: int, k: int|
                        0 <= i < self.chunks@.len() && 0 <= k < cs * cs implies #[trigger] self.chunks@[i].1@[k]
                        == tile_at(self.tiles@, pos_of(self.chunks@[i].0.pos(), k, cs)) by {
                        if i == old_chunks.len() {
                            let q = pos_of(c.pos(), k, cs);
                            lemma_pos_of_slot(c.pos(), k, cs);
                            if self.tiles@.contains_key(q) {
                                let j = choose|j: int|
                                    0 <= j < old_chunks.len() && (#[trigger] old_chunks[j]).0.pos()
                                        == chunk_of(q, cs);
                                assert(old_chunks[j].0 == c);
                            }
                        } else {
                            assert(old_chunks[i] == self.chunks@[i]);
                        }
                    }
                    assert forall|q: (int, int)| #[trigger] self.tiles@.contains_key(q) implies self.has_chunk(
                        chunk_of(q, cs),
                    ) by {
                        let j = choose|j: int|
                            0 <= j < old_chunks.len() && (#[trigger] old_chunks[j]).0.pos() == chunk_of(q, cs);
                        assert(self.chunks@[j] == old_chunks[j]);
                    }
                }
                self.chunks.len() - 1
            },
        }
    }

    /// Stores `value` at `index`, creating its chunk when needed.
    pub fn set(&mut self, index: TileIndex, value: T)
        requires
            old(self).wf(),
            !old(self)@.contains_key(index.pos()) ==> old(self)@.len() < usize::MAX,
        ensures
            final(self).wf(),
            final(self).cs() == old(self).cs(),
            final(self)@ == old(self)@.insert(index.pos(), value),
    {
        let (c, k) = self.transform_index(index);
        proof {
            lemma_slot_of_pos(index.pos(), self.cs());
        }
        let i = self.chunk_for(c);
        self.write_slot(i, k, Ghost(index.pos()), Some(value));
    }

    /// Clears the tile at `index`; its chunk stays.
    pub fn remove(&mut self, index: TileIndex)
        requires
            old(self).wf(),
        ensures
            final(self).wf(),
            final(self).cs() == old(self).cs(),
            final(self)@ == old(self)@.remove(index.pos()),
    {
        let (c, k) = self.transform_index(index);
        proof {
            lemma_slot_of_pos(index.pos(), self.cs());
        }
        match self.find_chunk(c) {
            Some(i) => {
                self.write_slot(i, k, Ghost(index.pos()), None);
            },
            None => {
                assert(self@.remove(index.pos()) =~= self@);
            },
        }
    }

    /// Fills `area` from `generator`: each index of the area gets what the generator returns
    /// for it, and keeps what it held where the generator returns `None`.
    pub fn fill_rect_custom<F: Fn(TileIndex) -> Option<T>>(&mut self, area: TileArea, generator: F)
        requires
            old(self).wf(),
            area.fits(),
            old(self)@.len() + area.width * area.height <= usize::MAX,
            forall|idx: TileIndex| area.contains(idx.pos()) ==> #[trigger] generator.requires((idx,)),
        ensures
            final(self).wf(),
            final(self).cs() == old(self).cs(),
            forall|p: (int, int)|
                !area.contains(p) ==> #[trigger] tile_at(final(self)@, p) == tile_at(old(self)@, p),
            forall|idx: TileIndex|
                area.contains(idx.pos()) ==> #[trigger] filled_from(generator, final(self)@, old(self)@, idx),
            old(self)@.dom().subset_of(final(self)@.dom()),
            final(self)@.len() == old(self)@.len() + final(self)@.dom().difference(old(self)@.dom()).len(),
    {
        let ghost start = self@;
        assert(self@.dom().difference(start.dom()) =~= Set::empty());
        let mut j: u32 = 0;
        while j < area.height
            invariant
                self.wf(),
                self.cs() == old(self).cs(),
                start == old(self)@,
                area.fits(),
                j <= area.height,
                old(self)@.len() + area.width * area.height <= usize::MAX,
                forall|idx: TileIndex| area.contains(idx.pos()) ==> #[trigger] generator.requires((idx,)),
                self@.len() <= start.len() + j * area.width,
                forall|p: (int, int)|
                    !walked(area, j as int, 0, p) ==> #[trigger] tile_at(self@, p) == tile_at(start, p),
                forall|idx: TileIndex|
                    walked(area, j as int, 0, idx.pos()) ==> #[trigger] filled_from(generator, self@, start, idx),
                start.dom().subset_of(self@.dom()),
                self@.len() == start.len() + self@.dom().difference(start.dom()).len(),
            decreases area.height - j,
        {
            let y = (area.origin.y as i64 + j as i64) as i32;
            let mut i: u32 = 0;
            proof {
                assert((j + 1) * area.width <= area.width * area.height) by (nonlinear_arith)
                    requires
                        j < area.height,
                ;
            }
            while i < area.width
                invariant
                    self.wf(),
                    self.cs() == old(self).cs(),
                    area.fits(),
                    j < area.height,
                    i <= area.width,
                    y == area.origin.y + j,
                    start == old(self)@,
                    (j + 1) * area.width <= area.width * area.height,
                    old(self)@.len() + area.width * area.height <= usize::MAX,
                    forall|idx: TileIndex| area.contains(idx.pos()) ==> #[trigger] generator.requires((idx,)),
                    self@.len() <= start.len() + j * area.width + i,
                    forall|p: (int, int)|
                        !walked(area, j as int, i as int, p) ==> #[trigger] tile_at(self@, p) == tile_at(start, p),
                    forall|idx: TileIndex|
                        walked(area, j as int, i as int, idx.pos()) ==> #[trigger] filled_from(generator, self@, start, idx),
                    start.dom().subset_of(self@.dom()),
                    self@.len() == start.len() + self@.dom().difference(start.dom()).len(),
                decreases area.width - i,
            {
                let x = (area.origin.x as i64 + i as i64) as i32;
                let idx = TileIndex { x, y };
                let r = generator(idx);
                let ghost before = self@;
                match r {
                    Some(v) => {
                        proof {
                            assert(j * area.width + area.width == (j + 1) * area.width) by (nonlinear_arith);
                        }
                        self.set(idx, v);
                        proof {
                            if before.contains_key(idx.pos()) {
                                assert(self@.dom() =~= before.dom());
                            } else {
                                assert(self@.dom() =~= before.dom().insert(idx.pos()));
                                assert(self@.dom().difference(start.dom()) =~= before.dom().difference(
                                    start.dom(),
                                ).insert(idx.pos()));
                            }
                        }
                    },
                    None => {},
                }
                proof {
                    assert(idx.pos() == (area.origin.x + i, area.origin.y + j));
                    assert forall|p: (int, int)| !walked(area, j as int, i + 1, p) implies #[trigger] tile_at(self@, p) == tile_at(start, p) by {
                        assert(!walked(area, j as int, i as int, p));
                        assert(p != idx.pos());
                        assert(tile_at(self@, p) == tile_at(before, p));
                    }
                    assert forall|idx2: TileIndex|
                        walked(area, j as int, i + 1, idx2.pos()) implies #[trigger] filled_from(generator, self@, start, idx2) by {
                        if idx2 == idx {
                            assert(generator.ensures((idx2,), r));
                            assert(tile_at(self@, idx2.pos()) == filled(r, tile_at(start, idx2.pos())));
                        } else {
                            assert(walked(area, j as int, i as int, idx2.pos()));
                            assert(filled_from(generator, before, start, idx2));
                            let r2 = choose|r2: Option<T>|
                                #[trigger] generator.ensures((idx2,), r2) && tile_at(before, idx2.pos()) == filled(r2, tile_at(start, idx2.pos()));
                            assert(idx2.pos() != idx.pos());
                            assert(tile_at(self@, idx2.pos()) == tile_at(before, idx2.pos()));
                            assert(generator.ensures((idx2,), r2));
                        }
                    }
                }
                i = i + 1;
            }
            proof {
                assert forall|p: (int, int)| walked(area, j as int, area.width as int, p) == walked(area, j + 1, 0, p) by {}
                assert(j * area.width + area.width == (j + 1) * area.width) by (nonlinear_arith);
            }
            j = j + 1;
        }
        proof {
            assert forall|idx: TileIndex| area.contains(idx.pos()) implies #[trigger] filled_from(generator, self@, start, idx) by {
                assert(walked(area, j as int, 0, idx.pos()));
            }
            assert forall|p: (int, int)| !area.contains(p) implies #[trigger] tile_at(self@, p) == tile_at(start, p) by {
                assert(!walked(area, j as int, 0, p));
            }
        }
    }

    /// Stores `value` at every index of `area`.
    pub fn fill_rect(&mut self, area: TileArea, value: T)
        requires
            old(self).wf(),
            area.fits(),
            old(self)@.len() + area.width * area.height <= usize::MAX,
        ensures
            final(self).wf(),
            final(self).cs() == old(self).cs(),
            forall|p: (int, int)|
                #[trigger] tile_at(final(self)@, p) == if area.contains(p) {
                    Some(value)
                } else {
                    tile_at(old(self)@, p)
                },
            old(self)@.dom().disjoint(area.spec_set()) ==> final(self)@.len() == old(self)@.len()
                + area.width * area.height,
    {
        let g = |idx: TileIndex| -> (r: Option<T>)
            ensures
                r == Some(value),
            { Some(value) };
        self.fill_rect_custom(area, g);
        proof {
            assert forall|p: (int, int)|
                #[trigger] tile_at(self@, p) == if area.contains(p) {
                    Some(value)
                } else {
                    tile_at(old(self)@, p)
                } by {
                if area.contains(p) {
                    let idx = TileIndex { x: p.0 as i32, y: p.1 as i32 };
                    assert(idx.pos() == p);
                    assert(area.contains(idx.pos()));
                    assert(filled_from(g, self@, old(self)@, idx));
                    let r = choose|r: Option<T>|
                        #[trigger] g.ensures((idx,), r) && tile_at(self@, idx.pos()) == filled(r, tile_at(old(self)@, idx.pos()));
                    assert(g.ensures((idx,), r));
                }
            }
            if old(self)@.dom().disjoint(area.spec_set()) {
                crate::math::lemma_area_len(area);
                assert forall|p: (int, int)| self@.dom().difference(old(self)@.dom()).contains(p) <==> area.spec_set().contains(p) by {
                    assert(tile_at(self@, p) == if area.contains(p) { Some(value) } else { tile_at(old(self)@, p) });
                }
                assert(self@.dom().difference(old(self)@.dom()) =~= area.spec_set());
            }
        }
    }

    /// Every tile held, once each, with its index.
    pub fn entries(&self) -> (r: Vec<(TileIndex, T)>)
        requires
            self.wf(),
        ensures
            forall|a: int, b: int| 0 <= a < b < r@.len() ==> (#[trigger] r@[a]).0 != (#[trigger] r@[b]).0,
            forall|a: int| 0 <= a < r@.len() ==> tile_at(self@, (#[trigger] r@[a]).0.pos()) == Some(r@[a].1),
            forall|p: (int, int)|
                #[trigger] self@.contains_key(p) ==> exists|a: int| 0 <= a < r@.len() && (#[trigger] r@[a]).0.pos() == p,
    {
        let ghost cs = self.cs();
        let n = self.chunk_size as usize * self.chunk_size as usize;
        let mut r: Vec<(TileIndex, T)> = Vec::new();
        let mut i: usize = 0;
        while i < self.chunks.len()
            invariant
                self.wf(),
                cs == self.cs(),
                n == cs * cs,
                i <= self.chunks@.len(),
                forall|a: int, b: int| 0 <= a < b < r@.len() ==> (#[trigger] r@[a]).0 != (#[trigger] r@[b]).0,
                forall|a: int| 0 <= a < r@.len() ==> tile_at(self@, (#[trigger] r@[a]).0.pos()) == Some(r@[a].1),
                forall|a: int|
                    0 <= a < r@.len() ==> exists|j: int|
                        0 <= j < i && (#[trigger] self.chunks@[j]).0.pos() == chunk_of((#[trigger] r@[a]).0.pos(), cs),
                forall|j: int, k: int|
                    0 <= j < i && 0 <= k < cs * cs && (#[trigger] self.chunks@[j].1@[k]) is Some ==> exists|a: int|
                        0 <= a < r@.len() && (#[trigger] r@[a]).0.pos() == pos_of(self.chunks@[j].0.pos(), k, cs),
            decreases self.chunks@.len() - i,
        {
            let c = self.chunks[i].0;
            let mut k: usize = 0;
            while k < n
                invariant
                    self.wf(),
                    cs == self.cs(),
                    n == cs * cs,
                    i < self.chunks@.len(),
                    c == self.chunks@[i as int].0,
                    k <= n,
                    forall|a: int, b: int| 0 <= a < b < r@.len() ==> (#[trigger] r@[a]).0 != (#[trigger] r@[b]).0,
                    forall|a: int| 0 <= a < r@.len() ==> tile_at(self@, (#[trigger] r@[a]).0.pos()) == Some(r@[a].1),
                    forall|a: int|
                        0 <= a < r@.len() ==> (exists|j: int|
                            0 <= j < i && (#[trigger] self.chunks@[j]).0.pos() == chunk_of((#[trigger] r@[a]).0.pos(), cs))
                            || (chunk_of(r@[a].0.pos(), cs) == c.pos() && in_chunk_of(r@[a].0.pos(), cs) < k),
                    forall|j: int, kk: int|
                        0 <= j < i && 0 <= kk < cs * cs && (#[trigger] self.chunks@[j].1@[kk]) is Some ==> exists|a: int|
                            0 <= a < r@.len() && (#[trigger] r@[a]).0.pos() == pos_of(self.chunks@[j].0.pos(), kk, cs),
                    forall|kk: int|
                        0 <= kk < k && (#[trigger] self.chunks@[i as int].1@[kk]) is Some ==> exists|a: int|
                            0 <= a < r@.len() && (#[trigger] r@[a]).0.pos() == pos_of(c.pos(), kk, cs),
                decreases n - k,
            {
                let ghost before0 = r@;
                match self.chunks[i].1[k] {
                    Some(v) => {
                        let ghost p = pos_of(c.pos(), k as int, cs);
                        proof {
                            lemma_pos_of_slot(c.pos(), k as int, cs);
                            assert(self.chunks@[i as int].1@[k as int] == tile_at(self@, p));
                            assert(in_range(p));
                            assert(p.0 == c.x * cs + (k as int) % cs);
                        }
                        let x = (c.x as i128 * self.chunk_size as i128 + (k % self.chunk_size as usize) as i128) as i32;
                        let y = (c.y as i128 * self.chunk_size as i128 + (k / self.chunk_size as usize) as i128) as i32;
                        let t = TileIndex { x, y };
                        assert(t.pos() == p);
                        let ghost before = r@;
                        proof {
                            assert forall|a: int| 0 <= a < before.len() implies before[a].0 != t by {
                                if before[a].0 == t {
                                    if chunk_of(before[a].0.pos(), cs) == c.pos() && in_chunk_of(before[a].0.pos(), cs) < k {
                                    } else {
                                        let j = choose|j: int|
                                            0 <= j < i && (#[trigger] self.chunks@[j]).0.pos() == chunk_of(before[a].0.pos(), cs);
                                        assert(self.chunks@[j].0 != self.chunks@[i as int].0);
                                    }
                                }
                            }
                        }
                        r.push((t, v));
                        proof {
                            assert forall|a: int, b: int| 0 <= a < b < r@.len() implies (#[trigger] r@[a]).0 != (#[trigger] r@[b]).0 by {
                                if b < before.len() {
                                    assert(r@[a] == before[a] && r@[b] == before[b]);
                                } else {
                                    assert(r@[a] == before[a]);
                                }
                            }
                            assert(r@[before.len() as int].0.pos() == p);
                        }
                    },
                    None => {},
                }
                proof {
                    assert(r@.len() >= before0.len());
                    assert forall|a: int| 0 <= a < before0.len() implies r@[a] == before0[a] by {}
                    assert forall|j: int, kk: int|
                        0 <= j < i && 0 <= kk < cs * cs && (#[trigger] self.chunks@[j].1@[kk]) is Some implies exists|a: int|
                            0 <= a < r@.len() && (#[trigger] r@[a]).0.pos() == pos_of(self.chunks@[j].0.pos(), kk, cs) by {
                        let a = choose|a: int| 0 <= a < before0.len() && (#[trigger] before0[a]).0.pos() == pos_of(self.chunks@[j].0.pos(), kk, cs);
                        assert(r@[a] == before0[a]);
                    }
                    assert forall|kk: int|
                        0 <= kk < k + 1 && (#[trigger] self.chunks@[i as int].1@[kk]) is Some implies exists|a: int|
                            0 <= a < r@.len() && (#[trigger] r@[a]).0.pos() == pos_of(c.pos(), kk, cs) by {
                        if kk < k {
                            let a = choose|a: int| 0 <= a < before0.len() && (#[trigger] before0[a]).0.pos() == pos_of(c.pos(), kk, cs);
                            assert(r@[a] == before0[a]);
                        } else {
                            assert(r@[before0.len() as int].0.pos() == pos_of(c.pos(), kk, cs));
                        }
                    }
                }
                k += 1;
            }
            proof {
                assert forall|a: int|
                    0 <= a < r@.len() implies exists|j: int|
                        0 <= j < i + 1 && (#[trigger] self.chunks@[j]).0.pos() == chunk_of((#[trigger] r@[a]).0.pos(), cs) by {
                    if chunk_of(r@[a].0.pos(), cs) == c.pos() {
                        assert(self.chunks@[i as int].0.pos() == chunk_of(r@[a].0.pos(), cs));
                    }
                }
            }
            i += 1;
        }
        proof {
            assert forall|p: (int, int)| #[trigger] self@.contains_key(p) implies exists|a: int|
                0 <= a < r@.len() && (#[trigger] r@[a]).0.pos() == p by {
                let j = choose|j: int| 0 <= j < self.chunks@.len() && (#[trigger] self.chunks@[j]).0.pos() == chunk_of(p, cs);
                lemma_slot_of_pos(p, cs);
                let k = in_chunk_of(p, cs);
                assert(self.chunks@[j].1@[k] == tile_at(self@, p));
            }
        }
        r
    }

    /// A storage with chunks of `chunk_size × chunk_size` tiles holding `entries`, written in
    /// order.
    pub fn from_entries(chunk_size: u32, entries: &Vec<(TileIndex, T)>) -> (r: Self)
        requires
            chunk_size > 0,
            chunk_size * chunk_size <= usize::MAX,
        ensures
            r.wf(),
            r.cs() == chunk_size,
            r@ == map_of(entries@),
    {
        let mut s = ChunkedStorage::new(chunk_size);
        let mut i: usize = 0;
        while i < entries.len()
            invariant
                s.wf(),
                s.cs() == chunk_size,
                i <= entries@.len(),
                s@ == map_of(entries@.subrange(0, i as int)),
            decreases entries@.len() - i,
        {
            proof {
                lemma_map_of_len(entries@.subrange(0, i as int));
            }
            let (t, v) = entries[i];
            s.set(t, v);
            proof {
                assert(entries@.subrange(0, i + 1).drop_last() =~= entries@.subrange(0, i as int));
            }
            i += 1;
        }
        assert(entries@.subrange(0, i as int) =~= entries@);
        s
    }
}

} // verus!
