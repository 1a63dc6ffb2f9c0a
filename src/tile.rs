use vstd::prelude::*;

use crate::math::TileIndex;
use crate::storage::{chunk_of, in_chunk_of, ChunkedStorage};

verus! {

/// Flip of a tile layer's texture, as two bits: horizontal (1) and vertical (2).
#[derive(Debug, Clone, Copy, PartialEq, Eq, Structural)]
pub enum TileFlip {
    Unflipped,
    Horizontal,
    Vertical,
    Both,
}

impl TileFlip {
    pub open spec fn spec_bits(self) -> u32 {
        match self {
            TileFlip::Unflipped => 0,
            TileFlip::Horizontal => 1,
            TileFlip::Vertical => 2,
            TileFlip::Both => 3,
        }
    }

    /// The two flip bits.
    pub fn bits(self) -> (r: u32)
        ensures
            r == self.spec_bits(),
    {
        match self {
            TileFlip::Unflipped => 0,
            TileFlip::Horizontal => 1,
            TileFlip::Vertical => 2,
            TileFlip::Both => 3,
        }
    }

    /// The flip whose bits are `value`; only the four two-bit values name a flip.
    pub fn from_bits(value: u32) -> (r: TileFlip)
        requires
            value < 4,
        ensures
            r.spec_bits() == value,
    {
        if value == 0 {
            TileFlip::Unflipped
        } else if value == 1 {
            TileFlip::Horizontal
        } else if value == 2 {
            TileFlip::Vertical
        } else {
            TileFlip::Both
        }
    }
}

/// One texture layer of a tile: a texture index (`-1` for none) and flip bits.
#[derive(Debug, Clone, Copy, PartialEq, Eq, Structural)]
pub struct TileLayer {
    pub texture_index: i32,
    pub flip: u32,
}

impl TileLayer {
    /// A layer without texture and without flip.
    pub fn new() -> (r: TileLayer)
        ensures
            r.texture_index == -1,
            r.flip == 0,
    {
        TileLayer { texture_index: -1, flip: 0 }
    }

    /// The layer with its texture index set; the index is stored as a signed 32-bit value.
    pub fn with_texture_index(self, texture_index: u32) -> (r: TileLayer)
        ensures
            r.texture_index == texture_index as i32,
            r.flip == self.flip,
    {
        TileLayer { texture_index: texture_index as i32, flip: self.flip }
    }

    /// The layer with the bits of `flip` added to its flip bits.
    pub fn with_flip(self, flip: TileFlip) -> (r: TileLayer)
        ensures
            r.texture_index == self.texture_index,
            r.flip == self.flip | flip.spec_bits(),
    {
        TileLayer { texture_index: self.texture_index, flip: self.flip | flip.bits() }
    }

    /// The layer with its flip bits replaced by `flip`.
    pub fn with_flip_raw(self, flip: u32) -> (r: TileLayer)
        ensures
            r.texture_index == self.texture_index,
            r.flip == flip,
    {
        TileLayer { texture_index: self.texture_index, flip }
    }
}

/// Where a layer update puts its layer in a tile's layer list.
#[derive(Debug, Clone, Copy, PartialEq, Eq, Structural)]
pub enum TileLayerPosition {
    Top,
    Bottom,
    Index(usize),
}

/// A pending change of one layer of a tile.
#[derive(Debug, Clone, Copy, PartialEq, Eq, Structural)]
pub struct LayerUpdater {
    pub position: TileLayerPosition,
    pub layer: TileLayer,
}

/// A texture animation: `length` frames from `start`, played at `fps`.
#[derive(Debug, Clone, Copy, PartialEq, Eq, Structural)]
pub struct TileAnimation {
    pub start: u32,
    pub length: u32,
    pub fps: u32,
}

/// The texture of a tile: a list of static layers, or an animation.
#[derive(Debug, Clone)]
pub enum TileTexture {
    Static(Vec<TileLayer>),
    Animated(TileAnimation),
}

/// A layer without texture and without flip.
pub open spec fn empty_layer() -> TileLayer {
    TileLayer { texture_index: -1i32, flip: 0u32 }
}

/// `layers` with slot `index` set to `layer`, padded with empty layers when too short.
pub open spec fn layers_with(layers: Seq<TileLayer>, index: int, layer: TileLayer) -> Seq<TileLayer> {
    if index < layers.len() {
        layers.update(index, layer)
    } else {
        layers + Seq::new((index - layers.len()) as nat, |i: int| empty_layer())
            + seq![layer]
    }
}

/// The layers after applying `update`.
pub open spec fn layers_updated(layers: Seq<TileLayer>, update: LayerUpdater) -> Seq<TileLayer> {
    match update.position {
        TileLayerPosition::Top => layers.push(update.layer),
        TileLayerPosition::Bottom => seq![update.layer] + layers,
        TileLayerPosition::Index(i) => layers_with(layers, i as int, update.layer),
    }
}

/// Sets slot `index` of `layers` to `layer`, first padding the list with empty layers.
fn set_layer(layers: &mut Vec<TileLayer>, index: usize, layer: TileLayer)
    requires
        index < usize::MAX,
    ensures
        final(layers)@ == layers_with(old(layers)@, index as int, layer),
{
    let ghost start = layers@;
    if index < layers.len() {
        layers.set(index, layer);
        return;
    }
    while layers.len() < index
        invariant
            start.len() <= layers@.len() <= index,
            index >= start.len(),
            layers@ == start + Seq::new((layers@.len() - start.len()) as nat, |i: int| empty_layer()),
        decreases index - layers@.len(),
    {
        layers.push(TileLayer::new());
        assert(layers@ =~= start + Seq::new((layers@.len() - start.len()) as nat, |i: int| empty_layer()));
    }
    layers.push(layer);
}

impl TileTexture {
    /// Applies a layer update; an animated texture is left as it is.
    pub fn apply_layer_update(&mut self, update: LayerUpdater)
        requires
            update.position matches TileLayerPosition::Index(i) ==> i < usize::MAX,
        ensures
            match *old(self) {
                TileTexture::Static(v) => *final(self) matches TileTexture::Static(w) && w@
                    == layers_updated(v@, update),
                TileTexture::Animated(a) => *final(self) == TileTexture::Animated(a),
            },
    {
        match self {
            TileTexture::Static(tex) => {
                match update.position {
                    TileLayerPosition::Top => tex.push(update.layer),
                    TileLayerPosition::Bottom => tex.insert(0, update.layer),
                    TileLayerPosition::Index(i) => set_layer(tex, i, update.layer),
                }
            },
            TileTexture::Animated(_) => {},
        }
    }
}

/// What a tile is built from: its texture (static layers or an animation).
#[derive(Debug, Clone)]
pub struct TileBuilder {
    pub texture: TileTexture,
}

impl TileBuilder {
    /// A builder with an empty static layer list.
    pub fn new() -> (r: TileBuilder)
        ensures
            r.texture matches TileTexture::Static(v) && v@.len() == 0,
    {
        TileBuilder { texture: TileTexture::Static(Vec::new()) }
    }

    /// Sets layer `index`, padding with empty layers; an animated builder is unchanged.
    pub fn with_layer(self, index: usize, layer: TileLayer) -> (r: TileBuilder)
        requires
            index < usize::MAX,
        ensures
            match self.texture {
                TileTexture::Static(v) => r.texture matches TileTexture::Static(w) && w@ == layers_with(
                    v@,
                    index as int,
                    layer,
                ),
                TileTexture::Animated(a) => r.texture == TileTexture::Animated(a),
            },
    {
        let mut s = self;
        match &mut s.texture {
            TileTexture::Static(tex) => set_layer(tex, index, layer),
            TileTexture::Animated(_) => {},
        }
        s
    }

    /// Replaces the texture by an animation.
    pub fn with_animation(self, animation: TileAnimation) -> (r: TileBuilder)
        ensures
            r.texture == TileTexture::Animated(animation),
    {
        TileBuilder { texture: TileTexture::Animated(animation) }
    }
}

/// `a` and `b` are the same texture: the same kind, with the same layers or animation.
pub open spec fn same_texture(a: TileTexture, b: TileTexture) -> bool {
    match (a, b) {
        (TileTexture::Static(v), TileTexture::Static(w)) => v@ == w@,
        (TileTexture::Animated(x), TileTexture::Animated(y)) => x == y,
        _ => false,
    }
}

impl TileTexture {
    /// A copy of the texture, of the same kind.
    pub fn duplicate(&self) -> (r: TileTexture)
        ensures
            same_texture(r, *self),
    {
        match self {
            TileTexture::Static(v) => {
                let w = v.clone();
                assert(w@ =~= v@);
                TileTexture::Static(w)
            },
            TileTexture::Animated(a) => TileTexture::Animated(*a),
        }
    }
}

/// A placed tile: the map it belongs to, where it is stored, and its texture.
#[derive(Debug, Clone)]
pub struct Tile {
    pub tilemap_id: u64,
    pub chunk_index: TileIndex,
    pub in_chunk_index: usize,
    pub index: TileIndex,
    pub texture: TileTexture,
}

impl TileBuilder {
    /// The tile this builder makes at `index` of the map `tilemap`, stored as `storage` pages
    /// its tiles.
    pub fn build_component<T: Copy>(&self, index: TileIndex, storage: &ChunkedStorage<T>, tilemap: u64) -> (r: Tile)
        requires
            storage.wf(),
        ensures
            r.tilemap_id == tilemap,
            r.index == index,
            r.chunk_index.pos() == chunk_of(index.pos(), storage.cs()),
            r.in_chunk_index == in_chunk_of(index.pos(), storage.cs()),
            same_texture(r.texture, self.texture),
    {
        let (chunk_index, in_chunk_index) = storage.transform_index(index);
        Tile { tilemap_id: tilemap, chunk_index, in_chunk_index, index, texture: self.texture.duplicate() }
    }
}

impl Tile {
    /// The builder that makes this tile's texture again.
    pub fn into_builder(self) -> (r: TileBuilder)
        ensures
            r.texture == self.texture,
    {
        TileBuilder { texture: self.texture }
    }
}

} // verus!
