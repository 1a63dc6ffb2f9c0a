use vstd::prelude::*;

verus! {

/// A part of a tilemap that can be written out: the tile textures or the path tiles.
#[derive(Debug, Clone, Copy, PartialEq, Eq, Structural)]
pub enum TilemapLayer {
    Texture,
    Algorithm,
}

impl TilemapLayer {
    pub open spec fn spec_bit(self) -> u32 {
        match self {
            TilemapLayer::Texture => 1,
            TilemapLayer::Algorithm => 2,
        }
    }

    /// The bit of this layer in a saver's layer mask.
    pub fn bit(self) -> (r: u32)
        ensures
            r == self.spec_bit(),
    {
        match self {
            TilemapLayer::Texture => 1,
            TilemapLayer::Algorithm => 2,
        }
    }
}

/// Collects the settings of a save before it is handed over as a `TilemapSaver`.
pub struct TilemapSaverBuilder {
    pub path: String,
    pub map_name: String,
    pub texture_path: Option<String>,
    pub layers: u32,
    pub remove_map_after_done: bool,
}

/// The settings of one save of a tilemap.
pub struct TilemapSaver {
    pub path: String,
    pub map_name: String,
    pub texture_path: Option<String>,
    pub layers: u32,
    pub remove_map_after_done: bool,
}

impl TilemapSaverBuilder {
    /// A save into `path` under `map_name` of the texture layer only, with no texture path,
    /// keeping the map.
    pub fn new(path: String, map_name: String) -> (r: TilemapSaverBuilder)
        ensures
            r.path@ == path@,
            r.map_name@ == map_name@,
            r.texture_path is None,
            r.layers == TilemapLayer::Texture.spec_bit(),
            !r.remove_map_after_done,
    {
        TilemapSaverBuilder {
            path,
            map_name,
            texture_path: None,
            layers: TilemapLayer::Texture.bit(),
            remove_map_after_done: false,
        }
    }

    /// Adds `layer` to the layers to save.
    pub fn with_layer(self, layer: TilemapLayer) -> (r: TilemapSaverBuilder)
        ensures
            r.layers == self.layers | layer.spec_bit(),
            r.path@ == self.path@,
            r.map_name@ == self.map_name@,
            r.texture_path == self.texture_path,
            r.remove_map_after_done == self.remove_map_after_done,
    {
        let mut s = self;
        s.layers = s.layers | layer.bit();
        s
    }

    /// Sets the texture path to save.
    pub fn with_texture(self, texture_path: String) -> (r: TilemapSaverBuilder)
        ensures
            r.texture_path == Some(texture_path),
            r.layers == self.layers,
            r.path@ == self.path@,
            r.map_name@ == self.map_name@,
            r.remove_map_after_done == self.remove_map_after_done,
    {
        let mut s = self;
        s.texture_path = Some(texture_path);
        s
    }

    /// Asks for the tilemap to be removed once it is saved.
    pub fn remove_map_after_done(self) -> (r: TilemapSaverBuilder)
        ensures
            r.remove_map_after_done,
            r.layers == self.layers,
            r.path@ == self.path@,
            r.map_name@ == self.map_name@,
            r.texture_path == self.texture_path,
    {
        let mut s = self;
        s.remove_map_after_done = true;
        s
    }

    /// The saver with the collected settings.
    pub fn build(self) -> (r: TilemapSaver)
        ensures
            r.path@ == self.path@,
            r.map_name@ == self.map_name@,
            r.texture_path == self.texture_path,
            r.layers == self.layers,
            r.remove_map_after_done == self.remove_map_after_done,
    {
        TilemapSaver {
            path: self.path,
            map_name: self.map_name,
            texture_path: self.texture_path,
            layers: self.layers,
            remove_map_after_done: self.remove_map_after_done,
        }
    }
}

impl TilemapSaver {
    /// Whether `layer` is among the layers to save.
    pub fn saves_layer(&self, layer: TilemapLayer) -> (r: bool)
        ensures
            r == (self.layers & layer.spec_bit() != 0),
    {
        self.layers & layer.bit() != 0
    }
}

} // verus!
