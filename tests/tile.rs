use entitiles::math::TileIndex;
use entitiles::storage::ChunkedStorage;
use entitiles::tile::{
    LayerUpdater, TileAnimation, TileBuilder, TileFlip, TileLayer, TileLayerPosition, TileTexture,
};

fn layers(t: &TileTexture) -> Vec<TileLayer> {
    match t {
        TileTexture::Static(v) => v.clone(),
        TileTexture::Animated(_) => panic!("expected static layers"),
    }
}

#[test]
fn new_layer_is_empty() {
    let l = TileLayer::new();
    assert_eq!(l.texture_index, -1);
    assert_eq!(l.flip, 0);
}

#[test]
fn layer_texture_index_and_flip() {
    let l = TileLayer::new().with_texture_index(5).with_flip(TileFlip::Horizontal);
    assert_eq!(l.texture_index, 5);
    assert_eq!(l.flip, 1);
    let l = l.with_flip(TileFlip::Vertical);
    assert_eq!(l.flip, 3);
    let l = l.with_flip_raw(2);
    assert_eq!(l.flip, 2);
    assert_eq!(l.texture_index, 5);
}

#[test]
fn flip_bits_round_trip() {
    for v in 0..4u32 {
        assert_eq!(TileFlip::from_bits(v).bits(), v);
    }
    assert_eq!(TileFlip::Both.bits(), 3);
    assert_eq!(TileFlip::Unflipped.bits(), 0);
}

#[test]
fn builder_with_layer_pads_with_empty_layers() {
    let b = TileBuilder::new().with_layer(2, TileLayer::new().with_texture_index(7));
    let v = layers(&b.texture);
    assert_eq!(v.len(), 3);
    assert_eq!(v[0], TileLayer::new());
    assert_eq!(v[1], TileLayer::new());
    assert_eq!(v[2].texture_index, 7);
    let b = b.with_layer(0, TileLayer::new().with_texture_index(1));
    let v = layers(&b.texture);
    assert_eq!(v.len(), 3);
    assert_eq!(v[0].texture_index, 1);
}

#[test]
fn builder_animation_ignores_layers() {
    let anim = TileAnimation { start: 2, length: 4, fps: 10 };
    let b = TileBuilder::new().with_animation(anim).with_layer(0, TileLayer::new());
    match b.texture {
        TileTexture::Animated(a) => assert_eq!(a, anim),
        TileTexture::Static(_) => panic!("expected animation"),
    }
}

#[test]
fn layer_updates_top_bottom_index() {
    let a = TileLayer::new().with_texture_index(1);
    let b = TileLayer::new().with_texture_index(2);
    let c = TileLayer::new().with_texture_index(3);
    let mut t = TileTexture::Static(vec![a]);
    t.apply_layer_update(LayerUpdater { position: TileLayerPosition::Top, layer: b });
    assert_eq!(layers(&t), vec![a, b]);
    t.apply_layer_update(LayerUpdater { position: TileLayerPosition::Bottom, layer: c });
    assert_eq!(layers(&t), vec![c, a, b]);
    t.apply_layer_update(LayerUpdater { position: TileLayerPosition::Index(4), layer: a });
    assert_eq!(layers(&t), vec![c, a, b, TileLayer::new(), a]);
    t.apply_layer_update(LayerUpdater { position: TileLayerPosition::Index(1), layer: c });
    assert_eq!(layers(&t), vec![c, c, b, TileLayer::new(), a]);
}

#[test]
fn layer_update_leaves_animation() {
    let anim = TileAnimation { start: 0, length: 2, fps: 5 };
    let mut t = TileTexture::Animated(anim);
    t.apply_layer_update(LayerUpdater { position: TileLayerPosition::Top, layer: TileLayer::new() });
    match t {
        TileTexture::Animated(a) => assert_eq!(a, anim),
        TileTexture::Static(_) => panic!("expected animation"),
    }
}

#[test]
fn built_tile_keeps_texture_and_place() {
    let storage: ChunkedStorage<u64> = ChunkedStorage::new(16);
    let b = TileBuilder::new().with_layer(1, TileLayer::new().with_texture_index(4));
    let t = b.build_component(TileIndex::new(-1, 17), &storage, 42);
    assert_eq!(t.tilemap_id, 42);
    assert_eq!(t.index, TileIndex::new(-1, 17));
    assert_eq!(t.chunk_index, TileIndex::new(-1, 1));
    assert_eq!(t.in_chunk_index, 16 + 15);
    assert_eq!(layers(&t.texture), layers(&b.texture));
    let back = t.into_builder();
    assert_eq!(layers(&back.texture), vec![TileLayer::new(), TileLayer::new().with_texture_index(4)]);
}

#[test]
fn built_tile_keeps_animation() {
    let storage: ChunkedStorage<u64> = ChunkedStorage::new(8);
    let anim = TileAnimation { start: 1, length: 3, fps: 12 };
    let t = TileBuilder::new().with_animation(anim).build_component(TileIndex::new(0, 0), &storage, 0);
    match t.texture.duplicate() {
        TileTexture::Animated(a) => assert_eq!(a, anim),
        TileTexture::Static(_) => panic!("expected animation"),
    }
}
