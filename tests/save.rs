use entitiles::save::{TilemapLayer, TilemapSaverBuilder};

#[test]
fn saver_builder_defaults() {
    let s = TilemapSaverBuilder::new("maps/".to_string(), "level".to_string()).build();
    assert_eq!(s.path, "maps/");
    assert_eq!(s.map_name, "level");
    assert_eq!(s.texture_path, None);
    assert_eq!(s.layers, 1);
    assert!(!s.remove_map_after_done);
    assert!(s.saves_layer(TilemapLayer::Texture));
    assert!(!s.saves_layer(TilemapLayer::Algorithm));
}

#[test]
fn saver_builder_settings() {
    let s = TilemapSaverBuilder::new("a/".to_string(), "b".to_string())
        .with_layer(TilemapLayer::Texture)
        .with_layer(TilemapLayer::Algorithm)
        .with_texture("tex.png".to_string())
        .remove_map_after_done()
        .build();
    assert_eq!(s.layers, 3);
    assert_eq!(s.texture_path, Some("tex.png".to_string()));
    assert!(s.remove_map_after_done);
    assert!(s.saves_layer(TilemapLayer::Texture));
    assert!(s.saves_layer(TilemapLayer::Algorithm));
}

#[test]
fn saver_single_layer() {
    let s = TilemapSaverBuilder::new(String::new(), String::new()).with_layer(TilemapLayer::Algorithm).build();
    assert_eq!(s.layers, 3);
    assert!(s.saves_layer(TilemapLayer::Texture));
    assert!(s.saves_layer(TilemapLayer::Algorithm));
}
