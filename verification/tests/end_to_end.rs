use tiled_scene::document::{
    Document, FiniteTileLayer, Layer, LayerTile, LayerType, Orientation, TileLayer, Tileset,
};
use tiled_scene::loader::TiledLoader;
use tiled_scene::reconcile::{process_loaded_maps, AssetEvent, AssetId, Assets, Command, World};
use tiled_scene::scene::Entity;

fn tile(id: u32) -> Option<LayerTile> {
    Some(LayerTile { tileset_index: 0, id, flip_h: false, flip_v: false, flip_d: false })
}

fn two_by_two() -> Document {
    Document {
        width: 2,
        height: 2,
        tile_width: 16,
        tile_height: 16,
        orientation: Orientation::Orthogonal,
        tilesets: vec![Tileset {
            tile_width: 16,
            tile_height: 16,
            spacing: 0,
            image: Some(String::from("tiles.png")),
            tiles: vec![],
        }],
        layers: vec![Layer {
            layer_type: LayerType::Tiles(TileLayer::Finite(FiniteTileLayer {
                width: 2,
                height: 2,
                tiles: vec![tile(0), tile(1), tile(2), tile(3)],
            })),
        }],
    }
}

#[test]
fn two_by_two_map_builds_one_group_and_removal_leaves_nothing() {
    let id = AssetId::Index(7);
    let loaded = TiledLoader::new().load(Ok(two_by_two()), Some(String::from("maps"))).unwrap();
    let mut assets = Assets::new();
    assets.maps.push((id, &loaded));
    let mut world = World::new();
    let instance = world.spawn(id);
    let commands = process_loaded_maps(&mut world, &vec![AssetEvent::Added { id }], &assets);

    let storage = &world.get(instance).unwrap().storage.storage;
    assert_eq!(storage.len(), 1);
    let group = &storage[0];
    assert_eq!(group.tiles.len(), 4);
    let mut placed: Vec<(u32, (u32, u32))> =
        group.tiles.iter().map(|t| (t.tile.texture_index, (t.tile.x, t.tile.y))).collect();
    placed.sort();
    assert_eq!(placed, vec![(0, (0, 1)), (1, (1, 1)), (2, (0, 0)), (3, (1, 0))]);
    assert_eq!(commands.len(), 5);
    assert!(matches!(commands[0], Command::SpawnGroup { entity: Entity(0), .. }));

    assets.maps.clear();
    let commands = process_loaded_maps(&mut world, &vec![AssetEvent::Removed { id }], &assets);
    assert_eq!(commands, vec![Command::DespawnRecursive { entity: Entity(0) }]);
    assert!(world.get(instance).unwrap().storage.storage.is_empty());
    for e in 0..world.entity_count() {
        assert!(!world.is_alive(Entity(e)));
    }
}
