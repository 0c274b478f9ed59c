use tiled_scene::document::{
    Document, FiniteTileLayer, Layer, LayerTile, LayerType, Orientation, TileLayer, Tileset,
};
use tiled_scene::reconcile::{
    change_of, AssetEvent, AssetId, Assets, Command, Lifecycle, World,
};
use tiled_scene::scene::{Entity, Tile};
use tiled_scene::{process_loaded_maps, TiledLayersStorage, TiledMap, TiledLoader};

fn plain(tileset_index: usize, id: u32) -> Option<LayerTile> {
    Some(LayerTile { tileset_index, id, flip_h: false, flip_v: false, flip_d: false })
}

fn level(tiles: Vec<Option<LayerTile>>) -> TiledMap {
    let document = Document {
        width: 2,
        height: 1,
        tile_width: 16,
        tile_height: 16,
        orientation: Orientation::Orthogonal,
        tilesets: vec![
            Tileset {
                tile_width: 16,
                tile_height: 16,
                spacing: 0,
                image: Some(String::from("a.png")),
                tiles: vec![],
            },
            Tileset {
                tile_width: 16,
                tile_height: 16,
                spacing: 0,
                image: Some(String::from("b.png")),
                tiles: vec![],
            },
        ],
        layers: vec![Layer {
            layer_type: LayerType::Tiles(TileLayer::Finite(FiniteTileLayer {
                width: 2,
                height: 1,
                tiles,
            })),
        }],
    };
    TiledLoader::new().load(Ok(document), Some(String::from("maps"))).unwrap()
}

fn store<'a>(maps: &[(AssetId, &'a TiledMap)]) -> Assets<'a> {
    let mut assets = Assets::new();
    for (id, map) in maps {
        assert!(map.is_consistent());
        assets.maps.push((*id, *map));
    }
    assets
}

fn shapes(storage: &TiledLayersStorage) -> Vec<(usize, usize, Vec<Tile>)> {
    storage
        .storage
        .iter()
        .map(|g| (g.layer_index, g.tileset_index, g.tiles.iter().map(|t| t.tile).collect()))
        .collect()
}

fn alive(world: &World) -> Vec<usize> {
    (0..world.entity_count()).filter(|e| world.is_alive(Entity(*e))).collect()
}

const A: AssetId = AssetId::Index(1);
const B: AssetId = AssetId::Uuid(0xfeed);

#[test]
fn a_removal_after_a_modification_leaves_the_registry_empty() {
    let map = level(vec![plain(0, 1), plain(0, 2)]);
    let mut world = World::new();
    let instance = world.spawn(A);
    process_loaded_maps(&mut world, &vec![AssetEvent::Added { id: A }], &store(&[(A, &map)]));
    assert_eq!(world.get(instance).unwrap().storage.len(), 1);

    let batch = vec![AssetEvent::Modified { id: A }, AssetEvent::Removed { id: A }];
    let commands = process_loaded_maps(&mut world, &batch, &store(&[(A, &map)]));
    assert!(world.get(instance).unwrap().storage.is_empty());
    assert_eq!(commands, vec![Command::DespawnRecursive { entity: Entity(0) }]);
    assert_eq!(alive(&world), Vec::<usize>::new());
}

#[test]
fn what_follows_a_removal_counts() {
    let map = level(vec![plain(0, 1), None]);
    let mut world = World::new();
    let instance = world.spawn(A);
    let batch = vec![AssetEvent::Removed { id: A }, AssetEvent::Modified { id: A }];
    process_loaded_maps(&mut world, &batch, &store(&[(A, &map)]));
    assert_eq!(world.get(instance).unwrap().storage.len(), 1);
    assert_eq!(change_of(&batch, A), Some(Lifecycle::Changed));
}

#[test]
fn the_last_event_of_a_map_decides() {
    let added = AssetEvent::Added { id: A };
    let modified = AssetEvent::Modified { id: A };
    let removed = AssetEvent::Removed { id: A };
    let other = AssetEvent::Removed { id: B };
    assert_eq!(change_of(&vec![], A), None);
    assert_eq!(change_of(&vec![added], A), Some(Lifecycle::Changed));
    assert_eq!(change_of(&vec![modified], A), Some(Lifecycle::Changed));
    assert_eq!(change_of(&vec![removed], A), Some(Lifecycle::Removed));
    assert_eq!(change_of(&vec![added, modified, removed], A), Some(Lifecycle::Removed));
    assert_eq!(change_of(&vec![removed, added], A), Some(Lifecycle::Changed));
    assert_eq!(change_of(&vec![added, other], A), Some(Lifecycle::Changed));
    assert_eq!(change_of(&vec![added, other], B), Some(Lifecycle::Removed));
    assert_eq!(change_of(&vec![AssetEvent::Unused { id: A }], A), None);
    assert_eq!(change_of(&vec![AssetEvent::LoadedWithDependencies { id: A }], A), None);
    assert_eq!(
        change_of(&vec![removed, AssetEvent::Unused { id: A }], A),
        Some(Lifecycle::Removed)
    );
}

#[test]
fn rebuilding_twice_gives_the_same_groups_under_new_identities() {
    let map = level(vec![plain(0, 1), plain(1, 2)]);
    let mut world = World::new();
    let instance = world.spawn(A);
    let assets = store(&[(A, &map)]);
    process_loaded_maps(&mut world, &vec![AssetEvent::Added { id: A }], &assets);
    let first = shapes(&world.get(instance).unwrap().storage);
    let first_roots: Vec<Entity> =
        world.get(instance).unwrap().storage.storage.iter().map(|g| g.entity).collect();
    let commands = process_loaded_maps(&mut world, &vec![AssetEvent::Modified { id: A }], &assets);
    let second = shapes(&world.get(instance).unwrap().storage);
    let second_roots: Vec<Entity> =
        world.get(instance).unwrap().storage.storage.iter().map(|g| g.entity).collect();
    assert_eq!(first, second);
    assert_eq!(first.len(), 2);
    assert_eq!(first_roots, vec![Entity(0), Entity(2)]);
    assert_eq!(second_roots, vec![Entity(4), Entity(6)]);
    assert_eq!(alive(&world), vec![4, 5, 6, 7]);
    assert_eq!(
        &commands[..2],
        &[
            Command::DespawnRecursive { entity: Entity(0) },
            Command::DespawnRecursive { entity: Entity(2) },
        ]
    );
    assert_eq!(commands.len(), 6);
}

#[test]
fn a_new_instance_is_built_without_any_event() {
    let map = level(vec![plain(1, 7), None]);
    let mut world = World::new();
    let instance = world.spawn(B);
    let commands = process_loaded_maps(&mut world, &vec![], &store(&[(B, &map)]));
    let storage = &world.get(instance).unwrap().storage;
    assert_eq!(storage.get(0, 1), Some(Entity(0)));
    assert_eq!(storage.get(0, 0), None);
    assert_eq!(storage.get(1, 1), None);
    assert_eq!(commands.len(), 2);
    match commands[0] {
        Command::SpawnGroup { entity, instance: of, layer_index, tileset_index, metadata } => {
            assert_eq!((entity, of, layer_index, tileset_index), (Entity(0), instance, 0, 1));
            assert_eq!((metadata.width, metadata.height), (2, 1));
        }
        _ => panic!("the root of the group comes first"),
    }
    match commands[1] {
        Command::SpawnTile { tile } => {
            assert_eq!((tile.entity, tile.tilemap_id), (Entity(1), Entity(0)));
            assert_eq!((tile.tile.x, tile.tile.y, tile.tile.texture_index), (0, 0, 7));
        }
        _ => panic!("the tile follows its root"),
    }
    let again = process_loaded_maps(&mut world, &vec![], &store(&[(B, &map)]));
    assert!(again.is_empty());
    assert_eq!(world.get(instance).unwrap().storage.len(), 1);
}

#[test]
fn a_new_instance_waits_for_its_map() {
    let map = level(vec![plain(0, 1), None]);
    let mut world = World::new();
    let instance = world.spawn(A);
    assert!(process_loaded_maps(&mut world, &vec![], &store(&[])).is_empty());
    assert!(world.get(instance).unwrap().storage.is_empty());
    assert!(process_loaded_maps(&mut world, &vec![], &store(&[(A, &map)])).is_empty());
    assert!(world.get(instance).unwrap().storage.is_empty());
    let commands =
        process_loaded_maps(&mut world, &vec![AssetEvent::Added { id: A }], &store(&[(A, &map)]));
    assert_eq!(commands.len(), 2);
    assert_eq!(world.get(instance).unwrap().storage.len(), 1);
}

#[test]
fn only_instances_of_the_changed_map_are_rebuilt() {
    let first = level(vec![plain(0, 1), None]);
    let second = level(vec![plain(0, 2), plain(0, 3)]);
    let mut world = World::new();
    let one = world.spawn(A);
    let two = world.spawn(B);
    let three = world.spawn(A);
    let assets = store(&[(A, &first), (B, &second)]);
    process_loaded_maps(&mut world, &vec![], &assets);
    assert_eq!(world.len(), 3);
    assert_eq!(world.get(one).unwrap().storage.get(0, 0), Some(Entity(0)));
    assert_eq!(world.get(two).unwrap().storage.get(0, 0), Some(Entity(2)));
    assert_eq!(world.get(three).unwrap().storage.get(0, 0), Some(Entity(5)));
    assert_eq!(world.entity_count(), 7);

    let commands = process_loaded_maps(&mut world, &vec![AssetEvent::Modified { id: A }], &assets);
    assert_eq!(world.get(one).unwrap().storage.get(0, 0), Some(Entity(7)));
    assert_eq!(world.get(two).unwrap().storage.get(0, 0), Some(Entity(2)));
    assert_eq!(world.get(three).unwrap().storage.get(0, 0), Some(Entity(9)));
    assert_eq!(world.get(one).unwrap().tiled_map, A);
    assert_eq!(world.get(two).unwrap().tiled_map, B);
    assert_eq!(alive(&world), vec![2, 3, 4, 7, 8, 9, 10]);
    assert_eq!(commands.len(), 6);
    assert_eq!(commands[0], Command::DespawnRecursive { entity: Entity(0) });
    assert_eq!(commands[3], Command::DespawnRecursive { entity: Entity(5) });
    assert!(world.get(3).is_none());
}

#[test]
fn a_reloaded_map_replaces_the_groups() {
    let before = level(vec![plain(0, 1), plain(1, 2)]);
    let after = level(vec![None, plain(1, 9)]);
    let mut world = World::new();
    let instance = world.spawn(A);
    process_loaded_maps(&mut world, &vec![AssetEvent::Added { id: A }], &store(&[(A, &before)]));
    assert_eq!(world.get(instance).unwrap().storage.len(), 2);
    process_loaded_maps(
        &mut world,
        &vec![AssetEvent::Modified { id: A }],
        &store(&[(A, &before), (A, &after)]),
    );
    let storage = &world.get(instance).unwrap().storage;
    assert_eq!(
        shapes(storage),
        vec![(
            0,
            1,
            vec![Tile {
                x: 1,
                y: 0,
                texture_index: 9,
                flip_x: false,
                flip_y: false,
                flip_d: false
            }]
        )]
    );
    assert_eq!(storage.get(0, 0), None);
    assert_eq!(alive(&world), vec![4, 5]);
}

#[test]
fn a_changed_map_that_no_longer_resolves_leaves_the_registry_empty() {
    let map = level(vec![plain(0, 1), None]);
    let mut world = World::new();
    let instance = world.spawn(A);
    process_loaded_maps(&mut world, &vec![], &store(&[(A, &map)]));
    let commands =
        process_loaded_maps(&mut world, &vec![AssetEvent::Modified { id: A }], &store(&[]));
    assert_eq!(commands, vec![Command::DespawnRecursive { entity: Entity(0) }]);
    assert!(world.get(instance).unwrap().storage.is_empty());
    assert!(alive(&world).is_empty());
}

#[test]
fn the_later_of_two_maps_under_one_identity_resolves() {
    let old = level(vec![plain(0, 1), None]);
    let new = level(vec![plain(0, 2), None]);
    let assets = store(&[(A, &old), (B, &old), (A, &new)]);
    assert_eq!(assets.get(A).unwrap().map.layers, new.map.layers);
    assert_eq!(assets.get(B).unwrap().map.layers, old.map.layers);
    assert!(assets.get(AssetId::Index(99)).is_none());
    assert!(Assets::new().get(A).is_none());
}

#[test]
fn an_empty_scene_has_nothing_to_reconcile() {
    let mut world = World::new();
    assert_eq!(world.len(), 0);
    assert_eq!(world.entity_count(), 0);
    assert!(world.get(0).is_none());
    assert!(!world.is_alive(Entity(0)));
    assert!(process_loaded_maps(&mut world, &vec![AssetEvent::Added { id: A }], &store(&[]))
        .is_empty());
    let registry = TiledLayersStorage::new();
    assert_eq!(registry, TiledLayersStorage::default());
    assert!(registry.is_empty());
    assert_eq!(registry.len(), 0);
    assert_eq!(registry.get(0, 0), None);
}
