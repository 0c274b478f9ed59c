use tiled_scene::document::{
    Document, FiniteTileLayer, Layer, LayerTile, LayerType, Orientation, TileLayer, Tileset,
    TilesetTile,
};
use tiled_scene::scene::{Addressing, Entities, Entity, Tile, TileGroup, TilemapType};
use tiled_scene::synthesis::{spawn_tile_groups, tilemap_type};
use tiled_scene::texture::{ImageHandle, TilemapTexture};
use tiled_scene::{TiledLoader, TiledMap};

fn shared(source: &str, tile_width: u32, tile_height: u32, spacing: u32) -> Tileset {
    Tileset { tile_width, tile_height, spacing, image: Some(String::from(source)), tiles: vec![] }
}

fn collection(ids: &[u32]) -> Tileset {
    Tileset {
        tile_width: 32,
        tile_height: 32,
        spacing: 0,
        image: None,
        tiles: ids
            .iter()
            .map(|id| TilesetTile { id: *id, image: Some(format!("tile{}.png", id)) })
            .collect(),
    }
}

fn plain(tileset_index: usize, id: u32) -> Option<LayerTile> {
    Some(LayerTile { tileset_index, id, flip_h: false, flip_v: false, flip_d: false })
}

fn grid(width: u32, height: u32, tiles: Vec<Option<LayerTile>>) -> Layer {
    Layer {
        layer_type: LayerType::Tiles(TileLayer::Finite(FiniteTileLayer { width, height, tiles })),
    }
}

fn map_of(
    width: u32,
    height: u32,
    orientation: Orientation,
    tilesets: Vec<Tileset>,
    layers: Vec<Layer>,
) -> TiledMap {
    let document =
        Document { width, height, tile_width: 20, tile_height: 10, orientation, tilesets, layers };
    TiledLoader::new().load(Ok(document), Some(String::from("maps"))).unwrap()
}

fn build(map: &TiledMap) -> Vec<TileGroup> {
    assert!(map.is_consistent());
    spawn_tile_groups(map, &mut Entities::new())
}

fn find(group: &TileGroup, x: u32, y: u32) -> Option<Tile> {
    group.tiles.iter().map(|t| t.tile).find(|t| t.x == x && t.y == y)
}

#[test]
fn rows_are_counted_from_the_other_end() {
    let map = map_of(
        1,
        3,
        Orientation::Orthogonal,
        vec![shared("a.png", 16, 16, 0)],
        vec![grid(1, 3, vec![plain(0, 40), None, plain(0, 42)])],
    );
    let groups = build(&map);
    assert_eq!(groups.len(), 1);
    assert_eq!(groups[0].tiles.len(), 2);
    assert_eq!(find(&groups[0], 0, 2).map(|t| t.texture_index), Some(40));
    assert_eq!(find(&groups[0], 0, 0).map(|t| t.texture_index), Some(42));
    assert_eq!(find(&groups[0], 0, 1), None);
    assert_eq!(groups[0].get(0, 2).map(|t| (t.entity, t.tile.texture_index)), Some((Entity(2), 40)));
    assert_eq!(groups[0].get(0, 0).map(|t| (t.entity, t.tile.texture_index)), Some((Entity(1), 42)));
    assert_eq!(groups[0].get(0, 1), None);
    assert_eq!(groups[0].get(1, 0), None);
}

#[test]
fn columns_stay_and_flip_flags_are_carried_over() {
    let flipped = Some(LayerTile {
        tileset_index: 0,
        id: 9,
        flip_h: true,
        flip_v: false,
        flip_d: true,
    });
    let map = map_of(
        3,
        2,
        Orientation::Orthogonal,
        vec![shared("a.png", 16, 16, 0)],
        vec![grid(3, 2, vec![None, None, flipped, plain(0, 1), None, None])],
    );
    let groups = build(&map);
    assert_eq!(groups[0].tiles.len(), 2);
    assert_eq!(
        find(&groups[0], 2, 1),
        Some(Tile { x: 2, y: 1, texture_index: 9, flip_x: true, flip_y: false, flip_d: true })
    );
    assert_eq!(
        find(&groups[0], 0, 0),
        Some(Tile { x: 0, y: 0, texture_index: 1, flip_x: false, flip_y: false, flip_d: false })
    );
}

#[test]
fn tiles_are_spawned_column_by_column_after_their_root() {
    let map = map_of(
        2,
        2,
        Orientation::Orthogonal,
        vec![shared("a.png", 16, 16, 0)],
        vec![grid(2, 2, vec![plain(0, 0), plain(0, 1), plain(0, 2), plain(0, 3)])],
    );
    let mut entities = Entities::new();
    entities.spawn();
    entities.spawn();
    let groups = spawn_tile_groups(&map, &mut entities);
    assert_eq!(groups.len(), 1);
    assert_eq!(groups[0].entity, Entity(2));
    let spawned: Vec<(Entity, Entity, u32, u32, u32)> = groups[0]
        .tiles
        .iter()
        .map(|t| (t.entity, t.tilemap_id, t.tile.x, t.tile.y, t.tile.texture_index))
        .collect();
    assert_eq!(
        spawned,
        vec![
            (Entity(3), Entity(2), 0, 0, 2),
            (Entity(4), Entity(2), 0, 1, 0),
            (Entity(5), Entity(2), 1, 0, 3),
            (Entity(6), Entity(2), 1, 1, 1),
        ]
    );
    assert_eq!(entities.len(), 7);
    for e in 0..7 {
        assert!(entities.is_alive(Entity(e)));
    }
    assert!(!entities.is_alive(Entity(7)));
}

#[test]
fn a_layer_is_split_by_tileset() {
    let map = map_of(
        2,
        2,
        Orientation::Orthogonal,
        vec![shared("a.png", 16, 16, 0), shared("b.png", 8, 8, 2)],
        vec![
            grid(2, 2, vec![plain(0, 1), plain(1, 5), None, plain(0, 2)]),
            grid(2, 2, vec![None, None, plain(1, 6), None]),
            grid(2, 2, vec![None, None, None, None]),
        ],
    );
    let groups = build(&map);
    let keys: Vec<(usize, usize, usize)> =
        groups.iter().map(|g| (g.tileset_index, g.layer_index, g.tiles.len())).collect();
    assert_eq!(keys, vec![(0, 0, 2), (1, 0, 1), (1, 1, 1)]);
    assert_eq!(find(&groups[0], 0, 1).map(|t| t.texture_index), Some(1));
    assert_eq!(find(&groups[0], 1, 0).map(|t| t.texture_index), Some(2));
    assert_eq!(find(&groups[0], 1, 1), None);
    assert_eq!(find(&groups[1], 1, 1).map(|t| t.texture_index), Some(5));
    assert_eq!(find(&groups[2], 0, 0).map(|t| t.texture_index), Some(6));
    let roots: Vec<Entity> = groups.iter().map(|g| g.entity).collect();
    assert_eq!(roots, vec![Entity(0), Entity(3), Entity(5)]);
}

#[test]
fn grid_metadata_comes_from_document_and_tileset() {
    let map = map_of(
        4,
        3,
        Orientation::Staggered,
        vec![shared("a.png", 16, 18, 2)],
        vec![grid(4, 3, vec![plain(0, 0)])],
    );
    let groups = build(&map);
    let metadata = groups[0].metadata;
    assert_eq!((metadata.width, metadata.height), (4, 3));
    assert_eq!((metadata.grid_width, metadata.grid_height), (20, 10));
    assert_eq!((metadata.tile_width, metadata.tile_height), (16, 18));
    assert_eq!(metadata.spacing, 2);
    assert_eq!(metadata.map_type, TilemapType::IsometricStaggered);
    assert_eq!(metadata.addressing, Addressing::Single);
    assert_eq!(find(&groups[0], 0, 2).map(|t| t.texture_index), Some(0));
}

#[test]
fn orientations_map_to_coordinate_systems() {
    assert_eq!(tilemap_type(Orientation::Orthogonal), TilemapType::Square);
    assert_eq!(tilemap_type(Orientation::Isometric), TilemapType::IsometricDiamond);
    assert_eq!(tilemap_type(Orientation::Staggered), TilemapType::IsometricStaggered);
    assert_eq!(tilemap_type(Orientation::Hexagonal), TilemapType::HexagonRow);
}

#[test]
fn vector_bound_tiles_are_addressed_by_offset() {
    let map = map_of(
        2,
        1,
        Orientation::Hexagonal,
        vec![collection(&[5, 2, 9])],
        vec![grid(2, 1, vec![plain(0, 9), plain(0, 5)])],
    );
    let groups = build(&map);
    assert_eq!(groups.len(), 1);
    assert_eq!(groups[0].metadata.addressing, Addressing::Vector);
    assert_eq!(groups[0].metadata.map_type, TilemapType::HexagonRow);
    assert_eq!(find(&groups[0], 0, 0).map(|t| t.texture_index), Some(2));
    assert_eq!(find(&groups[0], 1, 0).map(|t| t.texture_index), Some(0));
}

#[test]
fn layers_that_are_no_finite_tile_layers_are_skipped() {
    let map = map_of(
        1,
        1,
        Orientation::Orthogonal,
        vec![shared("a.png", 16, 16, 0)],
        vec![
            Layer { layer_type: LayerType::Objects },
            Layer { layer_type: LayerType::Tiles(TileLayer::Infinite) },
            grid(1, 1, vec![plain(0, 3)]),
            Layer { layer_type: LayerType::Image },
            Layer { layer_type: LayerType::Group },
        ],
    );
    let groups = build(&map);
    assert_eq!(groups.len(), 1);
    assert_eq!(groups[0].layer_index, 2);
}

#[test]
fn a_tileset_without_binding_has_no_groups() {
    let document = Document {
        width: 1,
        height: 1,
        tile_width: 16,
        tile_height: 16,
        orientation: Orientation::Orthogonal,
        tilesets: vec![collection(&[0]), shared("a.png", 16, 16, 0)],
        layers: vec![grid(1, 1, vec![plain(0, 0)]), grid(1, 1, vec![plain(1, 0)])],
    };
    let map = TiledLoader { atlas: true }.load(Ok(document), Some(String::from("maps"))).unwrap();
    assert_eq!(map.tilemap_textures.get(0), None);
    assert_eq!(
        map.tilemap_textures.get(1),
        Some(&TilemapTexture::Single(ImageHandle { index: 0 }))
    );
    let groups = build(&map);
    assert_eq!(groups.len(), 1);
    assert_eq!((groups[0].tileset_index, groups[0].layer_index), (1, 1));
}

#[test]
fn cells_outside_the_grid_of_the_document_are_not_placed() {
    let map = map_of(
        1,
        1,
        Orientation::Orthogonal,
        vec![shared("a.png", 16, 16, 0)],
        vec![grid(2, 2, vec![plain(0, 1), plain(0, 2), plain(0, 3), plain(0, 4)])],
    );
    let groups = build(&map);
    assert_eq!(groups[0].tiles.len(), 1);
    assert_eq!(
        find(&groups[0], 0, 0),
        Some(Tile { x: 0, y: 0, texture_index: 1, flip_x: false, flip_y: false, flip_d: false })
    );
}

#[test]
fn a_map_without_tiles_has_no_groups() {
    let map = map_of(
        2,
        2,
        Orientation::Orthogonal,
        vec![shared("a.png", 16, 16, 0)],
        vec![grid(2, 2, vec![None, None, None, None])],
    );
    let mut entities = Entities::new();
    assert!(spawn_tile_groups(&map, &mut entities).is_empty());
    assert_eq!(entities.len(), 0);
}

#[test]
fn despawned_entities_are_not_alive_and_identities_are_not_reused() {
    let mut entities = Entities::new();
    let a = entities.spawn();
    let b = entities.spawn();
    assert_eq!((a, b), (Entity(0), Entity(1)));
    entities.despawn(a);
    entities.despawn(Entity(17));
    assert!(!entities.is_alive(a));
    assert!(entities.is_alive(b));
    assert_eq!(entities.spawn(), Entity(2));
    assert_eq!(entities.len(), 3);
}
