use tiled_scene::document::{
    Document, FiniteTileLayer, Layer, LayerTile, LayerType, Orientation, TileLayer, Tileset,
    TilesetTile,
};
use tiled_scene::texture::{
    resolve_texture, ImageHandle, TileImageOffsets, TilemapTexture, TilemapTextures,
};
use tiled_scene::{TiledAssetLoaderError, TiledLoader, TiledMap};

fn image_tile(id: u32, source: &str) -> TilesetTile {
    TilesetTile { id, image: Some(String::from(source)) }
}

fn bare_tile(id: u32) -> TilesetTile {
    TilesetTile { id, image: None }
}

fn atlas_tileset(source: &str) -> Tileset {
    Tileset {
        tile_width: 16,
        tile_height: 16,
        spacing: 1,
        image: Some(String::from(source)),
        tiles: vec![],
    }
}

fn collection_tileset(tiles: Vec<TilesetTile>) -> Tileset {
    Tileset { tile_width: 32, tile_height: 24, spacing: 0, image: None, tiles }
}

fn document(tilesets: Vec<Tileset>, layers: Vec<Layer>) -> Document {
    Document {
        width: 2,
        height: 2,
        tile_width: 16,
        tile_height: 16,
        orientation: Orientation::Orthogonal,
        tilesets,
        layers,
    }
}

fn cell(tileset_index: usize, id: u32) -> Option<LayerTile> {
    Some(LayerTile { tileset_index, id, flip_h: false, flip_v: false, flip_d: false })
}

fn finite(tiles: Vec<Option<LayerTile>>) -> Layer {
    Layer {
        layer_type: LayerType::Tiles(TileLayer::Finite(FiniteTileLayer {
            width: 2,
            height: 2,
            tiles,
        })),
    }
}

fn load(tilesets: Vec<Tileset>, layers: Vec<Layer>) -> TiledMap {
    TiledLoader::new()
        .load(Ok(document(tilesets, layers)), Some(String::from("levels")))
        .unwrap()
}

#[test]
fn vector_offsets_follow_the_order_of_the_tiles() {
    let tileset = collection_tileset(vec![
        image_tile(5, "five.png"),
        image_tile(2, "two.png"),
        image_tile(9, "nine.png"),
        bare_tile(7),
    ]);
    let map = load(vec![tileset], vec![]);
    assert_eq!(map.tile_image_offsets.get(0, 5), Some(0));
    assert_eq!(map.tile_image_offsets.get(0, 2), Some(1));
    assert_eq!(map.tile_image_offsets.get(0, 9), Some(2));
    assert_eq!(map.tile_image_offsets.get(0, 7), None);
    assert_eq!(
        map.tilemap_textures.get(0),
        Some(&TilemapTexture::Vector(vec![
            ImageHandle { index: 0 },
            ImageHandle { index: 1 },
            ImageHandle { index: 2 },
        ]))
    );
    assert_eq!(
        map.images,
        vec![String::from("five.png"), String::from("two.png"), String::from("nine.png")]
    );
}

#[test]
fn offsets_are_kept_apart_by_tileset() {
    let first = collection_tileset(vec![image_tile(1, "a.png"), image_tile(3, "b.png")]);
    let second = collection_tileset(vec![image_tile(3, "c.png"), image_tile(1, "d.png")]);
    let map = load(vec![first, second], vec![]);
    assert_eq!(map.tile_image_offsets.get(0, 1), Some(0));
    assert_eq!(map.tile_image_offsets.get(0, 3), Some(1));
    assert_eq!(map.tile_image_offsets.get(1, 3), Some(0));
    assert_eq!(map.tile_image_offsets.get(1, 1), Some(1));
    assert_eq!(map.tile_image_offsets.get(2, 1), None);
    assert_eq!(
        map.tilemap_textures.get(1),
        Some(&TilemapTexture::Vector(vec![ImageHandle { index: 2 }, ImageHandle { index: 3 }]))
    );
}

#[test]
fn shared_image_gives_a_single_binding_and_one_request() {
    let map = load(
        vec![atlas_tileset("ground.png"), atlas_tileset("walls.png")],
        vec![finite(vec![cell(0, 4), None, cell(1, 0), None])],
    );
    assert_eq!(
        map.tilemap_textures.get(0),
        Some(&TilemapTexture::Single(ImageHandle { index: 0 }))
    );
    assert_eq!(
        map.tilemap_textures.get(1),
        Some(&TilemapTexture::Single(ImageHandle { index: 1 }))
    );
    assert_eq!(map.tilemap_textures.get(2), None);
    assert_eq!(map.images, vec![String::from("ground.png"), String::from("walls.png")]);
    assert_eq!(map.tile_image_offsets.get(0, 4), None);
    assert_eq!(map.directory, Some(String::from("levels")));
    assert_eq!(map.map.layers.len(), 1);
    assert!(map.is_consistent());
}

#[test]
fn mixed_tilesets_share_one_list_of_requests() {
    let map = load(
        vec![
            atlas_tileset("ground.png"),
            collection_tileset(vec![bare_tile(0), image_tile(1, "tree.png")]),
            atlas_tileset("walls.png"),
        ],
        vec![],
    );
    assert_eq!(
        map.images,
        vec![String::from("ground.png"), String::from("tree.png"), String::from("walls.png")]
    );
    assert_eq!(
        map.tilemap_textures.get(1),
        Some(&TilemapTexture::Vector(vec![ImageHandle { index: 1 }]))
    );
    assert_eq!(
        map.tilemap_textures.get(2),
        Some(&TilemapTexture::Single(ImageHandle { index: 2 }))
    );
    assert_eq!(map.tile_image_offsets.get(1, 1), Some(0));
    assert_eq!(map.tile_image_offsets.get(1, 0), None);
}

#[test]
fn atlas_mode_skips_image_collections() {
    let loader = TiledLoader { atlas: true };
    let map = loader
        .load(
            Ok(document(
                vec![
                    collection_tileset(vec![image_tile(0, "tree.png")]),
                    atlas_tileset("ground.png"),
                ],
                vec![],
            )),
            Some(String::from("levels")),
        )
        .unwrap();
    assert_eq!(map.tilemap_textures.get(0), None);
    assert_eq!(
        map.tilemap_textures.get(1),
        Some(&TilemapTexture::Single(ImageHandle { index: 0 }))
    );
    assert_eq!(map.images, vec![String::from("ground.png")]);
    assert_eq!(map.tile_image_offsets.get(0, 0), None);
}

#[test]
fn a_repeated_tile_id_keeps_its_last_position() {
    let map = load(
        vec![collection_tileset(vec![
            image_tile(4, "a.png"),
            image_tile(6, "b.png"),
            image_tile(4, "c.png"),
        ])],
        vec![],
    );
    assert_eq!(map.tile_image_offsets.get(0, 4), Some(2));
    assert_eq!(map.tile_image_offsets.get(0, 6), Some(1));
    assert_eq!(map.images.len(), 3);
}

#[test]
fn read_failure_is_handed_on() {
    let error = TiledAssetLoaderError::Io(String::from("unexpected end of file"));
    let loaded = TiledLoader::new().load(Err(error.clone()), Some(String::from("levels")));
    assert_eq!(loaded.err(), Some(error));
}

#[test]
fn parse_failure_is_handed_on() {
    let error = TiledAssetLoaderError::Parse(String::from("missing attribute"));
    let loaded = TiledLoader::new().load(Err(error.clone()), None);
    assert_eq!(loaded.err(), Some(error));
}

#[test]
fn an_image_cannot_be_resolved_without_a_directory() {
    let loaded = TiledLoader::new().load(Ok(document(vec![atlas_tileset("ground.png")], vec![])), None);
    assert_eq!(loaded.err(), Some(TiledAssetLoaderError::MissingParentPath));
}

#[test]
fn a_document_without_images_needs_no_directory() {
    let loaded = TiledLoader::new()
        .load(Ok(document(vec![collection_tileset(vec![bare_tile(0)])], vec![])), None)
        .unwrap();
    assert!(loaded.images.is_empty());
    assert_eq!(loaded.directory, None);
    assert_eq!(loaded.tilemap_textures.get(0), Some(&TilemapTexture::Vector(vec![])));
}

#[test]
fn error_messages_name_the_cause() {
    assert_eq!(
        TiledAssetLoaderError::Io(String::from("disk on fire")).message(),
        "Could not load Tiled file: disk on fire"
    );
    assert_eq!(
        TiledAssetLoaderError::Parse(String::from("bad xml")).message(),
        "Could not load Tiled file: Could not load TMX map: bad xml"
    );
    assert_eq!(
        TiledAssetLoaderError::MissingParentPath.message(),
        "Could not load Tiled file: the document's path has no parent directory"
    );
}

#[test]
fn the_loader_accepts_tmx_documents() {
    assert_eq!(TiledLoader::new().extensions(), vec!["tmx"]);
    assert!(!TiledLoader::new().atlas);
    assert_eq!(TiledLoader::default(), TiledLoader::new());
}

#[test]
fn resolving_one_tileset_adds_to_what_was_resolved() {
    let mut textures = TilemapTextures::new();
    let mut offsets = TileImageOffsets::new();
    let mut images = vec![String::from("earlier.png")];
    offsets.insert(0, 8, 3);
    let tileset = collection_tileset(vec![image_tile(8, "x.png"), bare_tile(1), image_tile(2, "y.png")]);
    resolve_texture(1, &tileset, false, &mut textures, &mut offsets, &mut images);
    assert_eq!(
        textures.get(1),
        Some(&TilemapTexture::Vector(vec![ImageHandle { index: 1 }, ImageHandle { index: 2 }]))
    );
    assert_eq!(textures.get(0), None);
    assert_eq!(offsets.get(0, 8), Some(3));
    assert_eq!(offsets.get(1, 8), Some(0));
    assert_eq!(offsets.get(1, 2), Some(1));
    assert_eq!(offsets.get(1, 1), None);
    assert_eq!(
        images,
        vec![String::from("earlier.png"), String::from("x.png"), String::from("y.png")]
    );
}

#[test]
fn tables_replace_an_earlier_entry() {
    let mut textures = TilemapTextures::new();
    assert_eq!(textures.get(0), None);
    textures.insert(0, TilemapTexture::Single(ImageHandle { index: 4 }));
    textures.insert(0, TilemapTexture::Single(ImageHandle { index: 5 }));
    assert_eq!(textures.get(0), Some(&TilemapTexture::Single(ImageHandle { index: 5 })));
    let mut offsets = TileImageOffsets::new();
    assert_eq!(offsets.get(3, 3), None);
    offsets.insert(3, 3, 1);
    offsets.insert(3, 3, 2);
    offsets.insert(3, 4, 7);
    assert_eq!(offsets.get(3, 3), Some(2));
    assert_eq!(offsets.get(3, 4), Some(7));
    assert_eq!(offsets.get(4, 3), None);
}

#[test]
fn a_layer_tile_without_an_image_makes_the_map_inconsistent() {
    let tileset = collection_tileset(vec![image_tile(0, "a.png"), bare_tile(1)]);
    let good = load(vec![tileset.clone()], vec![finite(vec![cell(0, 0), None, None, None])]);
    assert!(good.is_consistent());
    let bad = load(vec![tileset], vec![finite(vec![cell(0, 0), None, None, cell(0, 1)])]);
    assert!(!bad.is_consistent());
}

#[test]
fn cells_are_read_row_by_row_from_the_top_left() {
    let layer = FiniteTileLayer {
        width: 3,
        height: 2,
        tiles: vec![cell(0, 10), None, cell(0, 12), cell(0, 13), cell(0, 14), None],
    };
    assert_eq!(layer.get_tile(0, 0), cell(0, 10));
    assert_eq!(layer.get_tile(1, 0), None);
    assert_eq!(layer.get_tile(2, 0), cell(0, 12));
    assert_eq!(layer.get_tile(0, 1), cell(0, 13));
    assert_eq!(layer.get_tile(1, 1), cell(0, 14));
    assert_eq!(layer.get_tile(2, 1), None);
    assert_eq!(layer.get_tile(3, 0), None);
    assert_eq!(layer.get_tile(0, 2), None);
    let short = FiniteTileLayer { width: 2, height: 2, tiles: vec![cell(0, 1)] };
    assert_eq!(short.get_tile(0, 0), cell(0, 1));
    assert_eq!(short.get_tile(1, 1), None);
}

#[test]
fn only_finite_tile_layers_have_a_grid() {
    assert!(finite(vec![]).as_finite().is_some());
    assert!(Layer { layer_type: LayerType::Tiles(TileLayer::Infinite) }.as_finite().is_none());
    assert!(Layer { layer_type: LayerType::Objects }.as_finite().is_none());
    assert!(Layer { layer_type: LayerType::Image }.as_finite().is_none());
    assert!(Layer { layer_type: LayerType::Group }.as_finite().is_none());
}
