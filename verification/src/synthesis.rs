//! Grid synthesis: the tile groups and tile entities of one loaded map.
//!
//! A group is made for every pair of a tileset and a layer of which at least
//! one cell shows a tile of that tileset. The document counts rows from the
//! top, the scene from the bottom: the tile of document cell `(x, y)` is
//! placed in row `height - 1 - y`, column `x`.

use vstd::prelude::*;
use crate::document::{FiniteTileLayer, LayerTile, Orientation};
use crate::loader::TiledMap;
use crate::scene::{
    all_alive, entity_count, group_views, spawn_group, spawn_groups, spawn_tiles, Addressing,
    Entities, Entity, GridMetadata, GroupShape, Tile, TileEntity, TileGroup, TilemapType,
};
use crate::texture::{recorded_offset, TextureBinding, TilemapTexture};

verus! {

/// The coordinate system in which a document of orientation `orientation` is shown.
pub open spec fn map_type_of(orientation: Orientation) -> TilemapType {
    match orientation {
        Orientation::Orthogonal => TilemapType::Square,
        Orientation::Isometric => TilemapType::IsometricDiamond,
        Orientation::Staggered => TilemapType::IsometricStaggered,
        Orientation::Hexagonal => TilemapType::HexagonRow,
    }
}

/// The addressing mode of a texture binding.
pub open spec fn addressing_of(texture: TextureBinding) -> Addressing {
    match texture {
        TextureBinding::Single(_) => Addressing::Single,
        TextureBinding::Vector(_) => Addressing::Vector,
    }
}

/// The coordinate system in which a document of orientation `orientation` is shown.
pub fn tilemap_type(orientation: Orientation) -> (map_type: TilemapType)
    ensures
        map_type == map_type_of(orientation),
{
    match orientation {
        Orientation::Orthogonal => TilemapType::Square,
        Orientation::Isometric => TilemapType::IsometricDiamond,
        Orientation::Staggered => TilemapType::IsometricStaggered,
        Orientation::Hexagonal => TilemapType::HexagonRow,
    }
}

impl TiledMap {
    /// The texture binding of tileset `tileset_index`, if it has one.
    pub open spec fn binding(&self, tileset_index: usize) -> Option<TextureBinding> {
        if self.tilemap_textures@.contains_key(tileset_index) {
            Some(self.tilemap_textures@[tileset_index])
        } else {
            None
        }
    }

    /// The texture index of tile `tile_id` of tileset `tileset_index`: under
    /// single addressing the id itself, under vector addressing the offset
    /// recorded for the tile.
    pub open spec fn texture_index(&self, tileset_index: usize, tile_id: u32) -> Option<u32> {
        match self.binding(tileset_index) {
            Some(TextureBinding::Single(_)) => Some(tile_id),
            Some(TextureBinding::Vector(_)) => recorded_offset(
                self.tile_image_offsets@,
                tileset_index,
                tile_id,
            ),
            None => None,
        }
    }

    /// Whether the tile in column `x` and row `y` of layer `layer`, if there is
    /// one and it is drawn from a vector-bound tileset, has a recorded offset.
    pub open spec fn cell_consistent(&self, layer: int, x: int, y: int) -> bool {
        match self.map.cell(layer, x, y) {
            Some(source) => self.binding(source.tileset_index) matches Some(TextureBinding::Vector(_))
                ==> self.tile_image_offsets@.contains_key((source.tileset_index, source.id)),
            None => true,
        }
    }

    /// Every tile of a layer that is drawn from a vector-bound tileset has a
    /// recorded offset.
    pub open spec fn consistent(&self) -> bool {
        forall|layer: int, x: int, y: int| #[trigger] self.cell_consistent(layer, x, y)
    }

    /// The tile that the group of tileset `tileset_index` and layer `layer`
    /// shows in column `x` and row `y` of the scene, rows counted from the
    /// bottom: the tile of the document cell in column `x` and row
    /// `height - 1 - y`, if the tileset owns it.
    pub open spec fn placed(&self, tileset_index: usize, layer: int, x: int, y: int) -> Option<
        Tile,
    > {
        match self.map.cell(layer, x, self.map.height - 1 - y) {
            Some(source) => if source.tileset_index == tileset_index {
                match self.texture_index(tileset_index, source.id) {
                    Some(texture_index) => Some(
                        Tile {
                            x: x as u32,
                            y: y as u32,
                            texture_index,
                            flip_x: source.flip_h,
                            flip_y: source.flip_v,
                            flip_d: source.flip_d,
                        },
                    ),
                    None => None,
                }
            } else {
                None
            },
            None => None,
        }
    }

    /// The tiles of column `x` in the rows below `rows`, from the bottom up.
    pub open spec fn column(&self, tileset_index: usize, layer: int, x: int, rows: int) -> Seq<Tile>
        decreases rows,
    {
        if rows <= 0 {
            Seq::empty()
        } else {
            let below = self.column(tileset_index, layer, x, rows - 1);
            match self.placed(tileset_index, layer, x, rows - 1) {
                Some(tile) => below.push(tile),
                None => below,
            }
        }
    }

    /// The tiles of the columns left of `count`, column by column, each over
    /// the full height of the grid.
    pub open spec fn columns(&self, tileset_index: usize, layer: int, count: int) -> Seq<Tile>
        decreases count,
    {
        if count <= 0 {
            Seq::empty()
        } else {
            self.columns(tileset_index, layer, count - 1) + self.column(
                tileset_index,
                layer,
                count - 1,
                self.map.height as int,
            )
        }
    }

    /// The grid metadata of the groups of tileset `tileset_index`.
    pub open spec fn metadata(&self, tileset_index: usize) -> GridMetadata {
        let tileset = self.map.tilesets@[tileset_index as int];
        GridMetadata {
            width: self.map.width,
            height: self.map.height,
            grid_width: self.map.tile_width,
            grid_height: self.map.tile_height,
            tile_width: tileset.tile_width,
            tile_height: tileset.tile_height,
            spacing: tileset.spacing,
            map_type: map_type_of(self.map.orientation),
            addressing: addressing_of(self.binding(tileset_index)->0),
        }
    }

    /// The shape of the group of tileset `tileset_index` and layer `layer`.
    pub open spec fn group_shape(&self, tileset_index: usize, layer: int) -> GroupShape {
        GroupShape {
            layer_index: layer as usize,
            tileset_index,
            metadata: self.metadata(tileset_index),
            tiles: self.columns(tileset_index, layer, self.map.width as int),
        }
    }

    /// Whether a group is made for tileset `tileset_index` and layer `layer`:
    /// the tileset has a texture binding, the layer is a finite tile layer,
    /// and at least one cell of the layer shows a tile of the tileset.
    pub open spec fn has_group(&self, tileset_index: usize, layer: int) -> bool {
        &&& 0 <= tileset_index < self.map.tilesets@.len()
        &&& 0 <= layer < self.map.layers@.len()
        &&& self.binding(tileset_index) is Some
        &&& self.map.layers@[layer].finite() is Some
        &&& self.group_shape(tileset_index, layer).tiles.len() > 0
    }

    /// The shapes of the groups of tileset `tileset_index` on the layers
    /// before `layers`, in layer order.
    pub open spec fn layer_groups(&self, tileset_index: usize, layers: int) -> Seq<GroupShape>
        decreases layers,
    {
        if layers <= 0 {
            Seq::empty()
        } else {
            let before = self.layer_groups(tileset_index, layers - 1);
            if self.has_group(tileset_index, layers - 1) {
                before.push(self.group_shape(tileset_index, layers - 1))
            } else {
                before
            }
        }
    }

    /// The shapes of the groups of the tilesets before `tilesets`, tileset by
    /// tileset, each over all layers.
    pub open spec fn tileset_groups(&self, tilesets: int) -> Seq<GroupShape>
        decreases tilesets,
    {
        if tilesets <= 0 {
            Seq::empty()
        } else {
            self.tileset_groups(tilesets - 1) + self.layer_groups(
                (tilesets - 1) as usize,
                self.map.layers@.len() as int,
            )
        }
    }

    /// The shapes of all groups of the map.
    pub open spec fn shapes(&self) -> Seq<GroupShape> {
        self.tileset_groups(self.map.tilesets@.len() as int)
    }
}

/// The metadata of the groups of tileset `tileset_index`, which is bound to `texture`.
fn group_metadata(asset: &TiledMap, tileset_index: usize, texture: &TilemapTexture) -> (metadata:
    GridMetadata)
    requires
        tileset_index < asset.map.tilesets@.len(),
        asset.binding(tileset_index) == Some(texture@),
    ensures
        metadata == asset.metadata(tileset_index),
{
    let tileset = &asset.map.tilesets[tileset_index];
    GridMetadata {
        width: asset.map.width,
        height: asset.map.height,
        grid_width: asset.map.tile_width,
        grid_height: asset.map.tile_height,
        tile_width: tileset.tile_width,
        tile_height: tileset.tile_height,
        spacing: tileset.spacing,
        map_type: tilemap_type(asset.map.orientation),
        addressing: match texture {
            TilemapTexture::Single(_) => Addressing::Single,
            TilemapTexture::Vector(_) => Addressing::Vector,
        },
    }
}

/// The texture index of the layer tile `source`, which tileset `tileset_index` owns.
fn resolve_texture_index(
    asset: &TiledMap,
    tileset_index: usize,
    texture: &TilemapTexture,
    source: LayerTile,
) -> (texture_index: u32)
    requires
        asset.binding(tileset_index) == Some(texture@),
        source.tileset_index == tileset_index,
        texture@ is Vector ==> asset.tile_image_offsets@.contains_key((tileset_index, source.id)),
    ensures
        asset.texture_index(tileset_index, source.id) == Some(texture_index),
{
    match texture {
        TilemapTexture::Single(_) => source.id,
        TilemapTexture::Vector(_) => {
            let offset = asset.tile_image_offsets.get(tileset_index, source.id);
            offset.unwrap()
        },
    }
}

/// Spawns the tile entities of the group of tileset `tileset_index` and layer
/// `layer`, whose grid is `grid`. The root of the group is spawned with the
/// first tile, before it; where no cell shows a tile of the tileset, nothing
/// is spawned.
fn spawn_group_tiles(
    asset: &TiledMap,
    tileset_index: usize,
    texture: &TilemapTexture,
    layer: usize,
    grid: &FiniteTileLayer,
    entities: &mut Entities,
) -> (tiles: Vec<TileEntity>)
    requires
        asset.consistent(),
        asset.binding(tileset_index) == Some(texture@),
        layer < asset.map.layers@.len(),
        asset.map.layers@[layer as int].finite() == Some(*grid),
    ensures
        tiles@ == spawn_tiles(
            asset.group_shape(tileset_index, layer as int).tiles,
            old(entities)@.len() as int,
        ),
        tiles@.len() == 0 ==> final(entities)@ == old(entities)@,
        tiles@.len() > 0 ==> final(entities)@ == old(entities)@ + all_alive(1 + tiles@.len()),
{
    let width: u32 = asset.map.width;
    let height: u32 = asset.map.height;
    let ghost first = entities@.len() as int;
    let ghost before = entities@;
    let root = Entity(entities.len());
    let mut tiles: Vec<TileEntity> = Vec::new();
    let mut x: u32 = 0;
    while x < width
        invariant
            x <= width,
            width == asset.map.width,
            height == asset.map.height,
            asset.consistent(),
            asset.binding(tileset_index) == Some(texture@),
            layer < asset.map.layers@.len(),
            asset.map.layers@[layer as int].finite() == Some(*grid),
            root.0 == first,
            first == before.len(),
            tiles@ =~= spawn_tiles(asset.columns(tileset_index, layer as int, x as int), first),
            tiles@.len() == 0 ==> entities@ == before,
            tiles@.len() > 0 ==> entities@ =~= before + all_alive(1 + tiles@.len()),
        decreases width - x,
    {
        let ghost done = asset.columns(tileset_index, layer as int, x as int);
        let mut y: u32 = 0;
        while y < height
            invariant
                x < width,
                y <= height,
                width == asset.map.width,
                height == asset.map.height,
                asset.consistent(),
                asset.binding(tileset_index) == Some(texture@),
                layer < asset.map.layers@.len(),
                asset.map.layers@[layer as int].finite() == Some(*grid),
                root.0 == first,
                first == before.len(),
                done == asset.columns(tileset_index, layer as int, x as int),
                tiles@ =~= spawn_tiles(
                    done + asset.column(tileset_index, layer as int, x as int, y as int),
                    first,
                ),
                tiles@.len() == 0 ==> entities@ == before,
                tiles@.len() > 0 ==> entities@ =~= before + all_alive(1 + tiles@.len()),
            decreases height - y,
        {
            let ghost below = asset.column(tileset_index, layer as int, x as int, y as int);
            let mapped_y: u32 = height - 1 - y;
            let found = grid.get_tile(x, mapped_y);
            assert(asset.map.cell(layer as int, x as int, mapped_y as int) == found);
            assert(asset.cell_consistent(layer as int, x as int, mapped_y as int));
            match found {
                Some(source) => {
                    if source.tileset_index == tileset_index {
                        let texture_index = resolve_texture_index(
                            asset,
                            tileset_index,
                            texture,
                            source,
                        );
                        if tiles.len() == 0 {
                            let spawned = entities.spawn();
                            assert(spawned == root);
                        }
                        let entity = entities.spawn();
                        let tile = Tile {
                            x,
                            y,
                            texture_index,
                            flip_x: source.flip_h,
                            flip_y: source.flip_v,
                            flip_d: source.flip_d,
                        };
                        assert(asset.placed(tileset_index, layer as int, x as int, y as int)
                            == Some(tile));
                        tiles.push(TileEntity { entity, tilemap_id: root, tile });
                        assert(done + below.push(tile) =~= (done + below).push(tile));
                    }
                },
                None => {},
            }
            y = y + 1;
        }
        x = x + 1;
    }
    tiles
}

/// The grid synthesis engine: spawns the tile groups of `asset`, tileset by
/// tileset and layer by layer, with their tile entities. The identities are
/// given out in a row: the root of a group, then its tiles column by column.
pub fn spawn_tile_groups(asset: &TiledMap, entities: &mut Entities) -> (groups: Vec<TileGroup>)
    requires
        asset.consistent(),
    ensures
        group_views(groups@) == spawn_groups(asset.shapes(), old(entities)@.len() as int),
        final(entities)@ == old(entities)@ + all_alive(entity_count(asset.shapes())),
{
    let ghost first = entities@.len() as int;
    let ghost before = entities@;
    let mut groups: Vec<TileGroup> = Vec::new();
    let mut tileset_index: usize = 0;
    assert(before + all_alive(0) =~= before);
    while tileset_index < asset.map.tilesets.len()
        invariant
            tileset_index <= asset.map.tilesets@.len(),
            asset.consistent(),
            first == before.len(),
            group_views(groups@) =~= spawn_groups(asset.tileset_groups(tileset_index as int), first),
            entities@ =~= before + all_alive(entity_count(asset.tileset_groups(tileset_index as int))),
        decreases asset.map.tilesets@.len() - tileset_index,
    {
        let ghost done = asset.tileset_groups(tileset_index as int);
        let layer_count: usize = asset.map.layers.len();
        match asset.tilemap_textures.get(tileset_index) {
            Some(texture) => {
                let metadata = group_metadata(asset, tileset_index, texture);
                let mut layer: usize = 0;
                assert(done + asset.layer_groups(tileset_index, 0) =~= done);
                while layer < layer_count
                    invariant
                        layer <= layer_count,
                        layer_count == asset.map.layers@.len(),
                        tileset_index < asset.map.tilesets@.len(),
                        asset.consistent(),
                        asset.binding(tileset_index) == Some(texture@),
                        metadata == asset.metadata(tileset_index),
                        first == before.len(),
                        done == asset.tileset_groups(tileset_index as int),
                        group_views(groups@) =~= spawn_groups(
                            done + asset.layer_groups(tileset_index, layer as int),
                            first,
                        ),
                        entities@ =~= before + all_alive(
                            entity_count(done + asset.layer_groups(tileset_index, layer as int)),
                        ),
                    decreases layer_count - layer,
                {
                    let ghost so_far = done + asset.layer_groups(tileset_index, layer as int);
                    match asset.map.layers[layer].as_finite() {
                        Some(grid) => {
                            let root = Entity(entities.len());
                            let tiles = spawn_group_tiles(
                                asset,
                                tileset_index,
                                texture,
                                layer,
                                grid,
                                entities,
                            );
                            if tiles.len() > 0 {
                                let group = TileGroup {
                                    entity: root,
                                    layer_index: layer,
                                    tileset_index,
                                    metadata,
                                    tiles,
                                };
                                let ghost shape = asset.group_shape(tileset_index, layer as int);
                                proof {
                                    assert(asset.has_group(tileset_index, layer as int));
                                    assert(asset.layer_groups(tileset_index, layer + 1)
                                        == asset.layer_groups(tileset_index, layer as int).push(
                                        shape,
                                    ));
                                    let grown = so_far.push(shape);
                                    assert(done + asset.layer_groups(tileset_index, layer + 1)
                                        =~= grown);
                                    assert(grown.drop_last() =~= so_far);
                                    assert(group@ == spawn_group(
                                        shape,
                                        first + entity_count(so_far),
                                    ));
                                    assert(before + all_alive(entity_count(so_far)) + all_alive(
                                        1 + shape.tiles.len(),
                                    ) =~= before + all_alive(entity_count(grown)));
                                }
                                let ghost prior = groups@;
                                let ghost spawned = group@;
                                groups.push(group);
                                assert(group_views(groups@) =~= group_views(prior).push(spawned));
                            } else {
                                proof {
                                    let shape = asset.group_shape(tileset_index, layer as int);
                                    assert(shape.tiles.len() == 0);
                                    assert(!asset.has_group(tileset_index, layer as int));
                                }
                            }
                        },
                        None => {
                            assert(!asset.has_group(tileset_index, layer as int));
                        },
                    }
                    layer = layer + 1;
                }
            },
            None => {
                proof {
                    lemma_no_binding_no_groups(asset, tileset_index, layer_count as int);
                    assert(done + asset.layer_groups(tileset_index, layer_count as int) =~= done);
                }
            },
        }
        tileset_index = tileset_index + 1;
    }
    groups
}

/// A tileset without a texture binding has no groups.
pub proof fn lemma_no_binding_no_groups(asset: &TiledMap, tileset_index: usize, layers: int)
    requires
        asset.binding(tileset_index) is None,
    ensures
        asset.layer_groups(tileset_index, layers) == Seq::<GroupShape>::empty(),
    decreases layers,
{
    if layers > 0 {
        lemma_no_binding_no_groups(asset, tileset_index, layers - 1);
    }
}

impl TiledMap {
    /// Whether every tile of a layer that is drawn from a vector-bound tileset
    /// has a recorded offset. Grid synthesis asks for this.
    pub fn is_consistent(&self) -> (consistent: bool)
        ensures
            consistent == self.consistent(),
    {
        let mut layer: usize = 0;
        while layer < self.map.layers.len()
            invariant
                layer <= self.map.layers@.len(),
                forall|l: int, x: int, y: int|
                    0 <= l < layer ==> #[trigger] self.cell_consistent(l, x, y),
            decreases self.map.layers@.len() - layer,
        {
            match self.map.layers[layer].as_finite() {
                Some(grid) => {
                    let mut y: u32 = 0;
                    while y < grid.height
                        invariant
                            y <= grid.height,
                            layer < self.map.layers@.len(),
                            self.map.layers@[layer as int].finite() == Some(*grid),
                            forall|x: int, row: int|
                                0 <= row < y ==> #[trigger] self.cell_consistent(
                                    layer as int,
                                    x,
                                    row,
                                ),
                        decreases grid.height - y,
                    {
                        let mut x: u32 = 0;
                        while x < grid.width
                            invariant
                                x <= grid.width,
                                y < grid.height,
                                layer < self.map.layers@.len(),
                                self.map.layers@[layer as int].finite() == Some(*grid),
                                forall|column: int|
                                    0 <= column < x ==> #[trigger] self.cell_consistent(
                                        layer as int,
                                        column,
                                        y as int,
                                    ),
                            decreases grid.width - x,
                        {
                            match grid.get_tile(x, y) {
                                Some(source) => {
                                    let vector_bound = match self.tilemap_textures.get(
                                        source.tileset_index,
                                    ) {
                                        Some(TilemapTexture::Vector(_)) => true,
                                        _ => false,
                                    };
                                    if vector_bound && self.tile_image_offsets.get(
                                        source.tileset_index,
                                        source.id,
                                    ).is_none() {
                                        assert(!self.cell_consistent(
                                            layer as int,
                                            x as int,
                                            y as int,
                                        ));
                                        return false;
                                    }
                                },
                                None => {},
                            }
                            x = x + 1;
                        }
                        assert forall|column: int, row: int| 0 <= row < y + 1 implies #[trigger] self.cell_consistent(
                            layer as int,
                            column,
                            row,
                        ) by {
                            if row == y && !(0 <= column < grid.width) {
                                assert(self.map.cell(layer as int, column, row) is None);
                            }
                        }
                        y = y + 1;
                    }
                    assert forall|x: int, row: int| #[trigger] self.cell_consistent(
                        layer as int,
                        x,
                        row,
                    ) by {
                        if !(0 <= row < grid.height) {
                            assert(self.map.cell(layer as int, x, row) is None);
                        }
                    }
                },
                None => {
                    assert forall|x: int, row: int| #[trigger] self.cell_consistent(
                        layer as int,
                        x,
                        row,
                    ) by {
                        assert(self.map.cell(layer as int, x, row) is None);
                    }
                },
            }
            layer = layer + 1;
        }
        assert forall|l: int, x: int, y: int| #[trigger] self.cell_consistent(l, x, y) by {
            if !(0 <= l < self.map.layers@.len()) {
                assert(self.map.cell(l, x, y) is None);
            }
        }
        true
    }
}

} // verus!
