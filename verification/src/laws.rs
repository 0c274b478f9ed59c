//! What holds of the pipeline as a whole: laws that connect loading, grid
//! synthesis and reconciliation, each proved from the definitions.

use vstd::prelude::*;
use crate::document::{Tileset, TilesetTile};
use crate::loader::{resolve_tilesets, TiledMap};
use crate::reconcile::{
    latest_change, lifecycle_of, registry_of, span_end, span_start, well_numbered, AssetEvent,
    AssetId, Assets, Decision, Lifecycle, World,
};
use crate::scene::{
    entity_count, group_shapes, lemma_entity_count_take, lemma_spawn_groups_index,
    lemma_spawn_groups_len, lemma_spawn_groups_shapes, spawn_groups, GroupShape, Tile,
    TileGroupView,
};
use crate::texture::{
    image_bearing, offset_at, record_offsets, resolve_tileset, tile_ids, TextureBinding,
};

verus! {

/// Tiles that are recorded in turn keep their positions: the tile at
/// position `i` of `ids` has the offset `i`, unless its id occurs again later.
pub proof fn lemma_offset_is_position(
    offsets: Map<(usize, u32), u32>,
    tileset_index: usize,
    ids: Seq<u32>,
    i: int,
)
    requires
        0 <= i < ids.len(),
        forall|j: int| i < j < ids.len() ==> ids[j] != ids[i],
    ensures
        record_offsets(offsets, tileset_index, ids).contains_key((tileset_index, ids[i])),
        record_offsets(offsets, tileset_index, ids)[(tileset_index, ids[i])] == offset_at(i),
    decreases ids.len(),
{
    if i < ids.len() - 1 {
        lemma_offset_is_position(offsets, tileset_index, ids.drop_last(), i);
    }
}

/// Recording the tiles of one tileset adds an entry for each of them and for
/// nothing else: an entry of another tileset, or of a tile that is not
/// recorded, is there afterwards exactly if it was there before, unchanged.
pub proof fn lemma_offsets_elsewhere(
    offsets: Map<(usize, u32), u32>,
    tileset_index: usize,
    ids: Seq<u32>,
    other_tileset: usize,
    other_id: u32,
)
    requires
        other_tileset != tileset_index || !ids.contains(other_id),
    ensures
        record_offsets(offsets, tileset_index, ids).contains_key((other_tileset, other_id))
            == offsets.contains_key((other_tileset, other_id)),
        offsets.contains_key((other_tileset, other_id)) ==> record_offsets(
            offsets,
            tileset_index,
            ids,
        )[(other_tileset, other_id)] == offsets[(other_tileset, other_id)],
    decreases ids.len(),
{
    if ids.len() > 0 {
        if other_tileset == tileset_index {
            assert(ids[ids.len() - 1] == ids.last());
            assert forall|j: int| 0 <= j < ids.drop_last().len() implies ids.drop_last()[j]
                != other_id by {
                assert(ids[j] == ids.drop_last()[j]);
            }
        }
        lemma_offsets_elsewhere(offsets, tileset_index, ids.drop_last(), other_tileset, other_id);
    }
}

/// The tiles that carry an image are those of the tiles that have one, in
/// their order: each is a tile of `tiles` with an image, and a tile of
/// `tiles` with an image is among them.
pub proof fn lemma_image_bearing(tiles: Seq<TilesetTile>)
    ensures
        forall|k: int|
            0 <= k < image_bearing(tiles).len() ==> (#[trigger] image_bearing(tiles)[k]).image
                is Some && tiles.contains(image_bearing(tiles)[k]),
        forall|i: int|
            0 <= i < tiles.len() && (#[trigger] tiles[i]).image is Some ==> image_bearing(
                tiles,
            ).contains(tiles[i]),
        image_bearing(tiles).len() <= tiles.len(),
    decreases tiles.len(),
{
    if tiles.len() > 0 {
        let rest = tiles.drop_last();
        lemma_image_bearing(rest);
        let found = image_bearing(tiles);
        assert forall|k: int| 0 <= k < found.len() implies (#[trigger] found[k]).image is Some
            && tiles.contains(found[k]) by {
            if k < image_bearing(rest).len() {
                let i = choose|i: int| 0 <= i < rest.len() && rest[i] == image_bearing(rest)[k];
                assert(tiles[i] == found[k]);
            } else {
                assert(tiles[tiles.len() - 1] == found[k]);
            }
        }
        assert forall|i: int| 0 <= i < tiles.len() && (#[trigger] tiles[i]).image is Some implies found.contains(
            tiles[i],
        ) by {
            if i < rest.len() {
                assert(rest[i] == tiles[i]);
                let k = choose|k: int|
                    0 <= k < image_bearing(rest).len() && image_bearing(rest)[k] == rest[i];
                assert(found[k] == tiles[i]);
            } else {
                assert(found[found.len() - 1] == tiles[i]);
            }
        }
    }
}

/// The offset of a tile is the length of the vector before the tile's image
/// is appended: after the tiles of an image-collection tileset were recorded,
/// tile `i` of the tileset, if it carries an image, has as its offset the
/// number of tiles before it that carry an image, unless a later tile with an
/// image has the same id.
pub proof fn lemma_offset_is_length_before(
    offsets: Map<(usize, u32), u32>,
    tileset_index: usize,
    tiles: Seq<TilesetTile>,
    i: int,
)
    requires
        0 <= i < tiles.len(),
        tiles[i].image is Some,
        forall|j: int|
            i < j < tiles.len() && (#[trigger] tiles[j]).image is Some ==> tiles[j].id
                != tiles[i].id,
    ensures
        record_offsets(offsets, tileset_index, tile_ids(image_bearing(tiles))).contains_key(
            (tileset_index, tiles[i].id),
        ),
        record_offsets(offsets, tileset_index, tile_ids(image_bearing(tiles)))[(
            tileset_index,
            tiles[i].id,
        )] == offset_at(image_bearing(tiles.take(i)).len() as int),
    decreases tiles.len(),
{
    let rest = tiles.drop_last();
    let last = tiles.last();
    let ids = tile_ids(image_bearing(tiles));
    let rest_ids = tile_ids(image_bearing(rest));
    if i == tiles.len() - 1 {
        assert(tiles.take(i) =~= rest);
        assert(ids.drop_last() =~= rest_ids);
    } else {
        assert(rest.take(i) =~= tiles.take(i));
        assert(rest[i] == tiles[i]);
        assert forall|j: int| i < j < rest.len() && (#[trigger] rest[j]).image is Some implies rest[j].id
            != rest[i].id by {
            assert(rest[j] == tiles[j]);
        }
        lemma_offset_is_length_before(offsets, tileset_index, rest, i);
        if last.image is Some {
            assert(tiles[tiles.len() - 1] == last);
            assert(ids.drop_last() =~= rest_ids);
            assert(ids.last() == last.id);
        }
    }
}

/// A tile without an image gets no offset: after an image-collection tileset
/// was resolved, a tile id of it that no tile with an image has is recorded
/// only if it was recorded before.
pub proof fn lemma_no_image_no_offset(
    offsets: Map<(usize, u32), u32>,
    tileset_index: usize,
    tiles: Seq<TilesetTile>,
    tile_id: u32,
)
    requires
        forall|i: int| 0 <= i < tiles.len() && (#[trigger] tiles[i]).id == tile_id ==> tiles[i].image is None,
    ensures
        record_offsets(offsets, tileset_index, tile_ids(image_bearing(tiles))).contains_key(
            (tileset_index, tile_id),
        ) == offsets.contains_key((tileset_index, tile_id)),
{
    lemma_image_bearing(tiles);
    let ids = tile_ids(image_bearing(tiles));
    assert forall|k: int| 0 <= k < ids.len() implies ids[k] != tile_id by {
        let tile = image_bearing(tiles)[k];
        assert(tiles.contains(tile));
        let i = choose|i: int| 0 <= i < tiles.len() && tiles[i] == tile;
        assert(tiles[i].image is Some);
    }
    lemma_offsets_elsewhere(offsets, tileset_index, ids, tileset_index, tile_id);
}

/// How a tileset is bound after loading: tileset `index` of the document
/// has a single binding exactly if it declares a shared image; an
/// image-collection tileset has a vector binding with one handle for each of
/// its tiles that carry an image, unless `atlas` forbids vector addressing,
/// and then it has no binding.
pub proof fn lemma_binding_of_tileset(tilesets: Seq<Tileset>, atlas: bool, index: int)
    requires
        0 <= index < tilesets.len() <= usize::MAX,
    ensures
        ({
            let textures = resolve_tilesets(tilesets, atlas).textures;
            let tileset = tilesets[index];
            &&& tileset.image is Some ==> textures.contains_key(index as usize)
                && textures[index as usize] is Single
            &&& tileset.image is None && atlas ==> !textures.contains_key(index as usize)
            &&& tileset.image is None && !atlas ==> textures.contains_key(index as usize)
                && textures[index as usize] is Vector && textures[index as usize]->Vector_0.len()
                == image_bearing(tileset.tiles@).len()
        }),
    decreases tilesets.len(),
{
    lemma_bindings_within(tilesets, atlas);
    if index < tilesets.len() - 1 {
        lemma_binding_of_tileset(tilesets.drop_last(), atlas, index);
        lemma_bindings_within(tilesets.drop_last(), atlas);
    } else {
        lemma_bindings_within(tilesets.drop_last(), atlas);
    }
}

/// Only tilesets of the document are bound.
pub proof fn lemma_bindings_within(tilesets: Seq<Tileset>, atlas: bool)
    requires
        tilesets.len() <= usize::MAX,
    ensures
        forall|index: usize| #[trigger]
            resolve_tilesets(tilesets, atlas).textures.contains_key(index) ==> index
                < tilesets.len(),
    decreases tilesets.len(),
{
    if tilesets.len() > 0 {
        lemma_bindings_within(tilesets.drop_last(), atlas);
        let before = resolve_tilesets(tilesets.drop_last(), atlas);
        let after = resolve_tilesets(tilesets, atlas);
        assert(after == resolve_tileset(
            before,
            (tilesets.len() - 1) as usize,
            tilesets.last(),
            atlas,
        ));
        assert forall|index: usize| #[trigger] after.textures.contains_key(index) implies index
            < tilesets.len() by {
            if index != tilesets.len() - 1 {
                assert(before.textures.contains_key(index));
            }
        }
    }
}

/// Recording keeps what was recorded: an entry that was there is there afterwards.
pub proof fn lemma_offsets_kept(
    offsets: Map<(usize, u32), u32>,
    tileset_index: usize,
    ids: Seq<u32>,
    key: (usize, u32),
)
    requires
        offsets.contains_key(key),
    ensures
        record_offsets(offsets, tileset_index, ids).contains_key(key),
    decreases ids.len(),
{
    if ids.len() > 0 {
        lemma_offsets_kept(offsets, tileset_index, ids.drop_last(), key);
    }
}

/// Every recorded tile has an entry.
pub proof fn lemma_recorded_has_offset(
    offsets: Map<(usize, u32), u32>,
    tileset_index: usize,
    ids: Seq<u32>,
    i: int,
)
    requires
        0 <= i < ids.len(),
    ensures
        record_offsets(offsets, tileset_index, ids).contains_key((tileset_index, ids[i])),
    decreases ids.len(),
{
    if i < ids.len() - 1 {
        lemma_recorded_has_offset(offsets, tileset_index, ids.drop_last(), i);
    }
}

/// After loading, every tile with an image of an image-collection tileset has
/// an offset, unless vector addressing is forbidden.
pub proof fn lemma_image_tiles_have_offsets(tilesets: Seq<Tileset>, index: int, tile: int)
    requires
        0 <= index < tilesets.len() <= usize::MAX,
        tilesets[index].image is None,
        0 <= tile < tilesets[index].tiles@.len(),
        tilesets[index].tiles@[tile].image is Some,
    ensures
        resolve_tilesets(tilesets, false).offsets.contains_key(
            (index as usize, tilesets[index].tiles@[tile].id),
        ),
    decreases tilesets.len(),
{
    let key = (index as usize, tilesets[index].tiles@[tile].id);
    let before = resolve_tilesets(tilesets.drop_last(), false);
    let last = tilesets.last();
    let last_index = (tilesets.len() - 1) as usize;
    if index < tilesets.len() - 1 {
        lemma_image_tiles_have_offsets(tilesets.drop_last(), index, tile);
        if last.image is None {
            lemma_offsets_kept(
                before.offsets,
                last_index,
                tile_ids(image_bearing(last.tiles@)),
                key,
            );
        }
    } else {
        lemma_image_bearing(last.tiles@);
        let with_image = image_bearing(last.tiles@);
        assert(with_image.contains(last.tiles@[tile]));
        let k = choose|k: int| 0 <= k < with_image.len() && with_image[k] == last.tiles@[tile];
        lemma_recorded_has_offset(before.offsets, last_index, tile_ids(with_image), k);
    }
}

/// A loaded map is consistent where its document is coherent: where every
/// tile of a layer that is drawn from an image-collection tileset of the
/// document has, in that tileset, a tile definition of its id with an image.
pub proof fn lemma_loaded_map_consistent(asset: &TiledMap, atlas: bool)
    requires
        asset.resolution() == resolve_tilesets(asset.map.tilesets@, atlas),
        forall|layer: int, x: int, y: int|
            (#[trigger] asset.map.cell(layer, x, y)) is Some && asset.map.cell(
                layer,
                x,
                y,
            )->0.tileset_index < asset.map.tilesets@.len() && asset.map.tilesets@[asset.map.cell(
                layer,
                x,
                y,
            )->0.tileset_index as int].image is None ==> exists|tile: int|
                0 <= tile < asset.map.tilesets@[asset.map.cell(
                    layer,
                    x,
                    y,
                )->0.tileset_index as int].tiles@.len() && (
                #[trigger] asset.map.tilesets@[asset.map.cell(
                    layer,
                    x,
                    y,
                )->0.tileset_index as int].tiles@[tile]).id == asset.map.cell(layer, x, y)->0.id
                    && asset.map.tilesets@[asset.map.cell(
                    layer,
                    x,
                    y,
                )->0.tileset_index as int].tiles@[tile].image is Some,
    ensures
        asset.consistent(),
{
    let tilesets = asset.map.tilesets@;
    assert(tilesets.len() == asset.map.tilesets.len());
    lemma_bindings_within(tilesets, atlas);
    assert forall|layer: int, x: int, y: int| #[trigger] asset.cell_consistent(layer, x, y) by {
        if asset.map.cell(layer, x, y) is Some {
            let source = asset.map.cell(layer, x, y)->0;
            let index = source.tileset_index;
            if asset.binding(index) is Some && asset.binding(index)->0 is Vector {
                assert(resolve_tilesets(tilesets, atlas).textures.contains_key(index));
                lemma_binding_of_tileset(tilesets, atlas, index as int);
                assert(!atlas);
                let tile = choose|tile: int|
                    0 <= tile < tilesets[index as int].tiles@.len() && (
                    #[trigger] tilesets[index as int].tiles@[tile]).id == source.id
                        && tilesets[index as int].tiles@[tile].image is Some;
                lemma_image_tiles_have_offsets(tilesets, index as int, tile);
            }
        }
    }
}

/// A document of which every tileset declares a shared image loads into a
/// map of which every tileset is single-bound, and which is consistent.
pub proof fn lemma_shared_images_single_bound(asset: &TiledMap, atlas: bool)
    requires
        asset.resolution() == resolve_tilesets(asset.map.tilesets@, atlas),
        forall|index: int|
            0 <= index < asset.map.tilesets@.len() ==> (#[trigger] asset.map.tilesets@[index]).image
                is Some,
    ensures
        forall|index: usize|
            index < asset.map.tilesets@.len() ==> (#[trigger] asset.binding(index)) is Some
                && asset.binding(index)->0 is Single,
        forall|index: usize|
            index >= asset.map.tilesets@.len() ==> (#[trigger] asset.binding(index)) is None,
        asset.consistent(),
{
    let tilesets = asset.map.tilesets@;
    assert(tilesets.len() == asset.map.tilesets.len());
    lemma_bindings_within(tilesets, atlas);
    assert forall|index: usize| index < tilesets.len() implies (#[trigger] asset.binding(index))
        is Some && asset.binding(index)->0 is Single by {
        lemma_binding_of_tileset(tilesets, atlas, index as int);
    }
    assert forall|index: usize| index >= tilesets.len() implies (#[trigger] asset.binding(index))
        is None by {
        if asset.binding(index) is Some {
            assert(resolve_tilesets(tilesets, atlas).textures.contains_key(index));
        }
    }
    assert forall|index: usize| #[trigger]
        asset.binding(index) is Some implies asset.binding(index)->0 is Single by {
        if index >= tilesets.len() {
            assert(asset.binding(index) is None);
        }
    }
    lemma_single_bound_is_consistent(asset);
}

/// Whether `first` comes before `second` when cells are taken column by
/// column and, within a column, from the bottom up.
pub open spec fn cell_before(first: Tile, second: Tile) -> bool {
    first.x < second.x || (first.x == second.x && first.y < second.y)
}

/// Whether the group key of `first` comes before that of `second` when
/// groups are taken tileset by tileset and, within a tileset, layer by layer.
pub open spec fn key_before(first: GroupShape, second: GroupShape) -> bool {
    first.tileset_index < second.tileset_index || (first.tileset_index == second.tileset_index
        && first.layer_index < second.layer_index)
}

/// The tiles of one column: each stands in that column, below `rows`, and is
/// the tile placed in its cell; they come from the bottom up; and every cell
/// of the column below `rows` in which a tile is placed has its tile among them.
pub proof fn lemma_column(asset: &TiledMap, tileset_index: usize, layer: int, x: int, rows: int)
    requires
        0 <= x < 0x1_0000_0000,
        0 <= rows <= 0x1_0000_0000,
    ensures
        forall|k: int|
            #![trigger asset.column(tileset_index, layer, x, rows)[k]]
            0 <= k < asset.column(tileset_index, layer, x, rows).len() ==> {
                let tile = asset.column(tileset_index, layer, x, rows)[k];
                tile.x == x && tile.y < rows && asset.placed(tileset_index, layer, x, tile.y as int)
                    == Some(tile)
            },
        forall|a: int, b: int|
            #![trigger asset.column(tileset_index, layer, x, rows)[a], asset.column(tileset_index, layer, x, rows)[b]]
            0 <= a < b < asset.column(tileset_index, layer, x, rows).len() ==> asset.column(
                tileset_index,
                layer,
                x,
                rows,
            )[a].y < asset.column(tileset_index, layer, x, rows)[b].y,
        forall|y: int|
            0 <= y < rows && (#[trigger] asset.placed(tileset_index, layer, x, y)) is Some
                ==> asset.column(tileset_index, layer, x, rows).contains(
                asset.placed(tileset_index, layer, x, y)->0,
            ),
    decreases rows,
{
    if rows > 0 {
        lemma_column(asset, tileset_index, layer, x, rows - 1);
        let below = asset.column(tileset_index, layer, x, rows - 1);
        let all = asset.column(tileset_index, layer, x, rows);
        assert forall|y: int|
            0 <= y < rows && (#[trigger] asset.placed(tileset_index, layer, x, y))
                is Some implies all.contains(asset.placed(tileset_index, layer, x, y)->0) by {
            let tile = asset.placed(tileset_index, layer, x, y)->0;
            if y < rows - 1 {
                assert(below.contains(tile));
                let k = choose|k: int| 0 <= k < below.len() && below[k] == tile;
                assert(all[k] == tile);
            } else {
                assert(all[all.len() - 1] == tile);
            }
        }
    }
}

/// The tiles of the columns left of `count`: each stands in a cell of these
/// columns and is the tile placed there; they come column by column, from the
/// bottom up; and every cell of these columns in which a tile is placed has
/// its tile among them.
pub proof fn lemma_columns(asset: &TiledMap, tileset_index: usize, layer: int, count: int)
    requires
        0 <= count <= 0x1_0000_0000,
    ensures
        forall|k: int|
            #![trigger asset.columns(tileset_index, layer, count)[k]]
            0 <= k < asset.columns(tileset_index, layer, count).len() ==> {
                let tile = asset.columns(tileset_index, layer, count)[k];
                tile.x < count && tile.y < asset.map.height && asset.placed(
                    tileset_index,
                    layer,
                    tile.x as int,
                    tile.y as int,
                ) == Some(tile)
            },
        forall|a: int, b: int|
            #![trigger asset.columns(tileset_index, layer, count)[a], asset.columns(tileset_index, layer, count)[b]]
            0 <= a < b < asset.columns(tileset_index, layer, count).len() ==> cell_before(
                asset.columns(tileset_index, layer, count)[a],
                asset.columns(tileset_index, layer, count)[b],
            ),
        forall|x: int, y: int|
            0 <= x < count && 0 <= y < asset.map.height && (#[trigger] asset.placed(
                tileset_index,
                layer,
                x,
                y,
            )) is Some ==> asset.columns(tileset_index, layer, count).contains(
                asset.placed(tileset_index, layer, x, y)->0,
            ),
    decreases count,
{
    if count > 0 {
        lemma_columns(asset, tileset_index, layer, count - 1);
        lemma_column(asset, tileset_index, layer, count - 1, asset.map.height as int);
        let left = asset.columns(tileset_index, layer, count - 1);
        let last = asset.column(tileset_index, layer, count - 1, asset.map.height as int);
        let all = asset.columns(tileset_index, layer, count);
        assert(all == left + last);
        assert forall|k: int| #![trigger all[k]] 0 <= k < all.len() implies {
            let tile = all[k];
            tile.x < count && tile.y < asset.map.height && asset.placed(
                tileset_index,
                layer,
                tile.x as int,
                tile.y as int,
            ) == Some(tile)
        } by {
            if k < left.len() {
                assert(all[k] == left[k]);
            } else {
                assert(all[k] == last[k - left.len()]);
            }
        }
        assert forall|a: int, b: int| #![trigger all[a], all[b]] 0 <= a < b < all.len() implies cell_before(
            all[a],
            all[b],
        ) by {
            if b < left.len() {
                assert(all[a] == left[a] && all[b] == left[b]);
            } else if a < left.len() {
                assert(all[a] == left[a] && all[b] == last[b - left.len()]);
            } else {
                assert(all[a] == last[a - left.len()] && all[b] == last[b - left.len()]);
            }
        }
        assert forall|x: int, y: int|
            0 <= x < count && 0 <= y < asset.map.height && (#[trigger] asset.placed(
                tileset_index,
                layer,
                x,
                y,
            )) is Some implies all.contains(asset.placed(tileset_index, layer, x, y)->0) by {
            let tile = asset.placed(tileset_index, layer, x, y)->0;
            if x < count - 1 {
                assert(left.contains(tile));
                let k = choose|k: int| 0 <= k < left.len() && left[k] == tile;
                assert(all[k] == tile);
            } else {
                assert(last.contains(tile));
                let k = choose|k: int| 0 <= k < last.len() && last[k] == tile;
                assert(all[left.len() + k] == tile);
            }
        }
    }
}

/// The coordinate transform: where the document has, in column `x` and row
/// `y` of layer `layer`, a tile of tileset `tileset_index` whose texture index
/// resolves, the group of that tileset and layer has a tile in column `x` and
/// row `height - 1 - y`, with that texture index and the flip flags of the
/// document's tile.
pub proof fn lemma_coordinate_transform(
    asset: &TiledMap,
    tileset_index: usize,
    layer: int,
    x: int,
    y: int,
)
    requires
        0 <= x < asset.map.width,
        0 <= y < asset.map.height,
        asset.map.cell(layer, x, y) is Some,
        asset.map.cell(layer, x, y)->0.tileset_index == tileset_index,
        asset.texture_index(tileset_index, asset.map.cell(layer, x, y)->0.id) is Some,
    ensures
        exists|k: int|
            #![trigger asset.group_shape(tileset_index, layer).tiles[k]]
            {
                let tiles = asset.group_shape(tileset_index, layer).tiles;
                let source = asset.map.cell(layer, x, y)->0;
                &&& 0 <= k < tiles.len()
                &&& tiles[k].x == x
                &&& tiles[k].y == asset.map.height - 1 - y
                &&& Some(tiles[k].texture_index) == asset.texture_index(tileset_index, source.id)
                &&& tiles[k].flip_x == source.flip_h
                &&& tiles[k].flip_y == source.flip_v
                &&& tiles[k].flip_d == source.flip_d
            },
{
    let row = asset.map.height - 1 - y;
    lemma_columns(asset, tileset_index, layer, asset.map.width as int);
    let tiles = asset.group_shape(tileset_index, layer).tiles;
    assert(asset.map.cell(layer, x, asset.map.height - 1 - row) == asset.map.cell(layer, x, y));
    let tile = asset.placed(tileset_index, layer, x, row)->0;
    assert(asset.placed(tileset_index, layer, x, row) is Some);
    assert(tiles.contains(tile));
    let k = choose|k: int| 0 <= k < tiles.len() && tiles[k] == tile;
    assert(tiles[k].x == x);
}

/// Every tile of a group comes from the document: tile `k` of the group of
/// tileset `tileset_index` and layer `layer` stands in a cell of the grid,
/// and the document has, in the same column and in the row counted from the
/// other end, a tile of that tileset with the same flip flags, of which the
/// group's tile has the texture index.
pub proof fn lemma_tile_from_document(asset: &TiledMap, tileset_index: usize, layer: int, k: int)
    requires
        0 <= k < asset.group_shape(tileset_index, layer).tiles.len(),
    ensures
        ({
            let tile = asset.group_shape(tileset_index, layer).tiles[k];
            let source = asset.map.cell(layer, tile.x as int, asset.map.height - 1 - tile.y);
            &&& tile.x < asset.map.width
            &&& tile.y < asset.map.height
            &&& source is Some
            &&& source->0.tileset_index == tileset_index
            &&& asset.texture_index(tileset_index, source->0.id) == Some(tile.texture_index)
            &&& tile.flip_x == source->0.flip_h
            &&& tile.flip_y == source->0.flip_v
            &&& tile.flip_d == source->0.flip_d
        }),
{
    lemma_columns(asset, tileset_index, layer, asset.map.width as int);
    let tile = asset.group_shape(tileset_index, layer).tiles[k];
    assert(asset.placed(tileset_index, layer, tile.x as int, tile.y as int) == Some(tile));
}

/// A group has at most one tile in a cell: two tiles of a group stand in
/// different cells, the earlier one in the earlier cell.
pub proof fn lemma_one_tile_per_cell(
    asset: &TiledMap,
    tileset_index: usize,
    layer: int,
    a: int,
    b: int,
)
    requires
        0 <= a < b < asset.group_shape(tileset_index, layer).tiles.len(),
    ensures
        cell_before(
            asset.group_shape(tileset_index, layer).tiles[a],
            asset.group_shape(tileset_index, layer).tiles[b],
        ),
{
    lemma_columns(asset, tileset_index, layer, asset.map.width as int);
}

/// The groups of one tileset on the layers before `layers`: each belongs to
/// that tileset and to a layer for which a group is made, and has the shape
/// of the group of that pair; they come in layer order; and every layer
/// before `layers` for which a group is made has its group among them.
pub proof fn lemma_layer_groups(asset: &TiledMap, tileset_index: usize, layers: int)
    requires
        0 <= layers <= asset.map.layers@.len(),
    ensures
        forall|g: int|
            #![trigger asset.layer_groups(tileset_index, layers)[g]]
            0 <= g < asset.layer_groups(tileset_index, layers).len() ==> {
                let shape = asset.layer_groups(tileset_index, layers)[g];
                &&& shape.tileset_index == tileset_index
                &&& shape.layer_index < layers
                &&& asset.has_group(tileset_index, shape.layer_index as int)
                &&& shape == asset.group_shape(tileset_index, shape.layer_index as int)
            },
        forall|a: int, b: int|
            #![trigger asset.layer_groups(tileset_index, layers)[a], asset.layer_groups(tileset_index, layers)[b]]
            0 <= a < b < asset.layer_groups(tileset_index, layers).len() ==> key_before(
                asset.layer_groups(tileset_index, layers)[a],
                asset.layer_groups(tileset_index, layers)[b],
            ),
        forall|layer: int|
            0 <= layer < layers && #[trigger] asset.has_group(tileset_index, layer)
                ==> asset.layer_groups(tileset_index, layers).contains(
                asset.group_shape(tileset_index, layer),
            ),
    decreases layers,
{
    assert(asset.map.layers@.len() == asset.map.layers.len());
    if layers > 0 {
        lemma_layer_groups(asset, tileset_index, layers - 1);
        let before = asset.layer_groups(tileset_index, layers - 1);
        let all = asset.layer_groups(tileset_index, layers);
        assert forall|layer: int|
            0 <= layer < layers && #[trigger] asset.has_group(
                tileset_index,
                layer,
            ) implies all.contains(asset.group_shape(tileset_index, layer)) by {
            let shape = asset.group_shape(tileset_index, layer);
            if layer < layers - 1 {
                assert(before.contains(shape));
                let g = choose|g: int| 0 <= g < before.len() && before[g] == shape;
                assert(all[g] == shape);
            } else {
                assert(all[all.len() - 1] == shape);
            }
        }
    }
}

/// The groups of the tilesets before `tilesets`: each belongs to one of these
/// tilesets and to a layer for which a group is made, and has the shape of
/// the group of that pair; they come tileset by tileset, in layer order; and
/// every pair of one of these tilesets and a layer for which a group is made
/// has its group among them.
pub proof fn lemma_tileset_groups(asset: &TiledMap, tilesets: int)
    requires
        0 <= tilesets <= asset.map.tilesets@.len(),
    ensures
        forall|g: int|
            #![trigger asset.tileset_groups(tilesets)[g]]
            0 <= g < asset.tileset_groups(tilesets).len() ==> {
                let shape = asset.tileset_groups(tilesets)[g];
                &&& shape.tileset_index < tilesets
                &&& asset.has_group(shape.tileset_index, shape.layer_index as int)
                &&& shape == asset.group_shape(shape.tileset_index, shape.layer_index as int)
            },
        forall|a: int, b: int|
            #![trigger asset.tileset_groups(tilesets)[a], asset.tileset_groups(tilesets)[b]]
            0 <= a < b < asset.tileset_groups(tilesets).len() ==> key_before(
                asset.tileset_groups(tilesets)[a],
                asset.tileset_groups(tilesets)[b],
            ),
        forall|tileset_index: usize, layer: int|
            tileset_index < tilesets && #[trigger] asset.has_group(tileset_index, layer)
                ==> asset.tileset_groups(tilesets).contains(
                asset.group_shape(tileset_index, layer),
            ),
    decreases tilesets,
{
    assert(asset.map.tilesets@.len() == asset.map.tilesets.len());
    assert(asset.map.layers@.len() == asset.map.layers.len());
    if tilesets > 0 {
        let index = (tilesets - 1) as usize;
        lemma_tileset_groups(asset, tilesets - 1);
        lemma_layer_groups(asset, index, asset.map.layers@.len() as int);
        let earlier = asset.tileset_groups(tilesets - 1);
        let last = asset.layer_groups(index, asset.map.layers@.len() as int);
        let all = asset.tileset_groups(tilesets);
        assert(all == earlier + last);
        assert forall|g: int| #![trigger all[g]] 0 <= g < all.len() implies {
            let shape = all[g];
            &&& shape.tileset_index < tilesets
            &&& asset.has_group(shape.tileset_index, shape.layer_index as int)
            &&& shape == asset.group_shape(shape.tileset_index, shape.layer_index as int)
        } by {
            if g < earlier.len() {
                assert(all[g] == earlier[g]);
            } else {
                assert(all[g] == last[g - earlier.len()]);
            }
        }
        assert forall|a: int, b: int| #![trigger all[a], all[b]] 0 <= a < b < all.len() implies key_before(
            all[a],
            all[b],
        ) by {
            if b < earlier.len() {
                assert(all[a] == earlier[a] && all[b] == earlier[b]);
            } else if a < earlier.len() {
                assert(all[a] == earlier[a] && all[b] == last[b - earlier.len()]);
            } else {
                assert(all[a] == last[a - earlier.len()] && all[b] == last[b - earlier.len()]);
            }
        }
        assert forall|tileset_index: usize, layer: int|
            tileset_index < tilesets && #[trigger] asset.has_group(
                tileset_index,
                layer,
            ) implies all.contains(asset.group_shape(tileset_index, layer)) by {
            let shape = asset.group_shape(tileset_index, layer);
            if tileset_index < tilesets - 1 {
                assert(earlier.contains(shape));
                let g = choose|g: int| 0 <= g < earlier.len() && earlier[g] == shape;
                assert(all[g] == shape);
            } else {
                assert(last.contains(shape));
                let g = choose|g: int| 0 <= g < last.len() && last[g] == shape;
                assert(all[earlier.len() + g] == shape);
            }
        }
    }
}

/// Whether the document has, in column `x` and row `y` of layer `layer`, a
/// cell of the grid that shows a tile of tileset `tileset_index`.
pub open spec fn matching_cell(
    asset: &TiledMap,
    tileset_index: usize,
    layer: int,
    x: int,
    y: int,
) -> bool {
    &&& 0 <= x < asset.map.width
    &&& 0 <= y < asset.map.height
    &&& asset.map.cell(layer, x, y) is Some
    &&& asset.map.cell(layer, x, y)->0.tileset_index == tileset_index
}

/// A map of which every bound tileset is single-bound is consistent.
pub proof fn lemma_single_bound_is_consistent(asset: &TiledMap)
    requires
        forall|tileset_index: usize| #[trigger]
            asset.binding(tileset_index) is Some ==> asset.binding(tileset_index)->0 is Single,
    ensures
        asset.consistent(),
{
}

/// In a consistent map, a pair of a tileset and a layer has tiles exactly if
/// the tileset is bound and at least one cell of the layer shows a tile of it.
pub proof fn lemma_tiles_iff_matching_cell(asset: &TiledMap, tileset_index: usize, layer: int)
    requires
        asset.consistent(),
    ensures
        asset.group_shape(tileset_index, layer).tiles.len() > 0 <==> (asset.binding(tileset_index)
            is Some && exists|x: int, y: int| matching_cell(asset, tileset_index, layer, x, y)),
{
    lemma_columns(asset, tileset_index, layer, asset.map.width as int);
    let tiles = asset.group_shape(tileset_index, layer).tiles;
    let height = asset.map.height as int;
    if tiles.len() > 0 {
        let tile = tiles[0];
        assert(asset.placed(tileset_index, layer, tile.x as int, tile.y as int) == Some(tile));
        assert(matching_cell(asset, tileset_index, layer, tile.x as int, height - 1 - tile.y));
    }
    if asset.binding(tileset_index) is Some && exists|x: int, y: int|
        matching_cell(asset, tileset_index, layer, x, y) {
        let (x, y) = choose|x: int, y: int| matching_cell(asset, tileset_index, layer, x, y);
        let row = height - 1 - y;
        let source = asset.map.cell(layer, x, y)->0;
        assert(asset.map.cell(layer, x, height - 1 - row) == Some(source));
        assert(asset.cell_consistent(layer, x, y));
        assert(asset.texture_index(tileset_index, source.id) is Some);
        assert(asset.placed(tileset_index, layer, x, row) is Some);
        assert(tiles.contains(asset.placed(tileset_index, layer, x, row)->0));
    }
}

/// One group for each pair: among the groups of a consistent map there is a
/// group of tileset `tileset_index` and layer `layer` exactly if both exist,
/// the tileset is bound, and at least one cell of the layer shows a tile of
/// the tileset; then that group has the shape of the pair's group. No two
/// groups belong to the same pair.
pub proof fn lemma_one_group_per_pair(asset: &TiledMap, tileset_index: usize, layer: usize)
    requires
        asset.consistent(),
    ensures
        (exists|g: int|
            0 <= g < asset.shapes().len() && (#[trigger] asset.shapes()[g]).tileset_index
                == tileset_index && asset.shapes()[g].layer_index == layer) <==> (tileset_index
            < asset.map.tilesets@.len() && layer < asset.map.layers@.len() && asset.binding(
            tileset_index,
        ) is Some && exists|x: int, y: int|
            matching_cell(asset, tileset_index, layer as int, x, y)),
        forall|g: int|
            0 <= g < asset.shapes().len() && (#[trigger] asset.shapes()[g]).tileset_index
                == tileset_index && asset.shapes()[g].layer_index == layer ==> asset.shapes()[g]
                == asset.group_shape(tileset_index, layer as int),
        forall|a: int, b: int|
            0 <= a < asset.shapes().len() && 0 <= b < asset.shapes().len() && (
            #[trigger] asset.shapes()[a]).tileset_index == (
            #[trigger] asset.shapes()[b]).tileset_index && asset.shapes()[a].layer_index
                == asset.shapes()[b].layer_index ==> a == b,
{
    let shapes = asset.shapes();
    lemma_tileset_groups(asset, asset.map.tilesets@.len() as int);
    lemma_tiles_iff_matching_cell(asset, tileset_index, layer as int);
    if asset.has_group(tileset_index, layer as int) {
        let shape = asset.group_shape(tileset_index, layer as int);
        assert(shapes.contains(shape));
        let g = choose|g: int| 0 <= g < shapes.len() && shapes[g] == shape;
        assert(shapes[g].tileset_index == tileset_index && shapes[g].layer_index == layer);
    }
    if exists|g: int|
        0 <= g < shapes.len() && (#[trigger] shapes[g]).tileset_index == tileset_index
            && shapes[g].layer_index == layer {
        let g = choose|g: int|
            0 <= g < shapes.len() && (#[trigger] shapes[g]).tileset_index == tileset_index
                && shapes[g].layer_index == layer;
        assert(asset.has_group(shapes[g].tileset_index, shapes[g].layer_index as int));
    }
    assert forall|a: int, b: int|
        0 <= a < shapes.len() && 0 <= b < shapes.len() && (#[trigger] shapes[a]).tileset_index == (
        #[trigger] shapes[b]).tileset_index && shapes[a].layer_index
            == shapes[b].layer_index implies a == b by {
        if a < b {
            assert(key_before(shapes[a], shapes[b]));
        } else if b < a {
            assert(key_before(shapes[b], shapes[a]));
        }
    }
}

/// Whether `e` is the identity of the root or of a tile of `group`.
pub open spec fn in_group(group: TileGroupView, e: int) -> bool {
    group.entity.0 == e || exists|k: int|
        0 <= k < group.tiles.len() && (#[trigger] group.tiles[k]).entity.0 == e
}

/// Whether `e` is the identity of an entity of one of `groups`.
pub open spec fn in_groups(groups: Seq<TileGroupView>, e: int) -> bool {
    exists|g: int| 0 <= g < groups.len() && in_group(#[trigger] groups[g], e)
}

/// The entities of the first `n` of some shapes, numbered in a row from
/// `first`, fall into the groups: an identity in their range is that of a
/// root or of a tile of one of these groups.
proof fn lemma_find_group(shapes: Seq<GroupShape>, first: int, e: int, n: int)
    requires
        0 <= n <= shapes.len(),
        0 <= first <= e < first + entity_count(shapes.take(n)),
        first + entity_count(shapes) <= usize::MAX,
    ensures
        in_groups(spawn_groups(shapes, first), e),
    decreases n,
{
    let groups = spawn_groups(shapes, first);
    lemma_spawn_groups_len(shapes, first);
    if n == 0 {
        assert(shapes.take(0) =~= Seq::empty());
    } else {
        lemma_entity_count_take(shapes, n - 1);
        lemma_entity_count_take(shapes, n);
        let root = first + entity_count(shapes.take(n - 1));
        if e < root {
            lemma_find_group(shapes, first, e, n - 1);
        } else {
            lemma_spawn_groups_index(shapes, first, n - 1);
            let group = groups[n - 1];
            if e > root {
                let k = e - root - 1;
                assert(group.tiles[k].entity.0 == e);
            }
            assert(in_group(groups[n - 1], e));
        }
    }
}

/// The identities of groups that are numbered in a row are those from the
/// first root up to the last tile: an identity belongs to one of the groups
/// exactly if it lies in that range.
pub proof fn lemma_span_is_tree(groups: Seq<TileGroupView>, e: int)
    requires
        well_numbered(groups),
        span_end(groups) <= usize::MAX,
    ensures
        in_groups(groups, e) <==> span_start(groups) <= e < span_end(groups),
{
    let shapes = group_shapes(groups);
    let first = span_start(groups);
    lemma_spawn_groups_len(shapes, first);
    assert(shapes.take(shapes.len() as int) =~= shapes);
    if first <= e < span_end(groups) {
        lemma_find_group(shapes, first, e, shapes.len() as int);
    }
    if in_groups(groups, e) {
        let g = choose|g: int| 0 <= g < groups.len() && in_group(#[trigger] groups[g], e);
        lemma_spawn_groups_index(shapes, first, g);
        lemma_entity_count_take(shapes, g);
        lemma_entity_count_take(shapes, g + 1);
        let root = first + entity_count(shapes.take(g));
        if groups[g].entity.0 != e {
            let k = choose|k: int|
                0 <= k < groups[g].tiles.len() && (#[trigger] groups[g].tiles[k]).entity.0 == e;
            assert(e == root + 1 + k);
        }
    }
}

/// No orphans: in a scene that is in order, an entity is alive exactly if it
/// is the root or a tile of a group in the layer registry of some scene
/// instance.
pub proof fn lemma_no_orphans(world: World, e: int)
    requires
        world.wf(),
        0 <= e < world.entities().len(),
    ensures
        world.entities()[e] <==> exists|i: int|
            0 <= i < world.instances().len() && in_groups(#[trigger] world.storage(i), e),
{
    assert forall|i: int| 0 <= i < world.instances().len() implies (in_groups(
        #[trigger] world.storage(i),
        e,
    ) <==> world.owns(i, e)) by {
        lemma_span_is_tree(world.storage(i), e);
    }
    if world.entities()[e] {
        assert(world.owned(e));
        let i = choose|i: int| 0 <= i < world.instances().len() && #[trigger] world.owns(i, e);
        assert(in_groups(world.storage(i), e));
    }
    if exists|i: int|
        0 <= i < world.instances().len() && in_groups(#[trigger] world.storage(i), e) {
        let i = choose|i: int|
            0 <= i < world.instances().len() && in_groups(#[trigger] world.storage(i), e);
        assert(world.owns(i, e));
        assert(world.owned(e));
    }
}

/// No entity is shared: in a scene that is in order, an entity belongs to the
/// groups of at most one scene instance.
pub proof fn lemma_no_shared_entities(world: World, i: int, j: int, e: int)
    requires
        world.wf(),
        0 <= i < world.instances().len(),
        0 <= j < world.instances().len(),
        in_groups(world.storage(i), e),
        in_groups(world.storage(j), e),
    ensures
        i == j,
{
    lemma_span_is_tree(world.storage(i), e);
    lemma_span_is_tree(world.storage(j), e);
    assert(world.owns(i, e));
    assert(world.owns(j, e));
}

/// A removal overrides what came before it: where the batch holds the
/// removal of a map, and after it nothing that adds or modifies that map, the
/// batch says that the map was removed, whatever it holds before the removal.
pub proof fn lemma_removal_overrides(events: Seq<AssetEvent>, id: AssetId, at: int)
    requires
        0 <= at < events.len(),
        events[at] == (AssetEvent::Removed { id }),
        forall|k: int| at < k < events.len() ==> lifecycle_of(#[trigger] events[k], id) is None,
    ensures
        latest_change(events, id) == Some(Lifecycle::Removed),
    decreases events.len(),
{
    if at < events.len() - 1 {
        assert(lifecycle_of(events[events.len() - 1], id) is None);
        lemma_removal_overrides(events.drop_last(), id, at);
    }
}

/// Removal wins: a scene instance whose map the batch says was removed ends
/// the tick with an empty layer registry, whether or not the batch also
/// holds events that add or modify the map, whether or not the instance is
/// new, and whether or not the map still resolves.
pub proof fn lemma_removal_wins(world: World, events: Seq<AssetEvent>, maps: Assets, i: int)
    requires
        0 <= i < world.instances().len(),
        latest_change(events, world.instances()[i].tiled_map) == Some(Lifecycle::Removed),
    ensures
        world.decision(events, maps, i) == Decision::Clear,
        world.storage_after(events, maps, i).len() == 0,
{
}

/// A rebuild gives the groups of the map: a scene instance that is rebuilt
/// has, after the tick, groups of exactly the shapes of its loaded map,
/// whatever groups it had before and whatever identities their entities get.
pub proof fn lemma_rebuild_gives_map_shapes(
    world: World,
    events: Seq<AssetEvent>,
    maps: Assets,
    i: int,
)
    requires
        0 <= i < world.instances().len(),
        world.decision(events, maps, i) == Decision::Rebuild,
    ensures
        group_shapes(world.storage_after(events, maps, i)) == world.map_of(maps, i)->0.shapes(),
{
    lemma_spawn_groups_shapes(
        world.built_shapes(events, maps, i),
        (world.entities().len() + world.spawned_before(events, maps, i)) as int,
    );
}

/// Rebuilding is idempotent: where a scene instance is rebuilt in two ticks
/// from the same loaded maps, it has the same groups after both, up to the
/// identities of the entities: the same keys, and in every group the same
/// tiles in the same cells with the same texture indices.
pub proof fn lemma_rebuild_is_idempotent(
    first: World,
    first_events: Seq<AssetEvent>,
    second: World,
    second_events: Seq<AssetEvent>,
    maps: Assets,
    i: int,
)
    requires
        0 <= i < first.instances().len(),
        0 <= i < second.instances().len(),
        first.instances()[i].tiled_map == second.instances()[i].tiled_map,
        first.decision(first_events, maps, i) == Decision::Rebuild,
        second.decision(second_events, maps, i) == Decision::Rebuild,
    ensures
        group_shapes(first.storage_after(first_events, maps, i)) == group_shapes(
            second.storage_after(second_events, maps, i),
        ),
{
    lemma_rebuild_gives_map_shapes(first, first_events, maps, i);
    lemma_rebuild_gives_map_shapes(second, second_events, maps, i);
}

/// The keys of a layer registry are the pairs of its groups.
pub proof fn lemma_registry_keys(groups: Seq<TileGroupView>, layer: usize, tileset_index: usize)
    ensures
        registry_of(groups).contains_key((layer, tileset_index)) <==> exists|g: int|
            0 <= g < groups.len() && (#[trigger] groups[g]).layer_index == layer
                && groups[g].tileset_index == tileset_index,
    decreases groups.len(),
{
    if groups.len() > 0 {
        let rest = groups.drop_last();
        lemma_registry_keys(rest, layer, tileset_index);
        if registry_of(groups).contains_key((layer, tileset_index)) {
            if groups.last().layer_index == layer && groups.last().tileset_index == tileset_index {
                assert(groups[groups.len() - 1].layer_index == layer);
            } else {
                let g = choose|g: int|
                    0 <= g < rest.len() && (#[trigger] rest[g]).layer_index == layer
                        && rest[g].tileset_index == tileset_index;
                assert(groups[g].layer_index == layer);
            }
        }
        if exists|g: int|
            0 <= g < groups.len() && (#[trigger] groups[g]).layer_index == layer
                && groups[g].tileset_index == tileset_index {
            let g = choose|g: int|
                0 <= g < groups.len() && (#[trigger] groups[g]).layer_index == layer
                    && groups[g].tileset_index == tileset_index;
            if g < rest.len() {
                assert(rest[g].layer_index == layer);
            }
        }
    }
}

/// One registry entry for each pair: after a tick in which scene instance `i`
/// is rebuilt from a consistent map, its layer registry has an entry under
/// the pair of layer `layer` and tileset `tileset_index` exactly if its map
/// has both, the tileset is bound, and at least one cell of the layer shows a
/// tile of the tileset.
pub proof fn lemma_rebuilt_registry(
    world: World,
    events: Seq<AssetEvent>,
    maps: Assets,
    i: int,
    layer: usize,
    tileset_index: usize,
)
    requires
        0 <= i < world.instances().len(),
        world.decision(events, maps, i) == Decision::Rebuild,
        world.map_of(maps, i)->0.consistent(),
    ensures
        ({
            let asset = world.map_of(maps, i)->0;
            registry_of(world.storage_after(events, maps, i)).contains_key((layer, tileset_index))
                <==> (tileset_index < asset.map.tilesets@.len() && layer < asset.map.layers@.len()
                && asset.binding(tileset_index) is Some && exists|x: int, y: int|
                matching_cell(&asset, tileset_index, layer as int, x, y))
        }),
{
    let asset = world.map_of(maps, i)->0;
    let groups = world.storage_after(events, maps, i);
    let shapes = asset.shapes();
    lemma_rebuild_gives_map_shapes(world, events, maps, i);
    lemma_registry_keys(groups, layer, tileset_index);
    lemma_one_group_per_pair(&asset, tileset_index, layer);
    assert(group_shapes(groups).len() == groups.len());
    if exists|g: int|
        0 <= g < groups.len() && (#[trigger] groups[g]).layer_index == layer
            && groups[g].tileset_index == tileset_index {
        let g = choose|g: int|
            0 <= g < groups.len() && (#[trigger] groups[g]).layer_index == layer
                && groups[g].tileset_index == tileset_index;
        assert(group_shapes(groups)[g] == groups[g].shape());
        assert(shapes[g].tileset_index == tileset_index && shapes[g].layer_index == layer);
    }
    if exists|g: int|
        0 <= g < shapes.len() && (#[trigger] shapes[g]).tileset_index == tileset_index
            && shapes[g].layer_index == layer {
        let g = choose|g: int|
            0 <= g < shapes.len() && (#[trigger] shapes[g]).tileset_index == tileset_index
                && shapes[g].layer_index == layer;
        assert(group_shapes(groups)[g] == groups[g].shape());
        assert(groups[g].layer_index == layer && groups[g].tileset_index == tileset_index);
    }
}

/// With single-bound tilesets only: after a tick in which scene instance `i`
/// is rebuilt from a map of which every tileset is single-bound, its layer
/// registry has an entry under the pair of layer `layer` and tileset
/// `tileset_index` exactly if its map has both and at least one cell of the
/// layer shows a tile of the tileset.
pub proof fn lemma_single_bound_registry(
    world: World,
    events: Seq<AssetEvent>,
    maps: Assets,
    i: int,
    layer: usize,
    tileset_index: usize,
)
    requires
        0 <= i < world.instances().len(),
        world.decision(events, maps, i) == Decision::Rebuild,
        forall|index: usize|
            index < world.map_of(maps, i)->0.map.tilesets@.len() ==> (#[trigger] world.map_of(
                maps,
                i,
            )->0.binding(index)) matches Some(TextureBinding::Single(_)),
        forall|index: usize|
            index >= world.map_of(maps, i)->0.map.tilesets@.len() ==> (#[trigger] world.map_of(
                maps,
                i,
            )->0.binding(index)) is None,
    ensures
        ({
            let asset = world.map_of(maps, i)->0;
            registry_of(world.storage_after(events, maps, i)).contains_key((layer, tileset_index))
                <==> (tileset_index < asset.map.tilesets@.len() && layer < asset.map.layers@.len()
                && exists|x: int, y: int|
                matching_cell(&asset, tileset_index, layer as int, x, y))
        }),
{
    let asset = world.map_of(maps, i)->0;
    assert forall|index: usize| #[trigger]
        asset.binding(index) is Some implies asset.binding(index)->0 is Single by {
        if index >= asset.map.tilesets@.len() {
            assert(asset.binding(index) is None);
        }
    }
    lemma_single_bound_is_consistent(&asset);
    lemma_rebuilt_registry(world, events, maps, i, layer, tileset_index);
    if tileset_index < asset.map.tilesets@.len() {
        assert(asset.binding(tileset_index) is Some);
    }
}

/// Nothing remains: in a scene that is in order and of which every layer
/// registry is empty, no entity is alive.
pub proof fn lemma_empty_registries_no_entities(world: World, e: int)
    requires
        world.wf(),
        forall|i: int| 0 <= i < world.instances().len() ==> (#[trigger] world.storage(i)).len() == 0,
        0 <= e < world.entities().len(),
    ensures
        !world.entities()[e],
{
    if world.owned(e) {
        let i = choose|i: int| 0 <= i < world.instances().len() && #[trigger] world.owns(i, e);
        assert(world.storage(i).len() == 0);
        assert(group_shapes(world.storage(i)) =~= Seq::empty());
    }
}

} // verus!
