//! How the images of a tileset are addressed: one shared image, or a list of
//! images with one entry per tile that carries an image of its own.

use vstd::prelude::*;
use crate::document::{Tileset, TilesetTile};

verus! {

/// Stands for an image that was requested while a map was loaded: the index
/// of its source in the list of image requests of the loaded map.
#[derive(Clone, Copy, Debug, PartialEq, Eq, Structural)]
pub struct ImageHandle {
    pub index: usize,
}

/// The texture binding of one tileset.
#[derive(Clone, Debug, PartialEq, Eq)]
pub enum TilemapTexture {
    /// All tiles are cut from one image; a tile is addressed by its id.
    Single(ImageHandle),
    /// Every tile has an image of its own; a tile is addressed by the position
    /// of its image in this list.
    Vector(Vec<ImageHandle>),
}

/// A texture binding as a mathematical value.
pub enum TextureBinding {
    Single(ImageHandle),
    Vector(Seq<ImageHandle>),
}

impl View for TilemapTexture {
    type V = TextureBinding;

    open spec fn view(&self) -> TextureBinding {
        match self {
            TilemapTexture::Single(handle) => TextureBinding::Single(*handle),
            TilemapTexture::Vector(handles) => TextureBinding::Vector(handles@),
        }
    }
}

/// The texture bindings of a loaded map, by tileset index. The entries are
/// held in a `bevy::utils::HashMap`, which Verus does not look into.
#[verifier::external_body]
pub struct TilemapTextures {
    entries: bevy::utils::HashMap<usize, TilemapTexture>,
}

/// The entries of a table of texture bindings.
pub uninterp spec fn texture_entries(textures: TilemapTextures) -> Map<usize, TilemapTexture>;

impl View for TilemapTextures {
    type V = Map<usize, TextureBinding>;

    open spec fn view(&self) -> Map<usize, TextureBinding> {
        Map::new(
            |index: usize| texture_entries(*self).contains_key(index),
            |index: usize| texture_entries(*self)[index]@,
        )
    }
}

/// The position of each tile's image within the image list of its tileset, by
/// tileset index and tile id. The entries are held in a
/// `bevy::utils::HashMap`, which Verus does not look into.
#[verifier::external_body]
pub struct TileImageOffsets {
    entries: bevy::utils::HashMap<(usize, u32), u32>,
}

/// The entries of a table of tile image offsets.
pub uninterp spec fn offset_entries(offsets: TileImageOffsets) -> Map<(usize, u32), u32>;

impl View for TileImageOffsets {
    type V = Map<(usize, u32), u32>;

    open spec fn view(&self) -> Map<(usize, u32), u32> {
        offset_entries(*self)
    }
}

/// Makes an empty table with `HashMap::default` (hashbrown's map, under the
/// name `bevy::utils::HashMap`): the new table has no entry.
#[verifier::external_body]
fn empty_textures() -> (textures: TilemapTextures)
    ensures
        texture_entries(textures) =~= Map::empty(),
{
    TilemapTextures { entries: bevy::utils::HashMap::default() }
}

/// Calls `HashMap::insert` (hashbrown's map, under the name
/// `bevy::utils::HashMap`): afterwards `index` is bound to `texture`, and every
/// other key is bound as before.
#[verifier::external_body]
fn put_texture(textures: &mut TilemapTextures, index: usize, texture: TilemapTexture)
    ensures
        texture_entries(*final(textures)) == texture_entries(*old(textures)).insert(index, texture),
{
    textures.entries.insert(index, texture);
}

/// Calls `HashMap::get` (hashbrown's map, under the name
/// `bevy::utils::HashMap`): the value bound to `index`, or `None` where the
/// key is not bound.
#[verifier::external_body]
fn find_texture(textures: &TilemapTextures, index: usize) -> (texture: Option<&TilemapTexture>)
    ensures
        texture matches Some(found) ==> texture_entries(*textures).contains_key(index)
            && texture_entries(*textures)[index] == *found,
        texture is None ==> !texture_entries(*textures).contains_key(index),
{
    textures.entries.get(&index)
}

/// Makes an empty table with `HashMap::default` (hashbrown's map, under the
/// name `bevy::utils::HashMap`): the new table has no entry.
#[verifier::external_body]
fn empty_offsets() -> (offsets: TileImageOffsets)
    ensures
        offset_entries(offsets) =~= Map::empty(),
{
    TileImageOffsets { entries: bevy::utils::HashMap::default() }
}

/// Calls `HashMap::insert` (hashbrown's map, under the name
/// `bevy::utils::HashMap`): afterwards the pair of `tileset_index` and
/// `tile_id` is bound to `offset`, and every other key is bound as before.
#[verifier::external_body]
fn put_offset(offsets: &mut TileImageOffsets, tileset_index: usize, tile_id: u32, offset: u32)
    ensures
        offset_entries(*final(offsets)) == offset_entries(*old(offsets)).insert(
            (tileset_index, tile_id),
            offset,
        ),
{
    offsets.entries.insert((tileset_index, tile_id), offset);
}

/// Calls `HashMap::get` (hashbrown's map, under the name
/// `bevy::utils::HashMap`): the value bound to the pair of `tileset_index` and
/// `tile_id`, or `None` where the pair is not bound.
#[verifier::external_body]
fn find_offset(offsets: &TileImageOffsets, tileset_index: usize, tile_id: u32) -> (offset: Option<u32>)
    ensures
        offset matches Some(found) ==> offset_entries(*offsets).contains_key((tileset_index, tile_id))
            && offset_entries(*offsets)[(tileset_index, tile_id)] == found,
        offset is None ==> !offset_entries(*offsets).contains_key((tileset_index, tile_id)),
{
    offsets.entries.get(&(tileset_index, tile_id)).copied()
}

impl TilemapTextures {
    pub fn new() -> (textures: TilemapTextures)
        ensures
            textures@ =~= Map::empty(),
    {
        empty_textures()
    }

    /// Binds tileset `index` to `texture`, in place of an earlier binding.
    pub fn insert(&mut self, index: usize, texture: TilemapTexture)
        ensures
            final(self)@ == old(self)@.insert(index, texture@),
    {
        put_texture(self, index, texture);
        assert(self@ =~= old(self)@.insert(index, texture@));
    }

    /// The binding of tileset `index`, if it has one.
    pub fn get(&self, index: usize) -> (texture: Option<&TilemapTexture>)
        ensures
            texture matches Some(found) ==> self@.contains_key(index) && self@[index] == found@,
            texture is None ==> !self@.contains_key(index),
    {
        find_texture(self, index)
    }
}

impl TileImageOffsets {
    pub fn new() -> (offsets: TileImageOffsets)
        ensures
            offsets@ =~= Map::empty(),
    {
        empty_offsets()
    }

    /// Records `offset` for tile `tile_id` of tileset `tileset_index`, in place
    /// of an earlier record.
    pub fn insert(&mut self, tileset_index: usize, tile_id: u32, offset: u32)
        ensures
            final(self)@ == old(self)@.insert((tileset_index, tile_id), offset),
    {
        put_offset(self, tileset_index, tile_id, offset);
    }

    /// The offset recorded for tile `tile_id` of tileset `tileset_index`.
    pub fn get(&self, tileset_index: usize, tile_id: u32) -> (offset: Option<u32>)
        ensures
            offset == recorded_offset(self@, tileset_index, tile_id),
    {
        find_offset(self, tileset_index, tile_id)
    }
}

/// The offset that `offsets` holds for tile `tile_id` of tileset `tileset_index`.
pub open spec fn recorded_offset(
    offsets: Map<(usize, u32), u32>,
    tileset_index: usize,
    tile_id: u32,
) -> Option<u32> {
    if offsets.contains_key((tileset_index, tile_id)) {
        Some(offsets[(tileset_index, tile_id)])
    } else {
        None
    }
}

/// The tiles of `tiles` that carry an image, in the order of `tiles`.
pub open spec fn image_bearing(tiles: Seq<TilesetTile>) -> Seq<TilesetTile>
    decreases tiles.len(),
{
    if tiles.len() == 0 {
        Seq::empty()
    } else if tiles.last().image is Some {
        image_bearing(tiles.drop_last()).push(tiles.last())
    } else {
        image_bearing(tiles.drop_last())
    }
}

/// The image sources of tiles that all carry an image.
pub open spec fn tile_images(tiles: Seq<TilesetTile>) -> Seq<String> {
    Seq::new(tiles.len(), |i: int| tiles[i].image->0)
}

/// The ids of `tiles`.
pub open spec fn tile_ids(tiles: Seq<TilesetTile>) -> Seq<u32> {
    Seq::new(tiles.len(), |i: int| tiles[i].id)
}

/// `count` handles in a row, the first with index `first`.
pub open spec fn handle_run(first: int, count: nat) -> Seq<ImageHandle> {
    Seq::new(count, |i: int| ImageHandle { index: (first + i) as usize })
}

/// A position in an image list as a 32-bit offset. Positions from 2^32 on
/// wrap around.
pub open spec fn offset_at(position: int) -> u32 {
    (position % 0x1_0000_0000) as u32
}

/// `offsets` after the tiles `ids` of tileset `tileset_index` were recorded in
/// turn, tile `ids[i]` at position `i`. Where an id occurs twice, its last
/// position stays.
pub open spec fn record_offsets(
    offsets: Map<(usize, u32), u32>,
    tileset_index: usize,
    ids: Seq<u32>,
) -> Map<(usize, u32), u32>
    decreases ids.len(),
{
    if ids.len() == 0 {
        offsets
    } else {
        record_offsets(offsets, tileset_index, ids.drop_last()).insert(
            (tileset_index, ids.last()),
            offset_at(ids.len() - 1),
        )
    }
}

/// What loading has resolved so far: the texture bindings, the tile image
/// offsets, and the sources of the images that were requested, in the order
/// of the requests.
pub struct Resolution {
    pub textures: Map<usize, TextureBinding>,
    pub offsets: Map<(usize, u32), u32>,
    pub images: Seq<String>,
}

/// The resolution after tileset `tileset`, which has index `tileset_index`,
/// was resolved on top of `before`.
///
/// A tileset with a shared image gets a single binding and one request. An
/// image-collection tileset gets, unless `atlas` forbids it, a vector binding
/// with one request per tile that carries an image, and each such tile's
/// position in the vector is recorded as its offset. Under `atlas` an
/// image-collection tileset is skipped.
pub open spec fn resolve_tileset(
    before: Resolution,
    tileset_index: usize,
    tileset: Tileset,
    atlas: bool,
) -> Resolution {
    let first = before.images.len() as int;
    if tileset.image is Some {
        Resolution {
            textures: before.textures.insert(
                tileset_index,
                TextureBinding::Single(ImageHandle { index: first as usize }),
            ),
            offsets: before.offsets,
            images: before.images.push(tileset.image->0),
        }
    } else if atlas {
        before
    } else {
        let with_image = image_bearing(tileset.tiles@);
        Resolution {
            textures: before.textures.insert(
                tileset_index,
                TextureBinding::Vector(handle_run(first, with_image.len())),
            ),
            offsets: record_offsets(before.offsets, tileset_index, tile_ids(with_image)),
            images: before.images + tile_images(with_image),
        }
    }
}

/// The texture binding resolver: decides how tileset `tileset`, of index
/// `tileset_index`, is addressed, and adds its binding, its image requests and
/// the offsets of its tiles to what was resolved before.
pub fn resolve_texture(
    tileset_index: usize,
    tileset: &Tileset,
    atlas: bool,
    textures: &mut TilemapTextures,
    offsets: &mut TileImageOffsets,
    images: &mut Vec<String>,
)
    ensures
        (Resolution { textures: final(textures)@, offsets: final(offsets)@, images: final(images)@ })
            == resolve_tileset(
            (Resolution { textures: old(textures)@, offsets: old(offsets)@, images: old(images)@ }),
            tileset_index,
            *tileset,
            atlas,
        ),
{
    let ghost before = Resolution { textures: textures@, offsets: offsets@, images: images@ };
    match &tileset.image {
        Some(source) => {
            let handle = ImageHandle { index: images.len() };
            images.push(source.clone());
            textures.insert(tileset_index, TilemapTexture::Single(handle));
        },
        None => {
            if !atlas {
                let mut handles: Vec<ImageHandle> = Vec::new();
                let mut k: usize = 0;
                assert(tileset.tiles@.take(0) =~= Seq::empty());
                while k < tileset.tiles.len()
                    invariant
                        k <= tileset.tiles@.len(),
                        textures@ == before.textures,
                        handles@ =~= handle_run(
                            before.images.len() as int,
                            image_bearing(tileset.tiles@.take(k as int)).len(),
                        ),
                        images@ =~= before.images + tile_images(
                            image_bearing(tileset.tiles@.take(k as int)),
                        ),
                        offsets@ == record_offsets(
                            before.offsets,
                            tileset_index,
                            tile_ids(image_bearing(tileset.tiles@.take(k as int))),
                        ),
                    decreases tileset.tiles@.len() - k,
                {
                    let ghost seen = image_bearing(tileset.tiles@.take(k as int));
                    let ghost next = tileset.tiles@.take(k + 1);
                    assert(next.drop_last() =~= tileset.tiles@.take(k as int));
                    assert(next.last() == tileset.tiles@[k as int]);
                    let tile = &tileset.tiles[k];
                    match &tile.image {
                        Some(source) => {
                            let position: u64 = handles.len() as u64;
                            let offset: u32 = (position % 0x1_0000_0000) as u32;
                            let handle = ImageHandle { index: images.len() };
                            images.push(source.clone());
                            offsets.insert(tileset_index, tile.id, offset);
                            handles.push(handle);
                            proof {
                                let grown = image_bearing(next);
                                assert(grown == seen.push(*tile));
                                assert(tile_ids(grown).drop_last() =~= tile_ids(seen));
                                assert(tile_ids(grown).last() == tile.id);
                                assert(tile_images(grown) =~= tile_images(seen).push(*source));
                            }
                        },
                        None => {},
                    }
                    k = k + 1;
                }
                assert(tileset.tiles@.take(k as int) =~= tileset.tiles@);
                textures.insert(tileset_index, TilemapTexture::Vector(handles));
            }
        },
    }
}

} // verus!
