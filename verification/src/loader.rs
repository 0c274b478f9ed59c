//! Loading: from a parsed document to a loaded map, with the texture binding
//! of every tileset, the tile image offsets and the list of images to request.

use vstd::prelude::*;
use vstd::string::StringExecFns;
use crate::document::{Document, Tileset};
use crate::texture::{
    resolve_texture, resolve_tileset, Resolution, TileImageOffsets, TilemapTextures,
};

verus! {

/// Why a map could not be loaded.
#[derive(Clone, Debug, PartialEq, Eq)]
pub enum TiledAssetLoaderError {
    /// The bytes of the document could not be read.
    Io(String),
    /// The document parser rejected the bytes; this is its diagnostic.
    Parse(String),
    /// The document refers to an image, and its path has no parent directory
    /// against which the reference could be resolved.
    MissingParentPath,
}

/// A loaded map: the document, together with what loading resolved from it.
pub struct TiledMap {
    pub map: Document,
    /// The texture binding of each tileset, by tileset index.
    pub tilemap_textures: TilemapTextures,
    /// The offset into the image list of its tileset for each tile of a
    /// vector-bound tileset, by tileset index and tile id.
    pub tile_image_offsets: TileImageOffsets,
    /// The directory of the document, against which image sources are resolved.
    pub directory: Option<String>,
    /// The sources of the images to request, in the order of their handles.
    pub images: Vec<String>,
}

/// The loader of tile-map documents.
#[derive(Clone, Copy, Debug, PartialEq, Eq, Structural)]
pub struct TiledLoader {
    /// Atlas-only mode: image-collection tilesets are skipped.
    pub atlas: bool,
}

/// The resolution with nothing resolved.
pub open spec fn nothing_resolved() -> Resolution {
    Resolution { textures: Map::empty(), offsets: Map::empty(), images: Seq::empty() }
}

/// The resolution after the tilesets were resolved in document order, each
/// under its index in `tilesets`.
pub open spec fn resolve_tilesets(tilesets: Seq<Tileset>, atlas: bool) -> Resolution
    decreases tilesets.len(),
{
    if tilesets.len() == 0 {
        nothing_resolved()
    } else {
        resolve_tileset(
            resolve_tilesets(tilesets.drop_last(), atlas),
            (tilesets.len() - 1) as usize,
            tilesets.last(),
            atlas,
        )
    }
}

impl TiledMap {
    /// What loading resolved, as one value.
    pub open spec fn resolution(&self) -> Resolution {
        Resolution {
            textures: self.tilemap_textures@,
            offsets: self.tile_image_offsets@,
            images: self.images@,
        }
    }
}

impl TiledAssetLoaderError {
    /// The text of the error, for display.
    pub fn message(&self) -> (text: String)
        ensures
            text@ == self.message_text(),
    {
        match self {
            TiledAssetLoaderError::Io(cause) => String::from_str("Could not load Tiled file: ").concat(
                cause.as_str(),
            ),
            TiledAssetLoaderError::Parse(diagnostic) => String::from_str(
                "Could not load Tiled file: Could not load TMX map: ",
            ).concat(diagnostic.as_str()),
            TiledAssetLoaderError::MissingParentPath => String::from_str(
                "Could not load Tiled file: the document's path has no parent directory",
            ),
        }
    }

    /// The text of the error.
    pub open spec fn message_text(&self) -> Seq<char> {
        match self {
            TiledAssetLoaderError::Io(cause) => "Could not load Tiled file: "@ + cause@,
            TiledAssetLoaderError::Parse(diagnostic) =>
                "Could not load Tiled file: Could not load TMX map: "@ + diagnostic@,
            TiledAssetLoaderError::MissingParentPath =>
                "Could not load Tiled file: the document's path has no parent directory"@,
        }
    }
}

impl Default for TiledLoader {
    /// A loader that accepts image-collection tilesets.
    fn default() -> (loader: TiledLoader)
        ensures
            !loader.atlas,
    {
        TiledLoader { atlas: false }
    }
}

impl TiledLoader {
    /// A loader that accepts image-collection tilesets.
    pub fn new() -> (loader: TiledLoader)
        ensures
            !loader.atlas,
    {
        TiledLoader { atlas: false }
    }

    /// The file extensions of the documents that this loader accepts.
    pub fn extensions(&self) -> (extensions: Vec<&'static str>)
        ensures
            extensions@.len() == 1,
            extensions@[0]@ == "tmx"@,
    {
        let mut extensions: Vec<&'static str> = Vec::new();
        extensions.push("tmx");
        extensions
    }

    /// Makes a loaded map of what reading and parsing gave.
    ///
    /// `parsed` is the parsed document, or the error with which the bytes
    /// could not be read or parsed; such an error is handed on. `directory` is
    /// the parent directory of the document's path, if it has one. A document
    /// that asks for at least one image cannot be loaded without it.
    /// Otherwise every tileset is resolved, in document order.
    pub fn load(
        &self,
        parsed: Result<Document, TiledAssetLoaderError>,
        directory: Option<String>,
    ) -> (loaded: Result<TiledMap, TiledAssetLoaderError>)
        ensures
            parsed matches Err(error) ==> loaded matches Err(handed_on) && handed_on == error,
            parsed matches Ok(document) ==> {
                let resolved = resolve_tilesets(document.tilesets@, self.atlas);
                if directory is None && resolved.images.len() > 0 {
                    loaded matches Err(TiledAssetLoaderError::MissingParentPath)
                } else {
                    &&& loaded matches Ok(asset)
                    &&& asset.map == document
                    &&& asset.directory == directory
                    &&& asset.resolution() == resolved
                }
            },
    {
        let document = match parsed {
            Ok(document) => document,
            Err(error) => {
                return Err(error);
            },
        };
        let mut textures = TilemapTextures::new();
        let mut offsets = TileImageOffsets::new();
        let mut images: Vec<String> = Vec::new();
        let mut index: usize = 0;
        assert(document.tilesets@.take(0) =~= Seq::empty());
        while index < document.tilesets.len()
            invariant
                index <= document.tilesets@.len(),
                (Resolution { textures: textures@, offsets: offsets@, images: images@ })
                    == resolve_tilesets(document.tilesets@.take(index as int), self.atlas),
            decreases document.tilesets@.len() - index,
        {
            assert(document.tilesets@.take(index + 1).drop_last() =~= document.tilesets@.take(
                index as int,
            ));
            resolve_texture(
                index,
                &document.tilesets[index],
                self.atlas,
                &mut textures,
                &mut offsets,
                &mut images,
            );
            index = index + 1;
        }
        assert(document.tilesets@.take(index as int) =~= document.tilesets@);
        if directory.is_none() && images.len() > 0 {
            return Err(TiledAssetLoaderError::MissingParentPath);
        }
        Ok(
            TiledMap {
                map: document,
                tilemap_textures: textures,
                tile_image_offsets: offsets,
                directory,
                images,
            },
        )
    }
}

} // verus!
