//! The tile-map document: grid dimensions, tilesets and layers, as plain data.

use vstd::prelude::*;

verus! {

/// Orientation declared by a document.
#[derive(Clone, Copy, Debug, PartialEq, Eq, Structural)]
pub enum Orientation {
    Orthogonal,
    Isometric,
    Staggered,
    Hexagonal,
}

/// One cell of a tile layer: a tile of some tileset, with its flip flags.
#[derive(Clone, Copy, Debug, PartialEq, Eq, Structural)]
pub struct LayerTile {
    /// Index of the owning tileset in the document's tileset list.
    pub tileset_index: usize,
    /// Id of the tile within its tileset.
    pub id: u32,
    pub flip_h: bool,
    pub flip_v: bool,
    pub flip_d: bool,
}

/// A finite tile grid, stored row by row from the top-left cell.
#[derive(Clone, Debug, PartialEq, Eq)]
pub struct FiniteTileLayer {
    pub width: u32,
    pub height: u32,
    /// Cell `(x, y)` is entry `y * width + x`.
    pub tiles: Vec<Option<LayerTile>>,
}

#[derive(Clone, Debug, PartialEq, Eq)]
pub enum TileLayer {
    Finite(FiniteTileLayer),
    Infinite,
}

#[derive(Clone, Debug, PartialEq, Eq)]
pub enum LayerType {
    Tiles(TileLayer),
    Objects,
    Image,
    Group,
}

#[derive(Clone, Debug, PartialEq, Eq)]
pub struct Layer {
    pub layer_type: LayerType,
}

/// A tile definition of a tileset. Only tiles of image-collection tilesets
/// carry an image of their own.
#[derive(Clone, Debug, PartialEq, Eq)]
pub struct TilesetTile {
    pub id: u32,
    /// Source of the tile's own image, relative to the document's directory.
    pub image: Option<String>,
}

#[derive(Clone, Debug, PartialEq, Eq)]
pub struct Tileset {
    pub tile_width: u32,
    pub tile_height: u32,
    pub spacing: u32,
    /// Source of the one image shared by all tiles, relative to the document's
    /// directory. `None` for an image-collection tileset.
    pub image: Option<String>,
    /// The tile definitions, in the order in which the tileset enumerates them.
    pub tiles: Vec<TilesetTile>,
}

#[derive(Clone, Debug, PartialEq, Eq)]
pub struct Document {
    /// Width of the grid, in tiles.
    pub width: u32,
    /// Height of the grid, in tiles.
    pub height: u32,
    pub tile_width: u32,
    pub tile_height: u32,
    pub orientation: Orientation,
    pub tilesets: Vec<Tileset>,
    pub layers: Vec<Layer>,
}

impl FiniteTileLayer {
    /// The content of cell `(x, y)`: `None` outside the grid and for an empty cell.
    pub open spec fn cell(&self, x: int, y: int) -> Option<LayerTile> {
        if 0 <= x < self.width && 0 <= y < self.height && y * self.width + x < self.tiles@.len() {
            self.tiles@[y * self.width + x]
        } else {
            None
        }
    }

    pub fn get_tile(&self, x: u32, y: u32) -> (tile: Option<LayerTile>)
        ensures
            tile == self.cell(x as int, y as int),
    {
        if x < self.width && y < self.height {
            assert(0 <= y * self.width + x < 0x1_0000_0000 * 0x1_0000_0000) by (nonlinear_arith)
                requires
                    0 <= x < 0x1_0000_0000,
                    0 <= y < 0x1_0000_0000,
                    0 <= self.width < 0x1_0000_0000,
            ;
            let index: u64 = (y as u64) * (self.width as u64) + (x as u64);
            if index < self.tiles.len() as u64 {
                self.tiles[index as usize]
            } else {
                None
            }
        } else {
            None
        }
    }
}

impl Layer {
    /// The finite tile grid of this layer, if it is a finite tile layer.
    pub open spec fn finite(&self) -> Option<FiniteTileLayer> {
        match self.layer_type {
            LayerType::Tiles(TileLayer::Finite(grid)) => Some(grid),
            _ => None,
        }
    }

    pub fn as_finite(&self) -> (grid: Option<&FiniteTileLayer>)
        ensures
            grid matches Some(g) ==> self.finite() == Some(*g),
            grid is None ==> self.finite() is None,
    {
        match &self.layer_type {
            LayerType::Tiles(TileLayer::Finite(grid)) => Some(grid),
            _ => None,
        }
    }
}

impl Document {
    /// The content of cell `(x, y)` of layer `layer`: `None` where the layer
    /// does not exist or is no finite tile layer, outside its grid, and for an
    /// empty cell.
    pub open spec fn cell(&self, layer: int, x: int, y: int) -> Option<LayerTile> {
        if 0 <= layer < self.layers@.len() {
            match self.layers@[layer].finite() {
                Some(grid) => grid.cell(x, y),
                None => None,
            }
        } else {
            None
        }
    }
}

} // verus!
