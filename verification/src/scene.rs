//! The entities that the pipeline owns, as an explicit tree: a scene instance
//! owns its tile groups through its layer registry, and a tile group owns its
//! tile entities.

use vstd::prelude::*;

verus! {

/// Identity of an entity of the scene.
#[derive(Clone, Copy, Debug, PartialEq, Eq, Hash, Structural)]
pub struct Entity(pub usize);

/// Coordinate system of a tile group in the scene.
#[derive(Clone, Copy, Debug, PartialEq, Eq, Structural)]
pub enum TilemapType {
    Square,
    IsometricDiamond,
    IsometricStaggered,
    HexagonRow,
}

/// Whether the texture index of a tile counts within one shared image or
/// within a list of images.
#[derive(Clone, Copy, Debug, PartialEq, Eq, Structural)]
pub enum Addressing {
    Single,
    Vector,
}

/// What a tile entity shows, and where: its cell in the grid of its group
/// (rows count from the bottom), its texture index and its flip flags.
#[derive(Clone, Copy, Debug, PartialEq, Eq, Structural)]
pub struct Tile {
    pub x: u32,
    pub y: u32,
    pub texture_index: u32,
    pub flip_x: bool,
    pub flip_y: bool,
    pub flip_d: bool,
}

/// A tile entity: a tile, under its own identity and that of its group.
#[derive(Clone, Copy, Debug, PartialEq, Eq, Structural)]
pub struct TileEntity {
    pub entity: Entity,
    /// The root entity of the group that owns this tile.
    pub tilemap_id: Entity,
    pub tile: Tile,
}

/// The grid metadata of a tile group.
#[derive(Clone, Copy, Debug, PartialEq, Eq, Structural)]
pub struct GridMetadata {
    /// Width of the grid, in tiles.
    pub width: u32,
    /// Height of the grid, in tiles.
    pub height: u32,
    /// Width of a grid cell, from the document.
    pub grid_width: u32,
    /// Height of a grid cell, from the document.
    pub grid_height: u32,
    /// Width of a tile, from the tileset.
    pub tile_width: u32,
    /// Height of a tile, from the tileset.
    pub tile_height: u32,
    /// Spacing between tiles, the same along both axes.
    pub spacing: u32,
    pub map_type: TilemapType,
    pub addressing: Addressing,
}

/// A tile group: the tile entities of one layer that are drawn from one
/// tileset, under a root entity.
#[derive(Clone, Debug, PartialEq, Eq)]
pub struct TileGroup {
    pub entity: Entity,
    pub layer_index: usize,
    pub tileset_index: usize,
    pub metadata: GridMetadata,
    /// The tile entities that the group owns, one per occupied cell.
    pub tiles: Vec<TileEntity>,
}

/// A tile group apart from the identities of its entities.
pub struct GroupShape {
    pub layer_index: usize,
    pub tileset_index: usize,
    pub metadata: GridMetadata,
    pub tiles: Seq<Tile>,
}

/// A tile group as a mathematical value.
pub struct TileGroupView {
    pub entity: Entity,
    pub layer_index: usize,
    pub tileset_index: usize,
    pub metadata: GridMetadata,
    pub tiles: Seq<TileEntity>,
}

impl View for TileGroup {
    type V = TileGroupView;

    open spec fn view(&self) -> TileGroupView {
        TileGroupView {
            entity: self.entity,
            layer_index: self.layer_index,
            tileset_index: self.tileset_index,
            metadata: self.metadata,
            tiles: self.tiles@,
        }
    }
}

impl TileGroup {
    /// The tile entity in column `x` and row `y` of the grid, if the cell is
    /// occupied.
    pub fn get(&self, x: u32, y: u32) -> (found: Option<TileEntity>)
        ensures
            found matches Some(entity) ==> self.tiles@.contains(entity) && entity.tile.x == x
                && entity.tile.y == y,
            found is None ==> forall|k: int|
                0 <= k < self.tiles@.len() ==> !((#[trigger] self.tiles@[k]).tile.x == x
                    && self.tiles@[k].tile.y == y),
    {
        let mut k: usize = 0;
        while k < self.tiles.len()
            invariant
                k <= self.tiles@.len(),
                forall|j: int|
                    0 <= j < k ==> !((#[trigger] self.tiles@[j]).tile.x == x && self.tiles@[j].tile.y
                        == y),
            decreases self.tiles@.len() - k,
        {
            let entity = self.tiles[k];
            if entity.tile.x == x && entity.tile.y == y {
                return Some(entity);
            }
            k = k + 1;
        }
        None
    }
}

impl TileGroupView {
    /// The group without the identities of its entities.
    pub open spec fn shape(&self) -> GroupShape {
        GroupShape {
            layer_index: self.layer_index,
            tileset_index: self.tileset_index,
            metadata: self.metadata,
            tiles: Seq::new(self.tiles.len(), |k: int| self.tiles[k].tile),
        }
    }

    /// The number of entities of the group: its root and its tiles.
    pub open spec fn entity_count(&self) -> nat {
        1 + self.tiles.len()
    }
}

/// The views of `groups`.
pub open spec fn group_views(groups: Seq<TileGroup>) -> Seq<TileGroupView> {
    Seq::new(groups.len(), |i: int| groups[i]@)
}

/// The shapes of `groups`.
pub open spec fn group_shapes(groups: Seq<TileGroupView>) -> Seq<GroupShape> {
    Seq::new(groups.len(), |i: int| groups[i].shape())
}

/// The number of entities that groups of the shapes `shapes` have together.
pub open spec fn entity_count(shapes: Seq<GroupShape>) -> nat
    decreases shapes.len(),
{
    if shapes.len() == 0 {
        0
    } else {
        entity_count(shapes.drop_last()) + 1 + shapes.last().tiles.len()
    }
}

/// The tile entities of a group with root `root`: tile `k` gets the identity
/// `root + 1 + k`.
pub open spec fn spawn_tiles(tiles: Seq<Tile>, root: int) -> Seq<TileEntity> {
    Seq::new(
        tiles.len(),
        |k: int|
            TileEntity {
                entity: Entity((root + 1 + k) as usize),
                tilemap_id: Entity(root as usize),
                tile: tiles[k],
            },
    )
}

/// The group of shape `shape` under the root `root`.
pub open spec fn spawn_group(shape: GroupShape, root: int) -> TileGroupView {
    TileGroupView {
        entity: Entity(root as usize),
        layer_index: shape.layer_index,
        tileset_index: shape.tileset_index,
        metadata: shape.metadata,
        tiles: spawn_tiles(shape.tiles, root),
    }
}

/// Groups of the shapes `shapes` whose entities are numbered in a row from
/// `first`: the root of a group, then its tiles, then the next group.
pub open spec fn spawn_groups(shapes: Seq<GroupShape>, first: int) -> Seq<TileGroupView>
    decreases shapes.len(),
{
    if shapes.len() == 0 {
        Seq::empty()
    } else {
        spawn_groups(shapes.drop_last(), first).push(
            spawn_group(shapes.last(), first + entity_count(shapes.drop_last())),
        )
    }
}

/// `count` entries that say "alive".
pub open spec fn all_alive(count: nat) -> Seq<bool> {
    Seq::new(count, |i: int| true)
}

/// The table of the entities that were ever spawned: entity `Entity(i)` is
/// alive where entry `i` holds. An identity is given out once.
pub struct Entities {
    alive: Vec<bool>,
}

impl View for Entities {
    type V = Seq<bool>;

    closed spec fn view(&self) -> Seq<bool> {
        self.alive@
    }
}

impl Entities {
    pub fn new() -> (entities: Entities)
        ensures
            entities@.len() == 0,
    {
        Entities { alive: Vec::new() }
    }

    /// The number of identities given out so far.
    pub fn len(&self) -> (count: usize)
        ensures
            count == self@.len(),
    {
        self.alive.len()
    }

    /// Whether `entity` was spawned and not despawned since.
    pub fn is_alive(&self, entity: Entity) -> (alive: bool)
        ensures
            alive == (entity.0 < self@.len() && self@[entity.0 as int]),
    {
        entity.0 < self.alive.len() && self.alive[entity.0]
    }

    /// Spawns an entity, under an identity that was never given out before.
    pub fn spawn(&mut self) -> (entity: Entity)
        ensures
            entity.0 == old(self)@.len(),
            final(self)@ == old(self)@.push(true),
    {
        let entity = Entity(self.alive.len());
        self.alive.push(true);
        entity
    }

    /// Despawns `entity`. An identity that was never given out is left alone.
    pub fn despawn(&mut self, entity: Entity)
        ensures
            entity.0 < old(self)@.len() ==> final(self)@ == old(self)@.update(
                entity.0 as int,
                false,
            ),
            entity.0 >= old(self)@.len() ==> final(self)@ == old(self)@,
    {
        if entity.0 < self.alive.len() {
            self.alive.set(entity.0, false);
        }
    }
}

/// The number of entities of the first `g` shapes is part of the number of
/// all, and grows by the entities of shape `g`.
pub proof fn lemma_entity_count_take(shapes: Seq<GroupShape>, g: int)
    requires
        0 <= g <= shapes.len(),
    ensures
        entity_count(shapes.take(g)) <= entity_count(shapes),
        g < shapes.len() ==> entity_count(shapes.take(g + 1)) == entity_count(shapes.take(g)) + 1
            + shapes[g].tiles.len(),
    decreases shapes.len(),
{
    if g < shapes.len() {
        assert(shapes.take(g + 1).drop_last() =~= shapes.take(g));
        lemma_entity_count_take(shapes.drop_last(), g);
        assert(shapes.drop_last().take(g) =~= shapes.take(g));
    } else {
        assert(shapes.take(g) =~= shapes);
    }
}

/// Group `g` of groups that are numbered in a row from `first` has the shape
/// `shapes[g]`, and its root comes after the entities of the groups before it.
pub proof fn lemma_spawn_groups_index(shapes: Seq<GroupShape>, first: int, g: int)
    requires
        0 <= g < shapes.len(),
    ensures
        spawn_groups(shapes, first).len() == shapes.len(),
        spawn_groups(shapes, first)[g] == spawn_group(
            shapes[g],
            first + entity_count(shapes.take(g)),
        ),
    decreases shapes.len(),
{
    lemma_spawn_groups_len(shapes, first);
    lemma_spawn_groups_len(shapes.drop_last(), first);
    if g == shapes.len() - 1 {
        assert(shapes.take(g) =~= shapes.drop_last());
    } else {
        lemma_spawn_groups_index(shapes.drop_last(), first, g);
        assert(shapes.drop_last().take(g) =~= shapes.take(g));
    }
}

/// There are as many groups as shapes.
pub proof fn lemma_spawn_groups_len(shapes: Seq<GroupShape>, first: int)
    ensures
        spawn_groups(shapes, first).len() == shapes.len(),
    decreases shapes.len(),
{
    if shapes.len() > 0 {
        lemma_spawn_groups_len(shapes.drop_last(), first);
    }
}

/// Groups that are spawned from shapes have these shapes, whatever the
/// identities of their entities.
pub proof fn lemma_spawn_groups_shapes(shapes: Seq<GroupShape>, first: int)
    ensures
        group_shapes(spawn_groups(shapes, first)) == shapes,
{
    lemma_spawn_groups_len(shapes, first);
    let groups = spawn_groups(shapes, first);
    assert forall|g: int| 0 <= g < shapes.len() implies #[trigger] groups[g].shape() == shapes[g] by {
        lemma_spawn_groups_index(shapes, first, g);
        assert(groups[g].shape().tiles =~= shapes[g].tiles);
    }
    assert(group_shapes(groups) =~= shapes);
}

} // verus!
