//! Change reconciliation: once per tick, the scene instances whose map was
//! added, modified or removed, and the instances that are new, have their tile
//! groups torn down, and rebuilt where the map is still loaded.

use vstd::prelude::*;
use crate::loader::TiledMap;
use crate::scene::{
    all_alive, entity_count, group_shapes, group_views, lemma_entity_count_take,
    lemma_spawn_groups_index, lemma_spawn_groups_len, lemma_spawn_groups_shapes, spawn_group,
    spawn_groups, Entities, Entity, GridMetadata, GroupShape, TileEntity, TileGroup,
    TileGroupView,
};
use crate::synthesis::spawn_tile_groups;

verus! {

/// Identity of a loaded map. It stays the same when the map is reloaded.
#[derive(Clone, Copy, Debug, PartialEq, Eq, Hash, Structural)]
pub enum AssetId {
    Index(u64),
    Uuid(u128),
}

/// A notification on the life of a loaded map.
#[derive(Clone, Copy, Debug, PartialEq, Eq, Structural)]
pub enum AssetEvent {
    Added { id: AssetId },
    Modified { id: AssetId },
    Removed { id: AssetId },
    Unused { id: AssetId },
    LoadedWithDependencies { id: AssetId },
}

/// What a batch of events says of one map, in the end.
#[derive(Clone, Copy, Debug, PartialEq, Eq, Structural)]
pub enum Lifecycle {
    /// The map was added or modified, and not removed afterwards.
    Changed,
    /// The map was removed, and not added or modified afterwards.
    Removed,
}

/// What happens to the tile groups of a scene instance in a tick.
#[derive(Clone, Copy, Debug, PartialEq, Eq, Structural)]
pub enum Decision {
    /// The groups stay as they are.
    Keep,
    /// The groups are torn down, and the layer registry is left empty.
    Clear,
    /// The groups are torn down, and built anew from the loaded map.
    Rebuild,
}

/// A deferred operation on the scene, for the host to carry out.
#[derive(Clone, Copy, Debug, PartialEq, Eq, Structural)]
pub enum Command {
    /// Despawn the root of a tile group together with the tile entities that
    /// the group owns.
    DespawnRecursive { entity: Entity },
    /// Spawn the root of a tile group of the scene instance `instance`.
    SpawnGroup {
        entity: Entity,
        instance: usize,
        layer_index: usize,
        tileset_index: usize,
        metadata: GridMetadata,
    },
    /// Spawn a tile entity as a child of the root of its group.
    SpawnTile { tile: TileEntity },
}

/// The layer registry of a scene instance: the tile groups that the instance
/// owns, each under the pair of its layer index and its tileset index. The
/// key is the pair, not the layer index alone: a layer that draws from
/// several tilesets has one group for each of them, and none displaces
/// another in the registry.
#[derive(Clone, Debug, PartialEq, Eq)]
pub struct TiledLayersStorage {
    pub storage: Vec<TileGroup>,
}

/// A scene instance: one placement of a loaded map in the scene.
#[derive(Clone, Debug, PartialEq, Eq)]
pub struct TiledMapBundle {
    pub tiled_map: AssetId,
    pub storage: TiledLayersStorage,
}

/// The loaded maps that can be resolved, each under its identity. Of two
/// entries with one identity the later one counts.
pub struct Assets<'a> {
    pub maps: Vec<(AssetId, &'a TiledMap)>,
}

/// The scene: the scene instances, and the table of the entities that were
/// spawned for their tile groups.
pub struct World {
    entities: Entities,
    instances: Vec<TiledMapBundle>,
    added: Vec<bool>,
}

/// What `event` says of the map `id`.
pub open spec fn lifecycle_of(event: AssetEvent, id: AssetId) -> Option<Lifecycle> {
    match event {
        AssetEvent::Added { id: of } => if of == id {
            Some(Lifecycle::Changed)
        } else {
            None
        },
        AssetEvent::Modified { id: of } => if of == id {
            Some(Lifecycle::Changed)
        } else {
            None
        },
        AssetEvent::Removed { id: of } => if of == id {
            Some(Lifecycle::Removed)
        } else {
            None
        },
        _ => None,
    }
}

/// What the batch `events` says of the map `id`: the last of its events that
/// adds, modifies or removes the map decides. A removal overrides what was
/// added or modified before it.
pub open spec fn latest_change(events: Seq<AssetEvent>, id: AssetId) -> Option<Lifecycle>
    decreases events.len(),
{
    if events.len() == 0 {
        None
    } else {
        match lifecycle_of(events.last(), id) {
            Some(change) => Some(change),
            None => latest_change(events.drop_last(), id),
        }
    }
}

/// The decision for a scene instance: `change` is what the events say of its
/// map, `added` whether the instance is new, `resolves` whether its map is
/// loaded.
pub open spec fn decide(change: Option<Lifecycle>, added: bool, resolves: bool) -> Decision {
    match change {
        Some(Lifecycle::Removed) => Decision::Clear,
        Some(Lifecycle::Changed) => if resolves {
            Decision::Rebuild
        } else {
            Decision::Clear
        },
        None => if !added {
            Decision::Keep
        } else if resolves {
            Decision::Rebuild
        } else {
            Decision::Clear
        },
    }
}

/// The loaded map that `maps` holds under `id`.
pub open spec fn find_map(maps: Seq<(AssetId, &TiledMap)>, id: AssetId) -> Option<TiledMap>
    decreases maps.len(),
{
    if maps.len() == 0 {
        None
    } else if maps.last().0 == id {
        Some(*maps.last().1)
    } else {
        find_map(maps.drop_last(), id)
    }
}

/// The commands that tear the groups `groups` down, one for each root.
pub open spec fn despawn_commands(groups: Seq<TileGroupView>) -> Seq<Command> {
    Seq::new(groups.len(), |g: int| Command::DespawnRecursive { entity: groups[g].entity })
}

/// The commands that spawn the group `group` of the scene instance
/// `instance`: its root, then its tiles.
pub open spec fn group_commands(group: TileGroupView, instance: usize) -> Seq<Command> {
    seq![
        Command::SpawnGroup {
            entity: group.entity,
            instance,
            layer_index: group.layer_index,
            tileset_index: group.tileset_index,
            metadata: group.metadata,
        },
    ] + Seq::new(group.tiles.len(), |k: int| Command::SpawnTile { tile: group.tiles[k] })
}

/// The commands that spawn the groups `groups` of the scene instance
/// `instance`, group by group.
pub open spec fn spawn_commands(groups: Seq<TileGroupView>, instance: usize) -> Seq<Command>
    decreases groups.len(),
{
    if groups.len() == 0 {
        Seq::empty()
    } else {
        spawn_commands(groups.drop_last(), instance) + group_commands(groups.last(), instance)
    }
}

/// The identity of the first entity of `groups`.
pub open spec fn span_start(groups: Seq<TileGroupView>) -> int {
    if groups.len() == 0 {
        0
    } else {
        groups[0].entity.0 as int
    }
}

/// The identity after the last entity of `groups`, where they are numbered in a row.
pub open spec fn span_end(groups: Seq<TileGroupView>) -> int {
    span_start(groups) + entity_count(group_shapes(groups))
}

/// The entities of `groups` are numbered in a row: the root of a group, then
/// its tiles, then the next group.
pub open spec fn well_numbered(groups: Seq<TileGroupView>) -> bool {
    groups == spawn_groups(group_shapes(groups), span_start(groups))
}

/// `alive` with the entities from `start` up to, not including, `end` despawned.
pub open spec fn cleared(alive: Seq<bool>, start: int, end: int) -> Seq<bool> {
    Seq::new(
        alive.len(),
        |e: int|
            if start <= e < end {
                false
            } else {
                alive[e]
            },
    )
}

/// The layer registry that `groups` make up: the root of each group, under
/// the pair of the group's layer index and tileset index.
pub open spec fn registry_of(groups: Seq<TileGroupView>) -> Map<(usize, usize), Entity>
    decreases groups.len(),
{
    if groups.len() == 0 {
        Map::empty()
    } else {
        registry_of(groups.drop_last()).insert(
            (groups.last().layer_index, groups.last().tileset_index),
            groups.last().entity,
        )
    }
}

impl View for TiledLayersStorage {
    type V = Map<(usize, usize), Entity>;

    open spec fn view(&self) -> Map<(usize, usize), Entity> {
        registry_of(self.groups())
    }
}

impl Default for TiledLayersStorage {
    /// A registry without groups.
    fn default() -> (registry: TiledLayersStorage)
        ensures
            registry.groups().len() == 0,
    {
        TiledLayersStorage { storage: Vec::new() }
    }
}

impl TiledLayersStorage {
    /// The groups of the registry.
    pub open spec fn groups(&self) -> Seq<TileGroupView> {
        group_views(self.storage@)
    }

    /// A registry without groups.
    pub fn new() -> (registry: TiledLayersStorage)
        ensures
            registry.groups().len() == 0,
    {
        TiledLayersStorage { storage: Vec::new() }
    }

    /// The number of groups.
    pub fn len(&self) -> (count: usize)
        ensures
            count == self.groups().len(),
    {
        self.storage.len()
    }

    /// Whether the registry holds no group.
    pub fn is_empty(&self) -> (empty: bool)
        ensures
            empty == (self.groups().len() == 0),
    {
        self.storage.len() == 0
    }

    /// The root of the group of layer `layer_index` and tileset
    /// `tileset_index`, if the registry holds one.
    pub fn get(&self, layer_index: usize, tileset_index: usize) -> (root: Option<Entity>)
        ensures
            root == (if self@.contains_key((layer_index, tileset_index)) {
                Some(self@[(layer_index, tileset_index)])
            } else {
                None
            }),
    {
        let ghost groups = self.groups();
        let mut n: usize = self.storage.len();
        assert(groups.take(n as int) =~= groups);
        while n > 0
            invariant
                n <= groups.len(),
                groups == self.groups(),
                registry_of(groups).contains_key((layer_index, tileset_index)) == registry_of(
                    groups.take(n as int),
                ).contains_key((layer_index, tileset_index)),
                registry_of(groups).contains_key((layer_index, tileset_index)) ==> registry_of(
                    groups,
                )[(layer_index, tileset_index)] == registry_of(groups.take(n as int))[(
                    layer_index,
                    tileset_index,
                )],
            decreases n,
        {
            n = n - 1;
            assert(groups.take(n + 1).drop_last() =~= groups.take(n as int));
            assert(groups.take(n + 1).last() == self.storage@[n as int]@);
            let group = &self.storage[n];
            if group.layer_index == layer_index && group.tileset_index == tileset_index {
                return Some(group.entity);
            }
        }
        None
    }
}

impl<'a> Assets<'a> {
    /// Every loaded map is consistent.
    pub open spec fn consistent(&self) -> bool {
        forall|i: int| 0 <= i < self.maps@.len() ==> (#[trigger] self.maps@[i]).1.consistent()
    }

    /// The loaded map under `id`.
    pub open spec fn resolve(&self, id: AssetId) -> Option<TiledMap> {
        find_map(self.maps@, id)
    }

    pub fn new() -> (assets: Assets<'a>)
        ensures
            assets.maps@.len() == 0,
    {
        Assets { maps: Vec::new() }
    }

    /// The loaded map under `id`, if there is one.
    pub fn get(&self, id: AssetId) -> (found: Option<&'a TiledMap>)
        ensures
            found matches Some(map) ==> self.resolve(id) == Some(*map),
            found is None ==> self.resolve(id) is None,
    {
        let mut n: usize = self.maps.len();
        assert(self.maps@.take(n as int) =~= self.maps@);
        while n > 0
            invariant
                n <= self.maps@.len(),
                find_map(self.maps@, id) == find_map(self.maps@.take(n as int), id),
            decreases n,
        {
            n = n - 1;
            assert(self.maps@.take(n + 1).drop_last() =~= self.maps@.take(n as int));
            if self.maps[n].0 == id {
                return Some(self.maps[n].1);
            }
        }
        None
    }
}

/// A map that a consistent store resolves is consistent.
pub proof fn lemma_resolved_consistent(maps: Seq<(AssetId, &TiledMap)>, id: AssetId)
    requires
        forall|i: int| 0 <= i < maps.len() ==> (#[trigger] maps[i]).1.consistent(),
        find_map(maps, id) is Some,
    ensures
        find_map(maps, id)->0.consistent(),
    decreases maps.len(),
{
    if maps.len() > 0 && maps.last().0 != id {
        lemma_resolved_consistent(maps.drop_last(), id);
    }
}

/// What the batch `events` says of the map `id`.
pub fn change_of(events: &Vec<AssetEvent>, id: AssetId) -> (change: Option<Lifecycle>)
    ensures
        change == latest_change(events@, id),
{
    let mut n: usize = events.len();
    assert(events@.take(n as int) =~= events@);
    while n > 0
        invariant
            n <= events@.len(),
            latest_change(events@, id) == latest_change(events@.take(n as int), id),
        decreases n,
    {
        n = n - 1;
        assert(events@.take(n + 1).drop_last() =~= events@.take(n as int));
        match events[n] {
            AssetEvent::Added { id: of } => {
                if of == id {
                    return Some(Lifecycle::Changed);
                }
            },
            AssetEvent::Modified { id: of } => {
                if of == id {
                    return Some(Lifecycle::Changed);
                }
            },
            AssetEvent::Removed { id: of } => {
                if of == id {
                    return Some(Lifecycle::Removed);
                }
            },
            _ => {},
        }
    }
    None
}

/// Tears the groups `groups` down: every root and every tile entity is
/// despawned, and one command is queued for each root.
fn despawn_groups(groups: &Vec<TileGroup>, entities: &mut Entities, commands: &mut Vec<Command>)
    requires
        well_numbered(group_views(groups@)),
        span_end(group_views(groups@)) <= old(entities)@.len(),
    ensures
        final(entities)@ == cleared(
            old(entities)@,
            span_start(group_views(groups@)),
            span_end(group_views(groups@)),
        ),
        final(commands)@ == old(commands)@ + despawn_commands(group_views(groups@)),
{
    let ghost views = group_views(groups@);
    let ghost shapes = group_shapes(views);
    let ghost start = span_start(views);
    let ghost alive = entities@;
    let ghost queued = commands@;
    let total: usize = entities.len();
    let mut g: usize = 0;
    proof {
        assert(shapes.take(0) =~= Seq::empty());
        assert(entities@ =~= cleared(alive, start, start));
        assert(commands@ =~= queued + despawn_commands(views.take(0)));
    }
    while g < groups.len()
        invariant
            g <= groups@.len(),
            views == group_views(groups@),
            shapes == group_shapes(views),
            start == span_start(views),
            well_numbered(views),
            0 <= start,
            span_end(views) <= alive.len(),
            alive.len() == total,
            entities@ == cleared(alive, start, start + entity_count(shapes.take(g as int))),
            commands@ == queued + despawn_commands(views.take(g as int)),
        decreases groups@.len() - g,
    {
        let group = &groups[g];
        let ghost root = start + entity_count(shapes.take(g as int));
        proof {
            lemma_spawn_groups_index(shapes, start, g as int);
            lemma_entity_count_take(shapes, g as int);
            lemma_entity_count_take(shapes, g + 1);
            assert(views[g as int] == group@);
            assert(group@ == spawn_group(shapes[g as int], root));
            assert(group.tiles@.len() == shapes[g as int].tiles.len());
        }
        commands.push(Command::DespawnRecursive { entity: group.entity });
        entities.despawn(group.entity);
        assert(entities@ =~= cleared(alive, start, root + 1));
        let mut k: usize = 0;
        while k < group.tiles.len()
            invariant
                k <= group.tiles@.len(),
                0 <= start <= root,
                root + 1 + group.tiles@.len() <= alive.len(),
                alive.len() == total,
                g < shapes.len(),
                group@ == spawn_group(shapes[g as int], root),
                entities@ == cleared(alive, start, root + 1 + k),
            decreases group.tiles@.len() - k,
        {
            let tile = &group.tiles[k];
            assert(tile.entity.0 == root + 1 + k);
            entities.despawn(tile.entity);
            assert(entities@ =~= cleared(alive, start, root + 1 + k + 1));
            k = k + 1;
        }
        proof {
            assert(views.take(g + 1) =~= views.take(g as int).push(views[g as int]));
            assert(despawn_commands(views.take(g + 1)) =~= despawn_commands(
                views.take(g as int),
            ).push(Command::DespawnRecursive { entity: group.entity }));
        }
        g = g + 1;
    }
    proof {
        assert(shapes.take(g as int) =~= shapes);
        assert(views.take(g as int) =~= views);
    }
}

/// Queues the commands that spawn the groups `groups` of the scene instance
/// `instance`.
fn queue_spawn_commands(groups: &Vec<TileGroup>, instance: usize, commands: &mut Vec<Command>)
    ensures
        final(commands)@ == old(commands)@ + spawn_commands(group_views(groups@), instance),
{
    let ghost views = group_views(groups@);
    let ghost queued = commands@;
    let mut g: usize = 0;
    proof {
        assert(views.take(0) =~= Seq::empty());
        assert(commands@ =~= queued + spawn_commands(views.take(0), instance));
    }
    while g < groups.len()
        invariant
            g <= groups@.len(),
            views == group_views(groups@),
            commands@ == queued + spawn_commands(views.take(g as int), instance),
        decreases groups@.len() - g,
    {
        let group = &groups[g];
        let ghost done = commands@;
        commands.push(
            Command::SpawnGroup {
                entity: group.entity,
                instance,
                layer_index: group.layer_index,
                tileset_index: group.tileset_index,
                metadata: group.metadata,
            },
        );
        let ghost root_queued = commands@;
        let mut k: usize = 0;
        while k < group.tiles.len()
            invariant
                k <= group.tiles@.len(),
                commands@ == root_queued + Seq::new(
                    k as nat,
                    |t: int| Command::SpawnTile { tile: group.tiles@[t] },
                ),
            decreases group.tiles@.len() - k,
        {
            commands.push(Command::SpawnTile { tile: group.tiles[k] });
            k = k + 1;
        }
        proof {
            assert(views[g as int] == group@);
            assert(commands@ =~= done + group_commands(group@, instance));
            assert(views.take(g + 1).drop_last() =~= views.take(g as int));
            assert(views.take(g + 1).last() == group@);
            assert(commands@ =~= queued + spawn_commands(views.take(g + 1), instance));
        }
        g = g + 1;
    }
    proof {
        assert(views.take(g as int) =~= views);
    }
}

impl World {
    /// Which entities are alive, by identity.
    pub closed spec fn entities(&self) -> Seq<bool> {
        self.entities@
    }

    /// The scene instances.
    pub closed spec fn instances(&self) -> Seq<TiledMapBundle> {
        self.instances@
    }

    /// Which scene instances are new since the last tick.
    pub closed spec fn added(&self) -> Seq<bool> {
        self.added@
    }

    /// The tile groups of scene instance `i`.
    pub open spec fn storage(&self, i: int) -> Seq<TileGroupView> {
        self.instances()[i].storage.groups()
    }

    /// Whether entity `e` belongs to a tile group of scene instance `i`.
    pub open spec fn owns(&self, i: int, e: int) -> bool {
        span_start(self.storage(i)) <= e < span_end(self.storage(i))
    }

    /// Whether entity `e` belongs to a tile group of some scene instance.
    pub open spec fn owned(&self, e: int) -> bool {
        exists|i: int| 0 <= i < self.instances().len() && #[trigger] self.owns(i, e)
    }

    /// The scene is in order: the entities of every scene instance are
    /// numbered in a row and were spawned, no entity belongs to two
    /// instances, and the entities that are alive are those that belong to
    /// an instance.
    pub open spec fn wf(&self) -> bool {
        &&& self.added().len() == self.instances().len()
        &&& self.entities().len() <= usize::MAX
        &&& forall|i: int|
            0 <= i < self.instances().len() ==> well_numbered(#[trigger] self.storage(i))
                && span_end(self.storage(i)) <= self.entities().len()
        &&& forall|i: int, j: int, e: int|
            0 <= i < self.instances().len() && 0 <= j < self.instances().len() && i != j
                && #[trigger] self.owns(i, e) ==> !#[trigger] self.owns(j, e)
        &&& forall|e: int|
            0 <= e < self.entities().len() ==> (self.entities()[e] <==> #[trigger] self.owned(e))
    }

    /// The loaded map of scene instance `i`, if it resolves.
    pub open spec fn map_of(&self, maps: Assets, i: int) -> Option<TiledMap> {
        maps.resolve(self.instances()[i].tiled_map)
    }

    /// What a tick with the events `events` and the loaded maps `maps` does to
    /// the tile groups of scene instance `i`.
    pub open spec fn decision(&self, events: Seq<AssetEvent>, maps: Assets, i: int) -> Decision {
        decide(
            latest_change(events, self.instances()[i].tiled_map),
            self.added()[i],
            self.map_of(maps, i) is Some,
        )
    }

    /// The shapes of the groups that the tick builds for scene instance `i`.
    pub open spec fn built_shapes(&self, events: Seq<AssetEvent>, maps: Assets, i: int) -> Seq<
        GroupShape,
    > {
        if self.decision(events, maps, i) == Decision::Rebuild {
            self.map_of(maps, i)->0.shapes()
        } else {
            Seq::empty()
        }
    }

    /// The number of entities that the tick spawns for the scene instances
    /// before `i`.
    pub open spec fn spawned_before(&self, events: Seq<AssetEvent>, maps: Assets, i: int) -> nat
        decreases i,
    {
        if i <= 0 {
            0
        } else {
            self.spawned_before(events, maps, i - 1) + entity_count(
                self.built_shapes(events, maps, i - 1),
            )
        }
    }

    /// The tile groups of scene instance `i` after the tick. Groups that are
    /// built get identities that were never given out, in a row, instance by
    /// instance.
    pub open spec fn storage_after(&self, events: Seq<AssetEvent>, maps: Assets, i: int) -> Seq<
        TileGroupView,
    > {
        if self.decision(events, maps, i) == Decision::Keep {
            self.storage(i)
        } else {
            spawn_groups(
                self.built_shapes(events, maps, i),
                (self.entities().len() + self.spawned_before(events, maps, i)) as int,
            )
        }
    }

    /// The commands that the tick queues for scene instance `i`: those that
    /// tear the old groups down, then those that spawn the new ones.
    pub open spec fn commands_for(&self, events: Seq<AssetEvent>, maps: Assets, i: int) -> Seq<
        Command,
    > {
        if self.decision(events, maps, i) == Decision::Keep {
            Seq::empty()
        } else {
            despawn_commands(self.storage(i)) + spawn_commands(
                self.storage_after(events, maps, i),
                i as usize,
            )
        }
    }

    /// The commands that the tick queues for the scene instances before `i`.
    pub open spec fn commands_before(&self, events: Seq<AssetEvent>, maps: Assets, i: int) -> Seq<
        Command,
    >
        decreases i,
    {
        if i <= 0 {
            Seq::empty()
        } else {
            self.commands_before(events, maps, i - 1) + self.commands_for(events, maps, i - 1)
        }
    }

    /// An empty scene.
    pub fn new() -> (world: World)
        ensures
            world.wf(),
            world.instances().len() == 0,
            world.entities().len() == 0,
    {
        World { entities: Entities::new(), instances: Vec::new(), added: Vec::new() }
    }

    /// Adds a scene instance that shows the map `tiled_map`. It is new until
    /// the next tick, and owns no tile group yet.
    pub fn spawn(&mut self, tiled_map: AssetId) -> (index: usize)
        requires
            old(self).wf(),
        ensures
            final(self).wf(),
            index == old(self).instances().len(),
            final(self).instances().len() == index + 1,
            forall|i: int| 0 <= i < index ==> final(self).instances()[i] == old(self).instances()[i],
            final(self).instances()[index as int].tiled_map == tiled_map,
            final(self).storage(index as int).len() == 0,
            final(self).added() == old(self).added().push(true),
            final(self).entities() == old(self).entities(),
    {
        let index: usize = self.instances.len();
        self.instances.push(
            TiledMapBundle { tiled_map, storage: TiledLayersStorage { storage: Vec::new() } },
        );
        self.added.push(true);
        proof {
            assert(self.storage(index as int) =~= Seq::empty());
            assert(group_shapes(self.storage(index as int)) =~= Seq::empty());
            assert forall|i: int| 0 <= i < index implies self.storage(i) == old(self).storage(i) by {}
            assert forall|i: int, e: int| 0 <= i < index implies self.owns(i, e) == old(self).owns(
                i,
                e,
            ) by {}
            assert forall|e: int| !self.owns(index as int, e) by {}
            assert forall|i: int, j: int, e: int|
                0 <= i < self.instances().len() && 0 <= j < self.instances().len() && i != j
                    && #[trigger] self.owns(i, e) implies !#[trigger] self.owns(j, e) by {
                if j < index {
                    assert(old(self).owns(i, e));
                    assert(!old(self).owns(j, e));
                }
            }
            assert forall|e: int| 0 <= e < self.entities().len() implies (self.entities()[e]
                <==> #[trigger] self.owned(e)) by {
                if old(self).owned(e) {
                    let i = choose|i: int|
                        0 <= i < old(self).instances().len() && #[trigger] old(self).owns(i, e);
                    assert(self.owns(i, e));
                }
                if self.owned(e) {
                    let i = choose|i: int|
                        0 <= i < self.instances().len() && #[trigger] self.owns(i, e);
                    assert(old(self).owns(i, e));
                }
            }
        }
        index
    }

    /// The number of scene instances.
    pub fn len(&self) -> (count: usize)
        ensures
            count == self.instances().len(),
    {
        self.instances.len()
    }

    /// Scene instance `index`, if there is one.
    pub fn get(&self, index: usize) -> (instance: Option<&TiledMapBundle>)
        ensures
            index < self.instances().len() ==> instance == Some(&self.instances()[index as int]),
            index >= self.instances().len() ==> instance is None,
    {
        if index < self.instances.len() {
            Some(&self.instances[index])
        } else {
            None
        }
    }

    /// Whether `entity` is alive.
    pub fn is_alive(&self, entity: Entity) -> (alive: bool)
        ensures
            alive == (entity.0 < self.entities().len() && self.entities()[entity.0 as int]),
    {
        self.entities.is_alive(entity)
    }

    /// The number of identities that were given out so far.
    pub fn entity_count(&self) -> (count: usize)
        ensures
            count == self.entities().len(),
    {
        self.entities.len()
    }
}

/// The shapes of the groups of `asset`; none where there is no map.
pub open spec fn shapes_of(asset: Option<&TiledMap>) -> Seq<GroupShape> {
    match asset {
        Some(map) => map.shapes(),
        None => Seq::empty(),
    }
}

/// Groups that are spawned from shapes are numbered in a row, from `first`.
proof fn lemma_spawned_well_numbered(shapes: Seq<GroupShape>, first: int)
    requires
        0 <= first,
        first + entity_count(shapes) <= usize::MAX,
    ensures
        well_numbered(spawn_groups(shapes, first)),
        span_end(spawn_groups(shapes, first)) == (if shapes.len() == 0 {
            0
        } else {
            first + entity_count(shapes)
        }),
        shapes.len() > 0 ==> span_start(spawn_groups(shapes, first)) == first,
        spawn_groups(shapes, first).len() == shapes.len(),
{
    let groups = spawn_groups(shapes, first);
    lemma_spawn_groups_len(shapes, first);
    lemma_spawn_groups_shapes(shapes, first);
    if shapes.len() > 0 {
        lemma_spawn_groups_index(shapes, first, 0);
        assert(shapes.take(0) =~= Seq::empty());
        lemma_entity_count_take(shapes, 0);
    }
}

/// Tears the tile groups of scene instance `i` down and, where `asset` is a
/// map, builds them anew from it. The teardown comes first.
fn rebuild_instance(
    world: &mut World,
    i: usize,
    asset: Option<&TiledMap>,
    commands: &mut Vec<Command>,
)
    requires
        old(world).wf(),
        i < old(world).instances().len(),
        asset matches Some(map) ==> map.consistent(),
    ensures
        final(world).wf(),
        final(world).instances().len() == old(world).instances().len(),
        final(world).added() == old(world).added().update(i as int, false),
        forall|j: int|
            0 <= j < old(world).instances().len() && j != i ==> final(world).instances()[j] == old(
                world,
            ).instances()[j],
        final(world).instances()[i as int].tiled_map == old(world).instances()[i as int].tiled_map,
        final(world).storage(i as int) == spawn_groups(
            shapes_of(asset),
            old(world).entities().len() as int,
        ),
        final(world).entities().len() == old(world).entities().len() + entity_count(
            shapes_of(asset),
        ),
        final(commands)@ == old(commands)@ + despawn_commands(old(world).storage(i as int))
            + spawn_commands(final(world).storage(i as int), i),
{
    let ghost before = *world;
    let ghost shapes = shapes_of(asset);
    let ghost first = world.entities().len() as int;
    let ghost torn = world.storage(i as int);
    assert(well_numbered(torn) && span_end(torn) <= world.entities().len());
    despawn_groups(&world.instances[i].storage.storage, &mut world.entities, commands);
    let groups = match asset {
        Some(map) => spawn_tile_groups(map, &mut world.entities),
        None => {
            assert(world.entities@ + all_alive(0) =~= world.entities@);
            Vec::new()
        },
    };
    assert(group_views(groups@) =~= spawn_groups(shapes, first));
    queue_spawn_commands(&groups, i, commands);
    let total: usize = world.entities.len();
    world.instances[i].storage.storage = groups;
    world.added.set(i, false);
    proof {
        let built = world.storage(i as int);
        assert(built == spawn_groups(shapes, first));
        lemma_spawned_well_numbered(shapes, first);
        assert(world.entities() =~= cleared(before.entities(), span_start(torn), span_end(torn))
            + all_alive(entity_count(shapes)));
        assert forall|j: int| 0 <= j < world.instances().len() && j != i implies world.storage(j)
            == before.storage(j) by {}
        assert forall|j: int, e: int|
            0 <= j < world.instances().len() && j != i implies world.owns(j, e) == before.owns(
                j,
                e,
            ) by {}
        assert forall|e: int| #[trigger] world.owns(i as int, e) implies first <= e
            < world.entities().len() by {}
        assert forall|j: int|
            0 <= j < world.instances().len() implies well_numbered(#[trigger] world.storage(j))
                && span_end(world.storage(j)) <= world.entities().len() by {
            if j != i {
                assert(well_numbered(before.storage(j)));
            }
        }
        assert forall|j: int, k: int, e: int|
            0 <= j < world.instances().len() && 0 <= k < world.instances().len() && j != k
                && #[trigger] world.owns(j, e) implies !#[trigger] world.owns(k, e) by {
            if j != i && k != i {
                assert(before.owns(j, e));
                assert(!before.owns(k, e));
            } else if j == i {
                assert(span_end(before.storage(k)) <= first);
            } else {
                assert(span_end(before.storage(j)) <= first);
            }
        }
        assert forall|e: int| 0 <= e < world.entities().len() implies (world.entities()[e]
            <==> #[trigger] world.owned(e)) by {
            if e < first {
                if world.owned(e) {
                    let j = choose|j: int|
                        0 <= j < world.instances().len() && #[trigger] world.owns(j, e);
                    assert(j != i);
                    assert(before.owns(j, e));
                    assert(!before.owns(i as int, e));
                    assert(before.owned(e));
                }
                if world.entities()[e] {
                    assert(before.entities()[e]);
                    assert(before.owned(e));
                    let j = choose|j: int|
                        0 <= j < before.instances().len() && #[trigger] before.owns(j, e);
                    assert(j != i);
                    assert(world.owns(j, e));
                }
            } else {
                assert(world.entities()[e]);
                assert(shapes.len() > 0);
                assert(world.owns(i as int, e));
            }
        }
    }
}

/// The reconciliation pass of one tick.
///
/// For every scene instance, what the events `map_events` say of its map
/// decides, together with whether the instance is new and whether `maps`
/// still holds its map: the tile groups are kept, torn down, or torn down and
/// built anew. The layer registry of an instance that is not kept is replaced
/// as a whole. The commands for the host are returned in the order in which
/// they are to be carried out. After the tick no scene instance is new.
pub fn process_loaded_maps(world: &mut World, map_events: &Vec<AssetEvent>, maps: &Assets) -> (commands:
    Vec<Command>)
    requires
        old(world).wf(),
        maps.consistent(),
    ensures
        final(world).wf(),
        final(world).instances().len() == old(world).instances().len(),
        final(world).added() == Seq::new(old(world).instances().len(), |i: int| false),
        forall|i: int|
            0 <= i < old(world).instances().len() ==> (#[trigger] final(world).instances()[i]).tiled_map
                == old(world).instances()[i].tiled_map,
        forall|i: int|
            0 <= i < old(world).instances().len() ==> #[trigger] final(world).storage(i) == old(
                world,
            ).storage_after(map_events@, *maps, i),
        final(world).entities().len() == old(world).entities().len() + old(world).spawned_before(
            map_events@,
            *maps,
            old(world).instances().len() as int,
        ),
        commands@ == old(world).commands_before(
            map_events@,
            *maps,
            old(world).instances().len() as int,
        ),
{
    let ghost before = *world;
    let ghost events = map_events@;
    let count: usize = world.instances.len();
    let mut commands: Vec<Command> = Vec::new();
    let mut i: usize = 0;
    while i < count
        invariant
            i <= count,
            count == before.instances().len(),
            before.wf(),
            maps.consistent(),
            events == map_events@,
            world.wf(),
            world.instances().len() == count,
            forall|j: int| 0 <= j < i ==> !(#[trigger] world.added()[j]),
            forall|j: int| i <= j < count ==> #[trigger] world.added()[j] == before.added()[j],
            forall|j: int|
                0 <= j < count ==> (#[trigger] world.instances()[j]).tiled_map
                    == before.instances()[j].tiled_map,
            forall|j: int|
                0 <= j < i ==> #[trigger] world.storage(j) == before.storage_after(events, *maps, j),
            forall|j: int| i <= j < count ==> #[trigger] world.storage(j) == before.storage(j),
            world.entities().len() == before.entities().len() + before.spawned_before(
                events,
                *maps,
                i as int,
            ),
            commands@ == before.commands_before(events, *maps, i as int),
        decreases count - i,
    {
        let id = world.instances[i].tiled_map;
        let change = change_of(map_events, id);
        let added = world.added[i];
        let asset = maps.get(id);
        let ghost decision = before.decision(events, *maps, i as int);
        assert(before.map_of(*maps, i as int) is Some <==> asset is Some);
        assert(world.storage(i as int) == before.storage(i as int));
        let keep = change.is_none() && !added;
        if keep {
            assert(decision == Decision::Keep);
            assert(commands@ + before.commands_for(events, *maps, i as int) =~= commands@);
        } else {
            let removed = match change {
                Some(Lifecycle::Removed) => true,
                _ => false,
            };
            let ghost queued = commands@;
            let ghost earlier = *world;
            if removed {
                assert(decision == Decision::Clear);
                rebuild_instance(world, i, None, &mut commands);
            } else {
                proof {
                    if asset is Some {
                        lemma_resolved_consistent(maps.maps@, id);
                        assert(decision == Decision::Rebuild);
                    } else {
                        assert(decision == Decision::Clear);
                    }
                }
                rebuild_instance(world, i, asset, &mut commands);
            }
            proof {
                assert(commands@ =~= queued + before.commands_for(events, *maps, i as int));
                assert forall|j: int| 0 <= j < count && j != i implies #[trigger] world.storage(j)
                    == earlier.storage(j) by {}
            }
        }
        i = i + 1;
    }
    assert(world.added() =~= Seq::new(count as nat, |i: int| false));
    commands
}

} // verus!
