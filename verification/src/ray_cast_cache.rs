//! The decisions of the cache of bounding volume hierarchies (BVHs) that speeds up ray casts
//! against large meshes: when a BVH is built, in the background or right away, when it is used,
//! and when it is dropped.
//!
//! Ray casts give exactly the same results with and without this cache. Cached BVHs are only used
//! if all the changes to the meshes have been processed: after a mesh is modified, ray casts go
//! through all the triangles of the meshes until the cache is synchronized again.
use std::collections::HashMap;
use vstd::prelude::*;
use vstd::std_specs::hash::group_hash_axioms;

verus! {

broadcast use group_hash_axioms;

/// Meshes with fewer triangles than this don't get a BVH.
pub const MIN_BVH_TRIANGLES: usize = 128;

/// The BVHs of meshes with at least this many triangles are built in a background task, instead
/// of blocking the ray cast that needs it for several milliseconds.
pub const MIN_ASYNC_BVH_TRIANGLES: usize = 65536;

/// The id that follows `id`, wrapping around.
pub open spec fn next_id(id: u64) -> u64 {
    if id == u64::MAX {
        0
    } else {
        (id + 1) as u64
    }
}

/// The cache entry of a mesh.
pub enum CacheEntry<B> {
    /// A ray was cast once against the mesh since it was added or last modified.
    CastOnce,
    /// The BVH of the mesh is being built by the background task with this id.
    Building(u64),
    /// The BVH of the mesh.
    Built(B),
}

/// What a ray cast against a mesh does with the cache.
#[derive(Clone, Copy, Debug, PartialEq, Eq)]
pub enum BvhDecision {
    /// There is no BVH to use: go through all the triangles of the mesh.
    Unavailable,
    /// Use the cached BVH of the mesh.
    Cached,
    /// Start building the BVH in a background task with this id, and go through all the
    /// triangles of the mesh meanwhile.
    BuildInBackground(u64),
    /// Build the BVH now, store it with [`MeshRayCastCache::insert_built`], and use it.
    BuildNow,
}

/// A change to a mesh asset.
#[derive(Clone, Copy, Debug, PartialEq, Eq)]
pub enum MeshEvent {
    Added(u64),
    Modified(u64),
    Removed(u64),
    Unused(u64),
    LoadedWithDependencies(u64),
}

/// What a ray cast against `mesh` decides, and the cache entries and next task id that follow,
/// from the cache entries, the change tick the cache is synchronized with, and the next task id.
pub open spec fn cast_decision<B>(
    entries: Map<u64, CacheEntry<B>>,
    synchronized_tick: Option<u32>,
    next_task_id: u64,
    mesh: u64,
    meshes_changed_tick: u32,
    triangle_count: Option<usize>,
    background_tasks: bool,
) -> (BvhDecision, Map<u64, CacheEntry<B>>, u64) {
    let unchanged = (BvhDecision::Unavailable, entries, next_task_id);
    if synchronized_tick != Some(meshes_changed_tick) {
        unchanged
    } else if !(triangle_count matches Some(count) && count >= MIN_BVH_TRIANGLES) {
        unchanged
    } else if !entries.contains_key(mesh) {
        (BvhDecision::Unavailable, entries.insert(mesh, CacheEntry::CastOnce), next_task_id)
    } else {
        match entries[mesh] {
            CacheEntry::Building(_) => unchanged,
            CacheEntry::Built(_) => (BvhDecision::Cached, entries, next_task_id),
            CacheEntry::CastOnce => if background_tasks && triangle_count->0
                >= MIN_ASYNC_BVH_TRIANGLES {
                (
                    BvhDecision::BuildInBackground(next_task_id),
                    entries.insert(mesh, CacheEntry::Building(next_task_id)),
                    next_id(next_task_id),
                )
            } else {
                (BvhDecision::BuildNow, entries, next_task_id)
            },
        }
    }
}

/// The BVH of `mesh` is being built by the background task `task_id`.
pub open spec fn is_building<B>(entries: Map<u64, CacheEntry<B>>, mesh: u64, task_id: u64) -> bool {
    entries.contains_key(mesh) && entries[mesh] == CacheEntry::<B>::Building(task_id)
}

/// The cached BVHs of meshes (of type `B`), by mesh id.
pub struct MeshRayCastCache<B> {
    entries: HashMap<u64, CacheEntry<B>>,
    /// The change tick of the meshes once all the events of the changes to the meshes have been
    /// processed, or `None` if some of them haven't been sent yet.
    synchronized_tick: Option<u32>,
    /// Identifies the background tasks that build BVHs.
    next_task_id: u64,
}

impl<B> MeshRayCastCache<B> {
    /// The cache entry of each mesh.
    pub closed spec fn entries(&self) -> Map<u64, CacheEntry<B>> {
        self.entries@
    }

    /// The change tick of the meshes at the last synchronization, if the cache is synchronized.
    pub closed spec fn synchronized_tick(&self) -> Option<u32> {
        self.synchronized_tick
    }

    /// The id of the next background task.
    pub closed spec fn next_task_id(&self) -> u64 {
        self.next_task_id
    }

    /// An empty cache, not synchronized yet.
    pub fn new() -> (cache: Self)
        ensures
            cache.entries() == Map::<u64, CacheEntry<B>>::empty(),
            cache.synchronized_tick() is None,
            cache.next_task_id() == 0,
    {
        MeshRayCastCache { entries: HashMap::new(), synchronized_tick: None, next_task_id: 0 }
    }

    /// Decides how a ray cast against `mesh` uses the cache, given the change tick of the meshes
    /// and the number of triangles of the mesh (`None` if the mesh has no triangles that can be
    /// ray cast).
    ///
    /// There is no BVH if the cache isn't synchronized with the current meshes, if the mesh has
    /// few triangles, if it is its first ray cast since it was modified (which is recorded), or if
    /// its BVH is being built. A mesh cast against a second time gets its BVH built: in the
    /// background for large meshes when `background_tasks` are available, right away otherwise.
    pub fn bvh(
        &mut self,
        mesh: u64,
        meshes_changed_tick: u32,
        triangle_count: Option<usize>,
        background_tasks: bool,
    ) -> (decision: BvhDecision)
        ensures
            (decision, final(self).entries(), final(self).next_task_id()) == cast_decision(
                old(self).entries(),
                old(self).synchronized_tick(),
                old(self).next_task_id(),
                mesh,
                meshes_changed_tick,
                triangle_count,
                background_tasks,
            ),
            final(self).synchronized_tick() == old(self).synchronized_tick(),
    {
        if self.synchronized_tick != Some(meshes_changed_tick) {
            return BvhDecision::Unavailable;
        }
        let count = match triangle_count {
            Some(count) => count,
            None => {
                return BvhDecision::Unavailable;
            },
        };
        if count < MIN_BVH_TRIANGLES {
            return BvhDecision::Unavailable;
        }
        let cast_once = match self.entries.get(&mesh) {
            Some(CacheEntry::CastOnce) => true,
            Some(CacheEntry::Building(_)) => {
                return BvhDecision::Unavailable;
            },
            Some(CacheEntry::Built(_)) => {
                return BvhDecision::Cached;
            },
            None => false,
        };
        if !cast_once {
            self.entries.insert(mesh, CacheEntry::CastOnce);
            return BvhDecision::Unavailable;
        }
        if count >= MIN_ASYNC_BVH_TRIANGLES && background_tasks {
            let task_id = self.next_task_id;
            self.next_task_id = self.next_task_id.wrapping_add(1);
            self.entries.insert(mesh, CacheEntry::Building(task_id));
            return BvhDecision::BuildInBackground(task_id);
        }
        BvhDecision::BuildNow
    }

    /// The cache entry of `mesh`, if it has one.
    pub fn entry(&self, mesh: u64) -> (entry: Option<&CacheEntry<B>>)
        ensures
            match entry {
                Some(entry) => self.entries().contains_key(mesh) && self.entries()[mesh] == *entry,
                None => !self.entries().contains_key(mesh),
            },
    {
        self.entries.get(&mesh)
    }

    /// The cached BVH of `mesh`, if it has been built.
    pub fn cached(&self, mesh: u64) -> (bvh: Option<&B>)
        ensures
            match bvh {
                Some(bvh) => self.entries().contains_key(mesh) && self.entries()[mesh]
                    == CacheEntry::Built(*bvh),
                None => !(self.entries().contains_key(mesh) && self.entries()[mesh] is Built),
            },
    {
        match self.entries.get(&mesh) {
            Some(CacheEntry::Built(bvh)) => Some(bvh),
            _ => None,
        }
    }

    /// Stores the BVH of `mesh`, built right away.
    pub fn insert_built(&mut self, mesh: u64, bvh: B)
        ensures
            final(self).entries() == old(self).entries().insert(mesh, CacheEntry::Built(bvh)),
            final(self).synchronized_tick() == old(self).synchronized_tick(),
            final(self).next_task_id() == old(self).next_task_id(),
    {
        self.entries.insert(mesh, CacheEntry::Built(bvh));
    }

    /// Stores the BVH of `mesh` built by the background task `task_id`, unless the mesh was
    /// modified or removed since the task started: the BVH, built from the old data, is then
    /// dropped. Returns whether the BVH was stored.
    pub fn finish_build(&mut self, mesh: u64, task_id: u64, bvh: B) -> (stored: bool)
        ensures
            stored == is_building(old(self).entries(), mesh, task_id),
            stored ==> final(self).entries() == old(self).entries().insert(
                mesh,
                CacheEntry::Built(bvh),
            ),
            !stored ==> final(self).entries() == old(self).entries(),
            final(self).synchronized_tick() == old(self).synchronized_tick(),
            final(self).next_task_id() == old(self).next_task_id(),
    {
        let building = match self.entries.get(&mesh) {
            Some(CacheEntry::Building(id)) => *id == task_id,
            _ => false,
        };
        if building {
            self.entries.insert(mesh, CacheEntry::Built(bvh));
        }
        building
    }

    /// Removes all the cached BVHs.
    pub fn clear(&mut self)
        ensures
            final(self).entries() == Map::<u64, CacheEntry<B>>::empty(),
            final(self).synchronized_tick() == old(self).synchronized_tick(),
            final(self).next_task_id() == old(self).next_task_id(),
    {
        self.entries.clear();
    }
}

/// The meshes whose cache entries the first `n` events drop: the meshes that were added,
/// modified, removed or are unused.
pub open spec fn dropped_by(events: Seq<MeshEvent>, n: int, mesh: u64) -> bool
    decreases n,
{
    if n <= 0 {
        false
    } else {
        dropped_by(events, n - 1, mesh) || changes(events[n - 1], mesh)
    }
}

/// The cache entries left once the entries of the meshes changed by `events` are dropped.
pub open spec fn synced_entries<B>(entries: Map<u64, CacheEntry<B>>, events: Seq<MeshEvent>) -> Map<
    u64,
    CacheEntry<B>,
> {
    entries.restrict(
        entries.dom().filter(|mesh: u64| !dropped_by(events, events.len() as int, mesh)),
    )
}

/// An event that adds, modifies or removes `mesh`, or makes it unused.
pub open spec fn changes(event: MeshEvent, mesh: u64) -> bool {
    match event {
        MeshEvent::Added(id) | MeshEvent::Modified(id) | MeshEvent::Removed(id)
        | MeshEvent::Unused(id) => id == mesh,
        MeshEvent::LoadedWithDependencies(_) => false,
    }
}

/// Drops the cached BVHs of the meshes that were modified or removed, then records the change
/// tick of the meshes if all their changes have been sent (`synchronized_tick`), or that the cache
/// isn't synchronized (`None`).
pub fn sync_mesh_ray_cast_cache<B>(
    cache: &mut MeshRayCastCache<B>,
    mesh_events: &Vec<MeshEvent>,
    synchronized_tick: Option<u32>,
)
    ensures
        final(cache).entries() == synced_entries(old(cache).entries(), mesh_events@),
        final(cache).synchronized_tick() == synchronized_tick,
        final(cache).next_task_id() == old(cache).next_task_id(),
{
    let ghost before = cache.entries@;
    let mut i: usize = 0;
    while i < mesh_events.len()
        invariant
            i <= mesh_events.len(),
            cache.next_task_id == old(cache).next_task_id,
            cache.entries@ == before.restrict(
                before.dom().filter(|mesh: u64| !dropped_by(mesh_events@, i as int, mesh)),
            ),
        decreases mesh_events.len() - i,
    {
        match mesh_events[i] {
            MeshEvent::Added(id) | MeshEvent::Modified(id) | MeshEvent::Removed(id)
            | MeshEvent::Unused(id) => {
                cache.entries.remove(&id);
            },
            MeshEvent::LoadedWithDependencies(_) => {},
        }
        proof {
            assert(cache.entries@ =~= before.restrict(
                before.dom().filter(|mesh: u64| !dropped_by(mesh_events@, i + 1, mesh)),
            ));
        }
        i = i + 1;
    }
    cache.synchronized_tick = synchronized_tick;
}


/// The first `n` events drop the entry of a mesh that one of them changes.
proof fn lemma_dropped_by_change(events: Seq<MeshEvent>, n: int, i: int, mesh: u64)
    requires
        0 <= i < n <= events.len(),
        changes(events[i], mesh),
    ensures
        dropped_by(events, n, mesh),
    decreases n,
{
    if i < n - 1 {
        lemma_dropped_by_change(events, n - 1, i, mesh);
    }
}

/// A mesh gets its BVH the second time a ray is cast against it, when the cache is synchronized
/// and the mesh has enough triangles: the first cast only records the mesh, the second builds its
/// BVH, in a background task for large meshes when background tasks are available. While that
/// task runs, further casts go through all the triangles; once a BVH is stored, casts use it.
pub proof fn lemma_bvh_built_on_second_cast<B>(
    entries: Map<u64, CacheEntry<B>>,
    next_task_id: u64,
    mesh: u64,
    meshes_changed_tick: u32,
    triangle_count: usize,
    background_tasks: bool,
    bvh: B,
)
    requires
        !entries.contains_key(mesh),
        triangle_count >= MIN_BVH_TRIANGLES,
    ensures
        ({
            let tick = Some(meshes_changed_tick);
            let count = Some(triangle_count);
            let first = cast_decision(
                entries,
                tick,
                next_task_id,
                mesh,
                meshes_changed_tick,
                count,
                background_tasks,
            );
            let second = cast_decision(
                first.1,
                tick,
                first.2,
                mesh,
                meshes_changed_tick,
                count,
                background_tasks,
            );
            let third = cast_decision(
                second.1,
                tick,
                second.2,
                mesh,
                meshes_changed_tick,
                count,
                background_tasks,
            );
            let built = cast_decision(
                second.1.insert(mesh, CacheEntry::Built(bvh)),
                tick,
                second.2,
                mesh,
                meshes_changed_tick,
                count,
                background_tasks,
            );
            &&& first.0 == BvhDecision::Unavailable
            &&& if background_tasks && triangle_count >= MIN_ASYNC_BVH_TRIANGLES {
                &&& second.0 == BvhDecision::BuildInBackground(next_task_id)
                &&& is_building(second.1, mesh, next_task_id)
                &&& third.0 == BvhDecision::Unavailable
            } else {
                second.0 == BvhDecision::BuildNow
            }
            &&& built.0 == BvhDecision::Cached
        }),
{
}

/// A cached BVH is only used when the cache is synchronized with the current meshes.
pub proof fn lemma_cached_only_when_synchronized<B>(
    entries: Map<u64, CacheEntry<B>>,
    synchronized_tick: Option<u32>,
    next_task_id: u64,
    mesh: u64,
    meshes_changed_tick: u32,
    triangle_count: Option<usize>,
    background_tasks: bool,
)
    ensures
        cast_decision(
            entries,
            synchronized_tick,
            next_task_id,
            mesh,
            meshes_changed_tick,
            triangle_count,
            background_tasks,
        ).0 == BvhDecision::Cached ==> synchronized_tick == Some(meshes_changed_tick)
            && entries.contains_key(mesh) && entries[mesh] is Built,
{
}

/// Synchronizing the cache with events that add, modify or remove a mesh, or make it unused,
/// drops its entry: its BVH is gone, a BVH still being built for it from its old data is not
/// stored when the build finishes, and the next ray cast against it only records it again.
pub proof fn lemma_changed_mesh_is_dropped<B>(
    entries: Map<u64, CacheEntry<B>>,
    events: Seq<MeshEvent>,
    i: int,
    mesh: u64,
    task_id: u64,
    meshes_changed_tick: u32,
    triangle_count: Option<usize>,
    background_tasks: bool,
)
    requires
        0 <= i < events.len(),
        changes(events[i], mesh),
    ensures
        ({
            let synced = synced_entries(entries, events);
            &&& !synced.contains_key(mesh)
            &&& !is_building(synced, mesh, task_id)
            &&& cast_decision(
                synced,
                Some(meshes_changed_tick),
                task_id,
                mesh,
                meshes_changed_tick,
                triangle_count,
                background_tasks,
            ).0 == BvhDecision::Unavailable
        }),
{
    lemma_dropped_by_change(events, events.len() as int, i, mesh);
}

} // verus!
