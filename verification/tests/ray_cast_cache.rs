use bevy_lite::ray_cast_cache::{
    sync_mesh_ray_cast_cache, BvhDecision, CacheEntry, MeshEvent, MeshRayCastCache,
    MIN_ASYNC_BVH_TRIANGLES, MIN_BVH_TRIANGLES,
};

#[test]
fn nothing_is_cached_before_synchronization() {
    let mut cache: MeshRayCastCache<&str> = MeshRayCastCache::new();
    assert_eq!(cache.bvh(1, 0, Some(1000), false), BvhDecision::Unavailable);
    assert_eq!(cache.bvh(1, 0, Some(1000), false), BvhDecision::Unavailable);
}

#[test]
fn bvh_is_built_on_the_second_ray_cast() {
    let mut cache: MeshRayCastCache<&str> = MeshRayCastCache::new();
    sync_mesh_ray_cast_cache(&mut cache, &vec![], Some(5));
    assert_eq!(cache.bvh(1, 5, Some(1000), false), BvhDecision::Unavailable);
    assert_eq!(cache.bvh(1, 5, Some(1000), false), BvhDecision::BuildNow);
    cache.insert_built(1, "bvh");
    assert_eq!(cache.bvh(1, 5, Some(1000), false), BvhDecision::Cached);
    assert_eq!(cache.cached(1), Some(&"bvh"));
    // A newer change tick means meshes might have changed.
    assert_eq!(cache.bvh(1, 6, Some(1000), false), BvhDecision::Unavailable);
}

#[test]
fn small_meshes_get_no_bvh() {
    let mut cache: MeshRayCastCache<&str> = MeshRayCastCache::new();
    sync_mesh_ray_cast_cache(&mut cache, &vec![], Some(0));
    for _ in 0..3 {
        assert_eq!(
            cache.bvh(1, 0, Some(MIN_BVH_TRIANGLES - 1), false),
            BvhDecision::Unavailable
        );
        assert_eq!(cache.bvh(2, 0, None, false), BvhDecision::Unavailable);
    }
}

#[test]
fn background_builds_are_matched_by_task_id() {
    let mut cache: MeshRayCastCache<&str> = MeshRayCastCache::new();
    sync_mesh_ray_cast_cache(&mut cache, &vec![], Some(0));
    let large = Some(MIN_ASYNC_BVH_TRIANGLES);
    assert_eq!(cache.bvh(1, 0, large, true), BvhDecision::Unavailable);
    assert_eq!(cache.bvh(1, 0, large, true), BvhDecision::BuildInBackground(0));
    assert_eq!(cache.bvh(1, 0, large, true), BvhDecision::Unavailable);
    assert!(!cache.finish_build(1, 7, "stale"));
    assert!(cache.finish_build(1, 0, "bvh"));
    assert_eq!(cache.bvh(1, 0, large, true), BvhDecision::Cached);
    // Without background tasks, the BVH is built right away.
    assert_eq!(cache.bvh(2, 0, large, false), BvhDecision::Unavailable);
    assert_eq!(cache.bvh(2, 0, large, false), BvhDecision::BuildNow);
}

#[test]
fn modified_meshes_are_dropped() {
    let mut cache: MeshRayCastCache<&str> = MeshRayCastCache::new();
    sync_mesh_ray_cast_cache(&mut cache, &vec![], Some(0));
    cache.insert_built(1, "one");
    cache.insert_built(2, "two");
    cache.insert_built(3, "three");
    sync_mesh_ray_cast_cache(
        &mut cache,
        &vec![MeshEvent::Modified(1), MeshEvent::LoadedWithDependencies(2)],
        Some(1),
    );
    assert_eq!(cache.cached(1), None);
    assert_eq!(cache.cached(2), Some(&"two"));
    assert_eq!(cache.bvh(1, 1, Some(1000), false), BvhDecision::Unavailable);
    // A build that started before the modification is dropped.
    assert_eq!(cache.bvh(3, 1, Some(MIN_ASYNC_BVH_TRIANGLES), true), BvhDecision::Cached);
    sync_mesh_ray_cast_cache(&mut cache, &vec![MeshEvent::Removed(3)], None);
    assert_eq!(cache.bvh(3, 1, Some(1000), false), BvhDecision::Unavailable);
    cache.clear();
    assert_eq!(cache.cached(2), None);
}

#[test]
fn background_build_of_a_modified_mesh_is_not_stored() {
    let mut cache: MeshRayCastCache<&str> = MeshRayCastCache::new();
    sync_mesh_ray_cast_cache(&mut cache, &vec![], Some(0));
    let large = Some(MIN_ASYNC_BVH_TRIANGLES);
    assert_eq!(cache.bvh(4, 0, large, true), BvhDecision::Unavailable);
    assert_eq!(cache.bvh(4, 0, large, true), BvhDecision::BuildInBackground(0));
    sync_mesh_ray_cast_cache(&mut cache, &vec![MeshEvent::Modified(4)], Some(1));
    assert!(!cache.finish_build(4, 0, "old data"));
    assert_eq!(cache.cached(4), None);
    // The mesh starts over: recorded first, then built by a new task.
    assert_eq!(cache.bvh(4, 1, large, true), BvhDecision::Unavailable);
    assert_eq!(cache.bvh(4, 1, large, true), BvhDecision::BuildInBackground(1));
}

const MESH: u64 = 7;

fn cache_entry(cache: &MeshRayCastCache<&'static str>) -> Option<&'static str> {
    cache.entry(MESH).map(|entry| match entry {
        CacheEntry::CastOnce => "cast once",
        CacheEntry::Building(_) => "building",
        CacheEntry::Built(_) => "built",
    })
}

/// A frame of an app that casts a ray on a mesh of `triangles` triangles: the mesh is moved if
/// requested (which changes the tick of the meshes), the ray is cast, and the cache is
/// synchronized with the events of the frame. Returns the decision of the ray cast.
struct Frame {
    tick: u32,
    events: Vec<MeshEvent>,
}

impl Frame {
    fn new() -> Self {
        // The mesh was just added.
        Frame {
            tick: 1,
            events: vec![MeshEvent::Added(MESH)],
        }
    }

    fn update(
        &mut self,
        cache: &mut MeshRayCastCache<&'static str>,
        triangles: usize,
        move_mesh: bool,
    ) -> BvhDecision {
        if move_mesh {
            self.tick += 1;
            self.events.push(MeshEvent::Modified(MESH));
        }
        let decision = cache.bvh(MESH, self.tick, Some(triangles), true);
        if decision == BvhDecision::BuildNow {
            cache.insert_built(MESH, "bvh");
        }
        let events = std::mem::take(&mut self.events);
        sync_mesh_ray_cast_cache(cache, &events, Some(self.tick));
        decision
    }
}

#[test]
fn cache_is_built_and_invalidated() {
    let triangles = 32 * 32 * 2;
    let mut cache = MeshRayCastCache::new();
    let mut frame = Frame::new();

    // The mesh was just added, so the cache can't be used.
    frame.update(&mut cache, triangles, false);
    assert_eq!(cache_entry(&cache), None);
    // The BVH is built the second time the mesh is ray cast.
    frame.update(&mut cache, triangles, false);
    assert_eq!(cache_entry(&cache), Some("cast once"));
    assert_eq!(frame.update(&mut cache, triangles, false), BvhDecision::BuildNow);
    assert_eq!(cache_entry(&cache), Some("built"));
    assert_eq!(frame.update(&mut cache, triangles, false), BvhDecision::Cached);
    assert_eq!(cache_entry(&cache), Some("built"));

    // Move the mesh, and cast the ray right after in the same frame: the stale BVH must not be
    // used, even though the modification hasn't been processed yet.
    assert_eq!(frame.update(&mut cache, triangles, true), BvhDecision::Unavailable);
    assert_eq!(cache_entry(&cache), None);
    frame.update(&mut cache, triangles, false);
    assert_eq!(cache_entry(&cache), Some("cast once"));
    frame.update(&mut cache, triangles, false);
    assert_eq!(cache_entry(&cache), Some("built"));
}

#[test]
fn large_meshes_are_built_in_the_background() {
    let triangles = 192 * 192 * 2;
    let mut cache = MeshRayCastCache::new();
    let mut frame = Frame::new();

    frame.update(&mut cache, triangles, false);
    frame.update(&mut cache, triangles, false);
    assert_eq!(cache_entry(&cache), Some("cast once"));
    let first_task = match frame.update(&mut cache, triangles, false) {
        BvhDecision::BuildInBackground(task) => task,
        decision => panic!("unexpected decision {decision:?}"),
    };
    assert_eq!(cache_entry(&cache), Some("building"));
    // Ray casts go through all the triangles until the task is done.
    assert_eq!(frame.update(&mut cache, triangles, false), BvhDecision::Unavailable);
    assert!(cache.finish_build(MESH, first_task, "bvh"));
    assert_eq!(cache_entry(&cache), Some("built"));

    // Modify the mesh, and modify it again while its new BVH is being built: the BVH of the
    // intermediate mesh must never be used.
    frame.update(&mut cache, triangles, true);
    assert_eq!(cache_entry(&cache), None);
    frame.update(&mut cache, triangles, false);
    assert_eq!(cache_entry(&cache), Some("cast once"));
    let intermediate_task = match frame.update(&mut cache, triangles, false) {
        BvhDecision::BuildInBackground(task) => task,
        decision => panic!("unexpected decision {decision:?}"),
    };
    assert_eq!(cache_entry(&cache), Some("building"));
    frame.update(&mut cache, triangles, true);
    assert_eq!(cache_entry(&cache), None);
    frame.update(&mut cache, triangles, false);
    let last_task = match frame.update(&mut cache, triangles, false) {
        BvhDecision::BuildInBackground(task) => task,
        decision => panic!("unexpected decision {decision:?}"),
    };
    // The task that was building the BVH of the intermediate mesh finishes now: its BVH is
    // dropped.
    assert!(!cache.finish_build(MESH, intermediate_task, "intermediate bvh"));
    assert_eq!(cache_entry(&cache), Some("building"));
    assert!(cache.finish_build(MESH, last_task, "bvh"));
    for _ in 0..10 {
        assert_eq!(frame.update(&mut cache, triangles, false), BvhDecision::Cached);
    }
    assert_eq!(cache.cached(MESH), Some(&"bvh"));
}
