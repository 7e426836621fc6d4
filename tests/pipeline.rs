use fast_surface_nets::ndshape::ConstShape3u32;
use fast_surface_nets::{surface_nets, SurfaceNetsBuffer};
use terrain_chunks::chunk::{Chunk, ChunkKey, Sd8};
use terrain_chunks::chunk_map::ChunkMap;
use terrain_chunks::commands::{ChunkCommand, ChunkCommandQueue};
use terrain_chunks::generation::{
    apply_chunk_deletions, handle_chunk_generation_results, request_chunks,
};
use terrain_chunks::geometry::{IVec3, Point3};
use terrain_chunks::liveness::{CurrentChunks, DirtyChunks, Entity};
use terrain_chunks::meshing::{neighborhood_ready, spawn_chunk_meshing_tasks, MeshingJob};

type PaddedShape = ConstShape3u32<34, 34, 34>;

struct World {
    queue: ChunkCommandQueue,
    map: ChunkMap,
    current: CurrentChunks,
    dirty: DirtyChunks,
    next_entity: u64,
}

impl World {
    fn new() -> Self {
        World {
            queue: ChunkCommandQueue::new(),
            map: ChunkMap::new(),
            current: CurrentChunks::new(),
            dirty: DirtyChunks::new(),
            next_entity: 1,
        }
    }

    /// Drains the pending creations and gives each a placeholder.
    fn spawn(&mut self) -> Vec<ChunkKey> {
        let keys = self.queue.drain_create_commands();
        for &k in &keys {
            self.current.add(k, Entity(self.next_entity));
            self.next_entity += 1;
        }
        keys
    }

    fn deliver(&mut self, results: Vec<(ChunkKey, Chunk)>) {
        handle_chunk_generation_results(&mut self.map, &mut self.dirty, &self.current, results);
    }

    fn mesh(&mut self) -> Vec<MeshingJob> {
        spawn_chunk_meshing_tasks(&self.map, &mut self.dirty, &self.current)
    }
}

/// A chunk filled from a density that is uniform over the world.
fn uniform_chunk(key: ChunkKey, value: i8) -> Chunk {
    let mut c = Chunk::new_empty();
    let min = key.min_point();
    for p in key.voxel_points() {
        let offset = IVec3::new(
            (p.x - min.x) as i32,
            (p.y - min.y) as i32,
            (p.z - min.z) as i32,
        );
        c.set_voxel(offset, Sd8(value));
    }
    c
}

fn surface_vertex_count(padded: &[Sd8]) -> usize {
    let samples: Vec<f32> = padded.iter().map(|v| v.0 as f32 / 127.0).collect();
    let mut buffer = SurfaceNetsBuffer::default();
    surface_nets(&samples, &PaddedShape {}, [0; 3], [33; 3], &mut buffer);
    buffer.positions.len()
}

#[test]
fn commands_are_queued_and_drained_in_order() {
    let mut q = ChunkCommandQueue::new();
    assert!(q.is_create_empty() && q.is_delete_empty());
    q.push(ChunkCommand::Create(ChunkKey::new(1, 0, 0)));
    q.push(ChunkCommand::Delete(ChunkKey::new(2, 0, 0)));
    q.push(ChunkCommand::Create(ChunkKey::new(1, 0, 0)));
    assert_eq!(q.create_len(), 2);
    assert_eq!(q.delete_len(), 1);
    assert_eq!(
        q.drain_create_commands(),
        vec![ChunkKey::new(1, 0, 0), ChunkKey::new(1, 0, 0)]
    );
    assert!(q.is_create_empty());
    assert_eq!(q.delete_len(), 1);
    assert_eq!(q.drain_delete_commands(), vec![ChunkKey::new(2, 0, 0)]);
    assert!(q.is_delete_empty());
}

#[test]
fn sort_puts_nearest_first() {
    let mut q = ChunkCommandQueue::new();
    let d9 = ChunkKey::new(0, 3, 0);
    let d1 = ChunkKey::new(-1, 0, 0);
    let d4 = ChunkKey::new(0, 0, 2);
    for k in [d9, d1, d4] {
        q.push(ChunkCommand::Create(k));
    }
    q.sort_by_distance(ChunkKey::new(0, 0, 0));
    assert_eq!(q.drain_create_commands(), vec![d1, d4, d9]);
}

#[test]
fn sort_keeps_order_of_equal_distances() {
    let mut q = ChunkCommandQueue::new();
    let keys = [
        ChunkKey::new(0, 0, 2),
        ChunkKey::new(1, 0, 0),
        ChunkKey::new(0, -2, 0),
        ChunkKey::new(0, 1, 0),
        ChunkKey::new(5, 5, 5),
        ChunkKey::new(0, 0, -1),
    ];
    for k in keys {
        q.push(ChunkCommand::Create(k));
    }
    q.sort_by_distance(ChunkKey::new(0, 0, 0));
    assert_eq!(
        q.drain_create_commands(),
        vec![keys[1], keys[3], keys[5], keys[0], keys[2], keys[4]]
    );
}

#[test]
fn sort_by_distance_from_another_reference() {
    let mut q = ChunkCommandQueue::new();
    q.push(ChunkCommand::Create(ChunkKey::new(0, 0, 0)));
    q.push(ChunkCommand::Create(ChunkKey::new(10, 0, 0)));
    q.push(ChunkCommand::Delete(ChunkKey::new(3, 3, 3)));
    q.sort_by_distance(ChunkKey::new(9, 0, 0));
    assert_eq!(q.delete_len(), 1);
    assert_eq!(
        q.drain_create_commands(),
        vec![ChunkKey::new(10, 0, 0), ChunkKey::new(0, 0, 0)]
    );
}

#[test]
fn request_skips_live_chunks() {
    let mut w = World::new();
    w.current.add(ChunkKey::new(0, 0, 0), Entity(42));
    request_chunks(
        &mut w.queue,
        &w.current,
        IVec3::new(-1, 0, 0),
        IVec3::new(2, 1, 1),
        ChunkKey::new(0, 0, 0),
    );
    let queued = w.queue.drain_create_commands();
    assert_eq!(queued, vec![ChunkKey::new(-1, 0, 0), ChunkKey::new(1, 0, 0)]);
    assert!(!queued.contains(&ChunkKey::new(0, 0, 0)));
}

#[test]
fn request_twice_after_spawning_queues_nothing() {
    let mut w = World::new();
    let (min, lub) = (IVec3::new(0, 0, 0), IVec3::new(2, 2, 1));
    request_chunks(&mut w.queue, &w.current, min, lub, ChunkKey::new(0, 0, 0));
    assert_eq!(w.queue.create_len(), 4);
    let spawned = w.spawn();
    assert_eq!(spawned[0], ChunkKey::new(0, 0, 0));
    assert_eq!(spawned[3], ChunkKey::new(1, 1, 0));
    request_chunks(&mut w.queue, &w.current, min, lub, ChunkKey::new(0, 0, 0));
    assert!(w.queue.is_create_empty());
}

#[test]
fn request_of_an_empty_box() {
    let mut w = World::new();
    request_chunks(
        &mut w.queue,
        &w.current,
        IVec3::new(3, 0, 0),
        IVec3::new(3, 5, 5),
        ChunkKey::new(0, 0, 0),
    );
    assert!(w.queue.is_create_empty());
}

#[test]
fn request_default_region_is_sorted_from_origin() {
    let mut w = World::new();
    request_chunks(
        &mut w.queue,
        &w.current,
        IVec3::splat(-10),
        IVec3::splat(10),
        ChunkKey::new(0, 0, 0),
    );
    let queued = w.queue.drain_create_commands();
    assert_eq!(queued.len(), 8000);
    assert_eq!(queued[0], ChunkKey::new(0, 0, 0));
    assert_eq!(queued[1], ChunkKey::new(0, 0, -1));
    assert_eq!(queued[7999], ChunkKey::new(-10, -10, -10));
}

#[test]
fn generation_results_are_stored_and_marked_dirty() {
    let mut w = World::new();
    let k = ChunkKey::new(0, 0, 0);
    w.current.add(k, Entity(1));
    w.deliver(vec![(k, uniform_chunk(k, 5))]);
    assert_eq!(w.map.len(), 1);
    assert_eq!(w.map.get(k).unwrap().sdf[100], Sd8(5));
    assert_eq!(w.dirty.keys(), vec![k]);
    // A second result overwrites the first; the key stays dirty once.
    w.deliver(vec![(k, uniform_chunk(k, -5))]);
    assert_eq!(w.map.get(k).unwrap().sdf[100], Sd8(-5));
    assert_eq!(w.dirty.len(), 1);
}

#[test]
fn generation_result_of_a_dead_chunk_is_dropped() {
    let mut w = World::new();
    let k = ChunkKey::new(4, 0, 0);
    w.deliver(vec![(k, uniform_chunk(k, 5))]);
    assert_eq!(w.map.len(), 0);
    assert!(w.dirty.is_empty());
}

#[test]
fn meshing_waits_for_a_requested_neighbor() {
    let mut w = World::new();
    let a = ChunkKey::new(0, 0, 0);
    let b = ChunkKey::new(1, 0, 0);
    w.queue.push(ChunkCommand::Create(a));
    w.queue.push(ChunkCommand::Create(b));
    assert_eq!(w.spawn(), vec![a, b]);

    w.deliver(vec![(a, uniform_chunk(a, -20))]);
    assert!(!neighborhood_ready(&w.map, &w.current, a));
    let jobs = w.mesh();
    assert!(jobs.is_empty());
    assert_eq!(w.dirty.keys(), vec![a]);

    w.deliver(vec![(b, uniform_chunk(b, 20))]);
    assert!(neighborhood_ready(&w.map, &w.current, a));
    let jobs = w.mesh();
    assert_eq!(jobs.len(), 2);
    assert_eq!(jobs[0].key, a);
    assert_eq!(jobs[0].entity, w.current.get_entity(a).unwrap());
    assert_eq!(jobs[1].key, b);
    assert!(w.dirty.is_empty());
    // The padded buffer of `a` carries `b`'s first layer on its +x face.
    assert_eq!(jobs[0].padded_sdf[33 + 34 * (5 + 34 * 5)], Sd8(20));
    assert_eq!(jobs[0].padded_sdf[5 + 34 * (5 + 34 * 5)], Sd8(-20));
    // Inside next to outside: a surface is found between the two chunks.
    assert!(surface_vertex_count(&jobs[0].padded_sdf) > 0);
}

#[test]
fn meshing_skips_dirty_chunks_without_placeholder() {
    let mut w = World::new();
    let k = ChunkKey::new(0, 0, 0);
    w.current.add(k, Entity(1));
    w.deliver(vec![(k, uniform_chunk(k, 1))]);
    w.current.remove(k);
    let jobs = w.mesh();
    assert!(jobs.is_empty());
    assert_eq!(w.dirty.keys(), vec![k]);
}

#[test]
fn single_chunk_in_an_empty_world_meshes_to_nothing() {
    let mut w = World::new();
    request_chunks(
        &mut w.queue,
        &w.current,
        IVec3::new(0, 0, 0),
        IVec3::new(1, 1, 1),
        ChunkKey::new(0, 0, 0),
    );
    let spawned = w.spawn();
    assert_eq!(spawned, vec![ChunkKey::new(0, 0, 0)]);
    let results: Vec<(ChunkKey, Chunk)> =
        spawned.iter().map(|&k| (k, uniform_chunk(k, 127))).collect();
    w.deliver(results);
    assert_eq!(w.map.len(), 1);
    assert_eq!(w.dirty.len(), 1);

    let jobs = w.mesh();
    assert!(w.dirty.is_empty());
    assert_eq!(jobs.len(), 1);
    let attached: Vec<Entity> = jobs
        .iter()
        .filter(|j| surface_vertex_count(&j.padded_sdf) > 0)
        .map(|j| j.entity)
        .collect();
    assert!(attached.is_empty());
    // A later pass does not try it again.
    assert!(w.mesh().is_empty());
}

#[test]
fn deletion_removes_a_chunk_everywhere() {
    let mut w = World::new();
    let a = ChunkKey::new(0, 0, 0);
    let b = ChunkKey::new(0, 1, 0);
    let gone = ChunkKey::new(7, 7, 7);
    w.queue.push(ChunkCommand::Create(a));
    w.queue.push(ChunkCommand::Create(b));
    w.spawn();
    w.deliver(vec![(a, uniform_chunk(a, 1)), (b, uniform_chunk(b, 1))]);
    w.queue.push(ChunkCommand::Delete(a));
    w.queue.push(ChunkCommand::Delete(gone));
    w.queue.push(ChunkCommand::Delete(a));
    let destroyed = apply_chunk_deletions(&mut w.queue, &mut w.map, &mut w.current, &mut w.dirty);
    assert_eq!(destroyed, vec![Entity(1)]);
    assert!(w.queue.is_delete_empty());
    assert!(!w.map.contains(a) && w.map.contains(b));
    assert!(!w.current.contains(a) && w.current.contains(b));
    assert_eq!(w.dirty.keys(), vec![b]);
    // A result still in flight for the deleted chunk is dropped.
    w.deliver(vec![(a, uniform_chunk(a, 1))]);
    assert!(!w.map.contains(a));
    assert_eq!(w.dirty.keys(), vec![b]);
}

#[test]
fn mesh_origin_is_the_padded_minimum() {
    let e = ChunkKey::new(1, -1, 0).padded_extent();
    assert_eq!(e.minimum, Point3::new(31, -33, -1));
}
