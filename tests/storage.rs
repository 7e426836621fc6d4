use terrain_chunks::chunk::{Chunk, ChunkKey, Sd8};
use terrain_chunks::chunk_map::ChunkMap;
use terrain_chunks::chunk_world::ChunkWorld;
use terrain_chunks::geometry::{IVec3, PADDED_CHUNK_SIZE};
use terrain_chunks::liveness::{CurrentChunks, DirtyChunks, Entity};

fn padded(x: usize, y: usize, z: usize) -> usize {
    x + 34 * (y + 34 * z)
}

fn chunk_index(x: usize, y: usize, z: usize) -> usize {
    x + 32 * (y + 32 * z)
}

/// A chunk whose voxel at offset (x, y, z) holds a value made from the
/// offset, distinct along each axis, and tagged by `tag`.
fn patterned_chunk(tag: i8) -> Chunk {
    let mut c = Chunk::new_empty();
    for z in 0..32 {
        for y in 0..32 {
            for x in 0..32 {
                let v = ((x + 3 * y + 7 * z) % 100) as i8 - 50 + tag;
                c.set_voxel(IVec3::new(x, y, z), Sd8(v));
            }
        }
    }
    c
}

#[test]
fn chunk_map_insert_get_remove() {
    let mut m = ChunkMap::new();
    let k = ChunkKey::new(3, -4, 5);
    assert!(!m.contains(k));
    assert!(m.insert(k, Chunk::new_empty()).is_none());
    assert!(m.contains(k));
    assert_eq!(m.len(), 1);
    let mut c = Chunk::new_empty();
    c.set_voxel(IVec3::new(0, 0, 0), Sd8(-3));
    let previous = m.insert(k, c).unwrap();
    assert_eq!(previous.sdf[0], Sd8(127));
    assert_eq!(m.get(k).unwrap().sdf[0], Sd8(-3));
    assert_eq!(m.len(), 1);
    assert!(m.get(ChunkKey::new(3, -4, 6)).is_none());
    assert!(m.remove(k).is_some());
    assert!(!m.contains(k));
    assert_eq!(m.len(), 0);
}

#[test]
fn chunk_map_keys_at_the_ends_of_the_range() {
    let mut m = ChunkMap::new();
    let a = ChunkKey::new(i32::MIN, i32::MAX, 0);
    let b = ChunkKey::new(i32::MAX, i32::MIN, 0);
    m.insert(a, Chunk::new_empty());
    m.insert(b, Chunk::new_empty());
    assert_eq!(m.len(), 2);
    assert!(m.contains(a) && m.contains(b));
    assert!(!m.contains(ChunkKey::new(i32::MIN, i32::MIN, 0)));
}

#[test]
fn lone_chunk_neighborhood_is_the_chunk_in_default_padding() {
    let mut m = ChunkMap::new();
    let key = ChunkKey::new(2, -1, 0);
    let c = patterned_chunk(0);
    let expected = c.clone();
    m.insert(key, c);
    let buf = m.copy_chunk_neighborhood(key);
    assert_eq!(buf.len(), PADDED_CHUNK_SIZE);
    for z in 0..34 {
        for y in 0..34 {
            for x in 0..34 {
                let inside = (1..=32).contains(&x) && (1..=32).contains(&y) && (1..=32).contains(&z);
                let want = if inside {
                    expected.sdf[chunk_index(x - 1, y - 1, z - 1)]
                } else {
                    Sd8(127)
                };
                assert_eq!(buf[padded(x, y, z)], want, "at {x} {y} {z}");
            }
        }
    }
}

#[test]
fn empty_storage_neighborhood_is_all_outside() {
    let m = ChunkMap::new();
    let buf = m.copy_chunk_neighborhood(ChunkKey::new(0, 0, 0));
    assert!(buf.iter().all(|v| *v == Sd8(127)));
}

#[test]
fn neighbor_fills_its_side_of_the_padding() {
    let mut m = ChunkMap::new();
    let east = patterned_chunk(1);
    let below = patterned_chunk(2);
    let expected_east = east.clone();
    let expected_below = below.clone();
    m.insert(ChunkKey::new(1, 0, 0), east);
    m.insert(ChunkKey::new(0, -1, 0), below);
    let buf = m.copy_chunk_neighborhood(ChunkKey::new(0, 0, 0));
    // The face at x = 33 comes from the first layer of the chunk at +x.
    assert_eq!(buf[padded(33, 5, 7)], expected_east.sdf[chunk_index(0, 4, 6)]);
    // The face at y = 0 comes from the last layer of the chunk at -y.
    assert_eq!(buf[padded(5, 0, 7)], expected_below.sdf[chunk_index(4, 31, 6)]);
    // The chunk itself is missing: its region stays outside.
    assert_eq!(buf[padded(5, 5, 5)], Sd8(127));
    // Corners of absent neighbours stay outside.
    assert_eq!(buf[padded(33, 0, 7)], Sd8(127));
}

#[test]
fn full_neighborhood_copies_are_identical() {
    let mut m = ChunkMap::new();
    let mut tag: i8 = 0;
    for z in -1..=1 {
        for y in -1..=1 {
            for x in -1..=1 {
                m.insert(ChunkKey::new(x, y, z), patterned_chunk(tag));
                tag += 1;
            }
        }
    }
    let first = m.copy_chunk_neighborhood(ChunkKey::new(0, 0, 0));
    let second = m.copy_chunk_neighborhood(ChunkKey::new(0, 0, 0));
    assert_eq!(first, second);
    // Every voxel is stored: nothing stays at the default.
    let corner = m.get(ChunkKey::new(-1, -1, -1)).unwrap().sdf[chunk_index(31, 31, 31)];
    assert_eq!(first[padded(0, 0, 0)], corner);
    let far = m.get(ChunkKey::new(1, 1, 1)).unwrap().sdf[chunk_index(0, 0, 0)];
    assert_eq!(first[padded(33, 33, 33)], far);
}

#[test]
fn current_chunks_track_entities() {
    let mut live = CurrentChunks::new();
    let k = ChunkKey::new(1, 2, 3);
    assert!(!live.contains(k));
    assert_eq!(live.get_entity(k), None);
    live.add(k, Entity(9));
    assert!(live.contains(k));
    assert_eq!(live.get_entity(k), Some(Entity(9)));
    live.add(k, Entity(10));
    assert_eq!(live.get_entity(k), Some(Entity(10)));
    assert_eq!(live.len(), 1);
    assert!(live.holds(k, Entity(10)));
    assert!(!live.holds(k, Entity(9)));
    assert_eq!(live.remove(k), Some(Entity(10)));
    assert!(!live.holds(k, Entity(10)));
    assert_eq!(live.remove(k), None);
    assert_eq!(live.len(), 0);
}

#[test]
fn dirty_chunks_hold_each_key_once() {
    let mut d = DirtyChunks::new();
    let a = ChunkKey::new(0, 0, 0);
    let b = ChunkKey::new(0, 0, 1);
    assert!(d.is_empty());
    assert!(d.insert(a));
    assert!(d.insert(b));
    assert!(!d.insert(a));
    assert_eq!(d.keys(), vec![a, b]);
    assert_eq!(d.len(), 2);
    assert!(d.remove(a));
    assert!(!d.remove(a));
    assert!(!d.contains(a));
    assert!(d.contains(b));
    assert_eq!(d.keys(), vec![b]);
}

#[test]
fn chunk_world_stores_by_coordinate() {
    let mut w = ChunkWorld::new();
    let at = IVec3::new(1, 1, 1);
    assert!(w.get_chunk(&at).is_none());
    assert!(w.insert_chunk(at, Chunk::new_empty()).is_none());
    let mut c = Chunk::new_empty();
    c.set_voxel(IVec3::new(0, 0, 0), Sd8(-1));
    assert!(w.insert_chunk(at, c).is_some());
    assert_eq!(w.get_chunk(&at).unwrap().sdf[0], Sd8(-1));
    assert!(w.get_chunk(&IVec3::new(1, 1, 2)).is_none());
}
