use terrain_chunks::chunk::{Chunk, ChunkKey, Sd8};
use terrain_chunks::chunk_map::chunks_in_extent;
use terrain_chunks::commands::distance_squared_exec;
use terrain_chunks::geometry::{Extent3i, IVec3, Point3, CHUNK_SIZE, PADDED_CHUNK_SIZE};

fn extent(min: (i64, i64, i64), shape: (i64, i64, i64)) -> Extent3i {
    Extent3i::from_min_and_shape(
        Point3::new(min.0, min.1, min.2),
        Point3::new(shape.0, shape.1, shape.2),
    )
}

#[test]
fn extent_of_origin_chunk() {
    let e = ChunkKey::new(0, 0, 0).extent();
    assert_eq!(e, extent((0, 0, 0), (32, 32, 32)));
}

#[test]
fn extent_of_offset_chunk() {
    let e = ChunkKey::new(1, 0, -1).extent();
    assert_eq!(e.minimum, Point3::new(32, 0, -32));
    let lub = Point3::new(
        e.minimum.x + e.shape.x,
        e.minimum.y + e.shape.y,
        e.minimum.z + e.shape.z,
    );
    assert_eq!(lub, Point3::new(64, 32, 0));
}

#[test]
fn min_point_scales_key() {
    assert_eq!(ChunkKey::new(-2, 3, 0).min_point(), Point3::new(-64, 96, 0));
}

#[test]
fn padded_extent_grows_every_face() {
    let e = ChunkKey::new(1, 0, -1).padded_extent();
    assert_eq!(e, extent((31, -1, -33), (34, 34, 34)));
}

#[test]
fn key_from_vector() {
    let k: ChunkKey = ChunkKey::from(IVec3::new(4, -5, 6));
    assert_eq!(k, ChunkKey::new(4, -5, 6));
    assert_eq!(IVec3::splat(3), IVec3::new(3, 3, 3));
}

#[test]
fn intersection_of_overlapping_boxes() {
    let a = extent((0, 0, 0), (10, 10, 10));
    let b = extent((5, -3, 8), (10, 10, 10));
    assert_eq!(a.intersection(&b), extent((5, 0, 8), (5, 7, 2)));
}

#[test]
fn intersection_of_disjoint_boxes_is_empty() {
    let a = extent((0, 0, 0), (4, 4, 4));
    let b = extent((10, 0, 0), (4, 4, 4));
    assert_eq!(a.intersection(&b).shape.x, 0);
}

#[test]
fn padded_by_two() {
    let a = extent((0, 0, 0), (4, 4, 4));
    assert_eq!(a.padded(2), extent((-2, -2, -2), (8, 8, 8)));
}

#[test]
fn chunks_in_padded_extent_are_the_27_around() {
    let keys = chunks_in_extent(&ChunkKey::new(0, 0, 0).padded_extent());
    assert_eq!(keys.len(), 27);
    assert_eq!(keys[0], ChunkKey::new(-1, -1, -1));
    assert_eq!(keys[1], ChunkKey::new(0, -1, -1));
    assert_eq!(keys[3], ChunkKey::new(-1, 0, -1));
    assert_eq!(keys[13], ChunkKey::new(0, 0, 0));
    assert_eq!(keys[26], ChunkKey::new(1, 1, 1));
}

#[test]
fn chunks_in_extent_inside_one_chunk() {
    let keys = chunks_in_extent(&extent((5, 5, 5), (1, 1, 1)));
    assert_eq!(keys, vec![ChunkKey::new(0, 0, 0)]);
    let keys = chunks_in_extent(&extent((-1, 0, 31), (1, 1, 2)));
    assert_eq!(keys, vec![ChunkKey::new(-1, 0, 0), ChunkKey::new(-1, 0, 1)]);
}

#[test]
fn chunks_in_empty_extent() {
    assert!(chunks_in_extent(&extent((5, 5, 5), (0, 3, 3))).is_empty());
}

#[test]
fn chunks_in_unpadded_extent_is_the_chunk() {
    let keys = chunks_in_extent(&ChunkKey::new(2, -1, 0).extent());
    assert_eq!(keys, vec![ChunkKey::new(2, -1, 0)]);
}

#[test]
fn sd8_default_is_outside() {
    assert_eq!(Sd8::default(), Sd8(127));
    assert_eq!(Sd8::max_value(), Sd8(127));
    assert!(!Sd8::default().is_negative());
    assert!(Sd8(-1).is_negative());
    assert!(!Sd8(0).is_negative());
}

#[test]
fn new_chunk_is_outside() {
    let c = Chunk::new_empty();
    assert_eq!(c.sdf.len(), CHUNK_SIZE);
    assert!(c.sdf.iter().all(|v| *v == Sd8(127)));
    assert_eq!(PADDED_CHUNK_SIZE, 34 * 34 * 34);
}

#[test]
fn set_voxel_writes_x_fastest() {
    let mut c = Chunk::new_empty();
    c.set_voxel(IVec3::new(1, 2, 3), Sd8(-7));
    assert_eq!(c.sdf[1 + 32 * (2 + 32 * 3)], Sd8(-7));
    assert_eq!(c.sdf.iter().filter(|v| **v == Sd8(-7)).count(), 1);
}

#[test]
fn voxel_points_follow_storage_order() {
    let points = ChunkKey::new(1, 0, -1).voxel_points();
    assert_eq!(points.len(), CHUNK_SIZE);
    assert_eq!(points[0], Point3::new(32, 0, -32));
    assert_eq!(points[33], Point3::new(33, 1, -32));
    assert_eq!(points[CHUNK_SIZE - 1], Point3::new(63, 31, -1));
}

#[test]
fn squared_distance_of_keys() {
    let d = distance_squared_exec(ChunkKey::new(1, -2, 3), ChunkKey::new(0, 0, 0));
    assert_eq!(d, 14);
    let far = distance_squared_exec(
        ChunkKey::new(i32::MAX, i32::MAX, i32::MAX),
        ChunkKey::new(i32::MIN, i32::MIN, i32::MIN),
    );
    assert_eq!(far, 3 * (u32::MAX as i128) * (u32::MAX as i128));
}
