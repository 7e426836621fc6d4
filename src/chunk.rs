//! Quantized signed distances, chunk payloads and chunk keys.
use crate::geometry::{
    index_x, index_y, index_z, lemma_delinearize, linear_index, Extent3i, IVec3, Point3, CHUNK_PADDING, CHUNK_SIDE,
    CHUNK_SIZE, PADDED_CHUNK_SIDE,
};
use vstd::prelude::*;

verus! {

/// The stored value of a voxel that nothing has written: fully outside.
pub const SD8_OUTSIDE: i8 = 127;

/// A signed distance quantized to eight bits: the value `v` stands for the
/// distance `v / 127`. A negative value is inside the surface.
#[derive(Clone, Copy, Debug, PartialEq, Eq, Hash, Structural)]
pub struct Sd8(pub i8);

impl Sd8 {
    /// The largest distance, used for voxels that hold no data.
    pub fn max_value() -> (r: Sd8)
        ensures
            r == outside(),
    {
        Sd8(SD8_OUTSIDE)
    }

    /// Whether the voxel lies inside the surface.
    pub fn is_negative(self) -> (r: bool)
        ensures
            r == (self.0 < 0),
    {
        self.0 < 0
    }
}

impl Default for Sd8 {
    fn default() -> (r: Sd8)
        ensures
            r == outside(),
    {
        Sd8(SD8_OUTSIDE)
    }
}

/// The value of a voxel that holds no data.
pub open spec fn outside() -> Sd8 {
    Sd8(SD8_OUTSIDE)
}

/// Index of the voxel at offset `(x, y, z)` inside a chunk.
pub open spec fn chunk_index(x: int, y: int, z: int) -> int {
    linear_index(x, y, z, CHUNK_SIDE as int, CHUNK_SIDE as int)
}

/// Index of the voxel at offset `(x, y, z)` inside a padded chunk.
pub open spec fn padded_index(x: int, y: int, z: int) -> int {
    linear_index(x, y, z, PADDED_CHUNK_SIDE as int, PADDED_CHUNK_SIDE as int)
}

/// Whether `(x, y, z)` is an offset inside a chunk.
pub open spec fn in_chunk(x: int, y: int, z: int) -> bool {
    &&& 0 <= x < CHUNK_SIDE
    &&& 0 <= y < CHUNK_SIDE
    &&& 0 <= z < CHUNK_SIDE
}

/// The signed distances of one chunk, laid out with x varying fastest.
#[derive(Clone, Debug)]
pub struct Chunk {
    pub sdf: Vec<Sd8>,
}

impl View for Chunk {
    type V = Seq<Sd8>;

    open spec fn view(&self) -> Seq<Sd8> {
        self.sdf@
    }
}

impl Chunk {
    /// A chunk holds exactly one value per voxel.
    pub open spec fn wf(&self) -> bool {
        self.sdf@.len() == CHUNK_SIZE
    }

    /// A chunk whose every voxel is outside.
    pub fn new_empty() -> (r: Self)
        ensures
            r.wf(),
            forall|i: int| 0 <= i < CHUNK_SIZE ==> #[trigger] r@[i] == outside(),
    {
        Chunk { sdf: vec![Sd8(SD8_OUTSIDE); CHUNK_SIZE] }
    }

    /// Writes the voxel at `offset` from the chunk's minimum point.
    pub fn set_voxel(&mut self, offset: IVec3, sd: Sd8)
        requires
            old(self).wf(),
            in_chunk(offset.x as int, offset.y as int, offset.z as int),
        ensures
            final(self).wf(),
            final(self)@ == old(self)@.update(
                chunk_index(offset.x as int, offset.y as int, offset.z as int),
                sd,
            ),
    {
        proof {
            lemma_chunk_index_bounds(offset.x as int, offset.y as int, offset.z as int);
        }
        let index = offset.x as usize + 32 * (offset.y as usize + 32 * offset.z as usize);
        self.sdf.set(index, sd);
    }
}

/// Offsets inside a chunk have indices inside it.
pub proof fn lemma_chunk_index_bounds(x: int, y: int, z: int)
    requires
        in_chunk(x, y, z),
    ensures
        0 <= chunk_index(x, y, z) < CHUNK_SIZE,
{
    assert(0 <= x + 32 * (y + 32 * z) < 32768) by (nonlinear_arith)
        requires
            0 <= x < 32,
            0 <= y < 32,
            0 <= z < 32,
    ;
}

/// Offsets inside a padded chunk have indices inside it.
pub proof fn lemma_padded_index_bounds(x: int, y: int, z: int)
    requires
        0 <= x < PADDED_CHUNK_SIDE,
        0 <= y < PADDED_CHUNK_SIDE,
        0 <= z < PADDED_CHUNK_SIDE,
    ensures
        0 <= padded_index(x, y, z) < 34 * 34 * 34,
{
    assert(0 <= x + 34 * (y + 34 * z) < 34 * 34 * 34) by (nonlinear_arith)
        requires
            0 <= x < 34,
            0 <= y < 34,
            0 <= z < 34,
    ;
    lemma_delinearize(x, y, z, 34, 34);
}

/// The position of a chunk in chunk space. The chunk covers the world
/// voxels from `32 * key` (its minimum point) up to, not including,
/// `32 * key + 32` on every axis.
#[derive(Clone, Copy, Debug, PartialEq, Eq, Hash, Structural)]
pub struct ChunkKey(pub IVec3);

/// The chunk key of the given chunk-space coordinates.
pub open spec fn key_at(x: int, y: int, z: int) -> ChunkKey {
    ChunkKey(IVec3 { x: x as i32, y: y as i32, z: z as i32 })
}

/// The chunk-space coordinate of the chunk that holds world coordinate `v`.
pub open spec fn chunk_coord(v: int) -> int {
    v / (CHUNK_SIDE as int)
}

/// Offset of world coordinate `v` inside its chunk.
pub open spec fn chunk_offset(v: int) -> int {
    v % (CHUNK_SIDE as int)
}

/// Whether `v` fits in an `i32`.
pub open spec fn fits_i32(v: int) -> bool {
    i32::MIN <= v <= i32::MAX
}

impl ChunkKey {
    pub fn new(x: i32, y: i32, z: i32) -> (r: Self)
        ensures
            r.0.x == x,
            r.0.y == y,
            r.0.z == z,
    {
        ChunkKey(IVec3 { x, y, z })
    }

    /// Whether every chunk of the 26 around this one has a key as well.
    pub open spec fn has_all_neighbors(&self) -> bool {
        &&& i32::MIN < self.0.x < i32::MAX
        &&& i32::MIN < self.0.y < i32::MAX
        &&& i32::MIN < self.0.z < i32::MAX
    }

    pub open spec fn min_x(&self) -> int {
        CHUNK_SIDE * self.0.x
    }

    pub open spec fn min_y(&self) -> int {
        CHUNK_SIDE * self.0.y
    }

    pub open spec fn min_z(&self) -> int {
        CHUNK_SIDE * self.0.z
    }

    /// Minimum point of the chunk: its key times the chunk side.
    pub fn min_point(&self) -> (r: Point3)
        ensures
            r.x == self.min_x(),
            r.y == self.min_y(),
            r.z == self.min_z(),
    {
        Point3 {
            x: 32 * self.0.x as i64,
            y: 32 * self.0.y as i64,
            z: 32 * self.0.z as i64,
        }
    }

    /// Extent containing all the points of the chunk.
    pub fn extent(&self) -> (r: Extent3i)
        ensures
            r.minimum.x == self.min_x(),
            r.minimum.y == self.min_y(),
            r.minimum.z == self.min_z(),
            r.shape == (Point3 { x: 32, y: 32, z: 32 }),
            r.in_world(),
    {
        Extent3i::from_min_and_shape(self.min_point(), Point3 { x: 32, y: 32, z: 32 })
    }

    /// The chunk's extent grown by the padding on every face: the region
    /// sampled when the chunk is meshed.
    pub fn padded_extent(&self) -> (r: Extent3i)
        ensures
            r == self.padded_extent_spec(),
            r.in_world(),
    {
        self.extent().padded(1)
    }

    /// The world positions of the chunk's voxels, in storage order: position
    /// `i` is the minimum point plus the offset that index `i` stands for.
    pub fn voxel_points(&self) -> (r: Vec<Point3>)
        ensures
            r@.len() == CHUNK_SIZE,
            forall|i: int|
                0 <= i < CHUNK_SIZE ==> {
                    let p = #[trigger] r@[i];
                    &&& p.x == self.min_x() + index_x(i, 32)
                    &&& p.y == self.min_y() + index_y(i, 32, 32)
                    &&& p.z == self.min_z() + index_z(i, 32, 32)
                },
    {
        let min = self.min_point();
        let mut out: Vec<Point3> = Vec::new();
        let mut z: i64 = 0;
        while z < 32
            invariant
                min.x == self.min_x() && min.y == self.min_y() && min.z == self.min_z(),
                0 <= z <= 32,
                out@.len() == 1024 * z,
                forall|j: int|
                    0 <= j < out@.len() ==> {
                        let p = #[trigger] out@[j];
                        &&& p.x == self.min_x() + index_x(j, 32)
                        &&& p.y == self.min_y() + index_y(j, 32, 32)
                        &&& p.z == self.min_z() + index_z(j, 32, 32)
                    },
            decreases 32 - z,
        {
            let mut y: i64 = 0;
            while y < 32
                invariant
                    min.x == self.min_x() && min.y == self.min_y() && min.z == self.min_z(),
                    0 <= z < 32,
                    0 <= y <= 32,
                    out@.len() == 1024 * z + 32 * y,
                    forall|j: int|
                        0 <= j < out@.len() ==> {
                            let p = #[trigger] out@[j];
                            &&& p.x == self.min_x() + index_x(j, 32)
                            &&& p.y == self.min_y() + index_y(j, 32, 32)
                            &&& p.z == self.min_z() + index_z(j, 32, 32)
                        },
                decreases 32 - y,
            {
                let mut x: i64 = 0;
                while x < 32
                    invariant
                        min.x == self.min_x() && min.y == self.min_y() && min.z == self.min_z(),
                        0 <= z < 32,
                        0 <= y < 32,
                        0 <= x <= 32,
                        out@.len() == 1024 * z + 32 * y + x,
                        forall|j: int|
                            0 <= j < out@.len() ==> {
                                let p = #[trigger] out@[j];
                                &&& p.x == self.min_x() + index_x(j, 32)
                                &&& p.y == self.min_y() + index_y(j, 32, 32)
                                &&& p.z == self.min_z() + index_z(j, 32, 32)
                            },
                    decreases 32 - x,
                {
                    proof {
                        lemma_delinearize(x as int, y as int, z as int, 32, 32);
                    }
                    out.push(Point3 { x: min.x + x, y: min.y + y, z: min.z + z });
                    x = x + 1;
                }
                y = y + 1;
            }
            z = z + 1;
        }
        out
    }

    /// The extent of the chunk grown by one voxel on every face.
    pub open spec fn padded_extent_spec(&self) -> Extent3i {
        Extent3i {
            minimum: Point3 {
                x: (self.min_x() - CHUNK_PADDING) as i64,
                y: (self.min_y() - CHUNK_PADDING) as i64,
                z: (self.min_z() - CHUNK_PADDING) as i64,
            },
            shape: Point3 { x: 34, y: 34, z: 34 },
        }
    }
}

impl From<IVec3> for ChunkKey {
    fn from(value: IVec3) -> (r: Self) {
        ChunkKey(value)
    }
}

impl vstd::std_specs::convert::FromSpecImpl<IVec3> for ChunkKey {
    open spec fn obeys_from_spec() -> bool {
        true
    }

    open spec fn from_spec(v: IVec3) -> ChunkKey {
        ChunkKey(v)
    }
}

} // verus!
