//! Integer vectors, axis-aligned boxes and the x-fastest linear layout used
//! by every voxel array of the crate.
use vstd::arithmetic::div_mod::{lemma_div_denominator, lemma_fundamental_div_mod_converse};
use vstd::prelude::*;

verus! {

/// Side of a chunk, in voxels, along each axis.
pub const CHUNK_SIDE: u32 = 32;

/// Number of voxels of a chunk.
pub const CHUNK_SIZE: usize = 32 * 32 * 32;

/// Border added on every face of a chunk when it is sampled for meshing.
pub const CHUNK_PADDING: u32 = 1;

/// Side of a padded chunk: the chunk and one voxel of border on each face.
pub const PADDED_CHUNK_SIDE: u32 = CHUNK_SIDE + 2 * CHUNK_PADDING;

/// Number of voxels of a padded chunk.
pub const PADDED_CHUNK_SIZE: usize = 34 * 34 * 34;

/// A vector of three 32-bit integers: a position in chunk space, or an
/// offset inside a chunk.
#[derive(Clone, Copy, Debug, PartialEq, Eq, Hash, Structural)]
pub struct IVec3 {
    pub x: i32,
    pub y: i32,
    pub z: i32,
}

impl IVec3 {
    pub fn new(x: i32, y: i32, z: i32) -> (r: Self)
        ensures
            r.x == x,
            r.y == y,
            r.z == z,
    {
        IVec3 { x, y, z }
    }

    pub fn splat(v: i32) -> (r: Self)
        ensures
            r.x == v,
            r.y == v,
            r.z == v,
    {
        IVec3 { x: v, y: v, z: v }
    }
}

/// A voxel position in world space. World coordinates are 64-bit so that
/// every chunk of the 32-bit chunk space has a representable extent.
#[derive(Clone, Copy, Debug, PartialEq, Eq, Hash, Structural)]
pub struct Point3 {
    pub x: i64,
    pub y: i64,
    pub z: i64,
}

impl Point3 {
    pub fn new(x: i64, y: i64, z: i64) -> (r: Self)
        ensures
            r.x == x,
            r.y == y,
            r.z == z,
    {
        Point3 { x, y, z }
    }
}

/// The axis-aligned box of the points `p` with
/// `minimum <= p < minimum + shape` on every axis.
#[derive(Clone, Copy, Debug, PartialEq, Eq, Hash, Structural)]
pub struct Extent3i {
    pub minimum: Point3,
    pub shape: Point3,
}

/// Whether `lo <= v < lo + n`.
pub open spec fn in_span(v: int, lo: int, n: int) -> bool {
    lo <= v < lo + n
}

pub open spec fn min_int(a: int, b: int) -> int {
    if a <= b {
        a
    } else {
        b
    }
}

pub open spec fn max_int(a: int, b: int) -> int {
    if a >= b {
        a
    } else {
        b
    }
}

/// Start of the overlap of the spans `[a, a + n)` and `[b, b + m)`.
pub open spec fn overlap_start(a: int, n: int, b: int, m: int) -> int {
    max_int(a, b)
}

/// Length of the overlap of the spans `[a, a + n)` and `[b, b + m)`; zero
/// when they are disjoint.
pub open spec fn overlap_len(a: int, n: int, b: int, m: int) -> int {
    max_int(0, min_int(a + n, b + m) - max_int(a, b))
}

/// Coordinates stay within this bound so that sums of two of them, and
/// their quotients by the chunk side, keep to the integer types used.
pub const WORLD_LIMIT: i64 = 0x100_0000_0000;

pub open spec fn coord_in_world(v: int) -> bool {
    -WORLD_LIMIT <= v <= WORLD_LIMIT
}

impl Extent3i {
    pub open spec fn contains_point(&self, x: int, y: int, z: int) -> bool {
        &&& in_span(x, self.minimum.x as int, self.shape.x as int)
        &&& in_span(y, self.minimum.y as int, self.shape.y as int)
        &&& in_span(z, self.minimum.z as int, self.shape.z as int)
    }

    /// Every corner of the box lies inside the world bound and the shape is
    /// not negative.
    pub open spec fn in_world(&self) -> bool {
        &&& coord_in_world(self.minimum.x as int)
        &&& coord_in_world(self.minimum.y as int)
        &&& coord_in_world(self.minimum.z as int)
        &&& 0 <= self.shape.x <= WORLD_LIMIT
        &&& 0 <= self.shape.y <= WORLD_LIMIT
        &&& 0 <= self.shape.z <= WORLD_LIMIT
        &&& coord_in_world(self.minimum.x + self.shape.x)
        &&& coord_in_world(self.minimum.y + self.shape.y)
        &&& coord_in_world(self.minimum.z + self.shape.z)
    }

    pub fn from_min_and_shape(minimum: Point3, shape: Point3) -> (r: Self)
        ensures
            r.minimum == minimum,
            r.shape == shape,
    {
        Extent3i { minimum, shape }
    }

    /// The box grown by `pad` on every face.
    pub fn padded(&self, pad: i64) -> (r: Self)
        requires
            self.in_world(),
            0 <= pad <= WORLD_LIMIT,
        ensures
            r.minimum.x == self.minimum.x - pad,
            r.minimum.y == self.minimum.y - pad,
            r.minimum.z == self.minimum.z - pad,
            r.shape.x == self.shape.x + 2 * pad,
            r.shape.y == self.shape.y + 2 * pad,
            r.shape.z == self.shape.z + 2 * pad,
    {
        Extent3i {
            minimum: Point3 {
                x: self.minimum.x - pad,
                y: self.minimum.y - pad,
                z: self.minimum.z - pad,
            },
            shape: Point3 {
                x: self.shape.x + 2 * pad,
                y: self.shape.y + 2 * pad,
                z: self.shape.z + 2 * pad,
            },
        }
    }

    /// The largest box inside both boxes; its shape is zero on an axis where
    /// they do not overlap.
    pub fn intersection(&self, other: &Extent3i) -> (r: Extent3i)
        requires
            self.in_world(),
            other.in_world(),
        ensures
            r.in_world(),
            r.minimum.x == overlap_start(
                self.minimum.x as int,
                self.shape.x as int,
                other.minimum.x as int,
                other.shape.x as int,
            ),
            r.minimum.y == overlap_start(
                self.minimum.y as int,
                self.shape.y as int,
                other.minimum.y as int,
                other.shape.y as int,
            ),
            r.minimum.z == overlap_start(
                self.minimum.z as int,
                self.shape.z as int,
                other.minimum.z as int,
                other.shape.z as int,
            ),
            r.shape.x == overlap_len(
                self.minimum.x as int,
                self.shape.x as int,
                other.minimum.x as int,
                other.shape.x as int,
            ),
            r.shape.y == overlap_len(
                self.minimum.y as int,
                self.shape.y as int,
                other.minimum.y as int,
                other.shape.y as int,
            ),
            r.shape.z == overlap_len(
                self.minimum.z as int,
                self.shape.z as int,
                other.minimum.z as int,
                other.shape.z as int,
            ),
            forall|x: int, y: int, z: int|
                #[trigger] r.contains_point(x, y, z) <==> (self.contains_point(x, y, z)
                    && other.contains_point(x, y, z)),
    {
        let (mx, sx) = span_overlap(self.minimum.x, self.shape.x, other.minimum.x, other.shape.x);
        let (my, sy) = span_overlap(self.minimum.y, self.shape.y, other.minimum.y, other.shape.y);
        let (mz, sz) = span_overlap(self.minimum.z, self.shape.z, other.minimum.z, other.shape.z);
        Extent3i { minimum: Point3 { x: mx, y: my, z: mz }, shape: Point3 { x: sx, y: sy, z: sz } }
    }
}

fn span_overlap(a: i64, n: i64, b: i64, m: i64) -> (r: (i64, i64))
    requires
        coord_in_world(a as int),
        coord_in_world(b as int),
        0 <= n <= WORLD_LIMIT,
        0 <= m <= WORLD_LIMIT,
        coord_in_world(a + n),
        coord_in_world(b + m),
    ensures
        r.0 == overlap_start(a as int, n as int, b as int, m as int),
        r.1 == overlap_len(a as int, n as int, b as int, m as int),
        coord_in_world(r.0 as int),
        0 <= r.1 <= WORLD_LIMIT,
        coord_in_world(r.0 + r.1),
        forall|v: int|
            #[trigger] in_span(v, r.0 as int, r.1 as int) <==> (in_span(v, a as int, n as int)
                && in_span(v, b as int, m as int)),
{
    let lo = if a >= b {
        a
    } else {
        b
    };
    let hi = if a + n <= b + m {
        a + n
    } else {
        b + m
    };
    let len = if hi >= lo {
        hi - lo
    } else {
        0
    };
    (lo, len)
}

// ---------------------------------------------------------------------------
// Linear layout: the point (x, y, z) of a box of sides (sx, sy, _) is stored
// at index x + sx * (y + sy * z), so that x varies fastest.
/// Index of the point `(x, y, z)` in an array of sides `(sx, sy, _)`.
pub open spec fn linear_index(x: int, y: int, z: int, sx: int, sy: int) -> int {
    x + sx * (y + sy * z)
}

/// First coordinate of the point stored at index `i`.
pub open spec fn index_x(i: int, sx: int) -> int {
    i % sx
}

/// Second coordinate of the point stored at index `i`.
pub open spec fn index_y(i: int, sx: int, sy: int) -> int {
    (i / sx) % sy
}

/// Third coordinate of the point stored at index `i`.
pub open spec fn index_z(i: int, sx: int, sy: int) -> int {
    i / (sx * sy)
}

/// A point inside the box is recovered from its index.
pub proof fn lemma_delinearize(x: int, y: int, z: int, sx: int, sy: int)
    requires
        0 <= x < sx,
        0 <= y < sy,
        0 <= z,
    ensures
        index_x(linear_index(x, y, z, sx, sy), sx) == x,
        index_y(linear_index(x, y, z, sx, sy), sx, sy) == y,
        index_z(linear_index(x, y, z, sx, sy), sx, sy) == z,
        0 <= linear_index(x, y, z, sx, sy),
{
    let q = y + sy * z;
    let i = x + sx * q;
    assert(0 <= sy * z) by (nonlinear_arith)
        requires
            0 < sy,
            0 <= z,
    ;
    assert(0 <= sx * q) by (nonlinear_arith)
        requires
            0 < sx,
            0 <= q,
    ;
    assert(i == q * sx + x) by (nonlinear_arith)
        requires
            i == x + sx * q,
    ;
    lemma_fundamental_div_mod_converse(i, sx, q, x);
    assert(q == z * sy + y) by (nonlinear_arith)
        requires
            q == y + sy * z,
    ;
    lemma_fundamental_div_mod_converse(q, sy, z, y);
    lemma_div_denominator(i, sx, sy);
}

/// Every index of an array of sides `(sx, sy, sz)` stands for a point inside
/// the box, and that point's index is the index itself.
pub proof fn lemma_index_in_box(i: int, sx: int, sy: int, sz: int)
    requires
        0 < sx,
        0 < sy,
        0 < sz,
        0 <= i < sx * sy * sz,
    ensures
        0 <= index_x(i, sx) < sx,
        0 <= index_y(i, sx, sy) < sy,
        0 <= index_z(i, sx, sy) < sz,
        linear_index(index_x(i, sx), index_y(i, sx, sy), index_z(i, sx, sy), sx, sy) == i,
{
    let q = i / sx;
    let x = i % sx;
    let y = q % sy;
    let z = q / sy;
    vstd::arithmetic::div_mod::lemma_fundamental_div_mod(i, sx);
    vstd::arithmetic::div_mod::lemma_fundamental_div_mod(q, sy);
    vstd::arithmetic::div_mod::lemma_mod_pos_bound(i, sx);
    vstd::arithmetic::div_mod::lemma_mod_pos_bound(q, sy);
    lemma_div_denominator(i, sx, sy);
    assert(0 <= q) by {
        vstd::arithmetic::div_mod::lemma_div_pos_is_pos(i, sx);
    }
    assert(0 <= z) by {
        vstd::arithmetic::div_mod::lemma_div_pos_is_pos(q, sy);
    }
    assert(z < sz) by {
        assert(i < (sx * sy) * sz) by (nonlinear_arith)
            requires
                i < sx * sy * sz,
        ;
        vstd::arithmetic::div_mod::lemma_div_is_ordered(i, (sx * sy) * sz - 1, sx * sy);
        assert(0 < sx * sy) by (nonlinear_arith)
            requires
                0 < sx,
                0 < sy,
        ;
        assert(((sx * sy) * sz - 1) / (sx * sy) < sz) by {
            assert((sx * sy) * sz - 1 == (sz - 1) * (sx * sy) + (sx * sy - 1)) by (nonlinear_arith);
            lemma_fundamental_div_mod_converse(
                (sx * sy) * sz - 1,
                sx * sy,
                sz - 1,
                sx * sy - 1,
            );
        }
    }
    assert(i == x + sx * (y + sy * z)) by (nonlinear_arith)
        requires
            i == sx * q + x,
            q == sy * z + y,
    ;
}

} // verus!
