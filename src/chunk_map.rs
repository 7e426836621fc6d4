//! Sparse chunk storage, the enumeration of the chunks that meet a box, and
//! the stitching of a chunk with its neighbours into one padded buffer.
use crate::chunk::{
    lemma_padded_index_bounds, padded_index, chunk_coord, chunk_index, chunk_offset, fits_i32, key_at, outside, Chunk, ChunkKey, Sd8,
    SD8_OUTSIDE,
};
use crate::geometry::{
    index_x, index_y, index_z, lemma_delinearize, lemma_index_in_box, linear_index, Extent3i,
    IVec3, PADDED_CHUNK_SIZE, coord_in_world, WORLD_LIMIT, in_span, overlap_len, overlap_start,
};
use crate::key_map::ChunkKeyMap;
use vstd::arithmetic::div_mod::{
    lemma_fundamental_div_mod, lemma_fundamental_div_mod_converse, lemma_mod_bound,
    lemma_mod_pos_bound,
};
use vstd::prelude::*;

verus! {

// ---------------------------------------------------------------------------
// Boxes of chunk keys
/// The key at position `i` of the box of keys with minimum `(lx, ly, lz)`
/// and sides `(nx, ny, _)`, x varying fastest.
pub open spec fn box_key(lx: int, ly: int, lz: int, nx: int, ny: int, i: int) -> ChunkKey {
    key_at(lx + index_x(i, nx), ly + index_y(i, nx, ny), lz + index_z(i, nx, ny))
}

/// The keys of the box with minimum `(lx, ly, lz)` and sides
/// `(nx, ny, nz)`, x varying fastest, then y, then z.
pub open spec fn keys_in_box(lx: int, ly: int, lz: int, nx: int, ny: int, nz: int) -> Seq<
    ChunkKey,
> {
    Seq::new((nx * ny * nz) as nat, |i: int| box_key(lx, ly, lz, nx, ny, i))
}

/// Whether the chunk of `k` meets the box `e`: on every axis the spans
/// `[32 k, 32 k + 32)` and `[minimum, minimum + shape)` overlap, the latter
/// being non-empty.
pub open spec fn chunk_meets(k: ChunkKey, e: Extent3i) -> bool {
    &&& 0 < e.shape.x && 0 < e.shape.y && 0 < e.shape.z
    &&& k.min_x() < e.minimum.x + e.shape.x && e.minimum.x < k.min_x() + 32
    &&& k.min_y() < e.minimum.y + e.shape.y && e.minimum.y < k.min_y() + 32
    &&& k.min_z() < e.minimum.z + e.shape.z && e.minimum.z < k.min_z() + 32
}

/// The chunk keys of the chunks that meet `e` are those between the keys of
/// its corners, which fit in an `i32`.
pub open spec fn extent_keys_fit(e: Extent3i) -> bool {
    &&& e.in_world()
    &&& fits_i32(chunk_coord(e.minimum.x as int))
    &&& fits_i32(chunk_coord(e.minimum.y as int))
    &&& fits_i32(chunk_coord(e.minimum.z as int))
    &&& fits_i32(chunk_coord(e.minimum.x + e.shape.x - 1))
    &&& fits_i32(chunk_coord(e.minimum.y + e.shape.y - 1))
    &&& fits_i32(chunk_coord(e.minimum.z + e.shape.z - 1))
}

/// Number of chunk coordinates met by the span `[lo, lo + n)`.
pub open spec fn span_chunks(lo: int, n: int) -> int {
    chunk_coord(lo + n - 1) - chunk_coord(lo) + 1
}

/// The keys of the chunks that meet `e`, in the order of `keys_in_box`.
pub open spec fn extent_keys(e: Extent3i) -> Seq<ChunkKey> {
    if e.shape.x <= 0 || e.shape.y <= 0 || e.shape.z <= 0 {
        Seq::empty()
    } else {
        keys_in_box(
            chunk_coord(e.minimum.x as int),
            chunk_coord(e.minimum.y as int),
            chunk_coord(e.minimum.z as int),
            span_chunks(e.minimum.x as int, e.shape.x as int),
            span_chunks(e.minimum.y as int, e.shape.y as int),
            span_chunks(e.minimum.z as int, e.shape.z as int),
        )
    }
}

/// `v` lies in the chunk of coordinate `c` exactly when `c` is the chunk
/// coordinate of `v`.
pub proof fn lemma_chunk_coord(v: int, c: int)
    ensures
        (chunk_coord(v) == c) <==> (32 * c <= v < 32 * c + 32),
        chunk_offset(v) == v - 32 * chunk_coord(v),
        0 <= chunk_offset(v) < 32,
{
    lemma_fundamental_div_mod(v, 32);
    lemma_mod_bound(v, 32);
    if 32 * c <= v < 32 * c + 32 {
        lemma_fundamental_div_mod_converse(v, 32, c, v - 32 * c);
    }
}

proof fn lemma_coord_monotone(a: int, b: int)
    requires
        a <= b,
    ensures
        chunk_coord(a) <= chunk_coord(b),
{
    lemma_chunk_coord(a, chunk_coord(a));
    lemma_chunk_coord(b, chunk_coord(b));
}

/// A key of the box has coordinates inside the box, and a key with
/// coordinates inside the box is one of its keys.
pub proof fn lemma_keys_in_box_contains(
    lx: int,
    ly: int,
    lz: int,
    nx: int,
    ny: int,
    nz: int,
    k: ChunkKey,
)
    requires
        0 < nx,
        0 < ny,
        0 < nz,
        fits_i32(lx),
        fits_i32(ly),
        fits_i32(lz),
        fits_i32(lx + nx - 1),
        fits_i32(ly + ny - 1),
        fits_i32(lz + nz - 1),
    ensures
        keys_in_box(lx, ly, lz, nx, ny, nz).contains(k) <==> (lx <= k.0.x < lx + nx && ly <= k.0.y
            < ly + ny && lz <= k.0.z < lz + nz),
{
    let s = keys_in_box(lx, ly, lz, nx, ny, nz);
    assert(0 < nx * ny * nz) by (nonlinear_arith)
        requires
            0 < nx,
            0 < ny,
            0 < nz,
    ;
    if s.contains(k) {
        let i = choose|i: int| 0 <= i < s.len() && s[i] == k;
        lemma_index_in_box(i, nx, ny, nz);
    }
    if lx <= k.0.x < lx + nx && ly <= k.0.y < ly + ny && lz <= k.0.z < lz + nz {
        let (x, y, z) = (k.0.x - lx, k.0.y - ly, k.0.z - lz);
        lemma_delinearize(x, y, z, nx, ny);
        let i = linear_index(x, y, z, nx, ny);
        assert(i < nx * ny * nz) by (nonlinear_arith)
            requires
                i == x + nx * (y + ny * z),
                0 <= x < nx,
                0 <= y < ny,
                0 <= z < nz,
        ;
        assert(s[i] == k);
    }
}

/// The keys of a box are pairwise distinct.
pub proof fn lemma_keys_in_box_distinct(lx: int, ly: int, lz: int, nx: int, ny: int, nz: int)
    requires
        0 < nx,
        0 < ny,
        0 < nz,
        fits_i32(lx),
        fits_i32(ly),
        fits_i32(lz),
        fits_i32(lx + nx - 1),
        fits_i32(ly + ny - 1),
        fits_i32(lz + nz - 1),
    ensures
        keys_in_box(lx, ly, lz, nx, ny, nz).no_duplicates(),
{
    let s = keys_in_box(lx, ly, lz, nx, ny, nz);
    assert forall|i: int, j: int| 0 <= i < s.len() && 0 <= j < s.len() && i != j implies s[i]
        != s[j] by {
        lemma_index_in_box(i, nx, ny, nz);
        lemma_index_in_box(j, nx, ny, nz);
    }
}

/// The keys of the box with minimum `lo` and sides `(nx, ny, nz)`.
pub(crate) fn keys_in_box_vec(lo: IVec3, nx: i64, ny: i64, nz: i64) -> (r: Vec<ChunkKey>)
    requires
        0 <= nx,
        0 <= ny,
        0 <= nz,
        fits_i32(lo.x + nx - 1),
        fits_i32(lo.y + ny - 1),
        fits_i32(lo.z + nz - 1),
        nx * ny * nz <= usize::MAX,
    ensures
        r@ == keys_in_box(lo.x as int, lo.y as int, lo.z as int, nx as int, ny as int, nz as int),
{
    let ghost target = keys_in_box(
        lo.x as int,
        lo.y as int,
        lo.z as int,
        nx as int,
        ny as int,
        nz as int,
    );
    let mut out: Vec<ChunkKey> = Vec::new();
    let mut z: i64 = 0;
    while z < nz
        invariant
            0 <= nx,
            0 <= ny,
            0 <= z <= nz,
            fits_i32(lo.x + nx - 1),
            fits_i32(lo.y + ny - 1),
            fits_i32(lo.z + nz - 1),
            target == keys_in_box(
                lo.x as int,
                lo.y as int,
                lo.z as int,
                nx as int,
                ny as int,
                nz as int,
            ),
            out@.len() == nx * ny * z,
            forall|j: int|
                0 <= j < out@.len() ==> #[trigger] out@[j] == box_key(
                    lo.x as int,
                    lo.y as int,
                    lo.z as int,
                    nx as int,
                    ny as int,
                    j,
                ),
        decreases nz - z,
    {
        let mut y: i64 = 0;
        while y < ny
            invariant
                0 <= nx,
                0 <= y <= ny,
                0 <= z < nz,
                fits_i32(lo.x + nx - 1),
                fits_i32(lo.y + ny - 1),
                fits_i32(lo.z + nz - 1),
                out@.len() == nx * ny * z + nx * y,
                forall|j: int|
                    0 <= j < out@.len() ==> #[trigger] out@[j] == box_key(
                        lo.x as int,
                        lo.y as int,
                        lo.z as int,
                        nx as int,
                        ny as int,
                        j,
                    ),
            decreases ny - y,
        {
            let mut x: i64 = 0;
            while x < nx
                invariant
                    0 <= x <= nx,
                    0 <= y < ny,
                    0 <= z < nz,
                    fits_i32(lo.x + nx - 1),
                    fits_i32(lo.y + ny - 1),
                    fits_i32(lo.z + nz - 1),
                    out@.len() == nx * ny * z + nx * y + x,
                    forall|j: int|
                        0 <= j < out@.len() ==> #[trigger] out@[j] == box_key(
                            lo.x as int,
                            lo.y as int,
                            lo.z as int,
                            nx as int,
                            ny as int,
                            j,
                        ),
                decreases nx - x,
            {
                proof {
                    lemma_delinearize(x as int, y as int, z as int, nx as int, ny as int);
                    assert(nx * ny * z + nx * y + x == linear_index(
                        x as int,
                        y as int,
                        z as int,
                        nx as int,
                        ny as int,
                    )) by (nonlinear_arith);
                }
                let k = ChunkKey(
                    IVec3 {
                        x: (lo.x as i64 + x) as i32,
                        y: (lo.y as i64 + y) as i32,
                        z: (lo.z as i64 + z) as i32,
                    },
                );
                out.push(k);
                x = x + 1;
            }
            assert(nx * ny * z + nx * y + nx == nx * ny * z + nx * (y + 1)) by (nonlinear_arith);
            y = y + 1;
        }
        assert(nx * ny * z + nx * ny == nx * ny * (z + 1)) by (nonlinear_arith);
        z = z + 1;
    }
    assert(out@ =~= target);
    out
}

/// The keys of the chunks whose extents meet `extent`, without repetition,
/// x varying fastest, then y, then z. An empty box meets no chunk.
pub fn chunks_in_extent(extent: &Extent3i) -> (r: Vec<ChunkKey>)
    requires
        extent_keys_fit(*extent),
        span_chunks(extent.minimum.x as int, extent.shape.x as int) * span_chunks(
            extent.minimum.y as int,
            extent.shape.y as int,
        ) * span_chunks(extent.minimum.z as int, extent.shape.z as int) <= usize::MAX,
    ensures
        r@ == extent_keys(*extent),
        r@.no_duplicates(),
        forall|k: ChunkKey| #[trigger] r@.contains(k) <==> chunk_meets(k, *extent),
{
    if extent.shape.x <= 0 || extent.shape.y <= 0 || extent.shape.z <= 0 {
        let r: Vec<ChunkKey> = Vec::new();
        assert forall|k: ChunkKey| r@.contains(k) <==> chunk_meets(k, *extent) by {}
        return r;
    }
    let e = *extent;
    let lx = floor_chunk(e.minimum.x);
    let ly = floor_chunk(e.minimum.y);
    let lz = floor_chunk(e.minimum.z);
    let hx = floor_chunk(e.minimum.x + e.shape.x - 1);
    let hy = floor_chunk(e.minimum.y + e.shape.y - 1);
    let hz = floor_chunk(e.minimum.z + e.shape.z - 1);
    proof {
        lemma_coord_monotone(e.minimum.x as int, e.minimum.x + e.shape.x - 1);
        lemma_coord_monotone(e.minimum.y as int, e.minimum.y + e.shape.y - 1);
        lemma_coord_monotone(e.minimum.z as int, e.minimum.z + e.shape.z - 1);
    }
    let lo = IVec3 { x: lx as i32, y: ly as i32, z: lz as i32 };
    let r = keys_in_box_vec(lo, hx - lx + 1, hy - ly + 1, hz - lz + 1);
    proof {
        let (nx, ny, nz) = ((hx - lx + 1) as int, (hy - ly + 1) as int, (hz - lz + 1) as int);
        lemma_keys_in_box_distinct(lx as int, ly as int, lz as int, nx, ny, nz);
        assert forall|k: ChunkKey| r@.contains(k) <==> chunk_meets(k, *extent) by {
            lemma_keys_in_box_contains(lx as int, ly as int, lz as int, nx, ny, nz, k);
            lemma_chunk_coord(e.minimum.x as int, lx as int);
            lemma_chunk_coord(e.minimum.y as int, ly as int);
            lemma_chunk_coord(e.minimum.z as int, lz as int);
            lemma_chunk_coord(e.minimum.x + e.shape.x - 1, hx as int);
            lemma_chunk_coord(e.minimum.y + e.shape.y - 1, hy as int);
            lemma_chunk_coord(e.minimum.z + e.shape.z - 1, hz as int);
        }
    }
    r
}

/// The chunk coordinate of world coordinate `v`, rounding down.
fn floor_chunk(v: i64) -> (r: i64)
    requires
        coord_in_world(v as int),
    ensures
        r == chunk_coord(v as int),
{
    let shifted = v + WORLD_LIMIT;
    let q = shifted / 32;
    proof {
        lemma_fundamental_div_mod(shifted as int, 32);
        lemma_mod_pos_bound(shifted as int, 32);
        lemma_fundamental_div_mod_converse(
            v as int,
            32,
            q - WORLD_LIMIT / 32,
            shifted as int % 32,
        );
    }
    q - WORLD_LIMIT / 32
}

// ---------------------------------------------------------------------------
// Storage and neighbourhood stitching
/// The chunk that holds world voxel `(x, y, z)`.
pub open spec fn owner_of(x: int, y: int, z: int) -> ChunkKey {
    key_at(chunk_coord(x), chunk_coord(y), chunk_coord(z))
}

/// The stored value of world voxel `(x, y, z)`, or the outside value when
/// the chunk that holds it is not stored.
pub open spec fn voxel_at(m: Map<ChunkKey, Seq<Sd8>>, x: int, y: int, z: int) -> Sd8 {
    let owner = owner_of(x, y, z);
    if m.contains_key(owner) {
        m[owner][chunk_index(chunk_offset(x), chunk_offset(y), chunk_offset(z))]
    } else {
        outside()
    }
}

/// The padded buffer of `key`: at padded offset `(x, y, z)` it holds the
/// world voxel `key.min_point() - 1 + (x, y, z)`, laid out with sides 34.
pub open spec fn neighborhood(m: Map<ChunkKey, Seq<Sd8>>, key: ChunkKey) -> Seq<Sd8> {
    Seq::new(
        PADDED_CHUNK_SIZE as nat,
        |i: int|
            voxel_at(
                m,
                key.min_x() - 1 + index_x(i, 34),
                key.min_y() - 1 + index_y(i, 34, 34),
                key.min_z() - 1 + index_z(i, 34, 34),
            ),
    )
}

/// Whether index `i` of an array of sides `dims` lies in the box of sides
/// `shape` at `start`.
pub open spec fn in_copy_box(i: int, dims: [u32; 3], start: [u32; 3], shape: [u32; 3]) -> bool {
    &&& in_span(index_x(i, dims[0] as int), start[0] as int, shape[0] as int)
    &&& in_span(index_y(i, dims[0] as int, dims[1] as int), start[1] as int, shape[1] as int)
    &&& in_span(index_z(i, dims[0] as int, dims[1] as int), start[2] as int, shape[2] as int)
}

/// The value at index `i` of `dst` after the box of sides `shape` at
/// `src_start` in `src` was copied to the box at `dst_start` in `dst`.
pub open spec fn copied_value(
    src: Seq<Sd8>,
    src_dims: [u32; 3],
    src_start: [u32; 3],
    dst: Seq<Sd8>,
    dst_dims: [u32; 3],
    dst_start: [u32; 3],
    shape: [u32; 3],
    i: int,
) -> Sd8 {
    if in_copy_box(i, dst_dims, dst_start, shape) {
        src[linear_index(
            index_x(i, dst_dims[0] as int) - dst_start[0] + src_start[0],
            index_y(i, dst_dims[0] as int, dst_dims[1] as int) - dst_start[1] + src_start[1],
            index_z(i, dst_dims[0] as int, dst_dims[1] as int) - dst_start[2] + src_start[2],
            src_dims[0] as int,
            src_dims[1] as int,
        )]
    } else {
        dst[i]
    }
}

pub open spec fn volume(dims: [u32; 3]) -> int {
    dims[0] * dims[1] * dims[2]
}

/// Relies on `ndcopy::copy3`: row by row it clones the box of sides `shape`
/// at `src_start` of `src` (an array of sides `src_dims`, x fastest) into
/// the box at `dst_start` of `dst` (sides `dst_dims`), and writes nothing
/// else. Its slice indexing panics on a box that leaves either array. The
/// shapes handed to it are `ndshape::RuntimeShape`s, whose constructor
/// multiplies the sides in `u32`.
#[verifier::external_body]
fn copy_box(
    shape: [u32; 3],
    src: &Vec<Sd8>,
    src_dims: [u32; 3],
    src_start: [u32; 3],
    dst: &mut Vec<Sd8>,
    dst_dims: [u32; 3],
    dst_start: [u32; 3],
)
    requires
        src_dims[0] * src_dims[1] <= u32::MAX,
        dst_dims[0] * dst_dims[1] <= u32::MAX,
        volume(src_dims) <= u32::MAX,
        volume(dst_dims) <= u32::MAX,
        src@.len() == volume(src_dims),
        old(dst)@.len() == volume(dst_dims),
        src_start[0] + shape[0] <= src_dims[0],
        src_start[1] + shape[1] <= src_dims[1],
        src_start[2] + shape[2] <= src_dims[2],
        dst_start[0] + shape[0] <= dst_dims[0],
        dst_start[1] + shape[1] <= dst_dims[1],
        dst_start[2] + shape[2] <= dst_dims[2],
    ensures
        final(dst)@.len() == old(dst)@.len(),
        forall|i: int|
            0 <= i < old(dst)@.len() ==> #[trigger] final(dst)@[i] == copied_value(
                src@,
                src_dims,
                src_start,
                old(dst)@,
                dst_dims,
                dst_start,
                shape,
                i,
            ),
{
    let src_shape = ndcopy::ndshape::RuntimeShape::<u32, 3>::new(src_dims);
    let dst_shape = ndcopy::ndshape::RuntimeShape::<u32, 3>::new(dst_dims);
    ndcopy::copy3(
        shape,
        src.as_slice(),
        &src_shape,
        src_start,
        dst.as_mut_slice(),
        &dst_shape,
        dst_start,
    );
}

/// World x coordinate of padded index `i` of `key`'s padded buffer.
pub open spec fn padded_world_x(key: ChunkKey, i: int) -> int {
    key.min_x() - 1 + index_x(i, 34)
}

pub open spec fn padded_world_y(key: ChunkKey, i: int) -> int {
    key.min_y() - 1 + index_y(i, 34, 34)
}

pub open spec fn padded_world_z(key: ChunkKey, i: int) -> int {
    key.min_z() - 1 + index_z(i, 34, 34)
}

/// The padded buffer of `key` once the chunks of `done` have been copied
/// into it.
spec fn partial_value(m: Map<ChunkKey, Seq<Sd8>>, key: ChunkKey, done: Seq<ChunkKey>, i: int) -> Sd8 {
    let (x, y, z) = (padded_world_x(key, i), padded_world_y(key, i), padded_world_z(key, i));
    if done.contains(owner_of(x, y, z)) {
        voxel_at(m, x, y, z)
    } else {
        outside()
    }
}

pub proof fn lemma_padded_extent_keys(key: ChunkKey)
    requires
        key.has_all_neighbors(),
    ensures
        extent_keys_fit(key.padded_extent_spec()),
        span_chunks(key.min_x() - 1, 34) == 3,
        span_chunks(key.min_y() - 1, 34) == 3,
        span_chunks(key.min_z() - 1, 34) == 3,
{
    lemma_chunk_coord(key.min_x() - 1, key.0.x - 1);
    lemma_chunk_coord(key.min_y() - 1, key.0.y - 1);
    lemma_chunk_coord(key.min_z() - 1, key.0.z - 1);
    lemma_chunk_coord(key.min_x() + 32, key.0.x + 1);
    lemma_chunk_coord(key.min_y() + 32, key.0.y + 1);
    lemma_chunk_coord(key.min_z() + 32, key.0.z + 1);
}

/// A world axis coordinate of the padded extent of chunk coordinate `k`
/// lies in chunk `k - 1`, `k` or `k + 1`.
proof fn lemma_axis_in_padding(k: int, v: int)
    requires
        32 * k - 1 <= v < 32 * k + 33,
    ensures
        k - 1 <= chunk_coord(v) <= k + 1,
        32 * chunk_coord(v) <= v < 32 * chunk_coord(v) + 32,
        chunk_offset(v) == v - 32 * chunk_coord(v),
{
    lemma_chunk_coord(v, chunk_coord(v));
    lemma_chunk_coord(32 * k - 1, k - 1);
    lemma_chunk_coord(32 * k + 32, k + 1);
    lemma_coord_monotone(32 * k - 1, v);
    lemma_coord_monotone(v, 32 * k + 32);
}

/// The chunk that holds a voxel of the padded buffer is one of the chunks
/// that meet the padded extent, and its key holds its chunk coordinates.
proof fn lemma_owner_in_padding(key: ChunkKey, i: int)
    requires
        key.has_all_neighbors(),
        0 <= i < PADDED_CHUNK_SIZE,
    ensures
        ({
            let (x, y, z) = (padded_world_x(key, i), padded_world_y(key, i), padded_world_z(key, i));
            let o = owner_of(x, y, z);
            &&& o.0.x == chunk_coord(x)
            &&& o.0.y == chunk_coord(y)
            &&& o.0.z == chunk_coord(z)
            &&& chunk_meets(o, key.padded_extent_spec())
            &&& chunk_offset(x) == x - 32 * chunk_coord(x)
            &&& chunk_offset(y) == y - 32 * chunk_coord(y)
            &&& chunk_offset(z) == z - 32 * chunk_coord(z)
            &&& key.min_x() - 1 <= x < key.min_x() + 33
            &&& key.min_y() - 1 <= y < key.min_y() + 33
            &&& key.min_z() - 1 <= z < key.min_z() + 33
        }),
{
    lemma_index_in_box(i, 34, 34, 34);
    lemma_axis_in_padding(key.0.x as int, padded_world_x(key, i));
    lemma_axis_in_padding(key.0.y as int, padded_world_y(key, i));
    lemma_axis_in_padding(key.0.z as int, padded_world_z(key, i));
}

/// Copying the part of neighbour `n` that lies in the padded extent writes
/// exactly the voxels that `n` holds, with their values in `n`.
proof fn lemma_copy_region(
    key: ChunkKey,
    n: ChunkKey,
    i: int,
    shape: [u32; 3],
    src_start: [u32; 3],
    dst_start: [u32; 3],
)
    requires
        key.has_all_neighbors(),
        0 <= i < PADDED_CHUNK_SIZE,
        shape[0] == overlap_len(key.min_x() - 1, 34, n.min_x(), 32),
        shape[1] == overlap_len(key.min_y() - 1, 34, n.min_y(), 32),
        shape[2] == overlap_len(key.min_z() - 1, 34, n.min_z(), 32),
        src_start[0] == overlap_start(key.min_x() - 1, 34, n.min_x(), 32) - n.min_x(),
        src_start[1] == overlap_start(key.min_y() - 1, 34, n.min_y(), 32) - n.min_y(),
        src_start[2] == overlap_start(key.min_z() - 1, 34, n.min_z(), 32) - n.min_z(),
        dst_start[0] == overlap_start(key.min_x() - 1, 34, n.min_x(), 32) - (key.min_x() - 1),
        dst_start[1] == overlap_start(key.min_y() - 1, 34, n.min_y(), 32) - (key.min_y() - 1),
        dst_start[2] == overlap_start(key.min_z() - 1, 34, n.min_z(), 32) - (key.min_z() - 1),
    ensures
        ({
            let (x, y, z) = (padded_world_x(key, i), padded_world_y(key, i), padded_world_z(key, i));
            &&& in_copy_box(i, [34, 34, 34], dst_start, shape) <==> owner_of(x, y, z) == n
            &&& in_copy_box(i, [34, 34, 34], dst_start, shape) ==> linear_index(
                index_x(i, 34) - dst_start[0] + src_start[0],
                index_y(i, 34, 34) - dst_start[1] + src_start[1],
                index_z(i, 34, 34) - dst_start[2] + src_start[2],
                32,
                32,
            ) == chunk_index(chunk_offset(x), chunk_offset(y), chunk_offset(z))
        }),
{
    lemma_owner_in_padding(key, i);
    lemma_index_in_box(i, 34, 34, 34);
    let dims: [u32; 3] = [34, 34, 34];
    assert(dims[0] == 34 && dims[1] == 34 && dims[2] == 34);
    let (x, y, z) = (padded_world_x(key, i), padded_world_y(key, i), padded_world_z(key, i));
    lemma_chunk_coord(x, n.0.x as int);
    lemma_chunk_coord(y, n.0.y as int);
    lemma_chunk_coord(z, n.0.z as int);
}

/// The resident chunks, by key.
pub struct ChunkMap {
    storage: ChunkKeyMap<Chunk>,
}

impl View for ChunkMap {
    type V = Map<ChunkKey, Seq<Sd8>>;

    closed spec fn view(&self) -> Map<ChunkKey, Seq<Sd8>> {
        self.storage@.map_values(|c: Chunk| c@)
    }
}

impl ChunkMap {
    /// Every stored chunk holds one value per voxel.
    pub closed spec fn wf(&self) -> bool {
        &&& self.storage.wf()
        &&& forall|k: ChunkKey| #[trigger] self.storage@.contains_key(k) ==> self.storage@[k].wf()
    }

    pub fn new() -> (r: Self)
        ensures
            r.wf(),
            r@ == Map::<ChunkKey, Seq<Sd8>>::empty(),
    {
        let r = ChunkMap { storage: ChunkKeyMap::new() };
        assert(r@ =~= Map::<ChunkKey, Seq<Sd8>>::empty());
        r
    }

    /// Stores `chunk` under `key`, replacing what was there; returns the
    /// chunk it replaced.
    pub fn insert(&mut self, key: ChunkKey, chunk: Chunk) -> (r: Option<Chunk>)
        requires
            old(self).wf(),
            chunk.wf(),
        ensures
            final(self).wf(),
            final(self)@ == old(self)@.insert(key, chunk@),
            match r {
                Some(p) => old(self)@.contains_key(key) && p@ == old(self)@[key],
                None => !old(self)@.contains_key(key),
            },
    {
        let ghost c = chunk@;
        let r = self.storage.insert(key, chunk);
        assert(self@ =~= old(self)@.insert(key, c));
        r
    }

    /// Removes the chunk of `key`; returns it if it was stored.
    pub fn remove(&mut self, key: ChunkKey) -> (r: Option<Chunk>)
        requires
            old(self).wf(),
        ensures
            final(self).wf(),
            final(self)@ == old(self)@.remove(key),
            match r {
                Some(p) => old(self)@.contains_key(key) && p@ == old(self)@[key],
                None => !old(self)@.contains_key(key),
            },
    {
        let r = self.storage.remove(key);
        assert(self@ =~= old(self)@.remove(key));
        r
    }

    pub fn get(&self, key: ChunkKey) -> (r: Option<&Chunk>)
        requires
            self.wf(),
        ensures
            match r {
                Some(c) => self@.contains_key(key) && c@ == self@[key] && c.wf(),
                None => !self@.contains_key(key),
            },
    {
        self.storage.get(key)
    }

    pub fn contains(&self, key: ChunkKey) -> (r: bool)
        ensures
            r == self@.contains_key(key),
    {
        self.storage.contains_key(key)
    }

    /// The number of resident chunks.
    pub fn len(&self) -> (r: usize)
        requires
            self.wf(),
        ensures
            r == self@.dom().len(),
    {
        assert(self@.dom() =~= self.storage@.dom());
        self.storage.len()
    }

    /// The padded buffer of `key`: the chunk and the one-voxel border taken
    /// from its neighbours. Each neighbour that is stored contributes the
    /// part of it that lies in the padded extent; what no stored chunk
    /// covers keeps the outside value.
    pub fn copy_chunk_neighborhood(&self, key: ChunkKey) -> (r: Vec<Sd8>)
        requires
            self.wf(),
            key.has_all_neighbors(),
        ensures
            r@ == neighborhood(self@, key),
    {
        let padded = key.padded_extent();
        proof {
            lemma_padded_extent_keys(key);
        }
        let neighbors = chunks_in_extent(&padded);
        let mut buf = vec![Sd8(SD8_OUTSIDE); PADDED_CHUNK_SIZE];
        let ghost m = self@;
        let mut j: usize = 0;
        while j < neighbors.len()
            invariant
                self.wf(),
                m == self@,
                key.has_all_neighbors(),
                padded == key.padded_extent_spec(),
                self.storage@.dom() == m.dom(),
                forall|k: ChunkKey| #[trigger] neighbors@.contains(k) <==> chunk_meets(k, padded),
                0 <= j <= neighbors@.len(),
                buf@.len() == PADDED_CHUNK_SIZE,
                forall|i: int|
                    0 <= i < PADDED_CHUNK_SIZE ==> #[trigger] buf@[i] == partial_value(
                        m,
                        key,
                        neighbors@.subrange(0, j as int),
                        i,
                    ),
            decreases neighbors@.len() - j,
        {
            let n = neighbors[j];
            let ghost done = neighbors@.subrange(0, j as int);
            let ghost old_buf = buf@;
            assert(neighbors@.subrange(0, j + 1) =~= done.push(n));
            assert(neighbors@.contains(n));
            match self.storage.get(n) {
                Some(chunk) => {
                    let ne = n.extent();
                    let inter = padded.intersection(&ne);
                    let nmin = n.min_point();
                    let shape = [inter.shape.x as u32, inter.shape.y as u32, inter.shape.z as u32];
                    let src_start = [
                        (inter.minimum.x - nmin.x) as u32,
                        (inter.minimum.y - nmin.y) as u32,
                        (inter.minimum.z - nmin.z) as u32,
                    ];
                    let dst_start = [
                        (inter.minimum.x - padded.minimum.x) as u32,
                        (inter.minimum.y - padded.minimum.y) as u32,
                        (inter.minimum.z - padded.minimum.z) as u32,
                    ];
                    copy_box(
                        shape,
                        &chunk.sdf,
                        [32, 32, 32],
                        src_start,
                        &mut buf,
                        [34, 34, 34],
                        dst_start,
                    );
                    proof {
                        assert(shape[0] == inter.shape.x && shape[1] == inter.shape.y && shape[2]
                            == inter.shape.z);
                        assert forall|i: int| 0 <= i < PADDED_CHUNK_SIZE implies #[trigger] buf@[i]
                            == partial_value(m, key, done.push(n), i) by {
                            lemma_copy_region(key, n, i, shape, src_start, dst_start);
                            lemma_owner_in_padding(key, i);
                            assert(old_buf[i] == partial_value(m, key, done, i));
                            assert(m.contains_key(n) && m[n] == chunk@);
                            let (x, y, z) = (
                                padded_world_x(key, i),
                                padded_world_y(key, i),
                                padded_world_z(key, i),
                            );
                            assert(buf@[i] == copied_value(
                                chunk@,
                                [32, 32, 32],
                                src_start,
                                old_buf,
                                [34, 34, 34],
                                dst_start,
                                shape,
                                i,
                            ));
                            if owner_of(x, y, z) == n {
                                assert(done.push(n)[done.len() as int] == n);
                                assert(in_copy_box(i, [34, 34, 34], dst_start, shape));
                            } else {
                                assert(done.push(n).contains(owner_of(x, y, z)) == done.contains(
                                    owner_of(x, y, z),
                                ));
                            }
                        }
                    }
                },
                None => {
                    proof {
                        assert forall|i: int| 0 <= i < PADDED_CHUNK_SIZE implies #[trigger] buf@[i]
                            == partial_value(m, key, done.push(n), i) by {
                            lemma_owner_in_padding(key, i);
                        }
                    }
                },
            }
            j = j + 1;
        }
        proof {
            assert(neighbors@.subrange(0, neighbors@.len() as int) =~= neighbors@);
            assert forall|i: int| 0 <= i < PADDED_CHUNK_SIZE implies #[trigger] buf@[i] == neighborhood(
                m,
                key,
            )[i] by {
                lemma_owner_in_padding(key, i);
            }
            assert(buf@ =~= neighborhood(m, key));
        }
        buf
    }
}

/// Stitching reads nothing but the stored chunks: two copies of the padded
/// buffer of one key, taken while the storage holds the same chunks, are
/// identical.
pub proof fn lemma_neighborhood_repeatable(
    first_map: ChunkMap,
    second_map: ChunkMap,
    key: ChunkKey,
    first: Seq<Sd8>,
    second: Seq<Sd8>,
)
    requires
        first_map@ == second_map@,
        first == neighborhood(first_map@, key),
        second == neighborhood(second_map@, key),
    ensures
        first == second,
{
}

/// A chunk none of whose neighbours is stored is stitched alone: its padded
/// buffer holds the chunk's own voxels at offsets 1 to 32 on every axis, and
/// the outside value everywhere else.
pub proof fn lemma_lone_chunk_neighborhood(m: Map<ChunkKey, Seq<Sd8>>, key: ChunkKey)
    requires
        key.has_all_neighbors(),
        forall|k: ChunkKey|
            #[trigger] m.contains_key(k) && k != key ==> !chunk_meets(k, key.padded_extent_spec()),
    ensures
        forall|x: int, y: int, z: int|
            0 <= x < 34 && 0 <= y < 34 && 0 <= z < 34 ==> #[trigger] neighborhood(m, key)[padded_index(
                x,
                y,
                z,
            )] == if m.contains_key(key) && 1 <= x <= 32 && 1 <= y <= 32 && 1 <= z <= 32 {
                m[key][chunk_index(x - 1, y - 1, z - 1)]
            } else {
                outside()
            },
{
    assert forall|x: int, y: int, z: int|
        0 <= x < 34 && 0 <= y < 34 && 0 <= z < 34 implies #[trigger] neighborhood(m, key)[padded_index(
        x,
        y,
        z,
    )] == if m.contains_key(key) && 1 <= x <= 32 && 1 <= y <= 32 && 1 <= z <= 32 {
        m[key][chunk_index(x - 1, y - 1, z - 1)]
    } else {
        outside()
    } by {
        let i = padded_index(x, y, z);
        lemma_delinearize(x, y, z, 34, 34);
        lemma_padded_index_bounds(x, y, z);
        lemma_owner_in_padding(key, i);
        let (wx, wy, wz) = (padded_world_x(key, i), padded_world_y(key, i), padded_world_z(key, i));
        lemma_chunk_coord(wx, key.0.x as int);
        lemma_chunk_coord(wy, key.0.y as int);
        lemma_chunk_coord(wz, key.0.z as int);
    }
}

} // verus!
