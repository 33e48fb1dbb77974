//! Derived fence geometry: the spatial transform of a fence is a pure
//! function of its two endpoint positions and is never stored authoritatively
//! anywhere else.
//!
//! Positions are integer world coordinates. The derived transform keeps every
//! quantity exact: the midpoint is stored doubled (so the mean of two integer
//! points needs no rounding), the length is stored squared, and the yaw is
//! stored as the direction vector from the first endpoint to the second in
//! the horizontal plane. A renderer turns these into a translation, a scale
//! and a rotation about the vertical axis.

use vstd::prelude::*;

verus! {

/// Cap on the magnitude of a world coordinate, so that sums and squared
/// distances of in-bounds positions never overflow their carriers.
pub const COORD_LIMIT: i64 = 1_000_000_000;

/// A position in world space, in integer units on each axis.
#[derive(Clone, Copy, PartialEq, Eq, Structural, Debug)]
pub struct Vec3i {
    pub x: i64,
    pub y: i64,
    pub z: i64,
}

/// A position the geometry deriver accepts: every coordinate within
/// `COORD_LIMIT` in magnitude.
pub open spec fn in_bounds(v: Vec3i) -> bool {
    &&& -COORD_LIMIT <= v.x <= COORD_LIMIT
    &&& -COORD_LIMIT <= v.y <= COORD_LIMIT
    &&& -COORD_LIMIT <= v.z <= COORD_LIMIT
}

/// The squared Euclidean distance between two positions, as a mathematical
/// integer.
pub open spec fn dist_sq(a: Vec3i, b: Vec3i) -> int {
    (b.x - a.x) * (b.x - a.x) + (b.y - a.y) * (b.y - a.y) + (b.z - a.z) * (b.z - a.z)
}

/// The spatial transform of a fence, derived from its endpoint positions.
///
/// `mid_double` is twice the midpoint, `len_sq` the squared length, and
/// (`dir_x`, `dir_z`) the horizontal direction from endpoint A to endpoint B,
/// from which a renderer computes the yaw as `-atan2(dir_z, dir_x)`.
#[derive(Clone, Copy, PartialEq, Eq, Structural, Debug)]
pub struct FenceTransform {
    pub mid_double: Vec3i,
    pub len_sq: u64,
    pub dir_x: i64,
    pub dir_z: i64,
}

/// Bounds the square of a bounded integer.
proof fn lemma_sq_bounds(d: int, m: int)
    by (nonlinear_arith)
    requires
        0 <= m,
        -m <= d <= m,
    ensures
        0 <= d * d <= m * m,
{
}

/// The squared distance of two in-bounds positions is nonnegative and fits
/// in a `u64`.
pub proof fn lemma_dist_sq_bounds(a: Vec3i, b: Vec3i)
    requires
        in_bounds(a),
        in_bounds(b),
    ensures
        0 <= dist_sq(a, b) <= 12_000_000_000_000_000_000,
{
    lemma_sq_bounds(b.x - a.x, 2 * COORD_LIMIT);
    lemma_sq_bounds(b.y - a.y, 2 * COORD_LIMIT);
    lemma_sq_bounds(b.z - a.z, 2 * COORD_LIMIT);
    assert((2 * COORD_LIMIT) * (2 * COORD_LIMIT) == 4_000_000_000_000_000_000) by (nonlinear_arith);
}

/// The transform a fence from `a` to `b` must carry.
pub open spec fn transform_of(a: Vec3i, b: Vec3i) -> FenceTransform {
    FenceTransform {
        mid_double: Vec3i {
            x: (a.x + b.x) as i64,
            y: (a.y + b.y) as i64,
            z: (a.z + b.z) as i64,
        },
        len_sq: dist_sq(a, b) as u64,
        dir_x: (b.x - a.x) as i64,
        dir_z: (b.z - a.z) as i64,
    }
}

/// Recomputes a fence's transform from the current positions of its two
/// endpoints. Deterministic: recomputing with unchanged positions returns a
/// bit-for-bit identical transform.
pub fn derive_transform(a: Vec3i, b: Vec3i) -> (t: FenceTransform)
    requires
        in_bounds(a),
        in_bounds(b),
    ensures
        t == transform_of(a, b),
        t.mid_double.x == a.x + b.x,
        t.mid_double.y == a.y + b.y,
        t.mid_double.z == a.z + b.z,
        t.len_sq == dist_sq(a, b),
        t.dir_x == b.x - a.x,
        t.dir_z == b.z - a.z,
{
    let dx = b.x - a.x;
    let dy = b.y - a.y;
    let dz = b.z - a.z;
    proof {
        lemma_sq_bounds(dx as int, 2 * COORD_LIMIT);
        lemma_sq_bounds(dy as int, 2 * COORD_LIMIT);
        lemma_sq_bounds(dz as int, 2 * COORD_LIMIT);
        assert((2 * COORD_LIMIT) * (2 * COORD_LIMIT) == 4_000_000_000_000_000_000) by (nonlinear_arith);
    }
    let len_sq = ((dx * dx) as u64) + ((dy * dy) as u64) + ((dz * dz) as u64);
    FenceTransform {
        mid_double: Vec3i { x: a.x + b.x, y: a.y + b.y, z: a.z + b.z },
        len_sq,
        dir_x: dx,
        dir_z: dz,
    }
}

/// Law: the derived midpoint is the arithmetic mean of the endpoint
/// positions (held doubled, so exactly their sum on every axis), and the
/// derived length is the Euclidean distance (held squared, exactly).
pub proof fn lemma_transform_exact(a: Vec3i, b: Vec3i)
    requires
        in_bounds(a),
        in_bounds(b),
    ensures
        transform_of(a, b).mid_double.x == a.x + b.x,
        transform_of(a, b).mid_double.y == a.y + b.y,
        transform_of(a, b).mid_double.z == a.z + b.z,
        transform_of(a, b).len_sq == dist_sq(a, b),
        transform_of(a, b).dir_x == b.x - a.x,
        transform_of(a, b).dir_z == b.z - a.z,
{
    lemma_dist_sq_bounds(a, b);
}

/// Law: deriving a fence's transform is idempotent. The transform is a
/// function of the endpoint positions alone, so recomputing it while the
/// endpoints are unchanged yields a bit-for-bit identical value.
pub proof fn lemma_rederive_identical(a: Vec3i, b: Vec3i, t1: FenceTransform, t2: FenceTransform)
    requires
        t1 == transform_of(a, b),
        t2 == transform_of(a, b),
    ensures
        t1 == t2,
{
}

/// The integer square root, rounded down: turns a squared length into a
/// whole-unit length. Exact whenever the squared length is a perfect square.
pub fn isqrt(n: u64) -> (r: u64)
    ensures
        r * r <= n,
        n < (r + 1) * (r + 1),
{
    let mut lo: u64 = 0;
    let mut hi: u64 = 4_294_967_295;
    proof {
        assert((lo as int) * (lo as int) <= n as int);
        assert((n as int) < ((hi as int) + 1) * ((hi as int) + 1)) by (nonlinear_arith)
            requires n <= u64::MAX && hi == 4_294_967_295u64;
    }
    while lo < hi
        invariant
            lo <= hi,
            hi <= 4_294_967_295,
            (lo as int) * (lo as int) <= n as int,
            (n as int) < ((hi as int) + 1) * ((hi as int) + 1),
        decreases hi - lo,
    {
        let mid = lo + (hi - lo + 1) / 2;
        proof {
            lemma_sq_bounds(mid as int, 4_294_967_295);
            assert(4_294_967_295int * 4_294_967_295int < 0x1_0000_0000_0000_0000int)
                by (nonlinear_arith);
        }
        let sq = (mid as u128) * (mid as u128);
        if sq <= n as u128 {
            lo = mid;
        } else {
            hi = mid - 1;
        }
    }
    lo
}

} // verus!
