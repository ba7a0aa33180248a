//! Exact triangle–cube overlap by the separating-axis theorem.
//!
//! The cube is axis-aligned, given by its center and a single scalar
//! half-extent.  Thirteen candidate axes are examined: the nine cross
//! products of a triangle edge with a principal axis, the three principal
//! axes themselves, and the triangle's plane normal.  A candidate axis on
//! which the projections of cube and triangle do not overlap proves
//! non-intersection; if no axis separates, the shapes overlap.
//!
//! All comparisons are non-strict, so shapes that merely touch (a triangle
//! lying exactly on a cube face) count as intersecting.  The arithmetic is
//! exact: projections are computed in `i128`, which the coordinate bound
//! `SAT_LIMIT` keeps free of overflow.

use vstd::prelude::*;

use crate::geom::{GVec, Triangle, Vec3i};

verus! {

/// Largest coordinate magnitude (cube center, half-extent, or vertex) that
/// the intersection test accepts; keeps every projection inside `i128`.
pub const SAT_LIMIT: i64 = 0x20_0000_0000;

/// Bound on a cube-translated vertex component.
const VERT_BOUND: i128 = 0x40_0000_0000;

/// Bound on a triangle edge component.
const EDGE_BOUND: i128 = 0x80_0000_0000;

/// Bound on an edge-axis projection or projected cube radius.
const PROJ_BOUND: i128 = 0x4000_0000_0000_0000_0000;

/// Bound on a component of the triangle plane normal.
const NORM_BOUND: i128 = 0x8000_0000_0000_0000_0000;

/// Projection of `v` on the axis `e x X` (which is `(0, e.z, -e.y)`).
pub open spec fn axis_x_proj(e: GVec, v: GVec) -> int {
    e.z * v.y - e.y * v.z
}

/// Projection of `v` on the axis `e x Y` (which is `(-e.z, 0, e.x)`).
pub open spec fn axis_y_proj(e: GVec, v: GVec) -> int {
    -e.z * v.x + e.x * v.z
}

/// Projection of `v` on the axis `e x Z` (which is `(e.y, -e.x, 0)`).
pub open spec fn axis_z_proj(e: GVec, v: GVec) -> int {
    e.y * v.x - e.x * v.y
}

/// Projected radius of the cube on the axis `e x X`.
pub open spec fn axis_x_rad(e: GVec, s: int) -> int {
    (vstd::math::abs(e.z) + vstd::math::abs(e.y)) * s
}

/// Projected radius of the cube on the axis `e x Y`.
pub open spec fn axis_y_rad(e: GVec, s: int) -> int {
    (vstd::math::abs(e.z) + vstd::math::abs(e.x)) * s
}

/// Projected radius of the cube on the axis `e x Z`.
pub open spec fn axis_z_rad(e: GVec, s: int) -> int {
    (vstd::math::abs(e.y) + vstd::math::abs(e.x)) * s
}

/// The interval spanned by the two projections `p` and `q` misses the
/// symmetric interval `[-rad, rad]`.
pub open spec fn sep_span(p: int, q: int, rad: int) -> bool {
    ||| vstd::math::min(p, q) > rad
    ||| vstd::math::max(p, q) < -rad
}

/// The interval spanned by three projections misses `[-s, s]`.
pub open spec fn sep_span3(a: int, b: int, c: int, s: int) -> bool {
    ||| vstd::math::min(a, vstd::math::min(b, c)) > s
    ||| vstd::math::max3(a, b, c) < -s
}

/// The cube corner coordinate most adverse to the plane (lowest along the
/// normal), relative to the triangle's first vertex.
pub open spec fn face_lo(nq: int, vq: int, s: int) -> int {
    if nq > 0 {
        -s - vq
    } else {
        s - vq
    }
}

/// The opposite extreme cube corner coordinate.
pub open spec fn face_hi(nq: int, vq: int, s: int) -> int {
    if nq > 0 {
        s - vq
    } else {
        -s - vq
    }
}

/// The plane with normal `n` through the (cube-translated) point `v` passes
/// between the two extreme corners of the cube `[-s, s]^3`.
pub open spec fn plane_overlaps(n: GVec, v: GVec, s: int) -> bool {
    let lo = GVec {
        x: face_lo(n.x, v.x, s),
        y: face_lo(n.y, v.y, s),
        z: face_lo(n.z, v.z, s),
    };
    let hi = GVec {
        x: face_hi(n.x, v.x, s),
        y: face_hi(n.y, v.y, s),
        z: face_hi(n.z, v.z, s),
    };
    n.dot(lo) <= 0 && n.dot(hi) >= 0
}

/// The separating-axis criterion: the triangle `p0 p1 p2` and the cube with
/// center `c` and half-extent `s` overlap exactly when none of the thirteen
/// candidate axes separates them.
pub open spec fn spec_intersects(c: GVec, s: int, p0: GVec, p1: GVec, p2: GVec) -> bool {
    let v0 = p0.sub(c);
    let v1 = p1.sub(c);
    let v2 = p2.sub(c);
    let e0 = v1.sub(v0);
    let e1 = v2.sub(v1);
    let e2 = v0.sub(v2);
    &&& !sep_span(axis_x_proj(e0, v0), axis_x_proj(e0, v2), axis_x_rad(e0, s))
    &&& !sep_span(axis_y_proj(e0, v0), axis_y_proj(e0, v2), axis_y_rad(e0, s))
    &&& !sep_span(axis_z_proj(e0, v1), axis_z_proj(e0, v2), axis_z_rad(e0, s))
    &&& !sep_span(axis_x_proj(e1, v0), axis_x_proj(e1, v2), axis_x_rad(e1, s))
    &&& !sep_span(axis_y_proj(e1, v0), axis_y_proj(e1, v2), axis_y_rad(e1, s))
    &&& !sep_span(axis_z_proj(e1, v0), axis_z_proj(e1, v1), axis_z_rad(e1, s))
    &&& !sep_span(axis_x_proj(e2, v0), axis_x_proj(e2, v1), axis_x_rad(e2, s))
    &&& !sep_span(axis_y_proj(e2, v0), axis_y_proj(e2, v1), axis_y_rad(e2, s))
    &&& !sep_span(axis_z_proj(e2, v1), axis_z_proj(e2, v2), axis_z_rad(e2, s))
    &&& !sep_span3(v0.x, v1.x, v2.x, s)
    &&& !sep_span3(v0.y, v1.y, v2.y, s)
    &&& !sep_span3(v0.z, v1.z, v2.z, s)
    &&& plane_overlaps(e0.cross(e1), v0, s)
}

/// A product of two values within the given magnitude bounds stays within
/// the product of the bounds.
proof fn lemma_mul_bound(a: int, b: int, ma: int, mb: int)
    by (nonlinear_arith)
    requires
        -ma <= a <= ma,
        -mb <= b <= mb,
        0 <= ma,
        0 <= mb,
    ensures
        -(ma * mb) <= a * b <= ma * mb,
{
}

/// Widening product of two machine integers.
fn mul_wide(a: i64, b: i64) -> (r: i128)
    ensures
        r == a as int * b as int,
{
    proof {
        lemma_mul_bound(a as int, b as int, 0x8000_0000_0000_0000, 0x8000_0000_0000_0000);
    }
    (a as i128) * (b as i128)
}

/// Absolute value of a bounded machine integer.
fn abs64(a: i64) -> (r: i64)
    requires
        -SAT_LIMIT * 4 <= a <= SAT_LIMIT * 4,
    ensures
        r == vstd::math::abs(a as int),
{
    if a < 0 {
        -a
    } else {
        a
    }
}

/// Executable projection on `e x X`.
fn proj_x(e: Vec3i, v: Vec3i) -> (r: i128)
    requires
        e.gv().bounded(EDGE_BOUND as int),
        v.gv().bounded(VERT_BOUND as int),
    ensures
        r == axis_x_proj(e.gv(), v.gv()),
        -PROJ_BOUND <= r <= PROJ_BOUND,
{
    proof {
        lemma_mul_bound(e.z as int, v.y as int, EDGE_BOUND as int, VERT_BOUND as int);
        lemma_mul_bound(e.y as int, v.z as int, EDGE_BOUND as int, VERT_BOUND as int);
    }
    mul_wide(e.z, v.y) - mul_wide(e.y, v.z)
}

/// Executable projection on `e x Y`.
fn proj_y(e: Vec3i, v: Vec3i) -> (r: i128)
    requires
        e.gv().bounded(EDGE_BOUND as int),
        v.gv().bounded(VERT_BOUND as int),
    ensures
        r == axis_y_proj(e.gv(), v.gv()),
        -PROJ_BOUND <= r <= PROJ_BOUND,
{
    proof {
        lemma_mul_bound(e.z as int, v.x as int, EDGE_BOUND as int, VERT_BOUND as int);
        lemma_mul_bound(e.x as int, v.z as int, EDGE_BOUND as int, VERT_BOUND as int);
        assert((-(e.z as int)) * (v.x as int) == -((e.z as int) * (v.x as int)))
            by (nonlinear_arith);
    }
    mul_wide(e.x, v.z) - mul_wide(e.z, v.x)
}

/// Executable projection on `e x Z`.
fn proj_z(e: Vec3i, v: Vec3i) -> (r: i128)
    requires
        e.gv().bounded(EDGE_BOUND as int),
        v.gv().bounded(VERT_BOUND as int),
    ensures
        r == axis_z_proj(e.gv(), v.gv()),
        -PROJ_BOUND <= r <= PROJ_BOUND,
{
    proof {
        lemma_mul_bound(e.y as int, v.x as int, EDGE_BOUND as int, VERT_BOUND as int);
        lemma_mul_bound(e.x as int, v.y as int, EDGE_BOUND as int, VERT_BOUND as int);
    }
    mul_wide(e.y, v.x) - mul_wide(e.x, v.y)
}

/// Executable projected cube radius, `(|a| + |b|) * s`.
fn proj_rad(a: i64, b: i64, s: i64) -> (r: i128)
    requires
        -EDGE_BOUND <= a <= EDGE_BOUND,
        -EDGE_BOUND <= b <= EDGE_BOUND,
        0 <= s <= SAT_LIMIT,
    ensures
        r == (vstd::math::abs(a as int) + vstd::math::abs(b as int)) * s,
        0 <= r <= PROJ_BOUND,
{
    let fa = abs64(a);
    let fb = abs64(b);
    proof {
        lemma_mul_bound(fa as int + fb as int, s as int, 2 * EDGE_BOUND as int, SAT_LIMIT as int);
    }
    (fa as i128 + fb as i128) * (s as i128)
}

/// The overlap check shared by the nine edge-axis tests: do the projections
/// `p` and `q` overlap the cube's projected radius?
fn span_overlaps(p: i128, q: i128, rad: i128) -> (r: bool)
    requires
        -PROJ_BOUND <= p <= PROJ_BOUND,
        -PROJ_BOUND <= q <= PROJ_BOUND,
        0 <= rad <= PROJ_BOUND,
    ensures
        r == !sep_span(p as int, q as int, rad as int),
{
    let (mn, mx) = if p < q {
        (p, q)
    } else {
        (q, p)
    };
    !(mn > rad || mx < -rad)
}

/// Decides whether the triangle `tri` overlaps the axis-aligned cube with
/// center `center` and half-extent `half`, by the separating-axis theorem.
/// Non-strict comparisons throughout: touching counts as overlap.
pub fn intersects(center: Vec3i, half: i64, tri: &Triangle) -> (r: bool)
    requires
        center.gv().bounded(SAT_LIMIT as int),
        0 <= half <= SAT_LIMIT,
        tri.v0.position.gv().bounded(SAT_LIMIT as int),
        tri.v1.position.gv().bounded(SAT_LIMIT as int),
        tri.v2.position.gv().bounded(SAT_LIMIT as int),
    ensures
        r == spec_intersects(
            center.gv(),
            half as int,
            tri.v0.position.gv(),
            tri.v1.position.gv(),
            tri.v2.position.gv(),
        ),
{
    // Move everything so that the cube's center is at the origin.
    let v0 = tri.v0.position.sub(center);
    let v1 = tri.v1.position.sub(center);
    let v2 = tri.v2.position.sub(center);

    // Triangle edges.
    let e0 = v1.sub(v0);
    let e1 = v2.sub(v1);
    let e2 = v0.sub(v2);

    // Nine edge-cross-axis tests.
    if !span_overlaps(proj_x(e0, v0), proj_x(e0, v2), proj_rad(e0.z, e0.y, half)) {
        return false;
    }
    if !span_overlaps(proj_y(e0, v0), proj_y(e0, v2), proj_rad(e0.z, e0.x, half)) {
        return false;
    }
    if !span_overlaps(proj_z(e0, v1), proj_z(e0, v2), proj_rad(e0.y, e0.x, half)) {
        return false;
    }
    if !span_overlaps(proj_x(e1, v0), proj_x(e1, v2), proj_rad(e1.z, e1.y, half)) {
        return false;
    }
    if !span_overlaps(proj_y(e1, v0), proj_y(e1, v2), proj_rad(e1.z, e1.x, half)) {
        return false;
    }
    if !span_overlaps(proj_z(e1, v0), proj_z(e1, v1), proj_rad(e1.y, e1.x, half)) {
        return false;
    }
    if !span_overlaps(proj_x(e2, v0), proj_x(e2, v1), proj_rad(e2.z, e2.y, half)) {
        return false;
    }
    if !span_overlaps(proj_y(e2, v0), proj_y(e2, v1), proj_rad(e2.z, e2.x, half)) {
        return false;
    }
    if !span_overlaps(proj_z(e2, v1), proj_z(e2, v2), proj_rad(e2.y, e2.x, half)) {
        return false;
    }

    // The cube's own three face axes against the triangle's bounding range.
    if min3(v0.x, v1.x, v2.x) > half || max3(v0.x, v1.x, v2.x) < -half {
        return false;
    }
    if min3(v0.y, v1.y, v2.y) > half || max3(v0.y, v1.y, v2.y) < -half {
        return false;
    }
    if min3(v0.z, v1.z, v2.z) > half || max3(v0.z, v1.z, v2.z) < -half {
        return false;
    }

    // The triangle's plane against the cube's two extreme corners.
    plane_cube_overlaps(e0, e1, v0, half)
}

/// Sum of the absolute values of a vector's components.
pub open spec fn sum_abs(n: GVec) -> int {
    vstd::math::abs(n.x) + vstd::math::abs(n.y) + vstd::math::abs(n.z) as int
}

/// The plane test in closed form: the plane overlaps the cube exactly when
/// the plane offset `n . v` is at most the cube's projected radius
/// `s * (|n.x| + |n.y| + |n.z|)` in magnitude.
pub proof fn lemma_plane_form(n: GVec, v: GVec, s: int)
    ensures
        plane_overlaps(n, v, s) <==> (-(sum_abs(n) * s) <= n.dot(v) <= sum_abs(n) * s),
{
    let lo = GVec {
        x: face_lo(n.x, v.x, s),
        y: face_lo(n.y, v.y, s),
        z: face_lo(n.z, v.z, s),
    };
    let hi = GVec {
        x: face_hi(n.x, v.x, s),
        y: face_hi(n.y, v.y, s),
        z: face_hi(n.z, v.z, s),
    };
    assert(n.x * lo.x == -(vstd::math::abs(n.x) * s) - n.x * v.x && n.x * hi.x == vstd::math::abs(
        n.x,
    ) * s - n.x * v.x) by (nonlinear_arith)
        requires
            n.x > 0 ==> (lo.x == -s - v.x && hi.x == s - v.x && vstd::math::abs(n.x) == n.x),
            n.x <= 0 ==> (lo.x == s - v.x && hi.x == -s - v.x && vstd::math::abs(n.x) == -n.x),
    ;
    assert(n.y * lo.y == -(vstd::math::abs(n.y) * s) - n.y * v.y && n.y * hi.y == vstd::math::abs(
        n.y,
    ) * s - n.y * v.y) by (nonlinear_arith)
        requires
            n.y > 0 ==> (lo.y == -s - v.y && hi.y == s - v.y && vstd::math::abs(n.y) == n.y),
            n.y <= 0 ==> (lo.y == s - v.y && hi.y == -s - v.y && vstd::math::abs(n.y) == -n.y),
    ;
    assert(n.z * lo.z == -(vstd::math::abs(n.z) * s) - n.z * v.z && n.z * hi.z == vstd::math::abs(
        n.z,
    ) * s - n.z * v.z) by (nonlinear_arith)
        requires
            n.z > 0 ==> (lo.z == -s - v.z && hi.z == s - v.z && vstd::math::abs(n.z) == n.z),
            n.z <= 0 ==> (lo.z == s - v.z && hi.z == -s - v.z && vstd::math::abs(n.z) == -n.z),
    ;
    assert(sum_abs(n) * s == vstd::math::abs(n.x) * s + vstd::math::abs(n.y) * s + vstd::math::abs(
        n.z,
    ) * s) by (nonlinear_arith)
        requires sum_abs(n) == vstd::math::abs(n.x) + vstd::math::abs(n.y) + vstd::math::abs(n.z);
    assert(n.dot(lo) == -(sum_abs(n) * s) - n.dot(v));
    assert(n.dot(hi) == sum_abs(n) * s - n.dot(v));
}

/// The two endpoints of an edge project identically onto every axis formed
/// from that edge (the edge is perpendicular to each such axis).
proof fn lemma_proj_endpoints(u: GVec, v: GVec)
    ensures
        axis_x_proj(v.sub(u), u) == axis_x_proj(v.sub(u), v),
        axis_y_proj(v.sub(u), u) == axis_y_proj(v.sub(u), v),
        axis_z_proj(v.sub(u), u) == axis_z_proj(v.sub(u), v),
{
    let e = v.sub(u);
    assert(e.z * u.y - e.y * u.z == e.z * v.y - e.y * v.z) by (nonlinear_arith)
        requires e.z == v.z - u.z && e.y == v.y - u.y;
    assert(-e.z * u.x + e.x * u.z == -e.z * v.x + e.x * v.z) by (nonlinear_arith)
        requires e.z == v.z - u.z && e.x == v.x - u.x;
    assert(e.y * u.x - e.x * u.y == e.y * v.x - e.x * v.y) by (nonlinear_arith)
        requires e.y == v.y - u.y && e.x == v.x - u.x;
}

/// Negating the edge negates every projection and keeps every projected
/// radius; separation on the axis is therefore unchanged.
proof fn lemma_proj_neg(e: GVec, f: GVec, v: GVec, s: int)
    requires
        f.x == -e.x,
        f.y == -e.y,
        f.z == -e.z,
    ensures
        axis_x_proj(f, v) == -axis_x_proj(e, v),
        axis_y_proj(f, v) == -axis_y_proj(e, v),
        axis_z_proj(f, v) == -axis_z_proj(e, v),
        axis_x_rad(f, s) == axis_x_rad(e, s),
        axis_y_rad(f, s) == axis_y_rad(e, s),
        axis_z_rad(f, s) == axis_z_rad(e, s),
{
    assert(f.z * v.y - f.y * v.z == -(e.z * v.y - e.y * v.z)) by (nonlinear_arith)
        requires f.z == -e.z && f.y == -e.y;
    assert(-f.z * v.x + f.x * v.z == -(-e.z * v.x + e.x * v.z)) by (nonlinear_arith)
        requires f.z == -e.z && f.x == -e.x;
    assert(f.y * v.x - f.x * v.y == -(e.y * v.x - e.x * v.y)) by (nonlinear_arith)
        requires f.y == -e.y && f.x == -e.x;
}

/// Rotating the vertices (`p0 p1 p2` to `p1 p2 p0`) leaves the
/// separating-axis verdict unchanged.
proof fn lemma_intersects_rotate(c: GVec, s: int, p0: GVec, p1: GVec, p2: GVec)
    ensures
        spec_intersects(c, s, p0, p1, p2) == spec_intersects(c, s, p1, p2, p0),
{
    let v0 = p0.sub(c);
    let v1 = p1.sub(c);
    let v2 = p2.sub(c);
    let e0 = v1.sub(v0);
    let e1 = v2.sub(v1);
    let e2 = v0.sub(v2);
    lemma_proj_endpoints(v0, v1);
    lemma_proj_endpoints(v1, v2);
    lemma_proj_endpoints(v2, v0);
    let n = e0.cross(e1);
    let n2 = e1.cross(e2);
    assert(n2.x == n.x && n2.y == n.y && n2.z == n.z) by (nonlinear_arith)
        requires
            e0.x == v1.x - v0.x && e0.y == v1.y - v0.y && e0.z == v1.z - v0.z,
            e1.x == v2.x - v1.x && e1.y == v2.y - v1.y && e1.z == v2.z - v1.z,
            e2.x == v0.x - v2.x && e2.y == v0.y - v2.y && e2.z == v0.z - v2.z,
            n.x == e0.y * e1.z - e0.z * e1.y && n.y == e0.z * e1.x - e0.x * e1.z && n.z == e0.x
                * e1.y - e0.y * e1.x,
            n2.x == e1.y * e2.z - e1.z * e2.y && n2.y == e1.z * e2.x - e1.x * e2.z && n2.z == e1.x
                * e2.y - e1.y * e2.x,
    ;
    assert(n2 == n);
    assert(n.x * e0.x + n.y * e0.y + n.z * e0.z == 0) by (nonlinear_arith)
        requires
            n.x == e0.y * e1.z - e0.z * e1.y && n.y == e0.z * e1.x - e0.x * e1.z && n.z == e0.x
                * e1.y - e0.y * e1.x,
    ;
    assert(n.dot(v1) - n.dot(v0) == n.x * e0.x + n.y * e0.y + n.z * e0.z) by (nonlinear_arith)
        requires
            e0.x == v1.x - v0.x && e0.y == v1.y - v0.y && e0.z == v1.z - v0.z,
            n.dot(v1) == n.x * v1.x + n.y * v1.y + n.z * v1.z,
            n.dot(v0) == n.x * v0.x + n.y * v0.y + n.z * v0.z,
    ;
    assert(n.dot(v1) == n.dot(v0));
    lemma_plane_form(n, v0, s);
    lemma_plane_form(n, v1, s);
}

/// Swapping the second and third vertices leaves the separating-axis
/// verdict unchanged.
proof fn lemma_intersects_swap(c: GVec, s: int, p0: GVec, p1: GVec, p2: GVec)
    ensures
        spec_intersects(c, s, p0, p1, p2) == spec_intersects(c, s, p0, p2, p1),
{
    let v0 = p0.sub(c);
    let v1 = p1.sub(c);
    let v2 = p2.sub(c);
    let e0 = v1.sub(v0);
    let e1 = v2.sub(v1);
    let e2 = v0.sub(v2);
    // Edges of the swapped triangle are the original edges, reversed.
    let f0 = v2.sub(v0);
    let f1 = v1.sub(v2);
    let f2 = v0.sub(v1);
    assert(f0.x == -e2.x && f0.y == -e2.y && f0.z == -e2.z);
    assert(f1.x == -e1.x && f1.y == -e1.y && f1.z == -e1.z);
    assert(f2.x == -e0.x && f2.y == -e0.y && f2.z == -e0.z);
    lemma_proj_neg(e2, f0, v0, s);
    lemma_proj_neg(e2, f0, v1, s);
    lemma_proj_neg(e2, f0, v2, s);
    lemma_proj_neg(e1, f1, v0, s);
    lemma_proj_neg(e1, f1, v1, s);
    lemma_proj_neg(e1, f1, v2, s);
    lemma_proj_neg(e0, f2, v0, s);
    lemma_proj_neg(e0, f2, v1, s);
    lemma_proj_neg(e0, f2, v2, s);
    lemma_proj_endpoints(v0, v1);
    lemma_proj_endpoints(v1, v2);
    lemma_proj_endpoints(v2, v0);
    let n = e0.cross(e1);
    let n2 = f0.cross(f1);
    assert(n2.x == -n.x && n2.y == -n.y && n2.z == -n.z) by (nonlinear_arith)
        requires
            f0.x == -e2.x && f0.y == -e2.y && f0.z == -e2.z,
            f1.x == -e1.x && f1.y == -e1.y && f1.z == -e1.z,
            e0.x == v1.x - v0.x && e0.y == v1.y - v0.y && e0.z == v1.z - v0.z,
            e1.x == v2.x - v1.x && e1.y == v2.y - v1.y && e1.z == v2.z - v1.z,
            e2.x == v0.x - v2.x && e2.y == v0.y - v2.y && e2.z == v0.z - v2.z,
            n.x == e0.y * e1.z - e0.z * e1.y && n.y == e0.z * e1.x - e0.x * e1.z && n.z == e0.x
                * e1.y - e0.y * e1.x,
            n2.x == f0.y * f1.z - f0.z * f1.y && n2.y == f0.z * f1.x - f0.x * f1.z && n2.z == f0.x
                * f1.y - f0.y * f1.x,
    ;
    assert(n2.dot(v0) == -n.dot(v0)) by (nonlinear_arith)
        requires
            n2.x == -n.x && n2.y == -n.y && n2.z == -n.z,
            n2.dot(v0) == n2.x * v0.x + n2.y * v0.y + n2.z * v0.z,
            n.dot(v0) == n.x * v0.x + n.y * v0.y + n.z * v0.z,
    ;
    assert(sum_abs(n2) == sum_abs(n));
    lemma_plane_form(n, v0, s);
    lemma_plane_form(n2, v0, s);
}

/// The separating-axis verdict is invariant under every permutation of the
/// triangle's three vertices: winding does not matter.
pub proof fn lemma_intersects_permutation(c: GVec, s: int, p0: GVec, p1: GVec, p2: GVec)
    ensures
        spec_intersects(c, s, p0, p1, p2) == spec_intersects(c, s, p1, p2, p0),
        spec_intersects(c, s, p0, p1, p2) == spec_intersects(c, s, p2, p0, p1),
        spec_intersects(c, s, p0, p1, p2) == spec_intersects(c, s, p0, p2, p1),
        spec_intersects(c, s, p0, p1, p2) == spec_intersects(c, s, p2, p1, p0),
        spec_intersects(c, s, p0, p1, p2) == spec_intersects(c, s, p1, p0, p2),
{
    lemma_intersects_rotate(c, s, p0, p1, p2);
    lemma_intersects_rotate(c, s, p1, p2, p0);
    lemma_intersects_swap(c, s, p0, p1, p2);
    lemma_intersects_swap(c, s, p1, p2, p0);
    lemma_intersects_swap(c, s, p2, p0, p1);
}

/// The candidate axes that do not involve the `+x` cube face or the
/// triangle's plane: the nine edge axes and the `y` and `z` face axes.
pub open spec fn off_face_tests(c: GVec, s: int, p0: GVec, p1: GVec, p2: GVec) -> bool {
    let v0 = p0.sub(c);
    let v1 = p1.sub(c);
    let v2 = p2.sub(c);
    let e0 = v1.sub(v0);
    let e1 = v2.sub(v1);
    let e2 = v0.sub(v2);
    &&& !sep_span(axis_x_proj(e0, v0), axis_x_proj(e0, v2), axis_x_rad(e0, s))
    &&& !sep_span(axis_y_proj(e0, v0), axis_y_proj(e0, v2), axis_y_rad(e0, s))
    &&& !sep_span(axis_z_proj(e0, v1), axis_z_proj(e0, v2), axis_z_rad(e0, s))
    &&& !sep_span(axis_x_proj(e1, v0), axis_x_proj(e1, v2), axis_x_rad(e1, s))
    &&& !sep_span(axis_y_proj(e1, v0), axis_y_proj(e1, v2), axis_y_rad(e1, s))
    &&& !sep_span(axis_z_proj(e1, v0), axis_z_proj(e1, v1), axis_z_rad(e1, s))
    &&& !sep_span(axis_x_proj(e2, v0), axis_x_proj(e2, v1), axis_x_rad(e2, s))
    &&& !sep_span(axis_y_proj(e2, v0), axis_y_proj(e2, v1), axis_y_rad(e2, s))
    &&& !sep_span(axis_z_proj(e2, v1), axis_z_proj(e2, v2), axis_z_rad(e2, s))
    &&& !sep_span3(v0.y, v1.y, v2.y, s)
    &&& !sep_span3(v0.z, v1.z, v2.z, s)
}

/// A triangle lying exactly on the cube's `+x` face plane is never
/// excluded by the face test or the plane test: because every comparison
/// is non-strict, touching the boundary still counts as overlap, and the
/// verdict reduces to the remaining axes.
pub proof fn lemma_face_boundary(c: GVec, s: int, p0: GVec, p1: GVec, p2: GVec)
    requires
        s >= 0,
        p0.x - c.x == s,
        p1.x - c.x == s,
        p2.x - c.x == s,
    ensures
        spec_intersects(c, s, p0, p1, p2) == off_face_tests(c, s, p0, p1, p2),
{
    let v0 = p0.sub(c);
    let v1 = p1.sub(c);
    let v2 = p2.sub(c);
    let e0 = v1.sub(v0);
    let e1 = v2.sub(v1);
    // The face test passes: all three projections are exactly `s`.
    assert(!sep_span3(v0.x, v1.x, v2.x, s));
    // The plane normal points along `x`, so the plane test passes too.
    let n = e0.cross(e1);
    assert(n.y == 0 && n.z == 0) by (nonlinear_arith)
        requires
            e0.x == 0 && e1.x == 0,
            n.y == e0.z * e1.x - e0.x * e1.z && n.z == e0.x * e1.y - e0.y * e1.x,
    ;
    assert(n.dot(v0) == n.x * s) by (nonlinear_arith)
        requires
            n.y == 0 && n.z == 0 && v0.x == s,
            n.dot(v0) == n.x * v0.x + n.y * v0.y + n.z * v0.z,
    ;
    lemma_plane_form(n, v0, s);
    if n.x >= 0 {
        assert(n.x * s <= sum_abs(n) * s && -(sum_abs(n) * s) <= n.x * s) by (nonlinear_arith)
            requires n.x >= 0 && s >= 0 && sum_abs(n) == n.x;
    } else {
        assert(n.x * s <= sum_abs(n) * s && -(sum_abs(n) * s) <= n.x * s) by (nonlinear_arith)
            requires n.x < 0 && s >= 0 && sum_abs(n) == -n.x;
    }
    assert(plane_overlaps(n, v0, s));
}

/// Minimum of three bounded machine integers.
fn min3(a: i64, b: i64, c: i64) -> (r: i64)
    ensures
        r == vstd::math::min(a as int, vstd::math::min(b as int, c as int)),
{
    let mut m = a;
    if b < m {
        m = b;
    }
    if c < m {
        m = c;
    }
    m
}

/// Maximum of three bounded machine integers.
fn max3(a: i64, b: i64, c: i64) -> (r: i64)
    ensures
        r == vstd::math::max3(a as int, b as int, c as int),
{
    let mut m = a;
    if b > m {
        m = b;
    }
    if c > m {
        m = c;
    }
    m
}

/// Executable triangle-plane against cube test: `e0 x e1` is the plane
/// normal, `v0` the translated first vertex, `half` the cube half-extent.
fn plane_cube_overlaps(e0: Vec3i, e1: Vec3i, v0: Vec3i, half: i64) -> (r: bool)
    requires
        e0.gv().bounded(EDGE_BOUND as int),
        e1.gv().bounded(EDGE_BOUND as int),
        v0.gv().bounded(VERT_BOUND as int),
        0 <= half <= SAT_LIMIT,
    ensures
        r == plane_overlaps(e0.gv().cross(e1.gv()), v0.gv(), half as int),
{
    proof {
        lemma_mul_bound(e0.y as int, e1.z as int, EDGE_BOUND as int, EDGE_BOUND as int);
        lemma_mul_bound(e0.z as int, e1.y as int, EDGE_BOUND as int, EDGE_BOUND as int);
        lemma_mul_bound(e0.z as int, e1.x as int, EDGE_BOUND as int, EDGE_BOUND as int);
        lemma_mul_bound(e0.x as int, e1.z as int, EDGE_BOUND as int, EDGE_BOUND as int);
        lemma_mul_bound(e0.x as int, e1.y as int, EDGE_BOUND as int, EDGE_BOUND as int);
        lemma_mul_bound(e0.y as int, e1.x as int, EDGE_BOUND as int, EDGE_BOUND as int);
    }
    let nx = mul_wide(e0.y, e1.z) - mul_wide(e0.z, e1.y);
    let ny = mul_wide(e0.z, e1.x) - mul_wide(e0.x, e1.z);
    let nz = mul_wide(e0.x, e1.y) - mul_wide(e0.y, e1.x);

    let lo_x = if nx > 0 { -half - v0.x } else { half - v0.x };
    let hi_x = if nx > 0 { half - v0.x } else { -half - v0.x };
    let lo_y = if ny > 0 { -half - v0.y } else { half - v0.y };
    let hi_y = if ny > 0 { half - v0.y } else { -half - v0.y };
    let lo_z = if nz > 0 { -half - v0.z } else { half - v0.z };
    let hi_z = if nz > 0 { half - v0.z } else { -half - v0.z };

    proof {
        lemma_mul_bound(nx as int, lo_x as int, NORM_BOUND as int, VERT_BOUND as int * 2);
        lemma_mul_bound(ny as int, lo_y as int, NORM_BOUND as int, VERT_BOUND as int * 2);
        lemma_mul_bound(nz as int, lo_z as int, NORM_BOUND as int, VERT_BOUND as int * 2);
        lemma_mul_bound(nx as int, hi_x as int, NORM_BOUND as int, VERT_BOUND as int * 2);
        lemma_mul_bound(ny as int, hi_y as int, NORM_BOUND as int, VERT_BOUND as int * 2);
        lemma_mul_bound(nz as int, hi_z as int, NORM_BOUND as int, VERT_BOUND as int * 2);
    }
    let dot_lo = nx * (lo_x as i128) + ny * (lo_y as i128) + nz * (lo_z as i128);
    let dot_hi = nx * (hi_x as i128) + ny * (hi_y as i128) + nz * (hi_z as i128);

    if dot_lo > 0 {
        return false;
    }
    dot_hi >= 0
}

} // verus!
