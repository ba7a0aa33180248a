//! The voxelization engine: from a triangle mesh to a grid of colored cubes.
//!
//! The mesh's bounding box fixes a uniform cell size
//! (`voxel_size = extent / resolution`, with `extent` the largest bounding
//! box side), and the grid of `resolution` cells per axis is centered on the
//! world origin.  Every cell whose neighborhood a triangle touches is tested
//! for exact overlap; hits are deduplicated by cell, packed into a compact
//! voxel list, and indexed by a dense per-cell state word.
//!
//! To keep the arithmetic exact, every specification and computation here
//! works in a doubled, resolution-scaled coordinate space: world coordinate
//! `w` appears as `w * 2 * resolution`.  In that space the cell size is
//! `2 * extent`, cell centers and the half-cell padding are integers, and
//! the candidate-range divisions are exact floor/ceiling divisions.

use vstd::arithmetic::div_mod::{
    lemma_fundamental_div_mod, lemma_fundamental_div_mod_converse,
};
use vstd::arithmetic::mul::lemma_mul_inequality;
use vstd::prelude::*;
use vstd::set_lib::{lemma_int_range, lemma_len_subset, set_int_range};

use crate::dedup::{lex_lt, lex_lt_exec, lemma_find_unique, Voxel, VoxelSet};
use crate::geom::{GVec, Triangle, TriVertex, Vec3i, COORD_LIMIT};
use crate::intersect::{intersects, spec_intersects, SAT_LIMIT};

verus! {

/// Largest accepted grid resolution; keeps `(resolution + 1)^3` within
/// `usize` and every packed voxel index below the visible bit.
pub const RES_LIMIT: u32 = 1024;

/// Top bit of a state word: the cell maps to a real voxel.
pub const VISIBLE_BIT: u32 = 0x8000_0000;

/// Denominator of the packed voxel colors: a stored channel numerator `n`
/// stands for the intensity `n / 765` in `[0, 1]` (765 = 3 * 255).
pub const COLOR_SCALE: i64 = 765;

/// Why a voxel map could not be built.
#[derive(Clone, Copy, PartialEq, Eq, Structural, Debug)]
pub enum VoxelError {
    /// The triangle sequence was empty.
    EmptyInput,
    /// The mesh bounding box has zero extent (a point mesh), which leaves
    /// no cell size to voxelize with.
    ZeroExtent,
}

impl VoxelError {
    /// A short description of the failure.
    pub fn message(&self) -> (r: &'static str)
        ensures
            *self == VoxelError::EmptyInput ==> r@ == "invalid triangle count"@,
            *self == VoxelError::ZeroExtent ==> r@ == "degenerate mesh bounds"@,
    {
        match self {
            VoxelError::EmptyInput => "invalid triangle count",
            VoxelError::ZeroExtent => "degenerate mesh bounds",
        }
    }
}

// ------------------------------------------------------------------
// The mathematical model of the voxelization.
// ------------------------------------------------------------------

/// Componentwise minimum of all vertex positions of the mesh.
pub open spec fn mesh_min(tris: Seq<Triangle>) -> GVec
    decreases tris.len(),
{
    if tris.len() <= 1 {
        tris[0].pos_min()
    } else {
        mesh_min(tris.drop_last()).cmin(tris.last().pos_min())
    }
}

/// Componentwise maximum of all vertex positions of the mesh.
pub open spec fn mesh_max(tris: Seq<Triangle>) -> GVec
    decreases tris.len(),
{
    if tris.len() <= 1 {
        tris[0].pos_max()
    } else {
        mesh_max(tris.drop_last()).cmax(tris.last().pos_max())
    }
}

/// The largest side of the mesh bounding box, in world units.  The cell
/// size is `mesh_extent / resolution`.
pub open spec fn mesh_extent(tris: Seq<Triangle>) -> int {
    let mn = mesh_min(tris);
    let mx = mesh_max(tris);
    vstd::math::max3(mx.x - mn.x, mx.y - mn.y, mx.z - mn.z)
}

/// Lower corner of a triangle's padded bounding box, in scaled space:
/// each vertex is sampled half a cell (`e` in scaled units) low.
pub open spec fn tri_lo(t: Triangle, r: int, e: int) -> GVec {
    t.pos_min().scale(2 * r).sub(GVec { x: e, y: e, z: e })
}

/// Upper corner of the padded bounding box.  The fold that computes it
/// starts from the unshifted first vertex, so that vertex also bounds the
/// result from below.
pub open spec fn tri_hi(t: Triangle, r: int, e: int) -> GVec {
    t.v0.position.gv().scale(2 * r).cmax(t.pos_max().scale(2 * r).sub(GVec { x: e, y: e, z: e }))
}

/// First candidate cell index along one axis: the padded lower bound,
/// shifted by the grid's mid offset (`r * e` scaled), floor-divided by the
/// cell size (`2 * e` scaled).
pub open spec fn cell_start(lo: int, r: int, e: int) -> int {
    (lo + r * e) / (2 * e)
}

/// Number of candidate cells along one axis: the padded bounding box size,
/// ceiling-divided by the cell size, and at least 1.
pub open spec fn cell_count(lo: int, hi: int, e: int) -> int {
    vstd::math::max(1, (hi - lo + 2 * e - 1) / (2 * e))
}

/// Is `(x, y, z)` inside the candidate cell range of triangle `t`?
pub open spec fn in_candidate(t: Triangle, r: int, e: int, x: int, y: int, z: int) -> bool {
    let lo = tri_lo(t, r, e);
    let hi = tri_hi(t, r, e);
    &&& cell_start(lo.x, r, e) <= x < cell_start(lo.x, r, e) + cell_count(lo.x, hi.x, e)
    &&& cell_start(lo.y, r, e) <= y < cell_start(lo.y, r, e) + cell_count(lo.y, hi.y, e)
    &&& cell_start(lo.z, r, e) <= z < cell_start(lo.z, r, e) + cell_count(lo.z, hi.z, e)
}

/// Center of cell index `q` along one axis, in scaled space.
pub open spec fn cell_center(q: int, r: int, e: int) -> int {
    (2 * q - r + 1) * e
}

/// Triangle `t` claims cell `(x, y, z)`: the cell is in `t`'s candidate
/// range and the separating-axis test reports overlap between `t` and the
/// cube centered on the cell with half-extent one full cell size.
pub open spec fn tri_hit(t: Triangle, r: int, e: int, x: int, y: int, z: int) -> bool {
    &&& in_candidate(t, r, e, x, y, z)
    &&& spec_intersects(
        GVec { x: cell_center(x, r, e), y: cell_center(y, r, e), z: cell_center(z, r, e) },
        2 * e,
        t.v0.position.gv().scale(2 * r),
        t.v1.position.gv().scale(2 * r),
        t.v2.position.gv().scale(2 * r),
    )
}

/// Some triangle of the mesh claims cell `(x, y, z)`.
pub open spec fn hit_any(tris: Seq<Triangle>, r: int, e: int, x: int, y: int, z: int) -> bool {
    exists|i: int| 0 <= i < tris.len() && #[trigger] tri_hit(tris[i], r, e, x, y, z)
}

/// Mean of the three vertex colors, as channel numerators over
/// `COLOR_SCALE` (their plain sum: `(a + b + c) / 3 / 255 = sum / 765`).
pub open spec fn avg_color(t: Triangle) -> GVec {
    GVec {
        x: t.v0.color.x + t.v1.color.x + t.v2.color.x,
        y: t.v0.color.y + t.v1.color.y + t.v2.color.y,
        z: t.v0.color.z + t.v1.color.z + t.v2.color.z,
    }
}

/// Is `(x, y, z)` a real grid cell?
pub open spec fn cell_in_grid(r: int, x: int, y: int, z: int) -> bool {
    &&& 0 <= x < r
    &&& 0 <= y < r
    &&& 0 <= z < r
}

/// The color a hit records for a cell: the averaged triangle color, or the
/// pure-red diagnostic marker for an overflow cell outside the grid.
pub open spec fn hit_color(t: Triangle, r: int, x: int, y: int, z: int) -> GVec {
    if cell_in_grid(r, x, y, z) {
        avg_color(t)
    } else {
        GVec { x: COLOR_SCALE as int, y: 0, z: 0 }
    }
}

/// The color the finished map records for a claimed cell: the first
/// triangle (in input order) to claim the cell decides.
pub open spec fn model_color(tris: Seq<Triangle>, r: int, e: int, x: int, y: int, z: int) -> GVec
    decreases tris.len(),
{
    if tris.len() == 0 {
        GVec { x: 0, y: 0, z: 0 }
    } else if hit_any(tris.drop_last(), r, e, x, y, z) {
        model_color(tris.drop_last(), r, e, x, y, z)
    } else {
        hit_color(tris.last(), r, x, y, z)
    }
}

/// The stored position of cell `(x, y, z)`: cell indices shifted so the
/// grid is centered on the origin.
pub open spec fn cpos(r: int, x: int, y: int, z: int) -> GVec {
    GVec { x: x - r / 2, y: y - r / 2, z: z - r / 2 }
}

/// Index of cell `(x, y, z)` in the dense state grid.
pub open spec fn gidx(r: int, x: int, y: int, z: int) -> int {
    z * r * r + y * r + x
}

/// Some voxel of `s` sits at position `p`.
pub open spec fn vox_has(s: Seq<Voxel>, p: GVec) -> bool {
    exists|i: int| 0 <= i < s.len() && (#[trigger] s[i].position.gv()) == p
}

/// The index of the voxel at `p` (unique when positions are sorted).
pub open spec fn vox_index(s: Seq<Voxel>, p: GVec) -> int {
    choose|i: int| 0 <= i < s.len() && (#[trigger] s[i].position.gv()) == p
}

/// Voxel positions are strictly increasing (hence pairwise distinct).
pub open spec fn vox_sorted(s: Seq<Voxel>) -> bool {
    forall|i: int, j: int|
        0 <= i < j < s.len() ==> lex_lt(
            #[trigger] s[i].position.gv(),
            #[trigger] s[j].position.gv(),
        )
}

/// In a sorted voxel sequence an occupied position determines its index.
pub proof fn lemma_vox_index_unique(s: Seq<Voxel>, p: GVec)
    requires
        vox_sorted(s),
        vox_has(s, p),
    ensures
        0 <= vox_index(s, p) < s.len(),
        s[vox_index(s, p)].position.gv() == p,
        forall|j: int| 0 <= j < s.len() && (#[trigger] s[j].position.gv()) == p ==> j == vox_index(s, p),
{
    let i = vox_index(s, p);
    assert(0 <= i < s.len() && s[i].position.gv() == p);
    assert forall|j: int| 0 <= j < s.len() && (#[trigger] s[j].position.gv()) == p implies j == i by {
        if j < i {
            assert(lex_lt(s[j].position.gv(), s[i].position.gv()));
        }
        if j > i {
            assert(lex_lt(s[i].position.gv(), s[j].position.gv()));
        }
    }
}

// ------------------------------------------------------------------
// The voxel map.
// ------------------------------------------------------------------

/// The result of voxelizing a mesh: a dense occupancy/index grid plus the
/// compact list of occupied, colored cells.
pub struct VoxelMap {
    /// Number of grid cells along each axis.
    pub resolution: u32,
    /// Largest side of the mesh bounding box, in world units.  One cell
    /// covers `extent / resolution` world units per axis.
    pub extent: i64,
    /// Dense state grid of `(resolution + 1)^3` words, indexed by
    /// `gidx`: `0` for an empty cell, or a voxel index with `VISIBLE_BIT`
    /// set for an occupied one.
    pub states: Vec<u32>,
    /// Occupied cells in increasing lexicographic position order.
    pub voxels: Vec<Voxel>,
}

impl VoxelMap {
    /// Resolution as a mathematical integer.
    pub open spec fn r_int(self) -> int {
        self.resolution as int
    }

    /// Some voxel sits at position `p`.
    pub open spec fn has_voxel(self, p: GVec) -> bool {
        vox_has(self.voxels@, p)
    }

    /// The color stored at position `p`.
    pub open spec fn color_at(self, p: GVec) -> GVec {
        self.voxels@[vox_index(self.voxels@, p)].color.gv()
    }

    /// The state word of cell `(x, y, z)`.
    pub open spec fn state_at(self, x: int, y: int, z: int) -> u32 {
        self.states@[gidx(self.r_int(), x, y, z)]
    }

    /// Structural well-formedness: sizes, bounds, ordering, and the mutual
    /// consistency of the state grid and the voxel list.
    pub open spec fn wf(self) -> bool {
        let r = self.r_int();
        &&& 1 <= r <= RES_LIMIT
        &&& 1 <= self.extent <= 2 * COORD_LIMIT
        &&& self.states@.len() == (r + 1) * (r + 1) * (r + 1)
        &&& self.voxels@.len() <= r * r * r
        &&& vox_sorted(self.voxels@)
        &&& forall|i: int|
            0 <= i < self.voxels@.len() ==> cell_in_grid(
                r,
                (#[trigger] self.voxels@[i].position.gv()).x + r / 2,
                self.voxels@[i].position.gv().y + r / 2,
                self.voxels@[i].position.gv().z + r / 2,
            )
        &&& forall|x: int, y: int, z: int|
            cell_in_grid(r, x, y, z) ==> (#[trigger] self.state_at(x, y, z)) as int == (
            if vox_has(self.voxels@, cpos(r, x, y, z)) {
                vox_index(self.voxels@, cpos(r, x, y, z)) + VISIBLE_BIT
            } else {
                0
            })
        &&& forall|k: int| r * r * r <= k < self.states@.len() ==> self.states@[k] == 0
    }
}

// ------------------------------------------------------------------
// Exact division helpers.
// ------------------------------------------------------------------

/// Floor division of a possibly negative dividend by a positive divisor.
fn div_floor(a: i64, b: i64) -> (q: i64)
    requires
        1 <= b <= 0x1_0000_0000_0000,
        -0x1000_0000_0000_0000 <= a <= 0x1000_0000_0000_0000,
    ensures
        q == a as int / b as int,
        b * q <= a < b * q + b,
        a >= 0 ==> 0 <= q <= a,
        a < 0 ==> a <= q <= 0,
{
    let bu = b as u64;
    if a >= 0 {
        let qq = (a as u64) / bu;
        proof {
            lemma_fundamental_div_mod(a as int, b as int);
            assert(qq as int <= qq as int * b as int) by (nonlinear_arith)
                requires qq >= 0 && b >= 1;
        }
        qq as i64
    } else {
        let n = (-a) as u64;
        let qn = n / bu;
        let rn = n % bu;
        proof {
            assert(n == bu * qn + rn && rn < bu) by {
                lemma_fundamental_div_mod(n as int, bu as int);
            }
            assert(qn as int <= qn as int * b as int) by (nonlinear_arith)
                requires qn >= 0 && b >= 1;
        }
        if rn == 0 {
            proof {
                assert(a as int == (-(qn as int)) * b + 0) by (nonlinear_arith)
                    requires n == bu * qn && a as int == -(n as int) && b == bu;
                lemma_fundamental_div_mod_converse(a as int, b as int, -(qn as int), 0);
                assert(b * (a as int / b as int) <= a < b * (a as int / b as int) + b)
                    by (nonlinear_arith)
                    requires a as int / b as int == -(qn as int) && n == bu * qn && rn == 0
                        && a as int == -(n as int) && b == bu && b >= 1;
            }
            -(qn as i64)
        } else {
            proof {
                assert(a as int == (-(qn as int) - 1) * b + (b - rn)) by (nonlinear_arith)
                    requires n == bu * qn + rn && a as int == -(n as int) && b == bu;
                lemma_fundamental_div_mod_converse(
                    a as int,
                    b as int,
                    -(qn as int) - 1,
                    b as int - rn as int,
                );
                assert(b * (a as int / b as int) <= a < b * (a as int / b as int) + b)
                    by (nonlinear_arith)
                    requires a as int / b as int == -(qn as int) - 1 && n == bu * qn + rn
                        && 0 < rn < bu && a as int == -(n as int) && b == bu && b >= 1;
            }
            -(qn as i64) - 1
        }
    }
}

/// Ceiling division of a non-negative dividend by a positive divisor,
/// written as the floor division `(a + b - 1) / b`.
fn div_ceil(a: i64, b: i64) -> (q: i64)
    requires
        1 <= b <= 0x1_0000_0000_0000,
        0 <= a <= 0x1000_0000_0000_0000,
    ensures
        q == (a + b - 1) as int / b as int,
        0 <= q <= a,
        b * q >= a,
        b * q <= a + b - 1,
{
    let bu = b as u64;
    let qn = (a as u64) / bu;
    let rn = (a as u64) % bu;
    proof {
        assert(a as u64 == bu * qn + rn && rn < bu) by {
            lemma_fundamental_div_mod(a as int, bu as int);
        }
        assert(qn as int <= qn as int * b as int) by (nonlinear_arith)
            requires qn >= 0 && b >= 1;
    }
    if rn == 0 {
        proof {
            assert((a + b - 1) as int == qn as int * b + (b - 1)) by (nonlinear_arith)
                requires a as int == bu * qn && rn == 0 && b == bu;
            lemma_fundamental_div_mod_converse(
                (a + b - 1) as int,
                b as int,
                qn as int,
                b as int - 1,
            );
            assert(b * qn >= a && b * qn <= a + b - 1) by (nonlinear_arith)
                requires a as int == bu * qn && b == bu && b >= 1;
        }
        qn as i64
    } else {
        proof {
            assert((a + b - 1) as int == (qn as int + 1) * b + (rn - 1)) by (nonlinear_arith)
                requires a as int == bu * qn + rn && 0 < rn < bu && b == bu;
            lemma_fundamental_div_mod_converse(
                (a + b - 1) as int,
                b as int,
                qn as int + 1,
                rn as int - 1,
            );
            assert(b * (qn + 1) >= a && b * (qn + 1) <= a + b - 1 && qn + 1 <= a)
                by (nonlinear_arith)
                requires a as int == bu * qn + rn && 0 < rn < bu && b == bu && b >= 1
                    && qn as int <= qn as int * b as int;
        }
        qn as i64 + 1
    }
}

// ------------------------------------------------------------------
// Mesh bounds.
// ------------------------------------------------------------------

/// Componentwise minimum of two vectors.
fn cmin_exec(a: Vec3i, b: Vec3i) -> (r: Vec3i)
    ensures
        r.gv() == a.gv().cmin(b.gv()),
{
    Vec3i {
        x: if a.x < b.x { a.x } else { b.x },
        y: if a.y < b.y { a.y } else { b.y },
        z: if a.z < b.z { a.z } else { b.z },
    }
}

/// Componentwise maximum of two vectors.
fn cmax_exec(a: Vec3i, b: Vec3i) -> (r: Vec3i)
    ensures
        r.gv() == a.gv().cmax(b.gv()),
{
    Vec3i {
        x: if a.x > b.x { a.x } else { b.x },
        y: if a.y > b.y { a.y } else { b.y },
        z: if a.z > b.z { a.z } else { b.z },
    }
}

/// Componentwise minimum over the three vertex positions of a triangle.
fn tri_min_exec(t: &Triangle) -> (r: Vec3i)
    ensures
        r.gv() == t.pos_min(),
{
    cmin_exec(cmin_exec(t.v0.position, t.v1.position), t.v2.position)
}

/// Componentwise maximum over the three vertex positions of a triangle.
fn tri_max_exec(t: &Triangle) -> (r: Vec3i)
    ensures
        r.gv() == t.pos_max(),
{
    cmax_exec(cmax_exec(t.v0.position, t.v1.position), t.v2.position)
}

/// Maximum of three machine integers.
fn max3_exec(a: i64, b: i64, c: i64) -> (r: i64)
    ensures
        r == vstd::math::max3(a as int, b as int, c as int),
{
    let mut m = a;
    if b > m {
        m = b;
    }
    if c > m {
        m = c;
    }
    m
}

/// The mesh bounds of a valid mesh stay within the coordinate limit, and
/// the minimum never exceeds the maximum.
proof fn lemma_mesh_bounds_props(tris: Seq<Triangle>)
    requires
        tris.len() >= 1,
        forall|i: int| 0 <= i < tris.len() ==> (#[trigger] tris[i]).valid(),
    ensures
        mesh_min(tris).bounded(COORD_LIMIT as int),
        mesh_max(tris).bounded(COORD_LIMIT as int),
        mesh_min(tris).x <= mesh_max(tris).x,
        mesh_min(tris).y <= mesh_max(tris).y,
        mesh_min(tris).z <= mesh_max(tris).z,
        0 <= mesh_extent(tris) <= 2 * COORD_LIMIT,
    decreases tris.len(),
{
    if tris.len() == 1 {
        assert(tris[0].valid());
    } else {
        assert(forall|i: int|
            0 <= i < tris.drop_last().len() ==> (#[trigger] tris.drop_last()[i]).valid());
        lemma_mesh_bounds_props(tris.drop_last());
        assert(tris.last().valid());
    }
}

/// Computes the componentwise bounding box of all vertex positions.
fn mesh_bounds(tris: &Vec<Triangle>) -> (r: (Vec3i, Vec3i))
    requires
        tris@.len() >= 1,
        forall|i: int| 0 <= i < tris@.len() ==> (#[trigger] tris@[i]).valid(),
    ensures
        r.0.gv() == mesh_min(tris@),
        r.1.gv() == mesh_max(tris@),
{
    let mut mn = tri_min_exec(&tris[0]);
    let mut mx = tri_max_exec(&tris[0]);
    let n = tris.len();
    let mut i: usize = 1;
    proof {
        assert(tris@.take(1)[0] == tris@[0]);
    }
    while i < n
        invariant
            1 <= i <= n,
            n == tris@.len(),
            forall|j: int| 0 <= j < tris@.len() ==> (#[trigger] tris@[j]).valid(),
            mn.gv() == mesh_min(tris@.take(i as int)),
            mx.gv() == mesh_max(tris@.take(i as int)),
        decreases n - i,
    {
        mn = cmin_exec(mn, tri_min_exec(&tris[i]));
        mx = cmax_exec(mx, tri_max_exec(&tris[i]));
        proof {
            let pre = tris@.take(i as int);
            let cur = tris@.take(i as int + 1);
            assert(cur.drop_last() =~= pre);
            assert(cur.last() == tris@[i as int]);
        }
        i = i + 1;
    }
    proof {
        assert(tris@.take(n as int) =~= tris@);
    }
    (mn, mx)
}

// ------------------------------------------------------------------
// Packing: from the ordered dedup set to the dense grid + voxel list.
// ------------------------------------------------------------------

/// Position `p` occurs among the first `k` voxels of `s`.
pub open spec fn prefix_has(s: Seq<Voxel>, k: int, p: GVec) -> bool {
    exists|i: int| 0 <= i < k && (#[trigger] s[i].position.gv()) == p
}

/// The color of the voxel of `s` at position `p`.
pub open spec fn vox_color(s: Seq<Voxel>, p: GVec) -> GVec {
    s[vox_index(s, p)].color.gv()
}

/// A grid cell's dense index lies below `r^3`.
proof fn lemma_gidx_range(r: int, x: int, y: int, z: int)
    by (nonlinear_arith)
    requires
        0 <= x < r,
        0 <= y < r,
        0 <= z < r,
    ensures
        0 <= z * r * r + y * r + x < r * r * r,
{
}

/// Distinct grid cells have distinct dense indices.
proof fn lemma_gidx_inj(r: int, x: int, y: int, z: int, x2: int, y2: int, z2: int)
    by (nonlinear_arith)
    requires
        0 <= x < r,
        0 <= y < r,
        0 <= z < r,
        0 <= x2 < r,
        0 <= y2 < r,
        0 <= z2 < r,
        z * r * r + y * r + x == z2 * r * r + y2 * r + x2,
    ensures
        x == x2,
        y == y2,
        z == z2,
{
}

/// Pulls the deduplicated voxels out of the ordered set into contiguous
/// storage, filling the dense state grid with each voxel's index.
///
/// A set entry whose position lies outside the grid (a diagnostic overflow
/// cell recorded during candidate testing) is discarded here: the finished
/// map only ever indexes real grid cells, so such entries can appear in no
/// state word.  This makes the out-of-range case explicit instead of
/// leaving an inconsistent grid behind.
#[verifier::loop_isolation(false)]
fn pack(set: VoxelSet, res: u32, ext: i64) -> (m: VoxelMap)
    requires
        set.wf(),
        1 <= res <= RES_LIMIT,
        1 <= ext <= 2 * COORD_LIMIT,
        forall|i: int|
            0 <= i < set.items@.len() ==> (#[trigger] set.items@[i].position.gv()).bounded(
                0x100_0000_0000,
            ),
    ensures
        m.wf(),
        m.resolution == res,
        m.extent == ext,
        forall|x: int, y: int, z: int|
            #![trigger m.has_voxel(cpos(res as int, x, y, z))]
            m.has_voxel(cpos(res as int, x, y, z)) <==> (set.contains_pos(
                cpos(res as int, x, y, z),
            ) && cell_in_grid(res as int, x, y, z)),
        forall|x: int, y: int, z: int|
            #![trigger m.color_at(cpos(res as int, x, y, z))]
            m.has_voxel(cpos(res as int, x, y, z)) ==> m.color_at(cpos(res as int, x, y, z))
                == set.color_of(cpos(res as int, x, y, z)),
{
    let ghost rr: int = res as int;
    let r64: i64 = res as i64;
    let rhalf: i64 = (res / 2) as i64;
    let rp: usize = (res as usize) + 1;
    proof {
        assert(rp * rp <= 1025 * 1025) by (nonlinear_arith)
            requires 0 <= rp <= 1025;
        assert(rp * (rp * rp) <= 1025 * 1050625) by (nonlinear_arith)
            requires 0 <= rp <= 1025 && rp * rp <= 1050625;
    }
    let total: usize = rp * (rp * rp);
    proof {
        assert(total == (rr + 1) * (rr + 1) * (rr + 1)) by (nonlinear_arith)
            requires rp == rr + 1 && total == rp * (rp * rp);
        assert(rr * rr * rr < total) by (nonlinear_arith)
            requires 1 <= rr && total == (rr + 1) * (rr + 1) * (rr + 1);
        assert(rr * rr * rr <= 1024 * 1024 * 1024) by (nonlinear_arith)
            requires 1 <= rr <= 1024;
        lemma_int_range(0, rr * rr * rr);
    }

    let mut states: Vec<u32> = Vec::new();
    while states.len() < total
        invariant
            states@.len() <= total,
            forall|q: int| 0 <= q < states@.len() ==> states@[q] == 0,
        decreases total - states@.len(),
    {
        states.push(0);
    }

    let mut voxels: Vec<Voxel> = Vec::new();
    let ghost mut used: Set<int> = Set::empty();
    proof {
        assert forall|x: int, y: int, z: int|
            cell_in_grid(rr, x, y, z) implies 0 <= gidx(rr, x, y, z) < rr * rr * rr by {
            lemma_gidx_range(rr, x, y, z);
        }
    }
    let items_len = set.items.len();
    let mut k: usize = 0;
    while k < items_len
        invariant
            0 <= k <= items_len,
            states@.len() == total,
            forall|x: int, y: int, z: int|
                cell_in_grid(rr, x, y, z) ==> (#[trigger] states@[gidx(rr, x, y, z)]) as int == (
                if vox_has(voxels@, cpos(rr, x, y, z)) {
                    vox_index(voxels@, cpos(rr, x, y, z)) + VISIBLE_BIT
                } else {
                    0
                }),
            forall|q: int| rr * rr * rr <= q < states@.len() ==> states@[q] == 0,
            vox_sorted(voxels@),
            forall|j: int|
                0 <= j < voxels@.len() ==> exists|mi: int|
                    0 <= mi < k && set.items@[mi] == (#[trigger] voxels@[j]),
            forall|j: int|
                0 <= j < voxels@.len() ==> cell_in_grid(
                    rr,
                    (#[trigger] voxels@[j].position.gv()).x + rr / 2,
                    voxels@[j].position.gv().y + rr / 2,
                    voxels@[j].position.gv().z + rr / 2,
                ),
            forall|x: int, y: int, z: int|
                #![trigger vox_has(voxels@, cpos(rr, x, y, z))]
                vox_has(voxels@, cpos(rr, x, y, z)) <==> (prefix_has(
                    set.items@,
                    k as int,
                    cpos(rr, x, y, z),
                ) && cell_in_grid(rr, x, y, z)),
            forall|x: int, y: int, z: int|
                #![trigger vox_color(voxels@, cpos(rr, x, y, z))]
                vox_has(voxels@, cpos(rr, x, y, z)) ==> vox_color(voxels@, cpos(rr, x, y, z))
                    == set.color_of(cpos(rr, x, y, z)),
            used.finite(),
            used.subset_of(set_int_range(0, rr * rr * rr)),
            used.len() == voxels@.len(),
            forall|x: int, y: int, z: int|
                cell_in_grid(rr, x, y, z) ==> ((#[trigger] used.contains(gidx(rr, x, y, z)))
                    <==> vox_has(voxels@, cpos(rr, x, y, z))),
        decreases items_len - k,
    {
        let item = set.items[k];
        proof {
            assert(set.items@[k as int].position.gv().bounded(0x100_0000_0000));
        }
        let cx = item.position.x + rhalf;
        let cy = item.position.y + rhalf;
        let cz = item.position.z + rhalf;
        proof {
            assert(item.position.gv() == cpos(rr, cx as int, cy as int, cz as int));
        }
        if 0 <= cx && cx < r64 && 0 <= cy && cy < r64 && 0 <= cz && cz < r64 {
            let ghost cell = cpos(rr, cx as int, cy as int, cz as int);
            proof {
                lemma_gidx_range(rr, cx as int, cy as int, cz as int);
                lemma_len_subset(used, set_int_range(0, rr * rr * rr));
                // This position is new: the set is strictly sorted, so no
                // earlier entry shares it.
                if prefix_has(set.items@, k as int, cell) {
                    let mi = choose|mi: int|
                        0 <= mi < k && (#[trigger] set.items@[mi].position.gv()) == cell;
                    assert(lex_lt(set.items@[mi].position.gv(), set.items@[k as int].position.gv()));
                    assert(false);
                }
                assert(!vox_has(voxels@, cell));
            }
            proof {
                assert(r64 * r64 <= 1048576 && 0 <= cz * (r64 * r64) <= 1073741824 && 0 <= cy
                    * r64 <= 1048576 && cz * (r64 * r64) + cy * r64 + cx == gidx(
                    rr,
                    cx as int,
                    cy as int,
                    cz as int,
                )) by (nonlinear_arith)
                    requires
                        0 <= cx < r64,
                        0 <= cy < r64,
                        0 <= cz < r64,
                        1 <= r64 <= 1024,
                        rr == r64,
                ;
            }
            let idx = (cz * (r64 * r64) + cy * r64 + cx) as usize;
            let vlen32 = voxels.len() as u32;
            let w: u32 = vlen32 | VISIBLE_BIT;
            proof {
                assert((vlen32 | 0x8000_0000u32) == vlen32 + 0x8000_0000u32) by (bit_vector)
                    requires vlen32 < 0x8000_0000u32;
            }
            let ghost old_voxels = voxels@;
            let ghost old_states = states@;
            let ghost old_used = used;
            states.set(idx, w);
            voxels.push(item);
            proof {
                used = used.insert(idx as int);
                let nv = voxels@;
                assert(nv == old_voxels.push(item));
                assert(nv[old_voxels.len() as int] == item);
                // Sorted: everything already packed comes from an earlier,
                // strictly smaller, set entry.
                assert forall|a: int, b: int| 0 <= a < b < nv.len() implies lex_lt(
                    (#[trigger] nv[a].position.gv()),
                    (#[trigger] nv[b].position.gv()),
                ) by {
                    if b == nv.len() - 1 {
                        let mi = choose|mi: int|
                            0 <= mi < k && set.items@[mi] == (#[trigger] old_voxels[a]);
                        assert(lex_lt(
                            set.items@[mi].position.gv(),
                            set.items@[k as int].position.gv(),
                        ));
                    }
                }
                // Membership: the new sequence holds exactly the old
                // positions plus this cell.
                assert forall|x: int, y: int, z: int| #![trigger vox_has(nv, cpos(rr, x, y, z))]
                    vox_has(nv, cpos(rr, x, y, z)) <==> (prefix_has(
                    set.items@,
                    k as int + 1,
                    cpos(rr, x, y, z),
                ) && cell_in_grid(rr, x, y, z)) by {
                    let p = cpos(rr, x, y, z);
                    if vox_has(nv, p) {
                        let i = choose|i: int|
                            0 <= i < nv.len() && (#[trigger] nv[i].position.gv()) == p;
                        if i < old_voxels.len() {
                            assert(old_voxels[i].position.gv() == p);
                            assert(vox_has(old_voxels, p));
                        } else {
                            assert(p == cell);
                            assert(set.items@[k as int].position.gv() == p);
                        }
                    }
                    if prefix_has(set.items@, k as int + 1, p) && cell_in_grid(rr, x, y, z) {
                        let mi = choose|mi: int|
                            0 <= mi < k + 1 && (#[trigger] set.items@[mi].position.gv()) == p;
                        if mi < k {
                            assert(vox_has(old_voxels, p));
                            let i = choose|i: int|
                                0 <= i < old_voxels.len() && (#[trigger] old_voxels[i].position.gv())
                                    == p;
                            assert(nv[i].position.gv() == p);
                        } else {
                            assert(nv[old_voxels.len() as int].position.gv() == p);
                        }
                    }
                    if vox_has(old_voxels, p) {
                        let i = choose|i: int|
                            0 <= i < old_voxels.len() && (#[trigger] old_voxels[i].position.gv())
                                == p;
                        assert(nv[i].position.gv() == p);
                    }
                }
                lemma_vox_index_unique(nv, cell);
                assert(vox_index(nv, cell) == old_voxels.len());
                // Colors and state words for positions that were already
                // packed keep their value; the new cell gets this voxel.
                assert forall|x: int, y: int, z: int|
                    cell_in_grid(rr, x, y, z) implies (#[trigger] states@[gidx(rr, x, y, z)]) as int
                    == (if vox_has(nv, cpos(rr, x, y, z)) {
                    vox_index(nv, cpos(rr, x, y, z)) + VISIBLE_BIT
                } else {
                    0
                }) by {
                    let p = cpos(rr, x, y, z);
                    if x == cx as int && y == cy as int && z == cz as int {
                        assert(gidx(rr, x, y, z) == idx as int);
                        assert(states@[gidx(rr, x, y, z)] == w);
                    } else {
                        lemma_gidx_range(rr, x, y, z);
                        if gidx(rr, x, y, z) == idx as int {
                            lemma_gidx_inj(rr, x, y, z, cx as int, cy as int, cz as int);
                            assert(false);
                        }
                        assert(states@[gidx(rr, x, y, z)] == old_states[gidx(rr, x, y, z)]);
                        assert(p != cell);
                        if vox_has(nv, p) {
                            lemma_vox_index_unique(nv, p);
                            let i = choose|i: int|
                                0 <= i < old_voxels.len() && (#[trigger] old_voxels[i].position.gv())
                                    == p;
                            assert(vox_has(old_voxels, p));
                            lemma_vox_index_unique(old_voxels, p);
                            assert(nv[vox_index(old_voxels, p)].position.gv() == p);
                            assert(vox_index(nv, p) == vox_index(old_voxels, p));
                        } else {
                            assert(!vox_has(old_voxels, p));
                        }
                    }
                }
                assert forall|x: int, y: int, z: int|
                    #![trigger vox_color(nv, cpos(rr, x, y, z))]
                    vox_has(nv, cpos(rr, x, y, z)) implies vox_color(nv, cpos(rr, x, y, z))
                    == set.color_of(cpos(rr, x, y, z)) by {
                    let p = cpos(rr, x, y, z);
                    lemma_vox_index_unique(nv, p);
                    if p == cell {
                        lemma_find_unique(set, p);
                        assert(set.items@[k as int].position.gv() == p);
                        assert(set.index_of(p) == k as int);
                        assert(vox_index(nv, p) == old_voxels.len());
                    } else {
                        assert(vox_has(old_voxels, p));
                        lemma_vox_index_unique(old_voxels, p);
                        assert(nv[vox_index(old_voxels, p)].position.gv() == p);
                        assert(vox_index(nv, p) == vox_index(old_voxels, p));
                        assert(vox_color(old_voxels, p) == set.color_of(p));
                    }
                }
                // The ghost index set gains exactly this cell's index.
                assert(!old_used.contains(idx as int));
                assert(used.len() == nv.len());
                assert forall|x: int, y: int, z: int|
                    cell_in_grid(rr, x, y, z) implies ((#[trigger] used.contains(gidx(rr, x, y, z)))
                    <==> vox_has(nv, cpos(rr, x, y, z))) by {
                    if x == cx as int && y == cy as int && z == cz as int {
                    } else {
                        lemma_gidx_range(rr, x, y, z);
                        if gidx(rr, x, y, z) == idx as int {
                            lemma_gidx_inj(rr, x, y, z, cx as int, cy as int, cz as int);
                        }
                        assert(cpos(rr, x, y, z) != cell);
                    }
                }
                // Every packed voxel still stems from the processed prefix.
                assert forall|j: int| 0 <= j < nv.len() implies exists|mi: int|
                    0 <= mi < k + 1 && set.items@[mi] == (#[trigger] nv[j]) by {
                    if j < old_voxels.len() {
                        let mi = choose|mi: int|
                            0 <= mi < k && set.items@[mi] == (#[trigger] old_voxels[j]);
                        assert(set.items@[mi] == nv[j]);
                    } else {
                        assert(set.items@[k as int] == nv[j]);
                    }
                }
            }
        } else {
            proof {
                let ghost cell = cpos(rr, cx as int, cy as int, cz as int);
                assert(!cell_in_grid(rr, cx as int, cy as int, cz as int));
                assert forall|x: int, y: int, z: int|
                    #![trigger vox_has(voxels@, cpos(rr, x, y, z))]
                    vox_has(voxels@, cpos(rr, x, y, z)) <==> (prefix_has(
                    set.items@,
                    k as int + 1,
                    cpos(rr, x, y, z),
                ) && cell_in_grid(rr, x, y, z)) by {
                    let p = cpos(rr, x, y, z);
                    if prefix_has(set.items@, k as int + 1, p) && cell_in_grid(rr, x, y, z) {
                        let mi = choose|mi: int|
                            0 <= mi < k + 1 && (#[trigger] set.items@[mi].position.gv()) == p;
                        if mi == k {
                            assert(p == cell);
                            assert(x == cx as int && y == cy as int && z == cz as int);
                            assert(false);
                        }
                    }
                    if vox_has(voxels@, p) {
                        assert(prefix_has(set.items@, k as int, p));
                        let mi = choose|mi: int|
                            0 <= mi < k && (#[trigger] set.items@[mi].position.gv()) == p;
                        assert(0 <= mi < k + 1 && set.items@[mi].position.gv() == p);
                    }
                }
                assert forall|j: int| 0 <= j < voxels@.len() implies exists|mi: int|
                    0 <= mi < k + 1 && set.items@[mi] == (#[trigger] voxels@[j]) by {
                    let mi = choose|mi: int|
                        0 <= mi < k && set.items@[mi] == (#[trigger] voxels@[j]);
                    assert(0 <= mi < k + 1 && set.items@[mi] == voxels@[j]);
                }
            }
        }
        k += 1;
    }
    let m = VoxelMap { resolution: res, extent: ext, states, voxels };
    proof {
        lemma_len_subset(used, set_int_range(0, rr * rr * rr));
        assert forall|x: int, y: int, z: int|
            #![trigger m.has_voxel(cpos(rr, x, y, z))]
            m.has_voxel(cpos(rr, x, y, z)) <==> (set.contains_pos(cpos(rr, x, y, z))
                && cell_in_grid(rr, x, y, z)) by {
            assert(vox_has(m.voxels@, cpos(rr, x, y, z)) <==> (prefix_has(
                set.items@,
                items_len as int,
                cpos(rr, x, y, z),
            ) && cell_in_grid(rr, x, y, z)));
        }
        assert forall|x: int, y: int, z: int|
            cell_in_grid(rr, x, y, z) implies (#[trigger] m.state_at(x, y, z)) as int == (
        if vox_has(m.voxels@, cpos(rr, x, y, z)) {
            vox_index(m.voxels@, cpos(rr, x, y, z)) + VISIBLE_BIT
        } else {
            0
        }) by {
            lemma_gidx_range(rr, x, y, z);
            assert(m.state_at(x, y, z) == m.states@[gidx(rr, x, y, z)]);
        }
        assert(m.wf());
    }
    m
}

// ------------------------------------------------------------------
// The voxelization driver.
// ------------------------------------------------------------------

/// A component within magnitude `m`, scaled by `0 <= k <= mk`, stays
/// within `m * mk`.
proof fn lemma_scale_bound(v: GVec, k: int, m: int, mk: int)
    by (nonlinear_arith)
    requires
        v.bounded(m),
        0 <= k <= mk,
        0 <= m,
    ensures
        v.scale(k).bounded(m * mk),
{
}

/// Cell `(a, b, c)` of triangle `t`'s candidate box has already been
/// examined when the traversal (z outermost, then y, then x) stands at
/// `(x, y, z)`.
spec fn visited(t: Triangle, r: int, e: int, a: int, b: int, c: int, x: int, y: int, z: int) -> bool {
    &&& in_candidate(t, r, e, a, b, c)
    &&& (c < z || (c == z && (b < y || (b == y && a < x))))
}

/// Mid-traversal contents of the dedup set: cells claimed by an earlier
/// triangle, plus cells of the current triangle already examined and hit.
spec fn claimed(
    pre: Seq<Triangle>,
    t: Triangle,
    r: int,
    e: int,
    a: int,
    b: int,
    c: int,
    x: int,
    y: int,
    z: int,
) -> bool {
    ||| hit_any(pre, r, e, a, b, c)
    ||| (tri_hit(t, r, e, a, b, c) && visited(t, r, e, a, b, c, x, y, z))
}

/// Everything `VoxelMap::new` promises of its result.
pub open spec fn voxelize_post(tris: Seq<Triangle>, res: u32, r: Result<VoxelMap, VoxelError>) -> bool {
    let rr = res as int;
    let e = mesh_extent(tris);
    &&& (r == Err::<VoxelMap, VoxelError>(VoxelError::EmptyInput) <==> tris.len() == 0)
    &&& (r == Err::<VoxelMap, VoxelError>(VoxelError::ZeroExtent) <==> (tris.len() > 0 && e == 0))
    &&& match r {
        Ok(m) => {
            &&& tris.len() > 0
            &&& e >= 1
            &&& m.wf()
            &&& m.resolution == res
            &&& m.extent == e
            &&& forall|x: int, y: int, z: int|
                #![trigger m.has_voxel(cpos(rr, x, y, z))]
                m.has_voxel(cpos(rr, x, y, z)) <==> (hit_any(tris, rr, e, x, y, z)
                    && cell_in_grid(rr, x, y, z))
            &&& forall|x: int, y: int, z: int|
                #![trigger m.color_at(cpos(rr, x, y, z))]
                m.has_voxel(cpos(rr, x, y, z)) ==> m.color_at(cpos(rr, x, y, z)) == model_color(
                    tris,
                    rr,
                    e,
                    x,
                    y,
                    z,
                )
        },
        Err(_) => true,
    }
}
/// Examines one candidate cell: runs the intersection test against the
/// scaled triangle `st` and records a hit in the dedup set, advancing the
/// traversal from `(x, y, z)` to the next cell along the x axis.
#[verifier::rlimit(100)]
fn visit_cell(
    set: &mut VoxelSet,
    t: Triangle,
    st: &Triangle,
    center: Vec3i,
    res: u32,
    ext: i64,
    x: i64,
    y: i64,
    z: i64,
    Ghost(pre): Ghost<Seq<Triangle>>,
)
    requires
        old(set).wf(),
        t.valid(),
        1 <= res <= RES_LIMIT,
        1 <= ext <= 2 * COORD_LIMIT,
        st.v0.position.gv() == t.v0.position.gv().scale(2 * res as int),
        st.v1.position.gv() == t.v1.position.gv().scale(2 * res as int),
        st.v2.position.gv() == t.v2.position.gv().scale(2 * res as int),
        center.gv() == (GVec {
            x: cell_center(x as int, res as int, ext as int),
            y: cell_center(y as int, res as int, ext as int),
            z: cell_center(z as int, res as int, ext as int),
        }),
        center.gv().bounded(SAT_LIMIT as int),
        in_candidate(t, res as int, ext as int, x as int, y as int, z as int),
        -0x10_0000_0000 <= x <= 0x10_0000_0000,
        -0x10_0000_0000 <= y <= 0x10_0000_0000,
        -0x10_0000_0000 <= z <= 0x10_0000_0000,
        forall|a: int, b: int, c: int|
            #![trigger old(set).contains_pos(cpos(res as int, a, b, c))]
            old(set).contains_pos(cpos(res as int, a, b, c)) <==> claimed(
                pre,
                t,
                res as int,
                ext as int,
                a,
                b,
                c,
                x as int,
                y as int,
                z as int,
            ),
        forall|a: int, b: int, c: int|
            #![trigger old(set).color_of(cpos(res as int, a, b, c))]
            old(set).contains_pos(cpos(res as int, a, b, c)) ==> old(set).color_of(
                cpos(res as int, a, b, c),
            ) == model_color(pre.push(t), res as int, ext as int, a, b, c),
        forall|i: int|
            0 <= i < old(set).items@.len() ==> (
            #[trigger] old(set).items@[i].position.gv()).bounded(0x100_0000_0000),
    ensures
        final(set).wf(),
        forall|a: int, b: int, c: int|
            #![trigger final(set).contains_pos(cpos(res as int, a, b, c))]
            final(set).contains_pos(cpos(res as int, a, b, c)) <==> claimed(
                pre,
                t,
                res as int,
                ext as int,
                a,
                b,
                c,
                x as int + 1,
                y as int,
                z as int,
            ),
        forall|a: int, b: int, c: int|
            #![trigger final(set).color_of(cpos(res as int, a, b, c))]
            final(set).contains_pos(cpos(res as int, a, b, c)) ==> final(set).color_of(
                cpos(res as int, a, b, c),
            ) == model_color(pre.push(t), res as int, ext as int, a, b, c),
        forall|i: int|
            0 <= i < final(set).items@.len() ==> (
            #[trigger] final(set).items@[i].position.gv()).bounded(0x100_0000_0000),
{
    let ghost rr: int = res as int;
    let ghost ee: int = ext as int;
    let ghost cur: Seq<Triangle> = pre.push(t);
    let r64: i64 = res as i64;
    let rhalf: i64 = (res / 2) as i64;
    let ce: i64 = 2 * ext;
    proof {
        assert(cur.drop_last() =~= pre);
        assert(cur.last() == t);
        lemma_scale_bound(t.v0.position.gv(), 2 * rr, COORD_LIMIT as int, 2048);
        lemma_scale_bound(t.v1.position.gv(), 2 * rr, COORD_LIMIT as int, 2048);
        lemma_scale_bound(t.v2.position.gv(), 2 * rr, COORD_LIMIT as int, 2048);
    }
    if intersects(center, ce, st) {
        proof {
            assert(tri_hit(t, rr, ee, x as int, y as int, z as int));
        }
        let crr = t.v0.color.x + t.v1.color.x + t.v2.color.x;
        let cgg = t.v0.color.y + t.v1.color.y + t.v2.color.y;
        let cbb = t.v0.color.z + t.v1.color.z + t.v2.color.z;
        let in_grid = 0 <= x && x < r64 && 0 <= y && y < r64 && 0 <= z && z < r64;
        let col = if in_grid {
            Vec3i { x: crr, y: cgg, z: cbb }
        } else {
            Vec3i { x: COLOR_SCALE, y: 0, z: 0 }
        };
        let pos = Vec3i { x: x - rhalf, y: y - rhalf, z: z - rhalf };
        proof {
            assert(col.gv() == hit_color(t, rr, x as int, y as int, z as int));
            assert(pos.gv() == cpos(rr, x as int, y as int, z as int));
        }
        let ghost old_set = *set;
        set.insert(Voxel { position: pos, color: col });
        proof {
            let gx = x as int;
            let gy = y as int;
            let gz = z as int;
            let gp = cpos(rr, gx, gy, gz);
            assert forall|a: int, b: int, c: int|
                #![trigger set.contains_pos(cpos(rr, a, b, c))]
                set.contains_pos(cpos(rr, a, b, c)) <==> claimed(
                pre,
                t,
                rr,
                ee,
                a,
                b,
                c,
                gx + 1,
                gy,
                gz,
            ) by {
                let p = cpos(rr, a, b, c);
                if p == gp {
                    assert(a == gx && b == gy && c == gz);
                }
                assert(old_set.contains_pos(p) <==> claimed(pre, t, rr, ee, a, b, c, gx, gy, gz));
            }
            assert forall|a: int, b: int, c: int|
                #![trigger set.color_of(cpos(rr, a, b, c))]
                set.contains_pos(cpos(rr, a, b, c)) implies set.color_of(cpos(rr, a, b, c))
                == model_color(cur, rr, ee, a, b, c) by {
                let p = cpos(rr, a, b, c);
                if p == gp {
                    assert(a == gx && b == gy && c == gz);
                    if old_set.contains_pos(p) {
                        assert(set.color_of(p) == old_set.color_of(p));
                    } else {
                        assert(!hit_any(pre, rr, ee, a, b, c));
                        assert(set.color_of(p) == col.gv());
                        assert(model_color(cur, rr, ee, a, b, c) == hit_color(t, rr, a, b, c));
                    }
                } else {
                    assert(old_set.contains_pos(p));
                    assert(set.color_of(p) == old_set.color_of(p));
                }
            }
            assert forall|i: int| 0 <= i < set.items@.len() implies (
            #[trigger] set.items@[i].position.gv()).bounded(0x100_0000_0000) by {
                if set.items@[i] == (Voxel { position: pos, color: col }) {
                } else {
                    let j = choose|j: int|
                        0 <= j < old_set.items@.len() && old_set.items@[j] == set.items@[i];
                    assert(old_set.items@[j].position.gv().bounded(0x100_0000_0000));
                }
            }
        }
    } else {
        proof {
            assert(!tri_hit(t, rr, ee, x as int, y as int, z as int));
            assert forall|a: int, b: int, c: int|
                #![trigger set.contains_pos(cpos(rr, a, b, c))]
                set.contains_pos(cpos(rr, a, b, c)) <==> claimed(
                pre,
                t,
                rr,
                ee,
                a,
                b,
                c,
                x as int + 1,
                y as int,
                z as int,
            ) by {}
        }
    }
}

/// Walks one triangle's candidate cells, inserting every hit into the
/// dedup set, and leaves the set describing `pre.push(t)`.
#[verifier::loop_isolation(false)]
#[verifier::rlimit(100)]
fn process_triangle(
    set: &mut VoxelSet,
    t: Triangle,
    res: u32,
    ext: i64,
    Ghost(pre): Ghost<Seq<Triangle>>,
)
    requires
        old(set).wf(),
        t.valid(),
        1 <= res <= RES_LIMIT,
        1 <= ext <= 2 * COORD_LIMIT,
        forall|a: int, b: int, c: int|
            #![trigger old(set).contains_pos(cpos(res as int, a, b, c))]
            old(set).contains_pos(cpos(res as int, a, b, c)) <==> hit_any(
                pre,
                res as int,
                ext as int,
                a,
                b,
                c,
            ),
        forall|a: int, b: int, c: int|
            #![trigger old(set).color_of(cpos(res as int, a, b, c))]
            old(set).contains_pos(cpos(res as int, a, b, c)) ==> old(set).color_of(
                cpos(res as int, a, b, c),
            ) == model_color(pre, res as int, ext as int, a, b, c),
        forall|i: int|
            0 <= i < old(set).items@.len() ==> (
            #[trigger] old(set).items@[i].position.gv()).bounded(0x100_0000_0000),
    ensures
        final(set).wf(),
        forall|a: int, b: int, c: int|
            #![trigger final(set).contains_pos(cpos(res as int, a, b, c))]
            final(set).contains_pos(cpos(res as int, a, b, c)) <==> hit_any(
                pre.push(t),
                res as int,
                ext as int,
                a,
                b,
                c,
            ),
        forall|a: int, b: int, c: int|
            #![trigger final(set).color_of(cpos(res as int, a, b, c))]
            final(set).contains_pos(cpos(res as int, a, b, c)) ==> final(set).color_of(
                cpos(res as int, a, b, c),
            ) == model_color(pre.push(t), res as int, ext as int, a, b, c),
        forall|i: int|
            0 <= i < final(set).items@.len() ==> (
            #[trigger] final(set).items@[i].position.gv()).bounded(0x100_0000_0000),
{
    let ghost rr: int = res as int;
    let ghost ee: int = ext as int;
    let ghost cur: Seq<Triangle> = pre.push(t);
    let r64: i64 = res as i64;
    let two_r: i64 = 2 * r64;
    let rhalf: i64 = (res / 2) as i64;
    let ce: i64 = 2 * ext;
    proof {
        assert(cur.drop_last() =~= pre);
        assert(cur.last() == t);
        lemma_scale_bound(t.v0.position.gv(), two_r as int, COORD_LIMIT as int, 2048);
        lemma_scale_bound(t.v1.position.gv(), two_r as int, COORD_LIMIT as int, 2048);
        lemma_scale_bound(t.v2.position.gv(), two_r as int, COORD_LIMIT as int, 2048);
    }
    let p0s = t.v0.position.scale(two_r);
    let p1s = t.v1.position.scale(two_r);
    let p2s = t.v2.position.scale(two_r);
    let st = Triangle {
        v0: TriVertex { position: p0s, color: t.v0.color },
        v1: TriVertex { position: p1s, color: t.v1.color },
        v2: TriVertex { position: p2s, color: t.v2.color },
    };
    let pmn = tri_min_exec(&t);
    let pmx = tri_max_exec(&t);
    proof {
        lemma_scale_bound(pmn.gv(), two_r as int, COORD_LIMIT as int, 2048);
        lemma_scale_bound(pmx.gv(), two_r as int, COORD_LIMIT as int, 2048);
        assert(0 <= r64 * ext <= 1024 * 2097152 && 0 <= (r64 - 1) * ext <= 1024 * 2097152)
            by (nonlinear_arith)
            requires 1 <= r64 <= 1024 && 1 <= ext <= 2097152;
        assert(pmn.gv().scale(two_r as int).x == pmn.x as int * two_r as int);
        assert(pmn.gv().scale(two_r as int).y == pmn.y as int * two_r as int);
        assert(pmn.gv().scale(two_r as int).z == pmn.z as int * two_r as int);
        assert(pmx.gv().scale(two_r as int).x == pmx.x as int * two_r as int);
        assert(pmx.gv().scale(two_r as int).y == pmx.y as int * two_r as int);
        assert(pmx.gv().scale(two_r as int).z == pmx.z as int * two_r as int);
        assert(t.v0.position.gv().scale(two_r as int).x == t.v0.position.x as int * two_r as int);
        assert(t.v0.position.gv().scale(two_r as int).y == t.v0.position.y as int * two_r as int);
        assert(t.v0.position.gv().scale(two_r as int).z == t.v0.position.z as int * two_r as int);
    }
    let lo_x = pmn.x * two_r - ext;
    let lo_y = pmn.y * two_r - ext;
    let lo_z = pmn.z * two_r - ext;
    let hi_x = {
        let a = t.v0.position.x * two_r;
        let b = pmx.x * two_r - ext;
        if a > b { a } else { b }
    };
    let hi_y = {
        let a = t.v0.position.y * two_r;
        let b = pmx.y * two_r - ext;
        if a > b { a } else { b }
    };
    let hi_z = {
        let a = t.v0.position.z * two_r;
        let b = pmx.z * two_r - ext;
        if a > b { a } else { b }
    };
    proof {
        assert(lo_x == tri_lo(t, rr, ee).x && lo_y == tri_lo(t, rr, ee).y && lo_z == tri_lo(
            t,
            rr,
            ee,
        ).z);
        assert(hi_x == tri_hi(t, rr, ee).x && hi_y == tri_hi(t, rr, ee).y && hi_z == tri_hi(
            t,
            rr,
            ee,
        ).z);
        lemma_mul_inequality(pmn.x as int, pmx.x as int, two_r as int);
        lemma_mul_inequality(pmn.y as int, pmx.y as int, two_r as int);
        lemma_mul_inequality(pmn.z as int, pmx.z as int, two_r as int);
    }
    let ax = lo_x + r64 * ext;
    let ay = lo_y + r64 * ext;
    let az = lo_z + r64 * ext;
    let sx = div_floor(ax, ce);
    let sy = div_floor(ay, ce);
    let sz = div_floor(az, ce);
    let dx = hi_x - lo_x;
    let dy = hi_y - lo_y;
    let dz = hi_z - lo_z;
    let cx0 = div_ceil(dx, ce);
    let cy0 = div_ceil(dy, ce);
    let cz0 = div_ceil(dz, ce);
    let cxc = if cx0 < 1 { 1 } else { cx0 };
    let cyc = if cy0 < 1 { 1 } else { cy0 };
    let czc = if cz0 < 1 { 1 } else { cz0 };
    proof {
        assert(sx == cell_start(tri_lo(t, rr, ee).x, rr, ee));
        assert(sy == cell_start(tri_lo(t, rr, ee).y, rr, ee));
        assert(sz == cell_start(tri_lo(t, rr, ee).z, rr, ee));
        assert(cxc == cell_count(tri_lo(t, rr, ee).x, tri_hi(t, rr, ee).x, ee));
        assert(cyc == cell_count(tri_lo(t, rr, ee).y, tri_hi(t, rr, ee).y, ee));
        assert(czc == cell_count(tri_lo(t, rr, ee).z, tri_hi(t, rr, ee).z, ee));
        assert(ce * cxc <= dx + ce && ce * cyc <= dy + ce && ce * czc <= dz + ce);
        // Before any cell of this triangle is examined, the set holds
        // exactly the earlier triangles' cells, matching this triangle's
        // color model as well (an earlier hit keeps its color).
        assert forall|a: int, b: int, c: int|
            #![trigger set.contains_pos(cpos(rr, a, b, c))]
            set.contains_pos(cpos(rr, a, b, c)) <==> claimed(
            pre,
            t,
            rr,
            ee,
            a,
            b,
            c,
            sx as int,
            sy as int,
            sz as int,
        ) by {}
        assert forall|a: int, b: int, c: int|
            #![trigger set.color_of(cpos(rr, a, b, c))]
            set.contains_pos(cpos(rr, a, b, c)) implies set.color_of(cpos(rr, a, b, c))
            == model_color(cur, rr, ee, a, b, c) by {
            assert(hit_any(pre, rr, ee, a, b, c));
        }
    }
    let mut z = sz;
    while z < sz + czc
        invariant
            sz <= z <= sz + czc,
            set.wf(),
            forall|a: int, b: int, c: int|
                #![trigger set.contains_pos(cpos(rr, a, b, c))]
                set.contains_pos(cpos(rr, a, b, c)) <==> claimed(
                    pre,
                    t,
                    rr,
                    ee,
                    a,
                    b,
                    c,
                    sx as int,
                    sy as int,
                    z as int,
                ),
            forall|a: int, b: int, c: int|
                #![trigger set.color_of(cpos(rr, a, b, c))]
                set.contains_pos(cpos(rr, a, b, c)) ==> set.color_of(cpos(rr, a, b, c))
                    == model_color(cur, rr, ee, a, b, c),
            forall|i: int|
                0 <= i < set.items@.len() ==> (#[trigger] set.items@[i].position.gv()).bounded(
                    0x100_0000_0000,
                ),
        decreases sz + czc - z,
    {
        let mut y = sy;
        while y < sy + cyc
            invariant
                sy <= y <= sy + cyc,
                sz <= z < sz + czc,
                set.wf(),
                forall|a: int, b: int, c: int|
                    #![trigger set.contains_pos(cpos(rr, a, b, c))]
                    set.contains_pos(cpos(rr, a, b, c)) <==> claimed(
                        pre,
                        t,
                        rr,
                        ee,
                        a,
                        b,
                        c,
                        sx as int,
                        y as int,
                        z as int,
                    ),
                forall|a: int, b: int, c: int|
                    #![trigger set.color_of(cpos(rr, a, b, c))]
                    set.contains_pos(cpos(rr, a, b, c)) ==> set.color_of(cpos(rr, a, b, c))
                        == model_color(cur, rr, ee, a, b, c),
                forall|i: int|
                    0 <= i < set.items@.len() ==> (#[trigger] set.items@[i].position.gv()).bounded(
                        0x100_0000_0000,
                    ),
            decreases sy + cyc - y,
        {
            let mut x = sx;
            while x < sx + cxc
                invariant
                    sx <= x <= sx + cxc,
                    sy <= y < sy + cyc,
                    sz <= z < sz + czc,
                    set.wf(),
                    forall|a: int, b: int, c: int|
                        #![trigger set.contains_pos(cpos(rr, a, b, c))]
                        set.contains_pos(cpos(rr, a, b, c)) <==> claimed(
                            pre,
                            t,
                            rr,
                            ee,
                            a,
                            b,
                            c,
                            x as int,
                            y as int,
                            z as int,
                        ),
                    forall|a: int, b: int, c: int|
                        #![trigger set.color_of(cpos(rr, a, b, c))]
                        set.contains_pos(cpos(rr, a, b, c)) ==> set.color_of(cpos(rr, a, b, c))
                            == model_color(cur, rr, ee, a, b, c),
                    forall|i: int|
                        0 <= i < set.items@.len() ==> (
                        #[trigger] set.items@[i].position.gv()).bounded(0x100_0000_0000),
                decreases sx + cxc - x,
            {
                proof {
                    lemma_cell_center_bounds(
                        sx as int,
                        cxc as int,
                        x as int,
                        ce as int,
                        ax as int,
                        dx as int,
                    );
                    lemma_cell_center_bounds(
                        sy as int,
                        cyc as int,
                        y as int,
                        ce as int,
                        ay as int,
                        dy as int,
                    );
                    lemma_cell_center_bounds(
                        sz as int,
                        czc as int,
                        z as int,
                        ce as int,
                        az as int,
                        dz as int,
                    );
                }
                let ccx = x * ce - (r64 - 1) * ext;
                let ccy = y * ce - (r64 - 1) * ext;
                let ccz = z * ce - (r64 - 1) * ext;
                proof {
                    assert(ccx == cell_center(x as int, rr, ee) && ccy == cell_center(
                        y as int,
                        rr,
                        ee,
                    ) && ccz == cell_center(z as int, rr, ee)) by (nonlinear_arith)
                        requires
                            ce == 2 * ext,
                            ee == ext,
                            rr == r64,
                            ccx == x * ce - (r64 - 1) * ext,
                            ccy == y * ce - (r64 - 1) * ext,
                            ccz == z * ce - (r64 - 1) * ext,
                    ;
                    assert(in_candidate(t, rr, ee, x as int, y as int, z as int));
                }
                let center = Vec3i { x: ccx, y: ccy, z: ccz };
                visit_cell(
                    set,
                    t,
                    &st,
                    center,
                    res,
                    ext,
                    x,
                    y,
                    z,
                    Ghost(pre),
                );

                x = x + 1;
            }
            y = y + 1;
        }
        z = z + 1;
    }
    proof {
        // The whole candidate box has been examined: the set now matches
        // the mesh prefix extended by this triangle.
        assert forall|a: int, b: int, c: int|
            #![trigger set.contains_pos(cpos(rr, a, b, c))]
            set.contains_pos(cpos(rr, a, b, c)) <==> hit_any(cur, rr, ee, a, b, c) by {
            if set.contains_pos(cpos(rr, a, b, c)) {
                if hit_any(pre, rr, ee, a, b, c) {
                    let i = choose|i: int|
                        0 <= i < pre.len() && #[trigger] tri_hit(pre[i], rr, ee, a, b, c);
                    assert(cur[i] == pre[i]);
                    assert(tri_hit(cur[i], rr, ee, a, b, c));
                } else {
                    assert(tri_hit(t, rr, ee, a, b, c));
                    assert(cur[pre.len() as int] == t);
                    assert(tri_hit(cur[pre.len() as int], rr, ee, a, b, c));
                }
            }
            if hit_any(cur, rr, ee, a, b, c) {
                let i = choose|i: int|
                    0 <= i < cur.len() && #[trigger] tri_hit(cur[i], rr, ee, a, b, c);
                if i < pre.len() {
                    assert(pre[i] == cur[i]);
                    assert(tri_hit(pre[i], rr, ee, a, b, c));
                    assert(hit_any(pre, rr, ee, a, b, c));
                } else {
                    assert(cur[i] == t);
                    assert(visited(t, rr, ee, a, b, c, sx as int, sy as int, sz as int
                        + czc as int));
                }
            }
        }
    }
}

impl VoxelMap {
    /// Voxelizes `tris` into a grid of `res` cells per axis.
    ///
    /// Fails with `EmptyInput` on an empty mesh and with `ZeroExtent` on a
    /// mesh whose bounding box is a single point; any other valid mesh
    /// yields a map whose voxel list holds exactly the grid cells some
    /// triangle overlaps, each colored by the first triangle that claimed
    /// it.
    #[verifier::loop_isolation(false)]
    pub fn new(tris: &Vec<Triangle>, res: u32) -> (r: Result<VoxelMap, VoxelError>)
        requires
            forall|i: int| 0 <= i < tris@.len() ==> (#[trigger] tris@[i]).valid(),
            1 <= res <= RES_LIMIT,
        ensures
            voxelize_post(tris@, res, r),
    {
        let ghost rr: int = res as int;
        if tris.len() == 0 {
            return Err(VoxelError::EmptyInput);
        }
        proof {
            lemma_mesh_bounds_props(tris@);
        }
        let (mn, mx) = mesh_bounds(tris);
        let ext = max3_exec(mx.x - mn.x, mx.y - mn.y, mx.z - mn.z);
        proof {
            assert(ext == mesh_extent(tris@));
        }
        if ext == 0 {
            return Err(VoxelError::ZeroExtent);
        }
        let ghost ee: int = ext as int;
        let mut set = VoxelSet::new();
        let n = tris.len();
        let mut ti: usize = 0;
        while ti < n
            invariant
                0 <= ti <= n,
                set.wf(),
                forall|a: int, b: int, c: int|
                    #![trigger set.contains_pos(cpos(rr, a, b, c))]
                    set.contains_pos(cpos(rr, a, b, c)) <==> hit_any(
                        tris@.take(ti as int),
                        rr,
                        ee,
                        a,
                        b,
                        c,
                    ),
                forall|a: int, b: int, c: int|
                    #![trigger set.color_of(cpos(rr, a, b, c))]
                    set.contains_pos(cpos(rr, a, b, c)) ==> set.color_of(cpos(rr, a, b, c))
                        == model_color(tris@.take(ti as int), rr, ee, a, b, c),
                forall|i: int|
                    0 <= i < set.items@.len() ==> (#[trigger] set.items@[i].position.gv()).bounded(
                        0x100_0000_0000,
                    ),
            decreases n - ti,
        {
            let t = tris[ti];
            proof {
                assert(tris@[ti as int].valid());
            }
            process_triangle(&mut set, t, res, ext, Ghost(tris@.take(ti as int)));
            proof {
                assert(tris@.take(ti as int).push(t) =~= tris@.take(ti as int + 1));
            }
            ti = ti + 1;
        }
        proof {
            assert(tris@.take(n as int) =~= tris@);
        }
        let m = pack(set, res, ext);
        proof {
            assert forall|x: int, y: int, z: int|
                #![trigger m.has_voxel(cpos(rr, x, y, z))]
                m.has_voxel(cpos(rr, x, y, z)) <==> (hit_any(tris@, rr, ee, x, y, z)
                    && cell_in_grid(rr, x, y, z)) by {
                assert(m.has_voxel(cpos(rr, x, y, z)) <==> (set.contains_pos(cpos(rr, x, y, z))
                    && cell_in_grid(rr, x, y, z)));
                assert(set.contains_pos(cpos(rr, x, y, z)) <==> hit_any(tris@, rr, ee, x, y, z));
            }
            assert forall|x: int, y: int, z: int|
                #![trigger m.color_at(cpos(rr, x, y, z))]
                m.has_voxel(cpos(rr, x, y, z)) implies m.color_at(cpos(rr, x, y, z)) == model_color(
                tris@,
                rr,
                ee,
                x,
                y,
                z,
            ) by {
                assert(m.color_at(cpos(rr, x, y, z)) == set.color_of(cpos(rr, x, y, z)));
                assert(set.color_of(cpos(rr, x, y, z)) == model_color(tris@, rr, ee, x, y, z));
            }
        }
        Ok(m)
    }
}

/// Bounds for a cell-center product: with `q` inside the candidate range
/// derived from the floor/ceiling divisions, `ce * q` stays near the
/// dividend, so centers stay within the intersection test's limit.
proof fn lemma_cell_center_bounds(s: int, cnt: int, q: int, ce: int, a: int, d: int)
    by (nonlinear_arith)
    requires
        ce >= 1,
        s <= q < s + cnt,
        ce * s <= a < ce * s + ce,
        1 <= cnt,
        ce * cnt <= d + ce,
        0 <= d,
    ensures
        a - ce < ce * q,
        ce * q <= a + d,
        a - ce < q * ce,
        q * ce <= a + d,
{
}


// ------------------------------------------------------------------
// Properties of finished maps.
// ------------------------------------------------------------------

/// Every voxel of a well-formed map has its position inside the centered
/// grid range: on each axis, `-R/2 <= position < R/2`.
pub proof fn lemma_voxel_positions_in_range(m: VoxelMap)
    requires
        m.wf(),
    ensures
        forall|i: int|
            0 <= i < m.voxels@.len() ==> {
                let p = (#[trigger] m.voxels@[i].position.gv());
                &&& -m.r_int() <= 2 * p.x < m.r_int()
                &&& -m.r_int() <= 2 * p.y < m.r_int()
                &&& -m.r_int() <= 2 * p.z < m.r_int()
            },
{
    let r = m.r_int();
    assert(2 * (r / 2) <= r && r < 2 * (r / 2) + 2) by {
        lemma_fundamental_div_mod(r, 2);
    }
    assert forall|i: int| 0 <= i < m.voxels@.len() implies {
        let p = (#[trigger] m.voxels@[i].position.gv());
        &&& -r <= 2 * p.x < r
        &&& -r <= 2 * p.y < r
        &&& -r <= 2 * p.z < r
    } by {
        let p = m.voxels@[i].position.gv();
        assert(cell_in_grid(r, p.x + r / 2, p.y + r / 2, p.z + r / 2));
    }
}

/// Round-trip grid consistency: a state word with the visible bit set
/// indexes, through its low bits, the voxel whose position is exactly that
/// cell's centered coordinate.
pub proof fn lemma_state_round_trip(m: VoxelMap, x: int, y: int, z: int)
    requires
        m.wf(),
        cell_in_grid(m.r_int(), x, y, z),
        m.state_at(x, y, z) >= VISIBLE_BIT,
    ensures
        0 <= m.state_at(x, y, z) - VISIBLE_BIT < m.voxels@.len(),
        m.voxels@[m.state_at(x, y, z) - VISIBLE_BIT].position.gv() == cpos(m.r_int(), x, y, z),
        m.state_at(x, y, z) & 0x7fff_ffff == m.state_at(x, y, z) - VISIBLE_BIT,
{
    let r = m.r_int();
    let p = cpos(r, x, y, z);
    assert(m.state_at(x, y, z) as int == (if vox_has(m.voxels@, p) {
        vox_index(m.voxels@, p) + VISIBLE_BIT
    } else {
        0
    }));
    assert(vox_has(m.voxels@, p));
    lemma_vox_index_unique(m.voxels@, p);
    let w = m.state_at(x, y, z);
    assert((w & 0x7fff_ffffu32) == w - 0x8000_0000u32) by (bit_vector)
        requires w >= 0x8000_0000u32;
}

/// Deduplication: two distinct triangles that both claim one and the same
/// single cell, and no other, produce a map with exactly one voxel.
pub proof fn lemma_dedup_single_cell(
    tris: Seq<Triangle>,
    res: u32,
    m: VoxelMap,
    cx: int,
    cy: int,
    cz: int,
)
    requires
        tris.len() == 2,
        tris[0] != tris[1],
        voxelize_post(tris, res, Result::Ok(m)),
        forall|a: int, b: int, c: int|
            #[trigger] tri_hit(tris[0], res as int, mesh_extent(tris), a, b, c) <==> (a == cx && b
                == cy && c == cz),
        forall|a: int, b: int, c: int|
            #[trigger] tri_hit(tris[1], res as int, mesh_extent(tris), a, b, c) <==> (a == cx && b
                == cy && c == cz),
        cell_in_grid(res as int, cx, cy, cz),
    ensures
        m.voxels@.len() == 1,
        m.voxels@[0].position.gv() == cpos(res as int, cx, cy, cz),
{
    let rr = res as int;
    let e = mesh_extent(tris);
    assert forall|a: int, b: int, c: int|
        #![trigger hit_any(tris, rr, e, a, b, c)]
        hit_any(tris, rr, e, a, b, c) <==> (a == cx && b == cy && c == cz) by {
        if hit_any(tris, rr, e, a, b, c) {
            let i = choose|i: int| 0 <= i < tris.len() && #[trigger] tri_hit(tris[i], rr, e, a, b, c);
            if i == 0 {
                assert(tri_hit(tris[0], rr, e, a, b, c));
            } else {
                assert(tri_hit(tris[1], rr, e, a, b, c));
            }
        }
        if a == cx && b == cy && c == cz {
            assert(tri_hit(tris[0], rr, e, a, b, c));
        }
    }
    let cell = cpos(rr, cx, cy, cz);
    assert(m.has_voxel(cpos(rr, cx, cy, cz)));
    assert(vox_has(m.voxels@, cell));
    let j = choose|j: int| 0 <= j < m.voxels@.len() && (#[trigger] m.voxels@[j].position.gv()) == cell;
    assert forall|i: int| 0 <= i < m.voxels@.len() implies (#[trigger] m.voxels@[i].position.gv())
        == cell by {
        let p = m.voxels@[i].position.gv();
        let a = p.x + rr / 2;
        let b = p.y + rr / 2;
        let c = p.z + rr / 2;
        assert(p == cpos(rr, a, b, c));
        assert(vox_has(m.voxels@, cpos(rr, a, b, c)));
        assert(m.has_voxel(cpos(rr, a, b, c)));
        assert(hit_any(tris, rr, e, a, b, c));
        assert(a == cx && b == cy && c == cz);
    }
    if m.voxels@.len() >= 2 {
        assert(lex_lt(m.voxels@[0].position.gv(), m.voxels@[1].position.gv()));
        assert(false);
    }
}

} // verus!
